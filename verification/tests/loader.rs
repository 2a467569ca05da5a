use rust_crop_tiff::binary::{Binary32, Binary64};
use rust_crop_tiff::directory::{first_place, visit};
use rust_crop_tiff::frame::Frame;
use rust_crop_tiff::loader::{
    collect_frames, list_tiff_in_dir, load_folder_with_progress, load_tiff, page_frame, to_frame,
    DirEntry, FolderData, LoadError,
};
use rust_crop_tiff::npy::NpyFault;
use rust_crop_tiff::project::Acc;
use rust_crop_tiff::samples::Samples;
use std::io::Cursor;
use tiff::encoder::{colortype, TiffEncoder};

fn tiff_u16(w: usize, h: usize, value: u16) -> Vec<u8> {
    let mut buf = Cursor::new(Vec::new());
    let mut enc = TiffEncoder::new(&mut buf).unwrap();
    let data = vec![value; w * h];
    enc.write_image::<colortype::Gray16>(w as u32, h as u32, &data)
        .unwrap();
    buf.into_inner()
}

fn entry(name: &str) -> DirEntry {
    DirEntry { name: name.as_bytes().to_vec(), is_file: true }
}

/// Loads a folder given by the names and bytes of its files.
fn load(files: &[(&str, Vec<u8>)]) -> Result<FolderData, LoadError> {
    let order = list_tiff_in_dir(files.iter().map(|(name, _)| entry(name)).collect())?;
    let bytes: Vec<Vec<u8>> = order.iter().map(|&i| files[i].1.clone()).collect();
    load_folder_with_progress("folder".to_owned(), &bytes, |_, _| {})
}

fn pixel(f: &Frame, y: usize, x: usize) -> f32 {
    f32::from_bits(f.at(y, x).bits)
}

fn doubles(v: &[Binary64]) -> Vec<f64> {
    v.iter().map(|x| f64::from_bits(x.bits)).collect()
}

fn frame(w: usize, h: usize, v: f32) -> Frame {
    Frame::from_pixels(h, w, vec![v.to_bits(); w * h]).unwrap()
}

#[test]
fn folder_load_computes_projections() {
    let data = load(&[
        ("img_00001.tif", tiff_u16(4, 3, 7)),
        ("img_00000.tif", tiff_u16(4, 3, 5)),
    ])
    .unwrap();
    assert_eq!(data.n_frames(), 2);
    assert_eq!((data.width, data.height), (4, 3));
    // Sorted order: img_00000 (5) first.
    assert_eq!(pixel(&data.frames[0], 0, 0), 5.0);
    assert_eq!(pixel(&data.sum, 2, 3), 12.0);
    assert_eq!(pixel(&data.mean, 0, 0), 6.0);
    assert_eq!(pixel(&data.max, 1, 1), 7.0);
    assert_eq!(pixel(&data.min, 1, 1), 5.0);
    assert!((pixel(&data.std, 0, 0) - 1.0).abs() < 1e-6, "std of {{5,7}} is 1");
    assert_eq!(doubles(&data.frame_totals), vec![60.0, 84.0]);
    assert_eq!(data.path, "folder");
}

#[test]
fn folder_without_tiff_fails() {
    assert!(load(&[]).is_err());
    assert!(matches!(
        load(&[("empty.txt", tiff_u16(1, 1, 1))]),
        Err(LoadError::NoTiff)
    ));
}

#[test]
fn tiff_files_are_told_by_their_names() {
    let names = [
        "b.tif", "a.TIFF", ".tif", "tif", "c.tif.bak", "B.tif", "..tiff", "x.tiff", "a.tif", "d.",
    ];
    let mut entries: Vec<DirEntry> = names.iter().map(|n| entry(n)).collect();
    entries.push(DirEntry { name: b"dir.tif".to_vec(), is_file: false });
    let order = list_tiff_in_dir(entries).unwrap();
    let sorted: Vec<&str> = order.iter().map(|&i| names[i]).collect();
    assert_eq!(sorted, vec!["..tiff", "B.tif", "a.TIFF", "a.tif", "b.tif", "x.tiff"]);
    for n in names {
        let ext = std::path::Path::new(n)
            .extension()
            .and_then(|e| e.to_str())
            .unwrap_or("")
            .to_lowercase();
        let kept = sorted.contains(&n);
        assert_eq!(kept, ext == "tif" || ext == "tiff", "{n}");
    }
}

#[test]
fn every_page_is_a_frame() {
    let mut buf = Cursor::new(Vec::new());
    let mut enc = TiffEncoder::new(&mut buf).unwrap();
    for k in 0..5u8 {
        enc.write_image::<colortype::Gray8>(2, 1, &[k, 10 + k]).unwrap();
    }
    let frames = load_tiff(&buf.into_inner()).unwrap();
    assert_eq!(frames.len(), 5);
    for (k, f) in frames.iter().enumerate() {
        assert_eq!(f.shape(), (1, 2));
        assert_eq!(pixel(f, 0, 0), k as f32);
        assert_eq!(pixel(f, 0, 1), 10.0 + k as f32);
    }
}

#[test]
fn samples_of_every_type_are_read() {
    let mut buf = Cursor::new(Vec::new());
    let mut enc = TiffEncoder::new(&mut buf).unwrap();
    enc.write_image::<colortype::Gray32>(1, 1, &[4294967295u32]).unwrap();
    enc.write_image::<colortype::Gray64>(1, 1, &[u64::MAX - 7]).unwrap();
    enc.write_image::<colortype::GrayI8>(1, 1, &[-128i8]).unwrap();
    enc.write_image::<colortype::GrayI16>(1, 1, &[-300i16]).unwrap();
    enc.write_image::<colortype::GrayI32>(1, 1, &[-16777217i32]).unwrap();
    enc.write_image::<colortype::GrayI64>(1, 1, &[i64::MIN]).unwrap();
    enc.write_image::<colortype::Gray32Float>(1, 1, &[0.1f32]).unwrap();
    enc.write_image::<colortype::Gray64Float>(1, 1, &[0.1f64]).unwrap();
    let frames = load_tiff(&buf.into_inner()).unwrap();
    let got: Vec<f32> = frames.iter().map(|f| pixel(f, 0, 0)).collect();
    assert_eq!(
        got,
        vec![
            4294967295u32 as f32,
            (u64::MAX - 7) as f32,
            -128.0,
            -300.0,
            -16777217i32 as f32,
            i64::MIN as f32,
            0.1f32,
            0.1f64 as f32
        ]
    );
}

#[test]
fn only_the_first_sample_of_a_pixel_is_kept() {
    let mut buf = Cursor::new(Vec::new());
    let mut enc = TiffEncoder::new(&mut buf).unwrap();
    enc.write_image::<colortype::RGB8>(2, 1, &[1, 2, 3, 4, 5, 6]).unwrap();
    let frames = load_tiff(&buf.into_inner()).unwrap();
    assert_eq!((pixel(&frames[0], 0, 0), pixel(&frames[0], 0, 1)), (1.0, 4.0));
}

#[test]
fn bytes_that_are_no_tiff_are_refused() {
    assert!(matches!(load_tiff(b"not a tiff"), Err(LoadError::Tiff(_))));
    assert!(matches!(load_tiff(b""), Err(LoadError::Tiff(_))));
    let mut cut = tiff_u16(4, 3, 7);
    cut.truncate(20);
    assert!(matches!(load_tiff(&cut), Err(LoadError::Tiff(_))));
}

#[test]
fn samples_that_do_not_come_out_even_are_refused() {
    assert!(matches!(
        page_frame(2, 2, Samples::U8(vec![0; 7])),
        Err(LoadError::PixelCount { count: 7, width: 2, height: 2 })
    ));
    assert!(matches!(
        page_frame(2, 2, Samples::U8(Vec::new())),
        Err(LoadError::PixelCount { count: 0, width: 2, height: 2 })
    ));
    let f = page_frame(2, 1, Samples::I16(vec![-1, 5, 7, 9])).unwrap();
    assert_eq!((pixel(&f, 0, 0), pixel(&f, 0, 1)), (-1.0, 7.0));
    let f = page_frame(1, 1, Samples::F16(vec![1.5f32.to_bits()])).unwrap();
    assert_eq!(pixel(&f, 0, 0), 1.5);
    let empty = to_frame(Vec::new(), 0, 3).unwrap();
    assert_eq!(empty.shape(), (3, 0));
    assert!(matches!(
        to_frame(Vec::new(), 2, 2),
        Err(LoadError::PixelCount { count: 0, width: 2, height: 2 })
    ));
    assert!(matches!(
        to_frame(vec![0; 4], usize::MAX, 2),
        Err(LoadError::PixelCount { count: 4, width: usize::MAX, height: 2 })
    ));
}

#[test]
fn frames_of_another_size_are_refused() {
    let loaded = vec![Ok(vec![frame(2, 2, 1.0), frame(2, 2, 2.0)]), Ok(vec![frame(2, 3, 1.0)])];
    assert!(matches!(
        collect_frames(loaded),
        Err(LoadError::SizeMismatch {
            file: 1,
            width: 2,
            height: 3,
            first_width: 2,
            first_height: 2
        })
    ));
    assert!(matches!(collect_frames(vec![Ok(Vec::new())]), Err(LoadError::NoFrames)));
    // The first file that fails decides.
    let loaded = vec![Err(LoadError::NoFrames), Ok(vec![frame(1, 1, 1.0), frame(2, 2, 1.0)])];
    assert!(matches!(collect_frames(loaded), Err(LoadError::NoFrames)));
}

#[test]
fn projections_are_those_of_the_machine() {
    let mut s: u64 = 0x853c49e6748fea9b;
    let mut stack: Vec<Vec<f32>> = Vec::new();
    for _ in 0..5 {
        let mut f = Vec::new();
        for _ in 0..6 {
            s ^= s << 13;
            s ^= s >> 7;
            s ^= s << 17;
            f.push((s % 100003) as f32 * 0.013 - 200.0);
        }
        stack.push(f);
    }
    let frames: Vec<Frame> = stack
        .iter()
        .map(|f| Frame::from_pixels(2, 3, f.iter().map(|v| v.to_bits()).collect()).unwrap())
        .collect();
    let mut acc = Acc::new(6);
    for f in &frames {
        acc.add_frame(f.pixels());
    }
    let totals = frames.iter().map(|f| f.total()).collect();
    let d = FolderData::assemble("d".to_owned(), frames, acc, totals).unwrap();
    for i in 0..6 {
        let (y, x) = (i / 3, i % 3);
        let mut sum = 0.0f64;
        let mut sumsq = 0.0f64;
        let mut max = f32::NEG_INFINITY;
        let mut min = f32::INFINITY;
        for f in &stack {
            let v = f[i] as f64;
            sum += v;
            sumsq += v * v;
            max = max.max(f[i]);
            min = min.min(f[i]);
        }
        let m = sum / 5.0;
        assert_eq!(pixel(&d.sum, y, x), sum as f32);
        assert_eq!(pixel(&d.mean, y, x), m as f32);
        assert_eq!(pixel(&d.max, y, x), max);
        assert_eq!(pixel(&d.min, y, x), min);
        assert_eq!(pixel(&d.std, y, x), (sumsq / 5.0 - m * m).max(0.0).sqrt() as f32);
    }
}

#[test]
fn parts_of_a_stack_are_joined() {
    let frames = [frame(2, 1, 3.0), frame(2, 1, -1.0), frame(2, 1, f32::NAN), frame(2, 1, 8.0)];
    let mut first = Acc::new(2);
    first.add_frame(frames[0].pixels());
    first.add_frame(frames[1].pixels());
    let mut second = Acc::new(2);
    second.add_frame(frames[2].pixels());
    second.add_frame(frames[3].pixels());
    let whole = first.merge(second);
    assert_eq!(whole.max[1], Binary32 { bits: 8.0f32.to_bits() });
    assert_eq!(whole.min[0], Binary32 { bits: (-1.0f32).to_bits() });
    assert!(f64::from_bits(whole.sum[0].bits).is_nan());
    let blank = Acc::new(1);
    assert_eq!(blank.max[0].bits, f32::NEG_INFINITY.to_bits());
    assert_eq!(blank.min[0].bits, f32::INFINITY.to_bits());
    assert_eq!((blank.sum[0].bits, blank.sumsq[0].bits), (0, 0));
}

#[test]
fn errors_are_put_into_words() {
    let said = |e: LoadError| e.message("/data/run_7", "/data/run_7/b.tif");
    assert_eq!(said(LoadError::NoTiff).unwrap(), "No TIFF files found in /data/run_7");
    assert_eq!(
        said(LoadError::PixelCount { count: 7, width: 2, height: 3 }).unwrap(),
        "Pixel count 7 is not compatible with 2x3"
    );
    let e = LoadError::SizeMismatch {
        file: 1,
        width: 2,
        height: 3,
        first_width: 4,
        first_height: 5,
    };
    assert_eq!(
        said(e).unwrap(),
        "Frame size mismatch: 2x3 in /data/run_7/b.tif does not match 4x5"
    );
    assert_eq!(said(LoadError::NoFrames).unwrap(), "No frames were loaded");
    assert_eq!(
        said(LoadError::Chunks).unwrap(),
        "The strips or tiles of a page are too many or too wide"
    );
    assert_eq!(
        said(LoadError::Npy(NpyFault::Format)).unwrap(),
        "not a .npy array"
    );
    assert_eq!(
        said(LoadError::Npy(NpyFault::Type)).unwrap(),
        "the .npy array does not hold real numbers"
    );
    assert_eq!(
        said(LoadError::Npy(NpyFault::Shape)).unwrap(),
        "the .npy array is neither 2-D nor 3-D"
    );
    assert_eq!(
        said(LoadError::Npy(NpyFault::Length)).unwrap(),
        "the .npy file does not hold as many elements as its shape"
    );
    assert_eq!(said(LoadError::Jpeg).unwrap(), "JPEG-compressed pages are not read");
    // The TIFF decoder has words of its own.
    assert_eq!(said(load_tiff(b"").err().unwrap()), None);
}

#[test]
fn counts_are_summed_however_the_stack_is_divided() {
    let counts = [60001.0f32, 3.0, 65535.0, 12.0, 40000.0];
    for split in 0..=counts.len() {
        let mut parts = [Acc::new(1), Acc::new(1)];
        for (i, &c) in counts.iter().enumerate() {
            parts[usize::from(i >= split)].add_frame(frame(1, 1, c).pixels());
        }
        let [first, second] = parts;
        assert_eq!(doubles(&first.merge(second).sum), vec![165551.0]);
    }
}

#[test]
fn a_constant_pixel_has_no_deviation() {
    let value = 54321.0f32;
    let frames: Vec<Frame> = (0..7).map(|_| frame(1, 1, value)).collect();
    let mut acc = Acc::new(1);
    for f in &frames {
        acc.add_frame(f.pixels());
    }
    let totals = frames.iter().map(|f| f.total()).collect();
    let d = FolderData::assemble("d".to_owned(), frames, acc, totals).unwrap();
    assert_eq!(pixel(&d.mean, 0, 0), value);
    assert_eq!(d.std.at(0, 0).bits, 0);
}

#[test]
fn no_files_make_no_stack() {
    assert!(matches!(
        load_folder_with_progress("folder".to_owned(), &Vec::new(), |_, _| {}),
        Err(LoadError::NoFrames)
    ));
}

/// An entry of a directory: its tag, its type, how many values it has, and the value
/// or its place.
type Entry = (u16, u16, u32, u32);

/// Appends a directory in which the most significant byte comes first.
fn push_directory(file: &mut Vec<u8>, entries: &[Entry], next: u32) {
    file.extend_from_slice(&(entries.len() as u16).to_be_bytes());
    for &(tag, kind, count, value) in entries {
        file.extend_from_slice(&tag.to_be_bytes());
        file.extend_from_slice(&kind.to_be_bytes());
        file.extend_from_slice(&count.to_be_bytes());
        if kind == 3 && count == 1 {
            file.extend_from_slice(&(value as u16).to_be_bytes());
            file.extend_from_slice(&[0, 0]);
        } else {
            file.extend_from_slice(&value.to_be_bytes());
        }
    }
    file.extend_from_slice(&next.to_be_bytes());
}

/// A file of one directory at place 8, with some data behind it.
fn file_of(entries: &[Entry], data: &[u8]) -> Vec<u8> {
    let mut file = b"MM\0\x2a\0\0\0\x08".to_vec();
    push_directory(&mut file, entries, 0);
    file.extend_from_slice(data);
    file
}

fn page(height: u32, planar: u32, samples: u32, rows: u32, strips: u32, at: u32) -> Vec<Entry> {
    vec![
        (256, 4, 1, 2),
        (257, 4, 1, height),
        (258, 3, 1, 8),
        (262, 3, 1, 1),
        (273, 4, strips, at),
        (277, 3, 1, samples),
        (278, 4, 1, rows),
        (279, 4, strips, at + 8),
        (284, 3, 1, planar),
    ]
}

#[test]
fn strips_that_cannot_be_counted_are_refused() {
    let bad = page(u32::MAX, 2, 2, 1, 1, 8);
    assert!(matches!(load_tiff(&file_of(&bad, &[])), Err(LoadError::Chunks)));
    // With all samples in one plane, there are just not as many strips in the file.
    let chunky = page(u32::MAX, 1, 2, 1, 1, 8);
    assert!(matches!(load_tiff(&file_of(&chunky, &[])), Err(LoadError::Tiff(_))));
    // The last entry with a tag is the one that counts.
    let mut twice = bad.clone();
    twice.push((257, 4, 1, 2));
    assert!(matches!(load_tiff(&file_of(&twice, &[])), Err(LoadError::Tiff(_))));
    // A page of that kind behind a good one.
    let mut file = b"MM\0\x2a\0\0\0\x08".to_vec();
    let second = 8 + 2 + 12 * 9 + 4 + 4;
    push_directory(&mut file, &page(1, 1, 1, 1, 1, second - 4), second);
    file.extend_from_slice(&[1, 2, 3, 4]);
    assert_eq!(file.len() as u32, second);
    push_directory(&mut file, &bad, 0);
    // The byte count of the first page is its last entry but one.
    let at = 8 + 2 + 12 * 7 + 8;
    file[at..at + 4].copy_from_slice(&2u32.to_be_bytes());
    assert!(matches!(load_tiff(&file), Err(LoadError::Chunks)));
}

#[test]
fn tiles_that_cannot_be_counted_are_refused() {
    let entries = |samples: u32| {
        vec![
            (256, 4, 1, u32::MAX),
            (257, 4, 1, u32::MAX),
            (258, 3, 1, 8),
            (262, 3, 1, 1),
            (277, 3, 1, samples),
            (284, 3, 1, 2),
            (322, 3, 1, 1),
            (323, 3, 1, 1),
            (324, 4, 1, 8),
            (325, 4, 1, 8),
        ]
    };
    assert!(matches!(load_tiff(&file_of(&entries(2), &[])), Err(LoadError::Chunks)));
    assert!(matches!(load_tiff(&file_of(&entries(1), &[])), Err(LoadError::Tiff(_))));
}

#[test]
fn pages_in_planes_are_read() {
    let at = 8 + 2 + 12 * 9 + 4;
    let mut data = Vec::new();
    for n in [at + 16, at + 20, 4, 4] {
        data.extend_from_slice(&u32::to_be_bytes(n));
    }
    data.extend_from_slice(&[1, 2, 3, 4, 5, 6, 7, 8]);
    let frames = load_tiff(&file_of(&page(2, 2, 2, 2, 2, at), &data)).unwrap();
    let got: Vec<f32> = frames[0].pixels().iter().map(|&b| f32::from_bits(b)).collect();
    assert_eq!(got, vec![1.0, 2.0, 3.0, 4.0]);
}

#[test]
fn directories_are_followed_to_the_end() {
    let mut classic = Cursor::new(Vec::new());
    let mut enc = TiffEncoder::new(&mut classic).unwrap();
    for k in 0..4u8 {
        enc.write_image::<colortype::Gray8>(2, 1, &[k, k]).unwrap();
    }
    let mut big = Cursor::new(Vec::new());
    let mut enc = TiffEncoder::new_big(&mut big).unwrap();
    for k in 0..4u8 {
        enc.write_image::<colortype::Gray8>(2, 1, &[k, k]).unwrap();
    }
    for file in [classic.into_inner(), big.into_inner()] {
        let mut place = first_place(&file);
        for index in 0..4 {
            assert!(place.is_some());
            let found = visit(&file, place, index);
            assert!(found.countable && !found.jpeg);
            place = found.next;
        }
        assert!(place.is_none());
        assert_eq!(load_tiff(&file).unwrap().len(), 4);
    }
    assert!(first_place(b"II\x2a\0").is_none());
    assert!(first_place(b"not a tiff").is_none());
}

#[test]
fn pages_of_jpeg_data_are_refused() {
    let jpeg = |kind: u16, value: u32| {
        let mut entries = page(1, 1, 1, 1, 1, 8);
        entries.insert(3, (259, kind, 1, value));
        load_tiff(&file_of(&entries, &[]))
    };
    assert!(matches!(jpeg(3, 7), Err(LoadError::Jpeg)));
    assert!(matches!(jpeg(4, 7), Err(LoadError::Jpeg)));
    // Another compression, which the decoder does not know.
    assert!(matches!(jpeg(3, 6), Err(LoadError::Tiff(_))));
    let files = vec![tiff_u16(1, 1, 3), file_of(&[(259, 3, 1, 7)], &[])];
    assert!(matches!(
        load_folder_with_progress("folder".to_owned(), &files, |_, _| {}),
        Err(LoadError::Jpeg)
    ));
}

#[test]
fn floating_point_pages_may_hold_nan() {
    let float_page = |photometric: u32| {
        let at = 8 + 2 + 12 * 8 + 4;
        let entries = vec![
            (256, 4, 1, 3),
            (257, 4, 1, 1),
            (258, 3, 1, 32),
            (262, 3, 1, photometric),
            (273, 4, 1, at),
            (277, 3, 1, 1),
            (279, 4, 1, 12),
            (339, 3, 1, 3),
        ];
        let mut data = Vec::new();
        for bits in [0.25f32.to_bits(), 0x7fc0_1234, (-2.0f32).to_bits()] {
            data.extend_from_slice(&bits.to_be_bytes());
        }
        load_tiff(&file_of(&entries, &data)).unwrap().remove(0)
    };
    // Zero is black: the samples are kept, whatever the bits of NaN are.
    assert_eq!(float_page(1).pixels(), &[0.25f32.to_bits(), 0x7fc0_1234, (-2.0f32).to_bits()]);
    // Zero is white: they are inverted, and NaN stays NaN.
    let inverted = float_page(0);
    assert_eq!((pixel(&inverted, 0, 0), pixel(&inverted, 0, 2)), (0.75, 3.0));
    assert!(pixel(&inverted, 0, 1).is_nan());
}

#[test]
fn rows_that_cannot_be_held_are_refused() {
    let tiled = |width: u32, samples: u32| {
        let entries = vec![
            (256, 4, 1, 1),
            (257, 4, 1, 1),
            (258, 3, 1, 64),
            (262, 3, 1, 1),
            (277, 3, 1, samples),
            (317, 3, 1, 3),
            (322, 4, 1, width),
            (323, 4, 1, 1),
            (324, 4, 1, 8),
            (325, 4, 1, 8),
            (339, 3, 1, 3),
        ];
        load_tiff(&file_of(&entries, &[]))
    };
    assert!(matches!(tiled(u32::MAX, 65535), Err(LoadError::Chunks)));
    assert!(matches!(tiled(0x1000_0001, 1), Err(LoadError::Chunks)));
    // The file does not hold a row of that length, but it could be asked for.
    assert!(matches!(tiled(1000, 3), Err(LoadError::Tiff(_))));
}
