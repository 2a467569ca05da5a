use rust_crop_tiff::crop::CropRect;
use rust_crop_tiff::frame::Frame;
use rust_crop_tiff::loader::LoadError;
use rust_crop_tiff::npy::{load_npy, npy_header, write_cropped_stack, NpyFault};

fn file(dict: &str, data: &[u8]) -> Vec<u8> {
    let mut f = b"\x93NUMPY\x01\x00".to_vec();
    let len = dict.len() as u16;
    f.extend_from_slice(&len.to_le_bytes());
    f.extend_from_slice(dict.as_bytes());
    f.extend_from_slice(data);
    f
}

fn dict(descr: &str, shape: &str) -> String {
    format!("{{'descr': '{descr}', 'fortran_order': False, 'shape': {shape}, }}   \n")
}

fn values(f: &Frame) -> Vec<f32> {
    f.pixels().iter().map(|&b| f32::from_bits(b)).collect()
}

fn fault(bytes: &[u8]) -> NpyFault {
    match load_npy(bytes) {
        Err(LoadError::Npy(e)) => e,
        _ => panic!("no such fault"),
    }
}

#[test]
fn headers_are_those_of_numpy() {
    let h = npy_header(3, 4, 5);
    assert_eq!(h.len() % 64, 0);
    assert_eq!(&h[..8], b"\x93NUMPY\x01\x00");
    assert_eq!(u16::from_le_bytes([h[8], h[9]]) as usize, h.len() - 10);
    let text = String::from_utf8(h[10..].to_vec()).unwrap();
    assert!(text.starts_with("{'descr': '<f4', 'fortran_order': False, 'shape': (3, 4, 5), } "));
    assert!(text.ends_with(" \n"));
    let long = npy_header(usize::MAX, usize::MAX, usize::MAX);
    assert_eq!(long.len() % 64, 0);
}

#[test]
fn a_cropped_stack_is_read_back() {
    let frames: Vec<Frame> = (0..3)
        .map(|k| {
            let v = (0..20).map(|i| ((100 * k + i) as f32 + 0.5).to_bits()).collect();
            Frame::from_pixels(4, 5, v).unwrap()
        })
        .collect();
    let crop = CropRect { x: 1, y: 2, width: 3, height: 2 };
    let bytes = write_cropped_stack(&frames, crop);
    assert_eq!(bytes.len(), 128 + 3 * 3 * 2 * 4);
    let got = load_npy(&bytes).unwrap();
    assert_eq!(got.len(), 3);
    for (k, f) in got.iter().enumerate() {
        assert_eq!(f.shape(), (2, 3));
        for j in 0..2 {
            for i in 0..3 {
                assert_eq!(f.at(j, i), frames[k].at(2 + j, 1 + i));
            }
        }
    }
}

#[test]
fn elements_of_every_type_are_read() {
    let one = |descr: &str, data: &[u8]| values(&load_npy(&file(&dict(descr, "(1, 2)"), data)).unwrap()[0]);
    assert_eq!(one("|u1", &[7, 255]), vec![7.0, 255.0]);
    assert_eq!(one("|i1", &[7, 255]), vec![7.0, -1.0]);
    assert_eq!(one("<u2", &[1, 2, 255, 255]), vec![513.0, 65535.0]);
    assert_eq!(one(">u2", &[1, 2, 255, 255]), vec![258.0, 65535.0]);
    assert_eq!(one("<i2", &[0, 128, 1, 0]), vec![-32768.0, 1.0]);
    let mut b = 16777217u32.to_le_bytes().to_vec();
    b.extend_from_slice(&u32::MAX.to_le_bytes());
    assert_eq!(one("<u4", &b), vec![16777217u32 as f32, u32::MAX as f32]);
    assert_eq!(one("<i4", &b), vec![16777217u32 as f32, -1.0]);
    let mut b = i64::MIN.to_be_bytes().to_vec();
    b.extend_from_slice(&u64::MAX.to_be_bytes());
    assert_eq!(one(">i8", &b), vec![i64::MIN as f32, -1.0]);
    assert_eq!(one(">u8", &b), vec![9223372036854775808u64 as f32, u64::MAX as f32]);
    let mut b = 0.1f32.to_be_bytes().to_vec();
    b.extend_from_slice(&(-3.5f32).to_be_bytes());
    assert_eq!(one(">f4", &b), vec![0.1, -3.5]);
    let mut b = 0.1f64.to_le_bytes().to_vec();
    b.extend_from_slice(&1e300f64.to_le_bytes());
    assert_eq!(one("<f8", &b), vec![0.1, f32::INFINITY]);
}

#[test]
fn planes_are_images() {
    let two = load_npy(&file(&dict("|u1", "(2, 1, 3)"), &[1, 2, 3, 4, 5, 6])).unwrap();
    assert_eq!(two.len(), 2);
    assert_eq!(values(&two[1]), vec![4.0, 5.0, 6.0]);
    let none = load_npy(&file(&dict("|u1", "(0, 1, 3)"), &[])).unwrap();
    assert!(none.is_empty());
    let mut long = b"\x93NUMPY\x02\x00".to_vec();
    let d = dict("|u1", "(1, 1)");
    long.extend_from_slice(&(d.len() as u32).to_le_bytes());
    long.extend_from_slice(d.as_bytes());
    long.push(9);
    assert_eq!(values(&load_npy(&long).unwrap()[0]), vec![9.0]);
}

#[test]
fn what_is_no_stack_is_refused() {
    assert_eq!(fault(b""), NpyFault::Format);
    assert_eq!(fault(b"not a numpy file"), NpyFault::Format);
    assert_eq!(fault(&file(&dict("<f4", "(1, 1)"), &[0; 4])[..40]), NpyFault::Format);
    let other = "{'descr': '<f4', 'fortran_order': Maybe, 'shape': (1, 1), }\n";
    assert_eq!(fault(&file(other, &[0; 4])), NpyFault::Format);
    assert_eq!(fault(&file(&dict("<c8", "(1, 1)"), &[0; 8])), NpyFault::Type);
    assert_eq!(fault(&file(&dict("<f2", "(1, 1)"), &[0; 2])), NpyFault::Type);
    assert_eq!(fault(&file(&dict("<f4", "(1,)"), &[0; 4])), NpyFault::Shape);
    assert_eq!(fault(&file(&dict("<f4", "(1, 1, 1, 1)"), &[0; 4])), NpyFault::Shape);
    assert_eq!(fault(&file(&dict("<f4", "(2, 1)"), &[0; 4])), NpyFault::Length);
    assert_eq!(
        fault(&file(&dict("|u1", "(4294967296, 4294967295, 1)"), &[0; 4])),
        NpyFault::Length
    );
    assert_eq!(
        fault(&file(&dict("|u1", "(1, 4294967296, 4294967296)"), &[0; 4])),
        NpyFault::Shape
    );
}

#[test]
fn arrays_in_fortran_order_are_read() {
    let fortran = |shape: &str| format!("{{'descr': '|u1', 'fortran_order': True, 'shape': {shape}, }}\n");
    // Element (j, i) of a 2-D array of 2 rows comes at place j + 2 * i.
    let one = load_npy(&file(&fortran("(2, 3)"), &[1, 4, 2, 5, 3, 6])).unwrap();
    assert_eq!(one.len(), 1);
    assert_eq!(one[0].shape(), (2, 3));
    assert_eq!(values(&one[0]), vec![1.0, 2.0, 3.0, 4.0, 5.0, 6.0]);
    // Element (k, j, i) of a 3-D array comes at place k + 2 * (j + 2 * i).
    let mut data = [0u8; 12];
    for k in 0..2 {
        for j in 0..2 {
            for i in 0..3 {
                data[k + 2 * (j + 2 * i)] = (100 * k + 10 * j + i) as u8;
            }
        }
    }
    let two = load_npy(&file(&fortran("(2, 2, 3)"), &data)).unwrap();
    assert_eq!(two.len(), 2);
    assert_eq!(values(&two[0]), vec![0.0, 1.0, 2.0, 10.0, 11.0, 12.0]);
    assert_eq!(values(&two[1]), vec![100.0, 101.0, 102.0, 110.0, 111.0, 112.0]);
}
