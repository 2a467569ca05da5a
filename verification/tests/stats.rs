use rust_crop_tiff::binary::{Binary32, Binary64};
use rust_crop_tiff::crop::CropRect;
use rust_crop_tiff::frame::Frame;
use rust_crop_tiff::stats::{compute, frame_means, inner_of, CropStats};

fn frame_with(w: usize, h: usize, base: f32, spot: Option<(usize, usize, f32)>) -> Frame {
    let mut v = vec![base.to_bits(); w * h];
    if let Some((x, y, value)) = spot {
        v[y * w + x] = value.to_bits();
    }
    Frame::from_pixels(h, w, v).unwrap()
}

fn totals(frames: &[Frame]) -> Vec<Binary64> {
    frames.iter().map(|f| f.total()).collect()
}

fn doubles(v: &[Binary64]) -> Vec<f64> {
    v.iter().map(|x| f64::from_bits(x.bits)).collect()
}

fn edge(values: &[f64]) -> CropStats {
    CropStats {
        band: 1,
        edge_mean: values.iter().map(|x| Binary64 { bits: x.to_bits() }).collect(),
        inside_mean: Vec::new(),
        outside_mean: Vec::new(),
    }
}

#[test]
fn uniform_frame_has_equal_means() {
    let frames = vec![frame_with(10, 10, 2.0, None)];
    let crop = CropRect {
        x: 2,
        y: 2,
        width: 6,
        height: 6,
    };
    let s = compute(&frames, &totals(&frames), crop, 1);
    assert_eq!(doubles(&s.inside_mean), vec![2.0]);
    assert_eq!(doubles(&s.outside_mean), vec![2.0]);
    assert_eq!(doubles(&s.edge_mean), vec![2.0]);
}

#[test]
fn spot_on_the_edge_band_shows_up() {
    // Two uniform frames; frame 1 has a bright pixel on the crop's edge band.
    let frames = vec![
        frame_with(10, 10, 1.0, None),
        frame_with(10, 10, 1.0, Some((2, 5, 101.0))),
        frame_with(10, 10, 1.0, None),
    ];
    let crop = CropRect {
        x: 2,
        y: 2,
        width: 6,
        height: 6,
    };
    let s = compute(&frames, &totals(&frames), crop, 1);
    assert_eq!(doubles(&s.edge_mean)[0], 1.0);
    // Band area: 36 - 16 = 20 px; one of them is +100.
    assert!((doubles(&s.edge_mean)[1] - (1.0 + 100.0 / 20.0)).abs() < 1e-9);
    assert_eq!(s.most_suspicious_frame(), Some(1));
}

#[test]
fn full_image_crop_has_no_outside() {
    let frames = vec![frame_with(4, 4, 3.0, None)];
    let s = compute(&frames, &totals(&frames), CropRect::full(4, 4), 1);
    assert!(doubles(&s.outside_mean)[0].is_nan());
    assert_eq!(doubles(&s.inside_mean), vec![3.0]);
}

#[test]
fn band_wider_than_crop_uses_whole_crop() {
    let frames = vec![frame_with(10, 10, 5.0, None)];
    let crop = CropRect {
        x: 0,
        y: 0,
        width: 4,
        height: 4,
    };
    let s = compute(&frames, &totals(&frames), crop, 10);
    assert_eq!(doubles(&s.edge_mean), vec![5.0]);
}

#[test]
fn no_frames_have_no_means() {
    let s = compute(&Vec::new(), &Vec::new(), CropRect::full(4, 4), 3);
    assert_eq!(s.band, 3);
    assert!(s.edge_mean.is_empty() && s.inside_mean.is_empty() && s.outside_mean.is_empty());
    assert_eq!(s.most_suspicious_frame(), None);
}

#[test]
fn sums_are_those_of_the_machine() {
    let w = 7;
    let h = 5;
    let values: Vec<f32> = (0..w * h).map(|i| (i as f32) * 0.37 - 3.1).collect();
    let f = Frame::from_pixels(h, w, values.iter().map(|v| v.to_bits()).collect()).unwrap();
    let whole: f64 = values.iter().map(|&v| v as f64).sum();
    assert_eq!(f.total().bits, whole.to_bits());
    let r = CropRect { x: 2, y: 1, width: 3, height: 4 };
    let mut part: f64 = values[9] as f64;
    for y in 1..5 {
        for x in 2..5 {
            if (x, y) != (2, 1) {
                part += values[y * w + x] as f64;
            }
        }
    }
    assert_eq!(f.sum_region(r).bits, part.to_bits());
    let total = Binary64 { bits: whole.to_bits() };
    let m = frame_means(&f, total, w * h, r, 1);
    assert_eq!(m.inside.bits, (part / 12.0).to_bits());
    assert_eq!(m.outside.bits, ((whole - part) / 23.0).to_bits());
    let inner = values[2 * w + 3] as f64 + values[3 * w + 3] as f64;
    assert_eq!(m.edge.bits, ((part - inner) / 10.0).to_bits());
}

#[test]
fn a_sum_of_minus_zeros_is_that_of_the_machine() {
    let zeros = vec![-0.0f32; 4];
    let f = Frame::from_pixels(2, 2, zeros.iter().map(|v| v.to_bits()).collect()).unwrap();
    let sum: f64 = zeros.iter().map(|&v| v as f64).sum();
    assert_eq!(f.total().bits, sum.to_bits());
    let empty = Frame::from_pixels(0, 2, Vec::new()).unwrap();
    let none: f64 = Vec::<f64>::new().iter().sum();
    assert_eq!(empty.total().bits, none.to_bits());
}

#[test]
fn band_and_inner_region_make_up_the_crop() {
    let crop = CropRect { x: 2, y: 3, width: 6, height: 9 };
    assert_eq!(inner_of(crop, 2), Some(CropRect { x: 4, y: 5, width: 2, height: 5 }));
    assert_eq!(inner_of(crop, 3), None);
    assert_eq!(inner_of(crop, usize::MAX), None);
    assert_eq!(inner_of(crop, 0), Some(crop));
}

#[test]
fn the_last_of_the_farthest_frames_is_suspicious() {
    assert_eq!(edge(&[1.0, 5.0, 3.0, 1.0, 5.0]).most_suspicious_frame(), Some(4));
    assert_eq!(edge(&[f64::NAN, f64::INFINITY]).most_suspicious_frame(), None);
    assert_eq!(edge(&[f64::NAN, 2.0, f64::INFINITY]).most_suspicious_frame(), Some(1));
    // An even number of values: the median lies between the two in the middle.
    assert_eq!(edge(&[1.0, 2.0, 4.0, 5.0]).most_suspicious_frame(), Some(3));
    assert_eq!(edge(&[1.0, 2.0, 3.0, 3.5]).most_suspicious_frame(), Some(0));
}

#[test]
fn the_suspicious_frame_is_that_of_a_plain_search() {
    let mut s: u64 = 0x9e3779b97f4a7c15;
    for n in 1..60 {
        let mut values: Vec<f64> = Vec::new();
        for _ in 0..n {
            s ^= s << 13;
            s ^= s >> 7;
            s ^= s << 17;
            values.push((s % 23) as f64 * 0.5 - 3.0);
        }
        let mut sorted = values.clone();
        sorted.sort_by(|a, b| a.total_cmp(b));
        let mid = n / 2;
        let median =
            if n % 2 == 0 { (sorted[mid - 1] + sorted[mid]) / 2.0 } else { sorted[mid] };
        let best = values
            .iter()
            .enumerate()
            .max_by(|(_, a), (_, b)| (*a - median).abs().total_cmp(&(*b - median).abs()))
            .map(|(i, _)| i);
        assert_eq!(edge(&values).most_suspicious_frame(), best);
    }
}

#[test]
fn pixels_are_found_by_row_and_column() {
    let f = frame_with(4, 3, 1.0, Some((3, 1, 9.0)));
    assert_eq!(f.shape(), (3, 4));
    assert_eq!(f.len(), 12);
    assert_eq!(f.at(1, 3), Binary32 { bits: 9.0f32.to_bits() });
    assert_eq!(f.at(2, 3), Binary32 { bits: 1.0f32.to_bits() });
    assert_eq!(f.pixels()[7], 9.0f32.to_bits());
    assert!(Frame::from_pixels(3, 4, vec![0; 11]).is_err());
}
