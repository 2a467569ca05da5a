use rust_crop_tiff::binary::Binary32;
use rust_crop_tiff::crop::{json_uint, CropRect, RectF};

fn b32(x: f32) -> Binary32 {
    Binary32 { bits: x.to_bits() }
}

fn rectf(x0: f32, y0: f32, x1: f32, y1: f32) -> RectF {
    RectF { x0: b32(x0), y0: b32(y0), x1: b32(x1), y1: b32(y1) }
}

#[test]
fn rectf_rounds_and_clamps() {
    let r = rectf(10.4, -3.0, 2.6, 7.2);
    // Corners in any order; negative clamped to 0.
    assert_eq!(
        r.to_crop(100, 100),
        Some(CropRect {
            x: 3,
            y: 0,
            width: 7,
            height: 7
        })
    );
    // Entirely outside the image → no crop.
    let out = rectf(200.0, 5.0, 300.0, 10.0);
    assert_eq!(out.to_crop(100, 100), None);
}

#[test]
fn parse_arg_roundtrip() {
    let c = CropRect::parse_arg("100, 200, 512, 256").unwrap();
    assert_eq!(
        c,
        CropRect {
            x: 100,
            y: 200,
            width: 512,
            height: 256
        }
    );
    assert!(CropRect::parse_arg("1,2,3").is_err());
    assert!(CropRect::parse_arg("1,2,0,4").is_err());
}

#[test]
fn json_roundtrip() {
    let c = CropRect {
        x: 5,
        y: 6,
        width: 70,
        height: 80,
    };
    let json = c.to_json(2048, 2048, "/some/\"quoted\"/run_1");
    assert_eq!(CropRect::from_json_text(&json).unwrap(), c);
}

#[test]
fn json_ignores_unknown_and_string_fields() {
    let text = r#"{"folder": "with \"width\" inside", "x": 1, "y": 2,
                       "width": 30, "height": 40, "note": "x: 99"}"#;
    assert_eq!(
        CropRect::from_json_text(text).unwrap(),
        CropRect {
            x: 1,
            y: 2,
            width: 30,
            height: 40
        }
    );
}

#[test]
fn clamp_to_smaller_image() {
    let c = CropRect {
        x: 50,
        y: 50,
        width: 100,
        height: 100,
    };
    assert_eq!(
        c.clamp_to(120, 80),
        Some(CropRect {
            x: 50,
            y: 50,
            width: 70,
            height: 30
        })
    );
    assert_eq!(c.clamp_to(40, 40), None);
}

#[test]
fn arguments_that_are_no_crop_are_explained() {
    let err = |s: &str| CropRect::parse_arg(s).unwrap_err();
    assert_eq!(err("1,2,3"), "expected X,Y,WIDTH,HEIGHT (got '1,2,3')");
    assert_eq!(err(""), "expected X,Y,WIDTH,HEIGHT (got '')");
    assert_eq!(
        err("1,2,,4"),
        "invalid value '' in '1,2,,4': cannot parse integer from empty string"
    );
    assert_eq!(
        err("1,-2,3,4"),
        "invalid value '-2' in '1,-2,3,4': invalid digit found in string"
    );
    assert_eq!(
        err("1,2,3,99999999999999999999999"),
        "invalid value '99999999999999999999999' in '1,2,3,99999999999999999999999': number too large to fit in target type"
    );
    assert_eq!(
        err("1,2,0,4"),
        "crop width and height must be > 0 (got '1,2,0,4')"
    );
    // The first bad value is the one reported.
    assert_eq!(
        err("a,b,0,0"),
        "invalid value 'a' in 'a,b,0,0': invalid digit found in string"
    );
    assert_eq!(
        CropRect::parse_arg("+1,\u{3000}2 ,3,\t4\n"),
        Ok(CropRect { x: 1, y: 2, width: 3, height: 4 })
    );
}

#[test]
fn json_that_is_no_crop_is_explained() {
    let err = |s: &str| CropRect::from_json_text(s).unwrap_err();
    assert_eq!(err("{}"), "no numeric \"x\" field found");
    assert_eq!(err("{\"x\": 1}"), "no numeric \"y\" field found");
    assert_eq!(err("{\"x\": 1, \"y\": 2}"), "no numeric \"width\" field found");
    assert_eq!(
        err("{\"x\": 1, \"y\": 2, \"width\": 3, \"height\": -4}"),
        "no numeric \"height\" field found"
    );
    assert_eq!(
        err("{\"x\": 1, \"y\": 2, \"width\": 3, \"height\": 0}"),
        "crop width and height must be > 0"
    );
    // A number that does not fit ends the search.
    assert_eq!(
        err("{\"x\": 99999999999999999999999, \"x\": 1}"),
        "no numeric \"x\" field found"
    );
}

#[test]
fn json_text_is_written_field_by_field() {
    let c = CropRect { x: 100, y: 200, width: 512, height: 512 };
    assert_eq!(
        c.to_json(2048, 2047, "/a\\b\"c"),
        "{\n  \"x\": 100,\n  \"y\": 200,\n  \"width\": 512,\n  \"height\": 512,\n  \"image_width\": 2048,\n  \"image_height\": 2047,\n  \"folder\": \"/a\\\\b\\\"c\"\n}\n"
    );
}

#[test]
fn json_numbers_follow_their_key() {
    assert_eq!(json_uint("\"k\" : 42}", "k"), Some(42));
    assert_eq!(json_uint("\"k\"\n:\n007x", "k"), Some(7));
    assert_eq!(json_uint("\"k\" 1 \"k\":2", "k"), Some(2));
    assert_eq!(json_uint("\"k\": \"3\"", "k"), None);
    assert_eq!(json_uint("k: 3", "k"), None);
}

#[test]
fn a_folder_name_cannot_disturb_the_json() {
    let c = CropRect { x: 1, y: 2, width: 3, height: 4 };
    for folder in ["\"x\": 9, \"y\": 9", "\\\"width\": 77", "\"", "", "\"height\":0"] {
        let json = c.to_json(10, 10, folder);
        assert_eq!(CropRect::from_json_text(&json), Ok(c));
    }
}

#[test]
fn whole_pixel_rectangles_are_kept() {
    let c = CropRect { x: 3, y: 4, width: 50, height: 60 };
    assert_eq!(c.to_rectf(), rectf(3.0, 4.0, 53.0, 64.0));
    assert_eq!(c.to_rectf().to_crop(100, 100), Some(c));
    // Past 2^24 a corner may not be a binary32 number.
    let far = CropRect { x: 16777217, y: 0, width: 1, height: 1 };
    assert_ne!(far.to_rectf().to_crop(16777300, 1), Some(far));
}

#[test]
fn corners_can_be_swapped() {
    let a = rectf(10.4, -3.0, 2.6, 7.2);
    let b = rectf(2.6, 7.2, 10.4, -3.0);
    assert_eq!(a.to_crop(100, 100), b.to_crop(100, 100));
    assert_eq!(a.normalized(), rectf(2.6, -3.0, 10.4, 7.2));
}

#[test]
fn points_on_the_border_are_inside() {
    let r = rectf(10.0, 0.0, 2.0, 7.0);
    assert!(r.contains(b32(2.0), b32(7.0)));
    assert!(r.contains(b32(10.0), b32(0.0)));
    assert!(!r.contains(b32(10.5), b32(1.0)));
    assert!(!r.contains(b32(f32::NAN), b32(1.0)));
}

#[test]
fn translation_moves_every_corner() {
    let mut r = rectf(1.0, 2.0, 3.0, 4.0);
    r.translate(b32(0.5), b32(-1.0));
    assert_eq!(r, rectf(1.5, 1.0, 3.5, 3.0));
}

#[test]
fn the_full_crop_is_the_image() {
    let c = CropRect::full(7, 5);
    assert_eq!((c.x, c.y, c.x1(), c.y1(), c.area()), (0, 0, 7, 5, 35));
    assert_eq!(c.clamp_to(7, 5), Some(c));
}

#[test]
fn clamping_twice_is_clamping_once() {
    let c = CropRect { x: 50, y: 50, width: 100, height: 100 };
    let once = c.clamp_to(120, 80).unwrap();
    assert_eq!(once.clamp_to(120, 80), Some(once));
}

#[test]
fn any_folder_name_makes_json() {
    let c = CropRect { x: 1, y: 2, width: 3, height: 4 };
    let folder = "a\nb\t\r\u{8}\u{c}\u{1}\u{1f}\"\\\u{7f}/é";
    let text = c.to_json(10, 20, folder);
    assert!(text.ends_with(
        "  \"folder\": \"a\\nb\\t\\r\\b\\f\\u0001\\u001f\\\"\\\\\u{7f}/é\"\n}\n"
    ));
    assert_eq!(CropRect::from_json_text(&text), Ok(c));
}

#[test]
fn a_crop_without_area_is_not_read_back() {
    let c = CropRect { x: 1, y: 2, width: 0, height: 4 };
    assert_eq!(
        CropRect::from_json_text(&c.to_json(10, 20, "f")),
        Err("crop width and height must be > 0".to_owned())
    );
}

#[test]
fn a_crop_of_any_extent_can_be_clamped() {
    let c = CropRect { x: 1, y: 0, width: usize::MAX, height: 1 };
    assert_eq!(c.clamp_to(10, 10), Some(CropRect { x: 1, y: 0, width: 9, height: 1 }));
    let far = CropRect { x: usize::MAX, y: usize::MAX, width: usize::MAX, height: usize::MAX };
    assert_eq!(far.clamp_to(10, 10), None);
    let r = far.to_rectf();
    assert_eq!(f32::from_bits(r.x0.bits), usize::MAX as f32);
    assert_eq!(f32::from_bits(r.x1.bits), (usize::MAX as u128 * 2) as f32);
}

#[test]
fn white_space_around_the_numbers_is_ignored() {
    let c = CropRect { x: 1, y: 20, width: 300, height: 4000 };
    assert_eq!(CropRect::parse_arg("\t 1 ,20\u{3000},\n300, 4000 \r\n"), Ok(c));
    assert_eq!(CropRect::parse_arg("1,20,300,4000"), Ok(c));
    assert!(CropRect::parse_arg("1,2 0,300,4000").is_err());
}
