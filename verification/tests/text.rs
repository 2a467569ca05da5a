use rust_crop_tiff::args::is_npy_path;
use rust_crop_tiff::paths::{find_extension, find_file_name, folder_label, stack_sidecar_json};
use rust_crop_tiff::text::{chars_of, find_from, parse_number, push_decimal, split_ranges, test_space, trim_range};
use std::path::Path;

const PATHS: [&str; 34] = [
    "", "/", ".", "..", "a", "a/", "a//", "a/.", "a/./", "./a", "././a.npy", "./.", "/a", "//a",
    "/.", "/..", "a/..", "a/../", "a/../b", "a/b.npy", "a//b.npy", "a/./b.npy", "a/b/", ".npy",
    "a/.npy", "a.b.npy", "a.", "..npy", "...", "a/...", "stack", "/data/run 1/stack.NPY",
    "x/./././y.npy/.", "ä/ö.npy",
];

#[test]
fn white_space_is_that_of_unicode() {
    for c in '\0'..=char::MAX {
        assert_eq!(test_space(c), c.is_whitespace(), "{:x}", c as u32);
    }
}

#[test]
fn numbers_are_read_as_by_the_standard_library() {
    for s in [
        "", "+", "-", "0", "00", "+7", "++7", "-7", "7a", "a7", " 7", "18446744073709551615",
        "18446744073709551616", "18446744073709551616x", "1844674407370955161x", "99999999999999999999",
        "+18446744073709551615", "4294967295", "4294967296",
    ] {
        let v = chars_of(s);
        let got = parse_number(&v, 0, v.len());
        match s.parse::<usize>() {
            Ok(n) => assert_eq!(got, Ok(n), "{s}"),
            Err(e) => assert_eq!(got.unwrap_err().message(), e.to_string(), "{s}"),
        }
    }
}

#[test]
fn numbers_are_written_in_decimal() {
    for n in [0u128, 7, 10, 99, 100, 65536, 18446744073709551615, 340282366920938463463374607431768211455] {
        let mut s = "n = ".to_owned();
        push_decimal(&mut s, n);
        assert_eq!(s, format!("n = {n}"));
    }
}

#[test]
fn texts_are_trimmed_split_and_searched() {
    let v = chars_of(" \u{3000}a b\t\n");
    assert_eq!(trim_range(&v, 0, v.len()), (2, 5));
    let blank = chars_of("  ");
    let (from, to) = trim_range(&blank, 0, 2);
    assert_eq!(from, to);
    let list = chars_of("a,,bc,");
    assert_eq!(split_ranges(&list, ','), vec![(0, 1), (2, 2), (3, 5), (6, 6)]);
    let text = chars_of("abcabd");
    assert_eq!(find_from(&text, &chars_of("abd"), 0), Some(3));
    assert_eq!(find_from(&text, &chars_of("ab"), 1), Some(2));
    assert_eq!(find_from(&text, &chars_of("x"), 0), None);
}

#[test]
fn names_are_those_of_the_standard_library() {
    for p in PATHS {
        let path = Path::new(p);
        let name = path.file_name().map(|s| s.to_str().unwrap().to_owned());
        assert_eq!(find_file_name(p), name, "{p}");
        let ext = path.extension().map(|s| s.to_str().unwrap().to_owned());
        assert_eq!(find_extension(p), ext, "{p}");
        assert_eq!(folder_label(p), name.unwrap_or_else(|| path.display().to_string()), "{p}");
        assert_eq!(
            is_npy_path(p),
            path.extension().and_then(|e| e.to_str()).is_some_and(|e| e.eq_ignore_ascii_case("npy")),
            "{p}"
        );
    }
}

#[test]
fn sidecars_lie_next_to_the_stack() {
    for p in PATHS {
        let path = Path::new(p);
        let stem = path.file_stem().and_then(|s| s.to_str()).unwrap_or("cropped_stack");
        let wanted = path.with_file_name(format!("{stem}_crop.json"));
        assert_eq!(stack_sidecar_json(p), wanted.to_str().unwrap(), "{p}");
    }
    assert_eq!(stack_sidecar_json("/data/stack.npy"), "/data/stack_crop.json");
    assert_eq!(stack_sidecar_json(".."), "../cropped_stack_crop.json");
}
