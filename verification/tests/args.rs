use rust_crop_tiff::args::{ArgEvent, ArgReader, Args};
use rust_crop_tiff::crop::CropRect;

/// Reads a command line; crop files are named in `files`, inputs are supported
/// unless they start with a question mark.
fn read(words: &[&str], files: &[(&str, &str)]) -> Result<Option<Args>, String> {
    let mut reader = ArgReader::new(words.iter().map(|w| w.to_string()).collect());
    loop {
        match reader.next() {
            ArgEvent::Help => return Ok(None),
            ArgEvent::Error(e) => return Err(e),
            ArgEvent::CropFile(path) => {
                let text = files
                    .iter()
                    .find(|(name, _)| *name == path)
                    .map(|(_, text)| text.to_string())
                    .ok_or_else(|| "no such file".to_owned());
                reader.take_crop_file(&path, text)?;
            }
            ArgEvent::End => break,
        }
    }
    let supported = reader.wishes.inputs.iter().map(|p| !p.starts_with('?')).collect();
    reader.finish(&supported).map(Some)
}

fn error(words: &[&str]) -> String {
    match read(words, &[]) {
        Err(e) => e,
        Ok(_) => panic!("understood"),
    }
}

#[test]
fn every_option_is_understood() {
    let a = read(
        &[
            "in1", "-o", "crop.json", "--output-stack", "s.NPY", "--crop", "1,2,3,4",
            "--called-from-app", "--instructions", "look", "in2",
        ],
        &[],
    )
    .unwrap()
    .unwrap();
    assert_eq!(a.inputs, vec!["in1", "in2"]);
    assert_eq!(a.output.as_deref(), Some("crop.json"));
    assert_eq!(a.output_stack.as_deref(), Some("s.NPY"));
    assert_eq!(a.initial_crop, Some(CropRect { x: 1, y: 2, width: 3, height: 4 }));
    assert!(a.called_from_app);
    assert_eq!(a.instructions.as_deref(), Some("look"));
    let none = read(&[], &[]).unwrap().unwrap();
    assert!(none.inputs.is_empty() && none.output.is_none() && none.output_stack.is_none());
    assert!(none.initial_crop.is_none() && !none.called_from_app && none.instructions.is_none());
}

#[test]
fn synonyms_are_understood() {
    for w in [
        "--called-from-app", "--called_from_app", "--called-from-python", "--called_from_python",
        "--called-from-marimo", "--called_from_marimo",
    ] {
        assert!(read(&[w], &[]).unwrap().unwrap().called_from_app, "{w}");
    }
    assert_eq!(read(&["--output", "p"], &[]).unwrap().unwrap().output.as_deref(), Some("p"));
    let s = read(&["--output_stack", "p.npy"], &[]).unwrap().unwrap();
    assert_eq!(s.output_stack.as_deref(), Some("p.npy"));
    assert!(read(&["-c", "1,1,1,1"], &[]).unwrap().unwrap().initial_crop.is_some());
}

#[test]
fn help_comes_before_what_follows() {
    assert!(read(&["a", "-h", "--nonsense"], &[]).unwrap().is_none());
    assert!(read(&["--help"], &[]).unwrap().is_none());
    assert_eq!(error(&["--nonsense", "-h"]), "Unknown option: --nonsense");
}

#[test]
fn mistakes_are_explained() {
    assert_eq!(error(&["-"]), "Unknown option: -");
    assert_eq!(error(&["-o"]), "--output requires a path");
    assert_eq!(error(&["--output-stack"]), "--output-stack requires a path");
    assert_eq!(error(&["--output-stack", "a.txt"]), "--output-stack must end in .npy (got a.txt)");
    assert_eq!(error(&["-c"]), "--crop requires X,Y,WIDTH,HEIGHT");
    assert_eq!(error(&["-c", "1,2"]), "--crop: expected X,Y,WIDTH,HEIGHT (got '1,2')");
    assert_eq!(error(&["--crop-file"]), "--crop-file requires a path");
    assert_eq!(error(&["--instructions"]), "--instructions requires a text argument");
    let twice = "only one of --crop / --crop-file can be given";
    assert_eq!(error(&["-c", "1,2,3,4", "--crop", "x"]), twice);
    assert_eq!(error(&["-c", "1,2,3,4", "--crop_file", "x"]), twice);
    assert_eq!(error(&["--crop-file", "f"]), "cannot read --crop-file f: no such file");
    assert_eq!(error(&["ok", "?bad", "?worse"]), "not a folder or .npy stack file: ?bad");
}

#[test]
fn crop_files_are_read() {
    let files = [("f.json", "{\"x\": 5, \"y\": 6, \"width\": 7, \"height\": 8}"), ("g", "{}")];
    let a = read(&["--crop-file", "f.json", "in"], &files).unwrap().unwrap();
    assert_eq!(a.initial_crop, Some(CropRect { x: 5, y: 6, width: 7, height: 8 }));
    assert_eq!(a.inputs, vec!["in"]);
    assert_eq!(
        read(&["--crop-file", "g"], &files).err().unwrap(),
        "--crop-file g: no numeric \"x\" field found"
    );
    assert_eq!(
        read(&["--crop-file", "f.json", "--crop", "1,1,1,1"], &files).err().unwrap(),
        "only one of --crop / --crop-file can be given"
    );
}

#[test]
fn blank_instructions_are_none() {
    assert!(read(&["--instructions", " \t\u{3000}"], &[]).unwrap().unwrap().instructions.is_none());
    let a = read(&["--instructions", " x "], &[]).unwrap().unwrap();
    assert_eq!(a.instructions.as_deref(), Some(" x "));
}
