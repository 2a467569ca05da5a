//! The command line.
//!
//! Reading the arguments stops where a file has to be read ([`ArgEvent`]); what
//! was read is handed back, and reading goes on.
use crate::crop::CropRect;
use crate::paths::{extension, file_name, find_extension};
use crate::text::{chars_of, concat, trim, trim_range, viewed, viewed_option};
use vstd::prelude::*;
use vstd::string::*;

verus! {

/// What an argument is.
#[derive(Clone, Copy, PartialEq, Eq, Structural, Debug)]
pub enum ArgKind {
    Help,
    Output,
    OutputStack,
    Crop,
    CropFile,
    CalledFromApp,
    Instructions,
    Unknown,
    Input,
}

/// What an argument is.
pub open spec fn kind_of(a: Seq<char>) -> ArgKind {
    if a == "-h"@ || a == "--help"@ {
        ArgKind::Help
    } else if a == "-o"@ || a == "--output"@ {
        ArgKind::Output
    } else if a == "--output-stack"@ || a == "--output_stack"@ {
        ArgKind::OutputStack
    } else if a == "-c"@ || a == "--crop"@ {
        ArgKind::Crop
    } else if a == "--crop-file"@ || a == "--crop_file"@ {
        ArgKind::CropFile
    } else if a == "--called-from-app"@ || a == "--called_from_app"@ || a == "--called-from-python"@
        || a == "--called_from_python"@ || a == "--called-from-marimo"@ || a
        == "--called_from_marimo"@ {
        ArgKind::CalledFromApp
    } else if a == "--instructions"@ {
        ArgKind::Instructions
    } else if a.len() > 0 && a[0] == '-' {
        ArgKind::Unknown
    } else {
        ArgKind::Input
    }
}

impl ArgKind {
    /// What is said when the value of the option is missing.
    pub open spec fn missing(self) -> Seq<char> {
        match self {
            ArgKind::Output => "--output requires a path"@,
            ArgKind::OutputStack => "--output-stack requires a path"@,
            ArgKind::Crop => "--crop requires X,Y,WIDTH,HEIGHT"@,
            ArgKind::CropFile => "--crop-file requires a path"@,
            _ => "--instructions requires a text argument"@,
        }
    }

    fn missing_message(self) -> (r: &'static str)
        ensures
            r@ == self.missing(),
    {
        match self {
            ArgKind::Output => "--output requires a path",
            ArgKind::OutputStack => "--output-stack requires a path",
            ArgKind::Crop => "--crop requires X,Y,WIDTH,HEIGHT",
            ArgKind::CropFile => "--crop-file requires a path",
            _ => "--instructions requires a text argument",
        }
    }
}

/// What the command line asks for.
pub struct Args {
    pub inputs: Vec<String>,
    pub output: Option<String>,
    pub output_stack: Option<String>,
    pub initial_crop: Option<CropRect>,
    pub called_from_app: bool,
    pub instructions: Option<String>,
}

/// What the command line asks for, with texts by their characters.
#[verifier::ext_equal]
pub struct Wishes {
    pub inputs: Seq<Seq<char>>,
    pub output: Option<Seq<char>>,
    pub output_stack: Option<Seq<char>>,
    pub initial_crop: Option<CropRect>,
    pub called_from_app: bool,
    pub instructions: Option<Seq<char>>,
}

impl View for Args {
    type V = Wishes;

    open spec fn view(&self) -> Wishes {
        Wishes {
            inputs: self.inputs@.map_values(|s: String| s@),
            output: viewed_option(self.output),
            output_stack: viewed_option(self.output_stack),
            initial_crop: self.initial_crop,
            called_from_app: self.called_from_app,
            instructions: viewed_option(self.instructions),
        }
    }
}

/// Where reading the arguments stopped.
pub enum ArgEvent {
    /// The usage is to be shown.
    Help,
    /// The initial crop is to be read from a file.
    CropFile(String),
    /// The arguments are not understood.
    Error(String),
    /// All arguments were read.
    End,
}

/// Where reading the arguments stops, and what was asked for until then.
pub enum Stop {
    Help,
    CropFile { path: Seq<char>, pos: nat, wishes: Wishes },
    Error(Seq<char>),
    End(Wishes),
}

/// A letter of ASCII in lower case.
pub open spec fn lower_char(c: char) -> char {
    if 'A' <= c && c <= 'Z' {
        (c as u32 + 32) as char
    } else {
        c
    }
}

/// The path ends in `.npy`, in any case.
pub open spec fn npy_path(p: Seq<char>) -> bool {
    match file_name(p) {
        Some(name) => match extension(name) {
            Some(e) => e.map_values(|c: char| lower_char(c)) == "npy"@,
            None => false,
        },
        None => false,
    }
}

/// Reading the arguments from position `pos` on.
pub open spec fn run(args: Seq<Seq<char>>, pos: nat, w: Wishes) -> Stop
    decreases args.len() - pos,
{
    if pos >= args.len() {
        Stop::End(w)
    } else {
        let a = args[pos as int];
        let kind = kind_of(a);
        match kind {
            ArgKind::Help => Stop::Help,
            ArgKind::CalledFromApp => run(args, pos + 1, Wishes { called_from_app: true, ..w }),
            ArgKind::Unknown => Stop::Error("Unknown option: "@ + a),
            ArgKind::Input => run(args, pos + 1, Wishes { inputs: w.inputs.push(a), ..w }),
            _ => if pos + 1 >= args.len() {
                Stop::Error(kind.missing())
            } else {
                let v = args[(pos + 1) as int];
                match kind {
                    ArgKind::Output => run(args, pos + 2, Wishes { output: Some(v), ..w }),
                    ArgKind::OutputStack => if npy_path(v) {
                        run(args, pos + 2, Wishes { output_stack: Some(v), ..w })
                    } else {
                        Stop::Error("--output-stack must end in .npy (got "@ + v + ")"@)
                    },
                    ArgKind::Crop => if w.initial_crop is Some {
                        Stop::Error("only one of --crop / --crop-file can be given"@)
                    } else {
                        match CropRect::of_arg(v) {
                            Ok(c) => run(args, pos + 2, Wishes { initial_crop: Some(c), ..w }),
                            Err(e) => Stop::Error("--crop: "@ + e),
                        }
                    },
                    ArgKind::CropFile => if w.initial_crop is Some {
                        Stop::Error("only one of --crop / --crop-file can be given"@)
                    } else {
                        Stop::CropFile { path: v, pos: pos + 2, wishes: w }
                    },
                    _ => run(args, pos + 2, Wishes { instructions: Some(v), ..w }),
                }
            },
        }
    }
}

/// The arguments, and how far they have been read.
pub struct ArgReader {
    pub args: Vec<String>,
    pub pos: usize,
    pub wishes: Args,
}

impl ArgReader {
    /// The arguments by their characters.
    pub open spec fn words(self) -> Seq<Seq<char>> {
        self.args@.map_values(|s: String| s@)
    }
}

/// Whether two texts are the same.
fn same_text(a: &str, b: &str) -> (r: bool)
    ensures
        r == (a@ == b@),
{
    let v: Vec<char> = chars_of(a);
    let w: Vec<char> = chars_of(b);
    if v.len() != w.len() {
        return false;
    }
    let mut i: usize = 0;
    while i < v.len()
        invariant
            i <= v@.len(),
            v@.len() == w@.len(),
            v@ == a@,
            w@ == b@,
            forall|k: int| 0 <= k < i ==> v@[k] == w@[k],
        decreases v@.len() - i,
    {
        if v[i] != w[i] {
            assert(a@[i as int] != b@[i as int]);
            return false;
        }
        i = i + 1;
    }
    proof {
        assert(v@ =~= w@);
    }
    true
}

fn find_kind(a: &str) -> (r: ArgKind)
    ensures
        r == kind_of(a@),
{
    if same_text(a, "-h") || same_text(a, "--help") {
        ArgKind::Help
    } else if same_text(a, "-o") || same_text(a, "--output") {
        ArgKind::Output
    } else if same_text(a, "--output-stack") || same_text(a, "--output_stack") {
        ArgKind::OutputStack
    } else if same_text(a, "-c") || same_text(a, "--crop") {
        ArgKind::Crop
    } else if same_text(a, "--crop-file") || same_text(a, "--crop_file") {
        ArgKind::CropFile
    } else if same_text(a, "--called-from-app") || same_text(a, "--called_from_app") || same_text(
        a,
        "--called-from-python",
    ) || same_text(a, "--called_from_python") || same_text(a, "--called-from-marimo") || same_text(
        a,
        "--called_from_marimo",
    ) {
        ArgKind::CalledFromApp
    } else if same_text(a, "--instructions") {
        ArgKind::Instructions
    } else {
        let v: Vec<char> = chars_of(a);
        if v.len() > 0 && v[0] == '-' {
            ArgKind::Unknown
        } else {
            ArgKind::Input
        }
    }
}

fn lower_of(c: char) -> (r: char)
    ensures
        r == lower_char(c),
{
    if 'A' <= c && c <= 'Z' {
        let b: u8 = c as u8;
        (b + 32) as char
    } else {
        c
    }
}

/// Whether a path ends in `.npy`.
pub fn is_npy_path(p: &str) -> (r: bool)
    ensures
        r == npy_path(p@),
{
    match find_extension(p) {
        Some(e) => {
            let v: Vec<char> = chars_of(e.as_str());
            proof {
                reveal_strlit("npy");
            }
            let ghost low = v@.map_values(|c: char| lower_char(c));
            let r: bool = v.len() == 3 && lower_of(v[0]) == 'n' && lower_of(v[1]) == 'p' && lower_of(
                v[2],
            ) == 'y';
            proof {
                if r {
                    assert(low =~= "npy"@);
                } else if low == "npy"@ {
                    assert(low.len() == 3);
                    assert(low[0] == 'n' && low[1] == 'p' && low[2] == 'y');
                }
            }
            r
        },
        None => false,
    }
}

impl ArgReader {
    /// The arguments, none of them read yet.
    pub fn new(args: Vec<String>) -> (r: ArgReader)
        ensures
            r.args == args,
            r.pos == 0,
            r.wishes@ == (Wishes {
                inputs: Seq::empty(),
                output: None,
                output_stack: None,
                initial_crop: None,
                called_from_app: false,
                instructions: None,
            }),
    {
        let wishes: Args = Args {
            inputs: Vec::new(),
            output: None,
            output_stack: None,
            initial_crop: None,
            called_from_app: false,
            instructions: None,
        };
        proof {
            assert(wishes@.inputs =~= Seq::<Seq<char>>::empty());
        }
        ArgReader { args, pos: 0, wishes }
    }

    /// Read on, up to where something has to be done.
    pub fn next(&mut self) -> (event: ArgEvent)
        ensures
            final(self).args == old(self).args,
            match (run(old(self).words(), old(self).pos as nat, old(self).wishes@), event) {
                (Stop::Help, ArgEvent::Help) => true,
                (Stop::CropFile { path, pos, wishes }, ArgEvent::CropFile(p)) => {
                    &&& p@ == path
                    &&& final(self).pos == pos
                    &&& final(self).wishes@ == wishes
                },
                (Stop::Error(e), ArgEvent::Error(m)) => m@ == e,
                (Stop::End(w), ArgEvent::End) => final(self).wishes@ == w,
                _ => false,
            },
    {
        let ghost stop = run(self.words(), self.pos as nat, self.wishes@);
        let ghost words = self.words();
        let len: usize = self.args.len();
        while self.pos < len
            invariant
                self.args == old(self).args,
                words == self.words(),
                words.len() == len,
                run(words, self.pos as nat, self.wishes@) == stop,
                stop == run(old(self).words(), old(self).pos as nat, old(self).wishes@),
            decreases len - self.pos,
        {
            let kind: ArgKind = find_kind(self.args[self.pos].as_str());
            let ghost w = self.wishes@;
            proof {
                assert(words[self.pos as int] == self.args@[self.pos as int]@);
            }
            match kind {
                ArgKind::Help => {
                    return ArgEvent::Help;
                },
                ArgKind::CalledFromApp => {
                    self.wishes.called_from_app = true;
                    self.pos = self.pos + 1;
                    proof {
                        assert(self.wishes@ =~= (Wishes { called_from_app: true, ..w }));
                    }
                },
                ArgKind::Unknown => {
                    return ArgEvent::Error(
                        concat("Unknown option: ", self.args[self.pos].as_str()),
                    );
                },
                ArgKind::Input => {
                    let a: String = self.args[self.pos].clone();
                    self.wishes.inputs.push(a);
                    self.pos = self.pos + 1;
                    proof {
                        assert(self.wishes@ =~= (Wishes { inputs: w.inputs.push(a@), ..w }));
                    }
                },
                _ => {
                    if len - self.pos < 2 {
                        return ArgEvent::Error(kind.missing_message().to_owned());
                    }
                    let v: String = self.args[self.pos + 1].clone();
                    proof {
                        assert(words[self.pos + 1] == v@);
                    }
                    match kind {
                        ArgKind::Output => {
                            self.wishes.output = Some(v);
                            self.pos = self.pos + 2;
                            proof {
                                assert(self.wishes@ =~= (Wishes { output: Some(v@), ..w }));
                            }
                        },
                        ArgKind::OutputStack => {
                            if !is_npy_path(v.as_str()) {
                                let mut m: String = concat(
                                    "--output-stack must end in .npy (got ",
                                    v.as_str(),
                                );
                                m.append(")");
                                return ArgEvent::Error(m);
                            }
                            self.wishes.output_stack = Some(v);
                            self.pos = self.pos + 2;
                            proof {
                                assert(self.wishes@ =~= (Wishes { output_stack: Some(v@), ..w }));
                            }
                        },
                        ArgKind::Crop => {
                            if self.wishes.initial_crop.is_some() {
                                return ArgEvent::Error(
                                    "only one of --crop / --crop-file can be given".to_owned(),
                                );
                            }
                            match CropRect::parse_arg(v.as_str()) {
                                Ok(c) => {
                                    self.wishes.initial_crop = Some(c);
                                    self.pos = self.pos + 2;
                                    proof {
                                        assert(self.wishes@ =~= (Wishes {
                                            initial_crop: Some(c),
                                            ..w
                                        }));
                                    }
                                },
                                Err(e) => {
                                    return ArgEvent::Error(concat("--crop: ", e.as_str()));
                                },
                            }
                        },
                        ArgKind::CropFile => {
                            if self.wishes.initial_crop.is_some() {
                                return ArgEvent::Error(
                                    "only one of --crop / --crop-file can be given".to_owned(),
                                );
                            }
                            self.pos = self.pos + 2;
                            return ArgEvent::CropFile(v);
                        },
                        _ => {
                            self.wishes.instructions = Some(v);
                            self.pos = self.pos + 2;
                            proof {
                                assert(self.wishes@ =~= (Wishes { instructions: Some(v@), ..w }));
                            }
                        },
                    }
                },
            }
        }
        ArgEvent::End
    }

    /// Take in the crop file at `path`, or the reason why it cannot be read.
    pub fn take_crop_file(&mut self, path: &str, read: Result<String, String>) -> (r: Result<
        (),
        String,
    >)
        ensures
            final(self).args == old(self).args,
            final(self).pos == old(self).pos,
            match read {
                Err(e) => {
                    &&& viewed(r) == Err::<(), Seq<char>>(
                        "cannot read --crop-file "@ + path@ + ": "@ + e@,
                    )
                    &&& final(self).wishes == old(self).wishes
                },
                Ok(text) => match CropRect::of_json(text@) {
                    Ok(c) => r is Ok && final(self).wishes == (Args {
                        initial_crop: Some(c),
                        ..old(self).wishes
                    }),
                    Err(e) => {
                        &&& viewed(r) == Err::<(), Seq<char>>("--crop-file "@ + path@ + ": "@ + e)
                        &&& final(self).wishes == old(self).wishes
                    },
                },
            },
    {
        match read {
            Err(e) => {
                let mut m: String = concat("cannot read --crop-file ", path);
                m.append(": ");
                m.append(e.as_str());
                Err(m)
            },
            Ok(text) => match CropRect::from_json_text(text.as_str()) {
                Ok(c) => {
                    self.wishes.initial_crop = Some(c);
                    Ok(())
                },
                Err(e) => {
                    let mut m: String = concat("--crop-file ", path);
                    m.append(": ");
                    m.append(e.as_str());
                    Err(m)
                },
            },
        }
    }

    /// What was asked for, once all arguments were read: `supported` says of
    /// each input whether it is a folder or a stack file. Blank instructions are
    /// none.
    pub fn finish(self, supported: &Vec<bool>) -> (r: Result<Args, String>)
        requires
            supported@.len() == self.wishes.inputs@.len(),
        ensures
            match r {
                Ok(a) => {
                    &&& forall|i: int| 0 <= i < supported@.len() ==> supported@[i]
                    &&& a@ == (Wishes {
                        instructions: worth_showing(self.wishes@.instructions),
                        ..self.wishes@
                    })
                },
                Err(m) => exists|i: int|
                    #![trigger supported@[i]]
                    {
                        &&& 0 <= i < supported@.len()
                        &&& !supported@[i]
                        &&& forall|j: int| 0 <= j < i ==> supported@[j]
                        &&& m@ == "not a folder or .npy stack file: "@ + self.wishes.inputs@[i]@
                    },
            },
    {
        let mut i: usize = 0;
        while i < supported.len()
            invariant
                i <= supported@.len(),
                supported@.len() == self.wishes.inputs@.len(),
                forall|j: int| 0 <= j < i ==> supported@[j],
            decreases supported@.len() - i,
        {
            if !supported[i] {
                return Err(
                    concat("not a folder or .npy stack file: ", self.wishes.inputs[i].as_str()),
                );
            }
            i = i + 1;
        }
        let mut a: Args = self.wishes;
        let blank: bool = match &a.instructions {
            Some(text) => {
                let v: Vec<char> = chars_of(text.as_str());
                let (from, to): (usize, usize) = trim_range(&v, 0, v.len());
                proof {
                    assert(v@.subrange(0, v@.len() as int) =~= v@);
                    assert(trim(text@).len() == to - from);
                }
                from == to
            },
            None => false,
        };
        if blank {
            a.instructions = None;
        }
        proof {
            assert(a@ =~= (Wishes {
                instructions: worth_showing(self.wishes@.instructions),
                ..self.wishes@
            }));
        }
        Ok(a)
    }
}

/// Instructions that are not blank.
pub open spec fn worth_showing(text: Option<Seq<char>>) -> Option<Seq<char>> {
    match text {
        Some(t) => if trim(t).len() == 0 {
            None
        } else {
            Some(t)
        },
        None => None,
    }
}

// ----- laws --------------------------------------------------------------------------

/// An initial crop that was given is never replaced by another one.
pub proof fn law_initial_crop_is_given_once(args: Seq<Seq<char>>, pos: nat, w: Wishes)
    requires
        w.initial_crop is Some,
    ensures
        run(args, pos, w) matches Stop::End(e) ==> e.initial_crop == w.initial_crop,
        !(run(args, pos, w) is CropFile),
    decreases args.len() - pos,
{
    if pos < args.len() {
        let a = args[pos as int];
        match kind_of(a) {
            ArgKind::CalledFromApp => {
                law_initial_crop_is_given_once(
                    args,
                    pos + 1,
                    Wishes { called_from_app: true, ..w },
                );
            },
            ArgKind::Input => {
                law_initial_crop_is_given_once(
                    args,
                    pos + 1,
                    Wishes { inputs: w.inputs.push(a), ..w },
                );
            },
            _ => {
                if pos + 1 < args.len() {
                    let v = args[(pos + 1) as int];
                    law_initial_crop_is_given_once(args, pos + 2, Wishes { output: Some(v), ..w });
                    law_initial_crop_is_given_once(
                        args,
                        pos + 2,
                        Wishes { output_stack: Some(v), ..w },
                    );
                    law_initial_crop_is_given_once(
                        args,
                        pos + 2,
                        Wishes { instructions: Some(v), ..w },
                    );
                }
            },
        }
    }
}

/// Words that do not start with a dash are inputs, in the order in which they
/// are given.
pub proof fn law_plain_words_are_inputs(args: Seq<Seq<char>>, pos: nat, w: Wishes)
    requires
        pos <= args.len(),
        forall|i: int| pos <= i < args.len() ==> kind_of(#[trigger] args[i]) == ArgKind::Input,
    ensures
        run(args, pos, w) == Stop::End(
            Wishes { inputs: w.inputs + args.skip(pos as int), ..w },
        ),
    decreases args.len() - pos,
{
    if pos < args.len() {
        let a = args[pos as int];
        let next = Wishes { inputs: w.inputs.push(a), ..w };
        law_plain_words_are_inputs(args, pos + 1, next);
        assert(w.inputs.push(a) + args.skip((pos + 1) as int) =~= w.inputs + args.skip(pos as int));
    } else {
        assert(w.inputs + args.skip(pos as int) =~= w.inputs);
    }
}

/// An option that is given again replaces what was given before: reading on from an
/// output, a stack or instructions does not depend on what was asked for until then.
pub proof fn law_later_option_counts(
    args: Seq<Seq<char>>,
    pos: nat,
    w: Wishes,
    earlier: Option<Seq<char>>,
)
    requires
        pos < args.len(),
    ensures
        kind_of(args[pos as int]) == ArgKind::Output ==> run(args, pos, w) == run(
            args,
            pos,
            Wishes { output: earlier, ..w },
        ),
        kind_of(args[pos as int]) == ArgKind::OutputStack ==> run(args, pos, w) == run(
            args,
            pos,
            Wishes { output_stack: earlier, ..w },
        ),
        kind_of(args[pos as int]) == ArgKind::Instructions ==> run(args, pos, w) == run(
            args,
            pos,
            Wishes { instructions: earlier, ..w },
        ),
{
}

/// The inputs come out in the order in which they were given, behind those that there
/// were before.
pub proof fn law_inputs_keep_their_order(args: Seq<Seq<char>>, pos: nat, w: Wishes)
    ensures
        run(args, pos, w) matches Stop::End(v) ==> w.inputs.is_prefix_of(v.inputs),
        run(args, pos, w) matches Stop::CropFile { wishes, .. } ==> w.inputs.is_prefix_of(
            wishes.inputs,
        ),
        w.called_from_app ==> (run(args, pos, w) matches Stop::End(v) ==> v.called_from_app),
    decreases args.len() - pos,
{
    if pos < args.len() {
        let (kind, a) = (kind_of(args[pos as int]), args[pos as int]);
        if kind == ArgKind::CalledFromApp {
            law_inputs_keep_their_order(args, pos + 1, Wishes { called_from_app: true, ..w });
        } else if kind == ArgKind::Input {
            law_inputs_keep_their_order(args, pos + 1, Wishes { inputs: w.inputs.push(a), ..w });
        } else if pos + 1 < args.len() {
            let v = args[(pos + 1) as int];
            match kind {
                ArgKind::Output => law_inputs_keep_their_order(
                    args,
                    pos + 2,
                    Wishes { output: Some(v), ..w },
                ),
                ArgKind::OutputStack => law_inputs_keep_their_order(
                    args,
                    pos + 2,
                    Wishes { output_stack: Some(v), ..w },
                ),
                ArgKind::Crop => {
                    if let Ok(c) = CropRect::of_arg(v) {
                        law_inputs_keep_their_order(
                            args,
                            pos + 2,
                            Wishes { initial_crop: Some(c), ..w },
                        );
                    }
                },
                ArgKind::Instructions => law_inputs_keep_their_order(
                    args,
                    pos + 2,
                    Wishes { instructions: Some(v), ..w },
                ),
                _ => {},
            }
        }
    }
}

/// The options are known by their names: what follows each of them, and nothing else,
/// comes out in its place.
pub proof fn law_options_are_known_by_their_names(
    folder: Seq<char>,
    output: Seq<char>,
    stack: Seq<char>,
    crop: CropRect,
    text: Seq<char>,
)
    requires
        folder.len() == 0 || folder[0] != '-',
        npy_path(stack),
        crop.width > 0 && crop.height > 0,
    ensures
        ({
            let nothing = Wishes {
                inputs: Seq::empty(),
                output: None,
                output_stack: None,
                initial_crop: None,
                called_from_app: false,
                instructions: None,
            };
            &&& run(seq![folder], 0, nothing) == Stop::End(
                Wishes { inputs: seq![folder], ..nothing },
            )
            &&& run(seq!["--output"@, output], 0, nothing) == Stop::End(
                Wishes { output: Some(output), ..nothing },
            )
            &&& run(seq!["--output-stack"@, stack], 0, nothing) == Stop::End(
                Wishes { output_stack: Some(stack), ..nothing },
            )
            &&& run(seq!["--crop"@, crop.arg()], 0, nothing) == Stop::End(
                Wishes { initial_crop: Some(crop), ..nothing },
            )
            &&& run(seq!["--crop-file"@, text], 0, nothing) == (Stop::CropFile {
                path: text,
                pos: 2,
                wishes: nothing,
            })
            &&& run(seq!["--instructions"@, text], 0, nothing) == Stop::End(
                Wishes { instructions: Some(text), ..nothing },
            )
            &&& run(seq!["--called-from-app"@], 0, nothing) == Stop::End(
                Wishes { called_from_app: true, ..nothing },
            )
            &&& run(seq!["--help"@], 0, nothing) == Stop::Help
            &&& kind_of("-h"@) == kind_of("--help"@)
            &&& kind_of("-o"@) == kind_of("--output"@)
            &&& kind_of("-c"@) == kind_of("--crop"@)
        }),
{
    let nothing = Wishes {
        inputs: Seq::empty(),
        output: None,
        output_stack: None,
        initial_crop: None,
        called_from_app: false,
        instructions: None,
    };
    lemma_kinds();
    lemma_plain(folder);
    lemma_one_word(folder, nothing);
    lemma_one_word("--called-from-app"@, nothing);
    lemma_one_word("--help"@, nothing);
    lemma_two_words("--output"@, output, nothing);
    lemma_two_words("--output-stack"@, stack, nothing);
    lemma_two_words("--crop"@, crop.arg(), nothing);
    lemma_two_words("--crop-file"@, text, nothing);
    lemma_two_words("--instructions"@, text, nothing);
    assert(CropRect::of_arg(crop.arg()) == Ok::<CropRect, Seq<char>>(crop)) by {
        crop.law_arg_round_trip();
    }
    assert(Seq::<Seq<char>>::empty().push(folder) =~= seq![folder]);
}

/// Reading a single word.
proof fn lemma_one_word(a: Seq<char>, w: Wishes)
    ensures
        kind_of(a) == ArgKind::Help ==> run(seq![a], 0, w) == Stop::Help,
        kind_of(a) == ArgKind::CalledFromApp ==> run(seq![a], 0, w) == Stop::End(
            Wishes { called_from_app: true, ..w },
        ),
        kind_of(a) == ArgKind::Input ==> run(seq![a], 0, w) == Stop::End(
            Wishes { inputs: w.inputs.push(a), ..w },
        ),
{
    let args = seq![a];
    let kind = kind_of(a);
    assert(args[0] == a);
    let next = if kind == ArgKind::Input {
        Wishes { inputs: w.inputs.push(a), ..w }
    } else {
        Wishes { called_from_app: true, ..w }
    };
    assert(run(args, 1, next) == Stop::End(next));
}

/// Reading an option and its value.
proof fn lemma_two_words(a: Seq<char>, v: Seq<char>, w: Wishes)
    requires
        w.initial_crop is None,
    ensures
        kind_of(a) == ArgKind::Output ==> run(seq![a, v], 0, w) == Stop::End(
            Wishes { output: Some(v), ..w },
        ),
        kind_of(a) == ArgKind::OutputStack && npy_path(v) ==> run(seq![a, v], 0, w) == Stop::End(
            Wishes { output_stack: Some(v), ..w },
        ),
        kind_of(a) == ArgKind::Crop ==> (CropRect::of_arg(v) matches Ok(c) ==> run(
            seq![a, v],
            0,
            w,
        ) == Stop::End(Wishes { initial_crop: Some(c), ..w })),
        kind_of(a) == ArgKind::CropFile ==> run(seq![a, v], 0, w) == (Stop::CropFile {
            path: v,
            pos: 2,
            wishes: w,
        }),
        kind_of(a) == ArgKind::Instructions ==> run(seq![a, v], 0, w) == Stop::End(
            Wishes { instructions: Some(v), ..w },
        ),
{
    let args = seq![a, v];
    let kind = kind_of(a);
    assert(args[0] == a && args[1] == v);
    let next = match kind {
        ArgKind::Output => Wishes { output: Some(v), ..w },
        ArgKind::OutputStack => Wishes { output_stack: Some(v), ..w },
        ArgKind::Crop => Wishes { initial_crop: CropRect::of_arg(v).ok(), ..w },
        _ => Wishes { instructions: Some(v), ..w },
    };
    assert(run(args, 2, next) == Stop::End(next));
}

/// What does not start with a dash is an input.
proof fn lemma_plain(a: Seq<char>)
    requires
        a.len() == 0 || a[0] != '-',
    ensures
        kind_of(a) == ArgKind::Input,
{
    reveal_strlit("-h");
    reveal_strlit("--help");
    reveal_strlit("-o");
    reveal_strlit("--output");
    reveal_strlit("--output-stack");
    reveal_strlit("--output_stack");
    reveal_strlit("-c");
    reveal_strlit("--crop");
    reveal_strlit("--crop-file");
    reveal_strlit("--crop_file");
    reveal_strlit("--called-from-app");
    reveal_strlit("--called_from_app");
    reveal_strlit("--called-from-python");
    reveal_strlit("--called_from_python");
    reveal_strlit("--called-from-marimo");
    reveal_strlit("--called_from_marimo");
    reveal_strlit("--instructions");
}

/// The names of the options are different.
proof fn lemma_kinds()
    ensures
        kind_of("-h"@) == ArgKind::Help,
        kind_of("--help"@) == ArgKind::Help,
        kind_of("-o"@) == ArgKind::Output,
        kind_of("--output"@) == ArgKind::Output,
        kind_of("--output-stack"@) == ArgKind::OutputStack,
        kind_of("-c"@) == ArgKind::Crop,
        kind_of("--crop"@) == ArgKind::Crop,
        kind_of("--crop-file"@) == ArgKind::CropFile,
        kind_of("--called-from-app"@) == ArgKind::CalledFromApp,
        kind_of("--instructions"@) == ArgKind::Instructions,
{
    reveal_strlit("-h");
    reveal_strlit("--help");
    reveal_strlit("-o");
    reveal_strlit("--output");
    reveal_strlit("--output-stack");
    reveal_strlit("--output_stack");
    reveal_strlit("-c");
    reveal_strlit("--crop");
    reveal_strlit("--crop-file");
    reveal_strlit("--crop_file");
    reveal_strlit("--called-from-app");
    reveal_strlit("--called_from_app");
    reveal_strlit("--called-from-python");
    reveal_strlit("--called_from_python");
    reveal_strlit("--called-from-marimo");
    reveal_strlit("--called_from_marimo");
    reveal_strlit("--instructions");
    assert("-o"@[1] != "-h"@[1]);
    assert("-c"@[1] != "-h"@[1]);
    assert("-c"@[1] != "-o"@[1]);
    assert("--crop"@[2] != "--help"@[2]);
    assert("--instructions"@[2] != "--output-stack"@[2]);
    assert("--instructions"@[2] != "--output_stack"@[2]);
    assert("--output-stack"@.len() == 14);
    assert("--crop-file"@.len() == 11);
    assert("--called-from-app"@.len() == 17);
}

} // verus!
