//! Saving the crop and the cropped stack: where the result goes, and what is
//! said of it.
use crate::app::{CropApp, Output, Poll};
use crate::crop::{ends_with, escaped, uint_field, CropRect};
use crate::loader::FolderData;
use crate::paths::{
    file_name, law_sidecar_is_next_to_the_stack, parent, sidecar, stack_sidecar_json,
};
use crate::text::{concat, decimal, viewed_option};
use vstd::prelude::*;
use vstd::string::*;

verus! {

/// Where the crop JSON goes when the save/return button is pressed. The crop
/// region is always returned alongside a cropped stack, so the calling
/// application can re-apply the same crop to another data set.
pub struct JsonDest {
    pub file: Option<String>,
    /// Also print the JSON on stdout for a calling application to capture.
    pub stdout: bool,
}

/// One step of saving.
pub enum SaveAction {
    WriteStack(String),
    WriteJson(String),
    Print,
}

/// A save to be done: the cropped stack first, then the crop.
pub struct SaveJob {
    pub crop: CropRect,
    pub json: String,
    pub dest: JsonDest,
    pub stack: Option<String>,
}

/// A step, with its path by its characters.
pub enum Step {
    WriteStack(Seq<char>),
    WriteJson(Seq<char>),
    Print,
}

impl View for SaveAction {
    type V = Step;

    open spec fn view(&self) -> Step {
        match self {
            SaveAction::WriteStack(p) => Step::WriteStack(p@),
            SaveAction::WriteJson(p) => Step::WriteJson(p@),
            SaveAction::Print => Step::Print,
        }
    }
}

impl Step {
    /// What is said of the step when it is done.
    pub open spec fn note(self) -> Seq<char> {
        match self {
            Step::WriteStack(p) => "cropped stack → "@ + p,
            Step::WriteJson(p) => "crop → "@ + p,
            Step::Print => "crop → stdout"@,
        }
    }

    /// What is said of the step when it failed.
    pub open spec fn failure(self, e: Seq<char>) -> Seq<char> {
        match self {
            Step::WriteStack(p) => "Failed to write "@ + p + ": "@ + e,
            Step::WriteJson(p) => "Failed to write "@ + p + ": "@ + e,
            Step::Print => e,
        }
    }
}

/// Texts with commas between them.
pub open spec fn listed(parts: Seq<Seq<char>>) -> Seq<char>
    decreases parts.len(),
{
    if parts.len() == 0 {
        Seq::empty()
    } else if parts.len() == 1 {
        parts[0]
    } else {
        listed(parts.drop_last()) + ", "@ + parts.last()
    }
}

/// The texts of a list of strings.
pub open spec fn texts(v: Seq<String>) -> Seq<Seq<char>> {
    v.map_values(|s: String| s@)
}

/// The strings with commas between them.
pub fn join(v: &Vec<String>) -> (r: String)
    ensures
        r@ == listed(texts(v@)),
{
    let mut r: String = String::new();
    let mut i: usize = 0;
    proof {
        assert(texts(v@.take(0)) =~= Seq::<Seq<char>>::empty());
        assert(r@ =~= listed(texts(v@.take(0))));
    }
    while i < v.len()
        invariant
            i <= v@.len(),
            r@ == listed(texts(v@.take(i as int))),
        decreases v@.len() - i,
    {
        let ghost t = texts(v@.take(i + 1));
        proof {
            assert(t.drop_last() =~= texts(v@.take(i as int)));
            assert(t.last() == v@[i as int]@);
        }
        if i > 0 {
            r.append(", ");
        }
        r.append(v[i].as_str());
        proof {
            if i == 0 {
                assert(t.drop_last() =~= Seq::<Seq<char>>::empty());
                assert(r@ =~= t[0]);
            }
        }
        i = i + 1;
    }
    proof {
        assert(v@.take(v@.len() as int) =~= v@);
    }
    r
}

fn copy_option(s: &Option<String>) -> (r: Option<String>)
    ensures
        viewed_option(r) == viewed_option(*s),
{
    match s {
        Some(s) => Some(s.clone()),
        None => None,
    }
}

impl SaveJob {
    /// The steps of the save, in order.
    pub open spec fn steps(self) -> Seq<Step> {
        let stack = match self.stack {
            Some(p) => seq![Step::WriteStack(p@)],
            None => Seq::empty(),
        };
        let file = match self.dest.file {
            Some(p) => seq![Step::WriteJson(p@)],
            None => Seq::empty(),
        };
        let print = if self.dest.stdout {
            seq![Step::Print]
        } else {
            Seq::empty()
        };
        stack + file + print
    }

    /// The steps of the save, in order.
    pub fn actions(&self) -> (r: Vec<SaveAction>)
        ensures
            r@.map_values(|a: SaveAction| a@) == self.steps(),
    {
        let mut r: Vec<SaveAction> = Vec::new();
        if let Some(p) = &self.stack {
            r.push(SaveAction::WriteStack(p.clone()));
        }
        if let Some(p) = &self.dest.file {
            r.push(SaveAction::WriteJson(p.clone()));
        }
        if self.dest.stdout {
            r.push(SaveAction::Print);
        }
        proof {
            assert(r@.map_values(|a: SaveAction| a@) =~= self.steps());
        }
        r
    }
}

/// What is said of a save: every step when all were done, or the one that
/// failed, with the reason.
pub fn report(actions: &Vec<SaveAction>, failed: Option<(usize, String)>) -> (r: Result<
    String,
    String,
>)
    requires
        failed matches Some((k, _)) ==> k < actions@.len(),
    ensures
        match (failed, r) {
            (Some((k, e)), Err(m)) => m@ == actions@[k as int]@.failure(e@),
            (None, Ok(m)) => m@ == "Saved: "@ + listed(
                actions@.map_values(|a: SaveAction| a@.note()),
            ),
            _ => false,
        },
{
    match failed {
        Some((k, e)) => {
            let path: &str = match &actions[k] {
                SaveAction::WriteStack(p) => p.as_str(),
                SaveAction::WriteJson(p) => p.as_str(),
                SaveAction::Print => return Err(e),
            };
            let mut m: String = concat("Failed to write ", path);
            m.append(": ");
            m.append(e.as_str());
            Err(m)
        },
        None => {
            let mut notes: Vec<String> = Vec::new();
            let mut i: usize = 0;
            while i < actions.len()
                invariant
                    i <= actions@.len(),
                    texts(notes@) == actions@.take(i as int).map_values(
                        |a: SaveAction| a@.note(),
                    ),
                decreases actions@.len() - i,
            {
                let note: String = match &actions[i] {
                    SaveAction::WriteStack(p) => concat("cropped stack → ", p.as_str()),
                    SaveAction::WriteJson(p) => concat("crop → ", p.as_str()),
                    SaveAction::Print => "crop → stdout".to_owned(),
                };
                let ghost before = notes@;
                notes.push(note);
                proof {
                    assert(texts(notes@) =~= texts(before).push(actions@[i as int]@.note()));
                    assert(actions@.take(i + 1).map_values(|a: SaveAction| a@.note())
                        =~= actions@.take(i as int).map_values(
                        |a: SaveAction| a@.note(),
                    ).push(actions@[i as int]@.note()));
                }
                i = i + 1;
            }
            proof {
                assert(actions@.take(actions@.len() as int) =~= actions@);
            }
            Ok(concat("Saved: ", join(&notes).as_str()))
        },
    }
}

/// What comes next in a save: a step to be done, or the end with what is said of
/// the save.
pub enum SaveStep {
    Do(SaveAction),
    End(Result<String, String>),
}

/// What comes next, with texts by their characters.
pub enum Next {
    Do(Step),
    End(Result<Seq<char>, Seq<char>>),
}

impl View for SaveStep {
    type V = Next;

    open spec fn view(&self) -> Next {
        match self {
            SaveStep::Do(a) => Next::Do(a@),
            SaveStep::End(Ok(m)) => Next::End(Ok(m@)),
            SaveStep::End(Err(m)) => Next::End(Err(m@)),
        }
    }
}

impl SaveJob {
    /// What comes after `done` steps, when `failed` says why the last of them
    /// failed: a failed step ends the save, so that no step after it is done.
    pub open spec fn after(self, done: nat, failed: Option<Seq<char>>) -> Next {
        match failed {
            Some(e) => Next::End(Err(self.steps()[done - 1].failure(e))),
            None => if done < self.steps().len() {
                Next::Do(self.steps()[done as int])
            } else {
                Next::End(Ok("Saved: "@ + listed(self.steps().map_values(|s: Step| s.note()))))
            },
        }
    }

    /// What comes after `done` steps of the save; `last` is the outcome of the last
    /// of them.
    pub fn next_step(&self, done: usize, last: Option<Result<(), String>>) -> (r: SaveStep)
        requires
            done <= self.steps().len(),
            last matches Some(Err(_)) ==> done > 0,
        ensures
            r@ == self.after(
                done as nat,
                match last {
                    Some(Err(e)) => Some(e@),
                    _ => None,
                },
            ),
    {
        let mut actions: Vec<SaveAction> = self.actions();
        proof {
            assert(self.steps().map_values(|s: Step| s.note()) =~= actions@.map_values(
                |a: SaveAction| a@.note(),
            ));
            assert(forall|i: int|
                0 <= i < actions@.len() ==> #[trigger] actions@[i]@ == self.steps()[i]);
        }
        if let Some(Err(e)) = last {
            return SaveStep::End(report(&actions, Some((done - 1, e))));
        }
        if done < actions.len() {
            SaveStep::Do(actions.swap_remove(done))
        } else {
            SaveStep::End(report(&actions, None))
        }
    }

    /// The whole save, from after `done` steps on, when `outcomes` says why a step
    /// fails, if it does: how many steps are done, and what is said in the end.
    pub open spec fn run_from(
        self,
        done: nat,
        failed: Option<Seq<char>>,
        outcomes: Seq<Option<Seq<char>>>,
    ) -> (nat, Result<Seq<char>, Seq<char>>)
        decreases self.steps().len() - done,
    {
        match self.after(done, failed) {
            Next::Do(_) => if done < self.steps().len() {
                self.run_from(done + 1, outcomes[done as int], outcomes)
            } else {
                (done, Err(Seq::empty()))
            },
            Next::End(r) => (done, r),
        }
    }

    proof fn lemma_run_until(self, done: nat, outcomes: Seq<Option<Seq<char>>>, k: int)
        requires
            done <= k <= self.steps().len(),
            outcomes.len() == self.steps().len(),
            forall|i: int| 0 <= i < k ==> outcomes[i] is None,
        ensures
            self.run_from(done, None, outcomes) == self.run_from(k as nat, None, outcomes),
        decreases k - done,
    {
        if done < k {
            self.lemma_run_until(done + 1, outcomes, k);
        }
    }

    /// The first step that fails ends the save: the steps after it are not done, and
    /// the failure is what is said. Only a save whose steps were all done is said to
    /// be one.
    pub proof fn law_first_failure_ends_the_save(self, outcomes: Seq<Option<Seq<char>>>, k: int)
        requires
            outcomes.len() == self.steps().len(),
            0 <= k <= self.steps().len(),
            forall|i: int| 0 <= i < k ==> outcomes[i] is None,
            k < self.steps().len() ==> outcomes[k] is Some,
        ensures
            self.run_from(0, None, outcomes) == (if k < self.steps().len() {
                (
                    (k + 1) as nat,
                    Err::<Seq<char>, Seq<char>>(self.steps()[k].failure(outcomes[k]->0)),
                )
            } else {
                (
                    self.steps().len(),
                    Ok("Saved: "@ + listed(self.steps().map_values(|s: Step| s.note()))),
                )
            }),
    {
        self.lemma_run_until(0, outcomes, k);
        if k < self.steps().len() {
            assert(self.run_from(k as nat, None, outcomes) == self.run_from(
                (k + 1) as nat,
                outcomes[k],
                outcomes,
            ));
        }
    }
}

/// A save was asked for: it is begun when there is a crop and none is running.
pub open spec fn save_asked(
    before: CropApp,
    file: Option<Seq<char>>,
    stdout: bool,
    stack: Option<Seq<char>>,
    close_after: bool,
    job: Option<SaveJob>,
    after: CropApp,
) -> bool {
    if before.output.saving {
        job is None && after == before
    } else {
        match (before.source.data, before.crop_region()) {
            (Some(d), Some(c)) => {
                &&& job matches Some(j) && {
                    &&& j.crop == c
                    &&& j.json@ == c.json(d.width as nat, d.height as nat, d.path@)
                    &&& viewed_option(j.dest.file) == file
                    &&& j.dest.stdout == stdout
                    &&& viewed_option(j.stack) == stack
                }
                &&& after == (CropApp {
                    output: Output { saving: true, close_after_save: close_after, ..before.output },
                    status: after.status,
                    ..before
                })
                &&& after.status@ == (match stack {
                    Some(p) => "Writing the cropped stack to "@ + p + "…"@,
                    None => "Saving the crop…"@,
                })
            },
            _ => {
                &&& job is None
                &&& after == (CropApp { status: after.status, ..before })
                &&& after.status@ == "Nothing to save — draw a crop region first."@
            },
        }
    }
}

/// It was asked whether a save is done; `close` when the window closes.
pub open spec fn save_polled(
    before: CropApp,
    found: Poll<Result<String, String>>,
    close: bool,
    after: CropApp,
) -> bool {
    let idle = Output { saving: false, close_after_save: false, ..before.output };
    match found {
        Poll::Ready(r) if before.output.saving => {
            &&& close == (r is Ok && before.output.close_after_save)
            &&& after == (CropApp {
                output: idle,
                status: match r {
                    Ok(message) => message,
                    Err(message) => message,
                },
                ..before
            })
        },
        Poll::Gone if before.output.saving => !close && after == (CropApp {
            output: idle,
            ..before
        }),
        _ => !close && after == before,
    }
}

impl CropApp {
    /// The crop-JSON destination of the save-and-quit / return-to-caller
    /// button.
    pub open spec fn quit_file(self) -> Option<Seq<char>> {
        match (self.output.path, self.output.stack) {
            (Some(p), _) => Some(p@),
            (None, Some(s)) => Some(sidecar(s@)),
            (None, None) => None,
        }
    }

    /// Write the crop JSON (to a file or stdout) and, when asked, the cropped
    /// 3-D stack, on a background thread — the stack can be GBs. When
    /// `close_after` is set the window closes once the save succeeded (the
    /// save-and-quit / return-to-caller workflows). Returns the save to be done.
    pub fn start_save(
        &mut self,
        dest: JsonDest,
        stack: Option<String>,
        close_after: bool,
    ) -> (job: Option<SaveJob>)
        requires
            old(self).wf(),
        ensures
            final(self).wf(),
            save_asked(
                *old(self),
                viewed_option(dest.file),
                dest.stdout,
                viewed_option(stack),
                close_after,
                job,
                *final(self),
            ),
    {
        if self.output.saving {
            return None;
        }
        let crop: Option<CropRect> = self.crop_px();
        let (crop, json): (CropRect, String) = match (&self.source.data, crop) {
            (Some(d), Some(c)) => (c, c.to_json(d.width, d.height, d.path.as_str())),
            _ => {
                self.status = "Nothing to save — draw a crop region first.".to_owned();
                return None;
            },
        };
        self.output.saving = true;
        self.output.close_after_save = close_after;
        self.status = match &stack {
            Some(p) => {
                let mut s: String = concat("Writing the cropped stack to ", p.as_str());
                s.append("…");
                s
            },
            None => "Saving the crop…".to_owned(),
        };
        Some(SaveJob { crop, json, dest, stack })
    }

    /// Take in the result of a save. Returns whether the window closes.
    pub fn poll_saving(&mut self, found: Poll<Result<String, String>>) -> (close: bool)
        requires
            old(self).wf(),
        ensures
            final(self).wf(),
            save_polled(*old(self), found, close, *final(self)),
    {
        if !self.output.saving {
            return false;
        }
        match found {
            Poll::Ready(result) => {
                self.output.saving = false;
                let mut close: bool = false;
                match result {
                    Ok(message) => {
                        self.status = message;
                        close = self.output.close_after_save;
                    },
                    Err(message) => {
                        self.status = message;
                    },
                }
                self.output.close_after_save = false;
                close
            },
            Poll::Empty => false,
            Poll::Gone => {
                self.output.saving = false;
                self.output.close_after_save = false;
                false
            },
        }
    }

    /// The crop-JSON destination of the save-and-quit / return-to-caller
    /// button: `--output` when given, otherwise a `<stem>_crop.json` sidecar
    /// next to the cropped stack — the crop region is always returned so the
    /// caller can re-apply it to another data set. Driven by another
    /// application, the JSON is additionally printed on stdout.
    pub fn quit_json_dest(&self) -> (r: JsonDest)
        ensures
            viewed_option(r.file) == self.quit_file(),
            r.stdout == self.output.called_from_app,
    {
        let file: Option<String> = match (&self.output.path, &self.output.stack) {
            (Some(p), _) => Some(p.clone()),
            (None, Some(s)) => Some(stack_sidecar_json(s.as_str())),
            (None, None) => None,
        };
        JsonDest { file, stdout: self.output.called_from_app }
    }

    /// The save-and-quit / return-to-caller button: crop JSON (and cropped
    /// stack when `--output-stack` was given), then close.
    pub fn save_and_quit(&mut self) -> (job: Option<SaveJob>)
        requires
            old(self).wf(),
        ensures
            final(self).wf(),
            save_asked(
                *old(self),
                old(self).quit_file(),
                old(self).output.called_from_app,
                viewed_option(old(self).output.stack),
                true,
                job,
                *final(self),
            ),
            job is Some ==> final(self).output.close_after_save,
    {
        let dest: JsonDest = self.quit_json_dest();
        let stack: Option<String> = copy_option(&self.output.stack);
        self.start_save(dest, stack, true)
    }

    /// Save the crop to a file that was picked, if one was.
    pub fn save_crop_dialog(&mut self, picked: Option<String>) -> (job: Option<SaveJob>)
        requires
            old(self).wf(),
        ensures
            final(self).wf(),
            match picked {
                Some(p) => save_asked(*old(self), Some(p@), false, None, false, job, *final(self)),
                None => job is None && *final(self) == *old(self),
            },
            job is Some ==> !final(self).output.close_after_save,
    {
        match picked {
            Some(p) => self.start_save(JsonDest { file: Some(p), stdout: false }, None, false),
            None => None,
        }
    }

    /// Save the cropped stack to a file that was picked, if one was. The applied
    /// crop region always travels with the stack, as a `<stem>_crop.json`
    /// sidecar.
    pub fn save_stack_dialog(&mut self, picked: Option<String>) -> (job: Option<SaveJob>)
        requires
            old(self).wf(),
        ensures
            final(self).wf(),
            match picked {
                Some(p) => save_asked(
                    *old(self),
                    Some(sidecar(p@)),
                    false,
                    Some(p@),
                    false,
                    job,
                    *final(self),
                ),
                None => job is None && *final(self) == *old(self),
            },
            job is Some ==> !final(self).output.close_after_save,
            job matches Some(j) ==> j.steps().len() == 2,
    {
        match picked {
            Some(p) => {
                let file: String = stack_sidecar_json(p.as_str());
                self.start_save(JsonDest { file: Some(file), stdout: false }, Some(p), false)
            },
            None => None,
        }
    }

    /// Whether there is something to save, and no save is running.
    pub fn can_save(&self) -> (r: bool)
        ensures
            r == (self.crop_region() is Some && !self.output.saving),
    {
        self.crop_px().is_some() && !self.output.saving
    }

    /// What the save-and-quit / return-to-caller button sends.
    pub open spec fn sends(self) -> Seq<Seq<char>> {
        let file = match self.quit_file() {
            Some(p) => seq!["crop → "@ + p],
            None => Seq::empty(),
        };
        let stdout = if self.output.called_from_app {
            seq!["crop → stdout"@]
        } else {
            Seq::empty()
        };
        let stack = match self.output.stack {
            Some(p) => seq!["cropped 3-D stack (.npy) → "@ + p@],
            None => Seq::empty(),
        };
        file + stdout + stack
    }

    /// The label and the explanation of the save-and-quit / return-to-caller
    /// button, when there is somewhere for the result to go.
    pub fn quit_button(&self) -> (r: Option<(&'static str, String)>)
        ensures
            match r {
                Some((label, hover)) => {
                    &&& self.output.called_from_app || self.output.path is Some
                        || self.output.stack is Some
                    &&& label@ == (if self.output.called_from_app {
                        "↩ Return to main application"@
                    } else {
                        "✅ Save crop & quit"@
                    })
                    &&& hover@ == (if self.output.called_from_app {
                        "Return the result to the calling application ("@ + listed(self.sends())
                            + ") and close"@
                    } else {
                        "Write the result ("@ + listed(self.sends()) + ") and close"@
                    })
                },
                None => !self.output.called_from_app && self.output.path is None
                    && self.output.stack is None,
            },
    {
        if !self.output.called_from_app && self.output.path.is_none() && self.output.stack.is_none() {
            return None;
        }
        let dest: JsonDest = self.quit_json_dest();
        let mut sends: Vec<String> = Vec::new();
        if let Some(p) = &dest.file {
            sends.push(concat("crop → ", p.as_str()));
        }
        if dest.stdout {
            sends.push("crop → stdout".to_owned());
        }
        if let Some(p) = &self.output.stack {
            sends.push(concat("cropped 3-D stack (.npy) → ", p.as_str()));
        }
        proof {
            assert(texts(sends@) =~= self.sends());
        }
        let list: String = join(&sends);
        if self.output.called_from_app {
            let mut hover: String = concat(
                "Return the result to the calling application (",
                list.as_str(),
            );
            hover.append(") and close");
            Some(("↩ Return to main application", hover))
        } else {
            let mut hover: String = concat("Write the result (", list.as_str());
            hover.append(") and close");
            Some(("✅ Save crop & quit", hover))
        }
    }
}

// ----- laws --------------------------------------------------------------------------

/// The crop always travels with a stack: whenever the save-and-quit button
/// writes a stack, it also writes the crop to a file.
pub proof fn law_crop_travels_with_the_stack(
    before: CropApp,
    job: SaveJob,
    after: CropApp,
)
    requires
        save_asked(
            before,
            before.quit_file(),
            before.output.called_from_app,
            viewed_option(before.output.stack),
            true,
            Some(job),
            after,
        ),
        job.stack is Some,
    ensures
        job.steps().len() >= 2,
        job.steps()[0] == Step::WriteStack(job.stack->0@),
        job.steps()[1] matches Step::WriteJson(p) && Some(p) == before.quit_file(),
{
}

/// What is written can be read again: the JSON of a save holds its crop.
pub proof fn law_saved_crop_is_read_back(
    before: CropApp,
    file: Option<Seq<char>>,
    stdout: bool,
    stack: Option<Seq<char>>,
    close_after: bool,
    job: SaveJob,
    after: CropApp,
)
    requires
        save_asked(before, file, stdout, stack, close_after, Some(job), after),
    ensures
        CropRect::of_json(job.json@) == Ok::<CropRect, Seq<char>>(job.crop),
        before.crop_region() == Some(job.crop),
{
    let d = before.source.data->0;
    before.editor.crop->0.law_crop_fits(d.width, d.height);
    job.crop.law_json_round_trip(d.width as nat, d.height as nat, d.path@);
}

/// The crop goes to the file that was named, whether or not there is a stack; without a
/// name it goes next to the stack, and without a stack nowhere.
pub proof fn law_named_file_gets_the_crop(app: CropApp, p: String, s: String)
    ensures
        app.output.path == Some(p) ==> app.quit_file() == Some(p@),
        app.output.path is None && app.output.stack == Some(s) ==> {
            &&& app.quit_file() is Some
            &&& file_name(s@) is Some ==> parent(app.quit_file()->0) == parent(s@)
        },
        app.output.path is None && app.output.stack is None ==> app.quit_file() is None,
{
    if file_name(s@) is Some {
        law_sidecar_is_next_to_the_stack(s@);
    }
}

/// The save-and-quit button says what its save does: every step of the save is told, and
/// nothing else.
pub proof fn law_button_tells_every_step(before: CropApp, job: SaveJob, after: CropApp, k: int)
    requires
        save_asked(
            before,
            before.quit_file(),
            before.output.called_from_app,
            viewed_option(before.output.stack),
            true,
            Some(job),
            after,
        ),
        0 <= k < job.steps().len(),
    ensures
        before.sends().len() == job.steps().len(),
        match job.steps()[k] {
            Step::WriteStack(p) => before.sends().contains("cropped 3-D stack (.npy) → "@ + p),
            Step::WriteJson(p) => before.sends().contains("crop → "@ + p),
            Step::Print => before.sends().contains("crop → stdout"@),
        },
{
    let sends = before.sends();
    let n = sends.len();
    if job.steps()[k] is WriteStack {
        assert(sends[n - 1] == "cropped 3-D stack (.npy) → "@ + job.stack->0@);
    } else if job.steps()[k] is WriteJson {
        assert(sends[0] == "crop → "@ + before.quit_file()->0);
    } else {
        let at = if before.quit_file() is Some {
            1int
        } else {
            0
        };
        assert(sends[at] == "crop → stdout"@);
    }
}

/// Only one save runs at a time.
pub proof fn law_one_save_at_a_time(
    before: CropApp,
    file: Option<Seq<char>>,
    stdout: bool,
    stack: Option<Seq<char>>,
    close_after: bool,
    job: Option<SaveJob>,
    after: CropApp,
)
    requires
        save_asked(before, file, stdout, stack, close_after, job, after),
    ensures
        job is Some ==> !before.output.saving && after.output.saving,
        before.output.saving ==> after == before,
{
}

/// The window closes only after a save that succeeded and that was asked to close it:
/// never before the save is done, and not when it failed. Either way nothing is being
/// saved any more, and what happened is said.
pub proof fn law_only_a_successful_save_closes(
    before: CropApp,
    file: Option<Seq<char>>,
    stdout: bool,
    stack: Option<Seq<char>>,
    close_after: bool,
    job: SaveJob,
    saving: CropApp,
    found: Poll<Result<String, String>>,
    close: bool,
    after: CropApp,
)
    requires
        save_asked(before, file, stdout, stack, close_after, Some(job), saving),
        save_polled(saving, found, close, after),
    ensures
        close <==> close_after && (found matches Poll::Ready(r) && r is Ok),
        found is Empty ==> after == saving,
        !(found is Empty) ==> !after.output.saving && !after.output.close_after_save,
        found matches Poll::Ready(Ok(m)) ==> after.status == m,
        found matches Poll::Ready(Err(m)) ==> after.status == m,
        after.editor == before.editor && after.source == before.source,
        after.output.path == before.output.path && after.output.stack == before.output.stack,
        after.output.called_from_app == before.output.called_from_app,
{
}

/// A save does what was asked for and nothing else: it writes the stack only where one
/// was asked for, the crop to the file that was named, and prints it only where that was
/// asked for. The stack comes first.
pub proof fn law_save_does_what_was_asked(
    before: CropApp,
    file: Option<Seq<char>>,
    stdout: bool,
    stack: Option<Seq<char>>,
    close_after: bool,
    job: SaveJob,
    after: CropApp,
)
    requires
        save_asked(before, file, stdout, stack, close_after, Some(job), after),
    ensures
        forall|p: Seq<char>| #[trigger]
            job.steps().contains(Step::WriteStack(p)) <==> stack == Some(p),
        forall|p: Seq<char>| #[trigger]
            job.steps().contains(Step::WriteJson(p)) <==> file == Some(p),
        job.steps().contains(Step::Print) <==> stdout,
        stack is Some ==> job.steps()[0] == Step::WriteStack(stack->0),
        stdout ==> job.steps().last() == Step::Print,
{
    let s = job.steps();
    let a: int = if stack is Some {
        1
    } else {
        0
    };
    let b: int = if file is Some {
        1
    } else {
        0
    };
    if stack is Some {
        assert(s[0] == Step::WriteStack(stack->0));
    }
    if file is Some {
        assert(s[a] == Step::WriteJson(file->0));
    }
    if stdout {
        assert(s[a + b] == Step::Print);
    }
}

impl Step {
    /// What is said of a step that failed ends in the reason.
    pub proof fn law_failure_gives_the_reason(self, e: Seq<char>)
        ensures
            self.failure(e).len() >= e.len(),
            self.failure(e).skip(self.failure(e).len() - e.len()) == e,
    {
        let t = self.failure(e);
        assert(t.skip(t.len() - e.len()) =~= e);
    }
}

/// The JSON of a save records the image that the crop was drawn on: the width and the
/// height of the images of the stack, and the folder or file that it came from.
pub proof fn law_saved_json_records_the_image(
    before: CropApp,
    file: Option<Seq<char>>,
    stdout: bool,
    stack: Option<Seq<char>>,
    close_after: bool,
    job: SaveJob,
    after: CropApp,
    d: FolderData,
)
    requires
        save_asked(before, file, stdout, stack, close_after, Some(job), after),
        before.source.data matches Some(b) && *b == d,
    ensures
        uint_field(job.json@, "image_width"@) == Some(d.width),
        ends_with(
            job.json@,
            "image_height\": "@ + decimal(d.height as nat) + ",\n  \"folder\": \""@ + escaped(
                d.path@,
            ) + "\"\n}\n"@,
        ),
{
    job.crop.law_json_records_the_image(d.width, d.height as nat, d.path@);
}

} // verus!
