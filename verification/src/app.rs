//! The state of the application, and what changes it: loading an input, the
//! crop with its undo history, the display and the crop statistics.
//!
//! Background work (loading, statistics, saving) is done elsewhere; here it is
//! only known whether it is running, and what came back.
use crate::binary::Binary32;
use crate::crop::{ends_with, CropRect, RectF};
use crate::display::{
    law_range_holds_every_value, lemma_span_is_ordered, normalize_range, raw_range, span_of,
    DisplayMode, Span,
};
use crate::editor::{same_crop, Drag, Edit, Editor};
use crate::frame::Frame;
use crate::loader::FolderData;
use crate::paths::{folder_label, label};
use crate::round::Format;
use crate::screen::{Contrast, Player, Screen};
use crate::stats::CropStats;
use crate::text::{decimal, push_decimal};
use std::sync::Arc;
use vstd::arithmetic::power2::{lemma_pow2_pos, lemma_pow2_unfold, pow2};
use vstd::prelude::*;
use vstd::string::*;

verus! {

/// A folder load in flight.
#[derive(Clone, Copy, PartialEq, Eq, Structural, Debug)]
pub struct LoadJob {
    pub done: usize,
    pub total: usize,
}

/// Messages sent from the background loading thread.
pub enum LoadMsg {
    Progress { done: usize, total: usize },
    Done(Result<FolderData, String>),
}

/// What is found when background work is asked for its result.
pub enum Poll<T> {
    Ready(T),
    /// Not finished yet.
    Empty,
    /// It ended without a result.
    Gone,
}

/// The inputs and the stack that was loaded from one of them.
pub struct Source {
    /// Folders of TIFF images and/or `.npy` stack files.
    pub inputs: Vec<String>,
    pub selected: Option<usize>,
    pub data: Option<Arc<FolderData>>,
    pub loading: Option<LoadJob>,
}

/// The verification statistics.
pub struct Check {
    pub edge_band: usize,
    pub stats: Option<CropStats>,
    pub running: bool,
    pub dirty: bool,
    pub plot_refit: bool,
}

/// Where the result goes.
pub struct Output {
    pub path: Option<String>,
    /// Where the cropped 3-D stack (`.npy`, float32) is written on save/return.
    pub stack: Option<String>,
    pub called_from_app: bool,
    pub saving: bool,
    pub close_after_save: bool,
}

/// The caller's instructions.
pub struct Help {
    pub instructions: Option<String>,
    pub show: bool,
}

pub struct CropApp {
    pub source: Source,
    pub screen: Screen,
    pub editor: Editor,
    pub check: Check,
    pub output: Output,
    pub help: Help,
    pub status: String,
}

impl CropApp {
    /// What every state keeps: the undo history is bounded, the data can be
    /// shown, and the slider stands on one of its images.
    pub open spec fn wf(self) -> bool {
        &&& self.editor@.wf()
        &&& match self.source.selected {
            Some(i) => i < self.source.inputs@.len(),
            None => true,
        }
        &&& match self.source.data {
            Some(d) => d.wf() && self.screen.player.frame_idx < d.frames@.len(),
            None => true,
        }
    }

    /// The integer crop on the image.
    pub open spec fn crop_region(self) -> Option<CropRect> {
        match (self.source.data, self.editor.crop) {
            (Some(d), Some(r)) => r.crop_on(d.width, d.height),
            _ => None,
        }
    }

    pub fn new(
        inputs: Vec<String>,
        initial_crop: Option<CropRect>,
        output_path: Option<String>,
        output_stack: Option<String>,
        called_from_app: bool,
        instructions: Option<String>,
    ) -> (app: CropApp)
        ensures
            app.wf(),
            app.source == (Source { inputs, selected: None, data: None, loading: None }),
            app.screen == (Screen {
                mode: DisplayMode::Integrated,
                ranges: app.screen.ranges,
                contrast: Contrast::full(Span::unit()),
                player: Player { frame_idx: 0, playing: false, last_advance: None },
                img_dirty: false,
                scale: Binary32::one(),
                fit_requested: false,
                cursor: None,
                dim_outside: true,
            }),
            forall|i: int| 0 <= i < 6 ==> #[trigger] app.screen.ranges@[i] == Span::unit(),
            app.editor@ == (Edit {
                crop: None,
                initial_crop,
                undo: Seq::empty(),
                drag: Drag::idle(),
            }),
            app.check == (Check {
                edge_band: 5,
                stats: None,
                running: false,
                dirty: false,
                plot_refit: false,
            }),
            app.output == (Output {
                path: output_path,
                stack: output_stack,
                called_from_app,
                saving: false,
                close_after_save: false,
            }),
            app.help == (Help { instructions, show: instructions is Some }),
            app.status@ == (if inputs@.len() == 0 {
                "Add a folder of TIFF images or a .npy stack to begin."@
            } else {
                decimal(inputs@.len()) + " input(s) on the command line."@
            }),
    {
        let mut status: String = String::new();
        if inputs.len() == 0 {
            status.append("Add a folder of TIFF images or a .npy stack to begin.");
            proof {
                assert(status@ =~= "Add a folder of TIFF images or a .npy stack to begin."@);
            }
        } else {
            push_decimal(&mut status, inputs.len() as u128);
            status.append(" input(s) on the command line.");
            proof {
                assert(status@ =~= decimal(inputs@.len()) + " input(s) on the command line."@);
            }
        }
        let one: Binary32 = Binary32::one();
        let zero: Binary32 = Binary32::zero();
        let unit: Span = Span { lo: zero, hi: one };
        let show: bool = instructions.is_some();
        let app: CropApp = CropApp {
            source: Source { inputs, selected: None, data: None, loading: None },
            screen: Screen {
                mode: DisplayMode::Integrated,
                ranges: [unit, unit, unit, unit, unit, unit],
                contrast: Contrast { data_min: zero, data_max: one, vmin: zero, vmax: one },
                player: Player { frame_idx: 0, playing: false, last_advance: None },
                img_dirty: false,
                scale: one,
                fit_requested: false,
                cursor: None,
                dim_outside: true,
            },
            editor: Editor {
                crop: None,
                initial_crop,
                undo: Vec::new(),
                drag: Drag {
                    drawing: false,
                    moving: false,
                    resizing: None,
                    changed: false,
                    move_last: None,
                    start: None,
                },
            },
            check: Check {
                edge_band: 5,
                stats: None,
                running: false,
                dirty: false,
                plot_refit: false,
            },
            output: Output {
                path: output_path,
                stack: output_stack,
                called_from_app,
                saving: false,
                close_after_save: false,
            },
            help: Help { instructions, show },
            status,
        };
        app
    }

    // ----- input loading -----------------------------------------------------

    /// Start loading the first input, if any. Returns whether a load has to be
    /// started.
    pub fn select_first(&mut self) -> (started: bool)
        requires
            old(self).wf(),
        ensures
            final(self).wf(),
            started == (old(self).source.inputs@.len() > 0),
            input_selected(*old(self), 0, *final(self)),
    {
        self.select_input(0)
    }

    /// Start loading an input. Returns whether there is one: its load has to be
    /// started, and replaces one that is in flight.
    pub fn select_input(&mut self, idx: usize) -> (started: bool)
        requires
            old(self).wf(),
        ensures
            final(self).wf(),
            started == (idx < old(self).source.inputs@.len()),
            input_selected(*old(self), idx, *final(self)),
    {
        if idx >= self.source.inputs.len() {
            return false;
        }
        let mut status: String = "Loading ".to_owned();
        status.append(folder_label(self.source.inputs[idx].as_str()).as_str());
        status.append("…");
        self.source.selected = Some(idx);
        self.source.loading = Some(LoadJob { done: 0, total: 0 });
        self.status = status;
        true
    }

    /// Add an input and start loading it.
    pub fn add_input(&mut self, path: String)
        requires
            old(self).wf(),
        ensures
            final(self).wf(),
            ({
                let inputs = old(self).source.inputs@.push(path);
                &&& final(self).source.inputs@ == inputs
                &&& *final(self) == (CropApp {
                    source: Source {
                        inputs: final(self).source.inputs,
                        selected: Some((inputs.len() - 1) as usize),
                        loading: Some(LoadJob { done: 0, total: 0 }),
                        ..old(self).source
                    },
                    status: final(self).status,
                    ..*old(self)
                })
                &&& final(self).status@ == "Loading "@ + label(path@) + "…"@
            }),
    {
        self.source.inputs.push(path);
        let last: usize = self.source.inputs.len() - 1;
        self.select_input(last);
    }

    /// Pick an input from the list. Returns whether its load has to be started:
    /// picking the one that is selected changes nothing.
    pub fn pick_input(&mut self, idx: usize) -> (started: bool)
        requires
            old(self).wf(),
        ensures
            final(self).wf(),
            if old(self).source.selected == Some(idx) {
                !started && *final(self) == *old(self)
            } else {
                started == (idx < old(self).source.inputs@.len()) && input_selected(
                    *old(self),
                    idx,
                    *final(self),
                )
            },
    {
        if let Some(i) = self.source.selected {
            if i == idx {
                return false;
            }
        }
        self.select_input(idx)
    }

    /// What the selected input is called.
    pub fn current_label(&self) -> (r: String)
        requires
            self.wf(),
        ensures
            r@ == (match self.source.selected {
                Some(i) => label(self.source.inputs@[i as int]@),
                None => "— select an input —"@,
            }),
    {
        match self.source.selected {
            Some(i) => folder_label(self.source.inputs[i].as_str()),
            None => "— select an input —".to_owned(),
        }
    }

    /// Take in what the loading thread has sent since the last time.
    pub fn poll_load(&mut self, msgs: Vec<LoadMsg>)
        requires
            old(self).wf(),
            forall|i: int| 0 <= i < msgs@.len() ==> sound(#[trigger] msgs@[i]),
        ensures
            final(self).wf(),
            load_polled(*old(self), msgs@, *final(self)),
    {
        let job: LoadJob = match self.source.loading {
            Some(job) => job,
            None => return ,
        };
        let (job, result): (LoadJob, Option<Result<FolderData, String>>) = read_messages(job, msgs);
        match result {
            None => {
                self.source.loading = Some(job);
            },
            Some(Ok(data)) => {
                self.source.loading = None;
                self.apply_data(data);
            },
            Some(Err(e)) => {
                self.source.loading = None;
                let mut status: String = "Load failed: ".to_owned();
                status.append(e.as_str());
                self.status = status;
            },
        }
    }

    /// Show a stack that was loaded.
    pub fn apply_data(&mut self, data: FolderData)
        requires
            old(self).wf(),
            data.wf(),
        ensures
            final(self).wf(),
            data_applied(*old(self), data, *final(self)),
    {
        // Keep the user's crop when the new folder has the same image size.
        let same: bool = match &self.source.data {
            Some(d) => d.width == data.width && d.height == data.height,
            None => false,
        };
        let note: &str = self.editor.start_on(same, data.width, data.height);
        self.screen.start_on(&data);
        self.status = loaded_text(&data, note);
        self.source.data = Some(Arc::new(data));
        self.check.plot_refit = true;
        self.check.stats = None;
        self.check.dirty = true;
    }

    // ----- crop statistics ----------------------------------------------------

    /// Take in the result of the statistics computation, if there is one.
    pub fn poll_stats(&mut self, found: Poll<CropStats>)
        requires
            old(self).wf(),
        ensures
            final(self).wf(),
            *final(self) == (CropApp { check: final(self).check, ..*old(self) }),
            final(self).check == old(self).check.polled(found),
    {
        if self.check.running {
            match found {
                Poll::Ready(s) => {
                    self.check.stats = Some(s);
                    self.check.running = false;
                },
                Poll::Empty => {},
                Poll::Gone => {
                    self.check.running = false;
                },
            }
        }
    }

    /// What to compute statistics of, if it is time to: the crop and the width
    /// of the edge band. At most one statistics computation runs at a time; if
    /// the crop changes while one is in flight, `dirty` stays set and the next
    /// call starts a fresh one, so the plot converges to the latest crop.
    pub fn maybe_spawn_stats(&mut self) -> (r: Option<(CropRect, usize)>)
        requires
            old(self).wf(),
        ensures
            final(self).wf(),
            *final(self) == (CropApp { check: final(self).check, ..*old(self) }),
            r is Some ==> !old(self).check.running && old(self).check.dirty,
            (r, final(self).check) == old(self).stats_asked(),
    {
        if !self.check.dirty || self.check.running || self.source.loading.is_some()
            || self.source.data.is_none() {
            return None;
        }
        let crop: Option<CropRect> = self.crop_px();
        self.check.dirty = false;
        match crop {
            Some(crop) => {
                self.check.running = true;
                let band: usize = if self.check.edge_band == 0 {
                    1
                } else {
                    self.check.edge_band
                };
                Some((crop, band))
            },
            None => {
                self.check.stats = None;
                None
            },
        }
    }

    /// Set the width of the edge band.
    pub fn set_edge_band(&mut self, band: usize)
        requires
            old(self).wf(),
        ensures
            final(self).wf(),
            *final(self) == (CropApp {
                check: Check { edge_band: band, dirty: true, ..old(self).check },
                ..*old(self)
            }),
    {
        self.check.edge_band = band;
        self.check.dirty = true;
    }

    // ----- crop model ---------------------------------------------------------

    /// The integer crop currently on the image, if any.
    pub fn crop_px(&self) -> (r: Option<CropRect>)
        ensures
            r == self.crop_region(),
    {
        match (&self.source.data, self.editor.crop) {
            (Some(d), Some(r)) => r.to_crop(d.width, d.height),
            _ => None,
        }
    }

    pub fn undo(&mut self)
        requires
            old(self).wf(),
        ensures
            final(self).wf(),
            edited(
                *old(self),
                old(self).editor@.undone(),
                old(self).editor@.undo.len() > 0,
                *final(self),
            ),
            final(self).editor.crop != old(self).editor.crop ==> final(self).check.dirty,
    {
        if self.editor.undo() {
            self.check.dirty = true;
        }
    }

    pub fn set_crop(&mut self, crop: Option<RectF>)
        requires
            old(self).wf(),
        ensures
            final(self).wf(),
            crop_set(*old(self), crop, *final(self)),
    {
        if self.editor.set_crop(crop) {
            self.check.dirty = true;
        }
    }

    /// Set the crop to the whole image, if there is one.
    pub fn use_full_image(&mut self)
        requires
            old(self).wf(),
        ensures
            final(self).wf(),
            full_image_used(*old(self), *final(self)),
    {
        let (w, h): (usize, usize) = match &self.source.data {
            Some(d) => (d.width, d.height),
            None => return ,
        };
        self.set_crop(Some(CropRect::full(w, h).to_rectf()));
    }

    /// Set the crop to the region passed on the command line, as far as it lies
    /// on the image.
    pub fn use_initial_crop(&mut self)
        requires
            old(self).wf(),
        ensures
            final(self).wf(),
            initial_crop_used(*old(self), *final(self)),
    {
        let (w, h): (usize, usize) = match &self.source.data {
            Some(d) => (d.width, d.height),
            None => return ,
        };
        if let Some(init) = self.editor.initial_crop {
            match init.clamp_to(w, h) {
                Some(c) => {
                    self.set_crop(Some(c.to_rectf()));
                },
                None => {
                    self.status = "Initial crop is outside this image — not applied.".to_owned();
                },
            }
        }
    }

    /// Set the crop to numbers typed in the panel: a direct numeric edit is
    /// undoable like a drag.
    pub fn edit_crop_fields(&mut self, x: i64, y: i64, width: i64, height: i64)
        requires
            old(self).wf(),
            old(self).source.data matches Some(d) ==> {
                &&& 0 <= x < d.width
                &&& 0 <= y < d.height
                &&& width <= d.width
                &&& height <= d.height
            },
        ensures
            final(self).wf(),
            fields_typed(*old(self), x, y, width, height, *final(self)),
    {
        let (w, h): (usize, usize) = match &self.source.data {
            Some(d) => (d.width, d.height),
            None => return ,
        };
        proof {
            lemma_addressable_sides(h as nat, w as nat);
        }
        let c: CropRect = CropRect {
            x: x as usize,
            y: y as usize,
            width: if width < 1 {
                1
            } else {
                width as usize
            },
            height: if height < 1 {
                1
            } else {
                height as usize
            },
        };
        assert(c == typed_crop(x, y, width, height));
        if let Some(c) = c.clamp_to(w, h) {
            self.editor.push_undo();
            self.editor.crop = Some(c.to_rectf());
        }
        self.check.dirty = true;
    }

    // ----- display -----------------------------------------------------------

    pub fn set_mode(&mut self, mode: DisplayMode)
        requires
            old(self).wf(),
        ensures
            final(self).wf(),
            *final(self) == (CropApp { screen: old(self).screen.in_mode(mode), ..*old(self) }),
    {
        self.screen.set_mode(mode);
    }

    /// Jump the viewer to one image (e.g. from a click on the plot).
    pub fn show_frame(&mut self, idx: usize)
        requires
            old(self).wf(),
        ensures
            final(self).wf(),
            *final(self) == (match old(self).source.data {
                Some(d) => CropApp {
                    screen: old(self).screen.on_frame(idx as nat, d.frames@.len()),
                    ..*old(self)
                },
                None => *old(self),
            }),
    {
        let n: usize = match &self.source.data {
            Some(d) => d.n_frames(),
            None => return ,
        };
        self.screen.show_frame(idx, n);
    }

    /// Advance the single-image slider while playing, when it is due: `now` is
    /// the time in nanoseconds. Returns whether it is playing.
    pub fn animate(&mut self, now: u64) -> (playing: bool)
        requires
            old(self).wf(),
        ensures
            final(self).wf(),
            match old(self).source.data {
                Some(d) => {
                    &&& playing == old(self).screen.is_playing()
                    &&& *final(self) == (CropApp {
                        screen: old(self).screen.advanced(now, d.frames@.len()),
                        ..*old(self)
                    })
                },
                None => !playing && *final(self) == *old(self),
            },
    {
        let n: usize = match &self.source.data {
            Some(d) => d.n_frames(),
            None => return false,
        };
        self.screen.animate(now, n)
    }

    // ----- instructions --------------------------------------------------------

    /// The instructions to show on top of the application, if any.
    pub fn instructions_modal(&mut self) -> (r: Option<String>)
        requires
            old(self).wf(),
        ensures
            final(self).wf(),
            match r {
                Some(text) => {
                    &&& old(self).help.show
                    &&& old(self).help.instructions matches Some(t) && t@ == text@
                },
                None => !old(self).help.show || old(self).help.instructions is None,
            },
            *final(self) == (CropApp {
                help: Help {
                    show: old(self).help.show && old(self).help.instructions is Some,
                    ..old(self).help
                },
                ..*old(self)
            }),
    {
        if !self.help.show {
            return None;
        }
        match &self.help.instructions {
            Some(text) => Some(text.clone()),
            None => {
                self.help.show = false;
                None
            },
        }
    }

    /// Open or close the instructions.
    pub fn show_instructions(&mut self, show: bool)
        requires
            old(self).wf(),
        ensures
            final(self).wf(),
            *final(self) == (CropApp { help: Help { show, ..old(self).help }, ..*old(self) }),
    {
        self.help.show = show;
    }
}

/// The region that was typed in: at least one pixel wide and high.
pub open spec fn typed_crop(x: i64, y: i64, width: i64, height: i64) -> CropRect {
    CropRect {
        x: x as usize,
        y: y as usize,
        width: if width < 1 {
            1
        } else {
            width as usize
        },
        height: if height < 1 {
            1
        } else {
            height as usize
        },
    }
}

proof fn lemma_addressable_sides(h: nat, w: nat)
    requires
        crate::frame::addressable(h, w),
    ensures
        h <= isize::MAX,
        w <= isize::MAX,
{
    let a = if h == 0 {
        1
    } else {
        h
    };
    let b = if w == 0 {
        1
    } else {
        w
    };
    assert(a <= a * b && b <= a * b) by (nonlinear_arith)
        requires
            a >= 1,
            b >= 1,
    ;
}

/// Take the messages of the loading thread in order.
fn read_messages(start: LoadJob, msgs: Vec<LoadMsg>) -> (r: (
    LoadJob,
    Option<Result<FolderData, String>>,
))
    requires
        forall|i: int| 0 <= i < msgs@.len() ==> sound(#[trigger] msgs@[i]),
    ensures
        r.0 == last_progress(start, msgs@),
        r.1 == last_result(msgs@),
        r.1 matches Some(Ok(d)) ==> d.wf(),
{
    let ghost all = msgs@;
    let mut job: LoadJob = start;
    let mut result: Option<Result<FolderData, String>> = None;
    proof {
        assert(all.take(0) =~= Seq::<LoadMsg>::empty());
    }
    for msg in it: msgs
        invariant
            it.seq() == all,
            all == msgs@,
            forall|i: int| 0 <= i < all.len() ==> sound(#[trigger] all[i]),
            job == last_progress(start, all.take(it.index())),
            result == last_result(all.take(it.index())),
            result matches Some(Ok(d)) ==> d.wf(),
    {
        proof {
            let k = it.index();
            assert(all.take(k + 1).drop_last() =~= all.take(k));
            assert(all.take(k + 1).last() == msg);
            assert(sound(all[k]));
        }
        match msg {
            LoadMsg::Progress { done, total } => {
                job = LoadJob { done, total };
            },
            LoadMsg::Done(r) => {
                result = Some(r);
            },
        }
    }
    proof {
        assert(all.take(all.len() as int) =~= all);
    }
    (job, result)
}

/// What is said of a stack that was loaded.
fn loaded_text(data: &FolderData, note: &str) -> (r: String)
    ensures
        r@ == "Loaded "@ + decimal(data.frames@.len()) + " images ("@ + decimal(data.width as nat)
            + "×"@ + decimal(data.height as nat) + " px) from "@ + label(data.path@) + note@,
{
    let mut r: String = "Loaded ".to_owned();
    push_decimal(&mut r, data.n_frames() as u128);
    r.append(" images (");
    push_decimal(&mut r, data.width as u128);
    r.append("×");
    push_decimal(&mut r, data.height as u128);
    r.append(" px) from ");
    r.append(folder_label(data.path.as_str()).as_str());
    r.append(note);
    r
}

impl CropApp {
    /// What to compute statistics of, if it is time to, and what is remembered of that.
    pub open spec fn stats_asked(self) -> (Option<(CropRect, usize)>, Check) {
        if !self.check.dirty || self.check.running || self.source.loading is Some
            || self.source.data is None {
            (None, self.check)
        } else {
            match self.crop_region() {
                Some(c) => (
                    Some((c, self.check.band())),
                    Check { dirty: false, running: true, ..self.check },
                ),
                None => (None, Check { dirty: false, stats: None, ..self.check }),
            }
        }
    }
}

impl Check {
    /// The statistics after it was asked whether they are there.
    pub open spec fn polled(self, found: Poll<CropStats>) -> Check {
        match found {
            Poll::Ready(s) if self.running => Check { stats: Some(s), running: false, ..self },
            Poll::Gone => Check { running: false, ..self },
            _ => self,
        }
    }

    /// The width of the edge band that is used.
    pub open spec fn band(self) -> usize {
        if self.edge_band == 0 {
            1
        } else {
            self.edge_band
        }
    }
}

impl Editor {
    /// The crop on a new stack of the given size; `same` when the old one had
    /// it too. Returns what there is to say of the initial crop.
    fn start_on(&mut self, same: bool, w: usize, h: usize) -> (note: &'static str)
        requires
            old(self)@.wf(),
        ensures
            final(self)@.wf(),
            final(self)@ == old(self)@.started(same, w, h),
            note@ == old(self)@.start_note(same, w, h),
    {
        if !same {
            self.crop = None;
            self.undo = Vec::new();
        }
        self.drag.drawing = false;
        self.drag.moving = false;
        self.drag.resizing = None;
        let mut note: &'static str = "";
        if self.crop.is_none() {
            if let Some(init) = self.initial_crop {
                match init.clamp_to(w, h) {
                    Some(c) => {
                        self.crop = Some(c.to_rectf());
                        if c != init {
                            note = " — initial crop clipped to the image";
                        }
                    },
                    None => {
                        note = " — initial crop is outside the image, ignored";
                    },
                }
            }
        }
        proof {
            assert(self@ =~= old(self)@.started(same, w, h));
        }
        note
    }
}

impl Edit {
    /// The crop on a new stack: the old one if the size is the same, else the
    /// initial one as far as it lies on the image. The history is kept when the
    /// size is the same.
    pub open spec fn started(self, same: bool, w: usize, h: usize) -> Edit {
        Edit {
            crop: if same && self.crop is Some {
                self.crop
            } else {
                match self.initial_crop {
                    Some(init) => match init.clamped(w, h) {
                        Some(c) => Some(c.as_rectf()),
                        None => None,
                    },
                    None => None,
                }
            },
            undo: if same {
                self.undo
            } else {
                Seq::empty()
            },
            drag: Drag { drawing: false, moving: false, resizing: None, ..self.drag },
            ..self
        }
    }

    /// What is said of the initial crop, when it had to be changed.
    pub open spec fn start_note(self, same: bool, w: usize, h: usize) -> Seq<char> {
        if same && self.crop is Some {
            ""@
        } else {
            match self.initial_crop {
                Some(init) => match init.clamped(w, h) {
                    Some(c) => if c == init {
                        ""@
                    } else {
                        " — initial crop clipped to the image"@
                    },
                    None => " — initial crop is outside the image, ignored"@,
                },
                None => ""@,
            }
        }
    }
}

impl Screen {
    /// Show a new stack.
    fn start_on(&mut self, data: &FolderData)
        requires
            data.wf(),
        ensures
            screen_started(*old(self), *data, *final(self)),
            final(self).player.frame_idx < data.frames@.len(),
    {
        self.player.playing = false;
        self.ranges = [
            normalize_range(raw_range(data.sum.pixels())),
            normalize_range(raw_range(data.mean.pixels())),
            normalize_range(raw_range(data.max.pixels())),
            normalize_range(raw_range(data.min.pixels())),
            normalize_range(raw_range(data.std.pixels())),
            normalize_range(stack_range(&data.frames)),
        ];
        let n: usize = data.n_frames();
        if self.player.frame_idx > n - 1 {
            self.player.frame_idx = n - 1;
        }
        self.apply_active_range();
        self.fit_requested = true;
        proof {
            assert(self.ranges@ =~= ranges_of(*data));
        }
    }
}

/// The value range of all frames.
pub open spec fn stack_span(frames: Seq<Frame>) -> Span
    decreases frames.len(),
{
    if frames.len() == 0 {
        Span::nothing()
    } else {
        stack_span(frames.drop_last()).over(span_of(frames.last()@.pixels))
    }
}

/// The value range of all frames.
pub fn stack_range(frames: &Vec<Frame>) -> (r: Span)
    ensures
        r == stack_span(frames@),
{
    let mut r: Span = Span {
        lo: Binary32::infinity(),
        hi: Binary32::minus_infinity(),
    };
    let mut i: usize = 0;
    proof {
        assert(frames@.take(0) =~= Seq::<Frame>::empty());
    }
    while i < frames.len()
        invariant
            i <= frames@.len(),
            r == stack_span(frames@.take(i as int)),
        decreases frames@.len() - i,
    {
        proof {
            assert(frames@.take(i + 1).drop_last() =~= frames@.take(i as int));
        }
        let s: Span = raw_range(frames[i].pixels());
        r = Span { lo: r.lo.min(s.lo), hi: r.hi.max(s.hi) };
        i = i + 1;
    }
    proof {
        assert(frames@.take(frames@.len() as int) =~= frames@);
    }
    r
}

// ----- transitions -----------------------------------------------------------------

/// A stack that is sent can be shown.
pub open spec fn sound(msg: LoadMsg) -> bool {
    match msg {
        LoadMsg::Done(Ok(d)) => d.wf(),
        _ => true,
    }
}

/// An input was selected, if there is one at `idx`.
pub open spec fn input_selected(before: CropApp, idx: usize, after: CropApp) -> bool {
    if idx < before.source.inputs@.len() {
        &&& after == (CropApp {
            source: Source {
                selected: Some(idx),
                loading: Some(LoadJob { done: 0, total: 0 }),
                ..before.source
            },
            status: after.status,
            ..before
        })
        &&& after.status@ == "Loading "@ + label(before.source.inputs@[idx as int]@) + "…"@
    } else {
        after == before
    }
}

/// The progress after some messages.
pub open spec fn last_progress(start: LoadJob, msgs: Seq<LoadMsg>) -> LoadJob
    decreases msgs.len(),
{
    if msgs.len() == 0 {
        start
    } else {
        match msgs.last() {
            LoadMsg::Progress { done, total } => LoadJob { done, total },
            LoadMsg::Done(_) => last_progress(start, msgs.drop_last()),
        }
    }
}

/// The result among some messages: the last one counts.
pub open spec fn last_result(msgs: Seq<LoadMsg>) -> Option<Result<FolderData, String>>
    decreases msgs.len(),
{
    if msgs.len() == 0 {
        None
    } else {
        match msgs.last() {
            LoadMsg::Progress { .. } => last_result(msgs.drop_last()),
            LoadMsg::Done(r) => Some(r),
        }
    }
}

/// Messages of the loading thread were taken in.
pub open spec fn load_polled(before: CropApp, msgs: Seq<LoadMsg>, after: CropApp) -> bool {
    match before.source.loading {
        None => after == before,
        Some(job) => {
            let idle = Source { loading: None, ..before.source };
            match last_result(msgs) {
                None => after == (CropApp {
                    source: Source { loading: Some(last_progress(job, msgs)), ..before.source },
                    ..before
                }),
                Some(Ok(data)) => data_applied(CropApp { source: idle, ..before }, data, after),
                Some(Err(e)) => {
                    &&& after == (CropApp { source: idle, status: after.status, ..before })
                    &&& after.status@ == "Load failed: "@ + e@
                },
            }
        },
    }
}

/// The new stack has images of the same size as the old one.
pub open spec fn same_size(before: CropApp, data: FolderData) -> bool {
    match before.source.data {
        Some(d) => d.width == data.width && d.height == data.height,
        None => false,
    }
}

/// The value range of each display mode.
pub open spec fn ranges_of(data: FolderData) -> Seq<Span> {
    seq![
        span_of(data.sum@.pixels).normal(),
        span_of(data.mean@.pixels).normal(),
        span_of(data.max@.pixels).normal(),
        span_of(data.min@.pixels).normal(),
        span_of(data.std@.pixels).normal(),
        stack_span(data.frames@).normal(),
    ]
}

/// The screen shows a new stack, with the contrast at its full range.
pub open spec fn screen_started(before: Screen, data: FolderData, after: Screen) -> bool {
    let n = data.frames@.len();
    &&& after == (Screen {
        ranges: after.ranges,
        contrast: Contrast::full(ranges_of(data)[before.mode.place()]),
        player: Player {
            playing: false,
            frame_idx: if before.player.frame_idx < n {
                before.player.frame_idx
            } else {
                (n - 1) as usize
            },
            ..before.player
        },
        img_dirty: true,
        fit_requested: true,
        ..before
    })
    &&& after.ranges@ == ranges_of(data)
}

/// A stack was loaded and is shown.
pub open spec fn data_applied(before: CropApp, data: FolderData, after: CropApp) -> bool {
    let same = same_size(before, data);
    let (w, h) = (data.width, data.height);
    &&& after == (CropApp {
        source: Source { data: after.source.data, ..before.source },
        screen: after.screen,
        editor: after.editor,
        check: Check { plot_refit: true, stats: None, dirty: true, ..before.check },
        status: after.status,
        ..before
    })
    &&& match after.source.data {
        Some(d) => *d == data,
        None => false,
    }
    &&& after.editor@ == before.editor@.started(same, w, h)
    &&& screen_started(before.screen, data, after.screen)
    &&& after.status@ == "Loaded "@ + decimal(data.frames@.len()) + " images ("@ + decimal(w as nat)
        + "×"@ + decimal(h as nat) + " px) from "@ + label(data.path@) + before.editor@.start_note(
        same,
        w,
        h,
    )
}

/// The editor was changed, and the statistics have to follow when `dirty`.
pub open spec fn edited(before: CropApp, edit: Edit, dirty: bool, after: CropApp) -> bool {
    &&& after.editor@ == edit
    &&& after == (CropApp {
        editor: after.editor,
        check: Check { dirty: before.check.dirty || dirty, ..before.check },
        ..before
    })
}

/// The crop was set to another one, in a way that can be undone.
pub open spec fn crop_set(before: CropApp, crop: Option<RectF>, after: CropApp) -> bool {
    edited(before, before.editor@.with_crop(crop), !same_crop(before.editor.crop, crop), after)
}

/// The crop was set to the whole image, if there is one.
pub open spec fn full_image_used(before: CropApp, after: CropApp) -> bool {
    match before.source.data {
        Some(d) => crop_set(
            before,
            Some((CropRect { x: 0, y: 0, width: d.width, height: d.height }).as_rectf()),
            after,
        ),
        None => after == before,
    }
}

/// The crop was set to the initial one, as far as that lies on the image.
pub open spec fn initial_crop_used(before: CropApp, after: CropApp) -> bool {
    match (before.source.data, before.editor.initial_crop) {
        (Some(d), Some(init)) => match init.clamped(d.width, d.height) {
            Some(c) => crop_set(before, Some(c.as_rectf()), after),
            None => {
                &&& after == (CropApp { status: after.status, ..before })
                &&& after.status@ == "Initial crop is outside this image — not applied."@
            },
        },
        _ => after == before,
    }
}

/// The crop was typed in.
pub open spec fn fields_typed(
    before: CropApp,
    x: i64,
    y: i64,
    width: i64,
    height: i64,
    after: CropApp,
) -> bool {
    match before.source.data {
        Some(d) => {
            let c = typed_crop(x, y, width, height).clamped(d.width, d.height)->0;
            edited(
                before,
                Edit { crop: Some(c.as_rectf()), ..before.editor@.remembered() },
                true,
                after,
            )
        },
        None => after == before,
    }
}

// ----- laws --------------------------------------------------------------------------

/// A crop drawn on one input is kept when switching to another input with the
/// same image size, and so is what can be undone.
pub proof fn law_crop_is_kept_on_the_same_size(before: CropApp, data: FolderData, after: CropApp)
    requires
        data_applied(before, data, after),
        before.source.data matches Some(d) && d.width == data.width && d.height == data.height,
        before.editor.crop is Some,
    ensures
        after.editor.crop == before.editor.crop,
        after.editor.undo@ == before.editor.undo@,
{
}

/// On images of another size the crop starts as the initial one, as far as it
/// lies on them; no crop drawn on other images is left to undo.
pub proof fn law_other_size_starts_with_the_initial_crop(
    before: CropApp,
    data: FolderData,
    after: CropApp,
)
    requires
        before.wf(),
        data.wf(),
        data_applied(before, data, after),
        before.source.data matches Some(d) ==> d.width != data.width || d.height != data.height,
        data.width <= 0x100_0000,
        data.height <= 0x100_0000,
    ensures
        after.editor.undo@.len() == 0,
        after.crop_region() == (match before.editor.initial_crop {
            Some(init) => init.clamped(data.width, data.height),
            None => None,
        }),
{
    if let Some(init) = before.editor.initial_crop {
        init.law_clamp_fits(data.width, data.height);
        if let Some(c) = init.clamped(data.width, data.height) {
            c.law_snap_keeps_whole_pixels(data.width, data.height);
        }
    }
}

/// The statistics always follow the crop: when the crop was changed, the next
/// computation that is started is one of the crop as it is then.
pub proof fn law_changed_crop_is_measured_again(
    before: CropApp,
    crop: Option<RectF>,
    after: CropApp,
)
    requires
        crop_set(before, crop, after),
        !same_crop(before.editor.crop, crop),
    ensures
        after.check.dirty,
        after.editor.crop == crop,
{
}

// ----- contrast ----------------------------------------------------------------------

/// A value of one of the frames.
pub open spec fn is_value(frames: Seq<Frame>, v: Binary32) -> bool {
    exists|k: int| 0 <= k < frames.len() && (#[trigger] frames[k])@.pixels.contains(v.bits)
}

/// The range of a stack, as far as it is known to be made of values.
proof fn lemma_stack_span(frames: Seq<Frame>)
    ensures
        ({
            let s = stack_span(frames);
            s == Span::nothing() || (s.lo.finite() && s.hi.finite() && is_value(frames, s.lo)
                && is_value(frames, s.hi))
        }),
    decreases frames.len(),
{
    if frames.len() > 0 {
        let earlier = frames.drop_last();
        let last = frames.last()@.pixels;
        lemma_stack_span(earlier);
        lemma_span_is_ordered(last);
        let (a, b) = (stack_span(earlier), span_of(last));
        assert(frames[frames.len() - 1]@.pixels == last);
        if a != Span::nothing() {
            let i = choose|k: int|
                0 <= k < earlier.len() && (#[trigger] earlier[k])@.pixels.contains(a.lo.bits);
            assert(frames[i]@.pixels.contains(a.lo.bits));
            let j = choose|k: int|
                0 <= k < earlier.len() && (#[trigger] earlier[k])@.pixels.contains(a.hi.bits);
            assert(frames[j]@.pixels.contains(a.hi.bits));
        }
    }
}

/// The range of a stack holds every number in it: no pixel of any frame lies outside,
/// and both ends are values of pixels.
pub proof fn law_range_of_a_stack_holds_every_value(frames: Seq<Frame>, k: int, i: int)
    requires
        0 <= k < frames.len(),
        0 <= i < frames[k]@.pixels.len(),
        (Binary32 { bits: frames[k]@.pixels[i] }).finite(),
    ensures
        ({
            let s = stack_span(frames);
            let v = Binary32 { bits: frames[k]@.pixels[i] };
            &&& !v.below(s.lo) && !s.hi.below(v)
            &&& s.lo.finite() && s.hi.finite()
            &&& is_value(frames, s.lo) && is_value(frames, s.hi)
            &&& s.normal() == s
        }),
    decreases frames.len(),
{
    let earlier = frames.drop_last();
    let last = frames.last()@.pixels;
    lemma_stack_span(frames);
    lemma_stack_span(earlier);
    lemma_span_is_ordered(last);
    if k < earlier.len() {
        assert(earlier[k] == frames[k]);
        law_range_of_a_stack_holds_every_value(earlier, k, i);
    } else {
        law_range_holds_every_value(last, i);
    }
}

/// The contrast of a projection reaches from its smallest to its largest value: after
/// a stack was loaded and a mode chosen, no number in the image shown lies outside the
/// contrast limits, and both are values of pixels of that image.
pub proof fn law_contrast_is_the_range_of_the_image_shown(
    before: Screen,
    data: FolderData,
    after: Screen,
    mode: DisplayMode,
    i: int,
)
    requires
        screen_started(before, data, after),
        data.wf(),
        mode != DisplayMode::Single,
        0 <= i < data.height * data.width,
        (Binary32 { bits: after.in_mode(mode).shown(data)@.pixels[i] }).finite(),
    ensures
        ({
            let s = after.in_mode(mode);
            let pixels = s.shown(data)@.pixels;
            let v = Binary32 { bits: pixels[i] };
            &&& s.mode == mode
            &&& !v.below(s.contrast.vmin) && !s.contrast.vmax.below(v)
            &&& pixels.contains(s.contrast.vmin.bits) && pixels.contains(s.contrast.vmax.bits)
            &&& s.contrast.vmin.finite() && s.contrast.vmax.finite()
            &&& s.contrast.data_min == s.contrast.vmin && s.contrast.data_max == s.contrast.vmax
        }),
{
    let s = after.in_mode(mode);
    s.law_shown_image_has_the_size_of_the_stack(data);
    law_range_holds_every_value(s.shown(data)@.pixels, i);
}

/// In mode Single the contrast reaches from the smallest to the largest value of the
/// whole stack, so that it stays the same from image to image.
pub proof fn law_contrast_of_single_images_is_that_of_the_stack(
    before: Screen,
    data: FolderData,
    after: Screen,
    k: int,
    i: int,
)
    requires
        screen_started(before, data, after),
        data.wf(),
        0 <= k < data.frames@.len(),
        0 <= i < data.frames@[k]@.pixels.len(),
        (Binary32 { bits: data.frames@[k]@.pixels[i] }).finite(),
    ensures
        ({
            let c = after.in_mode(DisplayMode::Single).contrast;
            let v = Binary32 { bits: data.frames@[k]@.pixels[i] };
            &&& !v.below(c.vmin) && !c.vmax.below(v)
            &&& is_value(data.frames@, c.vmin) && is_value(data.frames@, c.vmax)
            &&& c.data_min == c.vmin && c.data_max == c.vmax
        }),
{
    law_range_of_a_stack_holds_every_value(data.frames@, k, i);
}

// ----- crops and statistics ------------------------------------------------------------

/// Equal rectangles cover the same pixels.
proof fn lemma_same_crop(a: RectF, b: RectF, w: usize, h: usize)
    requires
        a.equals(b),
    ensures
        a.crop_on(w, h) == b.crop_on(w, h),
{
    let f = Format::Single;
    crate::round::lemma_units_of_zero(f);
    let p = pow2(149);
    lemma_pow2_pos(149);
    lemma_pow2_unfold(150);
    assert((2 * 0 + p) / (2 * p) == 0) by (nonlinear_arith)
        requires
            p > 0,
    ;
    let (r, q) = (a.ordered(), b.ordered());
    assert(f.round_index(r.x0.raw()) == f.round_index(q.x0.raw()));
    assert(f.round_index(r.y0.raw()) == f.round_index(q.y0.raw()));
    assert(f.round_index(r.x1.raw()) == f.round_index(q.x1.raw()));
    assert(f.round_index(r.y1.raw()) == f.round_index(q.y1.raw()));
}

/// A crop that was set is the one on the image.
proof fn lemma_crop_is_set(before: CropApp, c: CropRect, after: CropApp, d: FolderData)
    requires
        crop_set(before, Some(c.as_rectf()), after),
        before.source.data matches Some(b) && *b == d,
        c.fits(d.width as int, d.height as int),
        d.width <= 0x100_0000,
        d.height <= 0x100_0000,
    ensures
        after.crop_region() == Some(c),
{
    c.law_snap_keeps_whole_pixels(d.width, d.height);
    if same_crop(before.editor.crop, Some(c.as_rectf())) {
        lemma_same_crop(before.editor.crop->0, c.as_rectf(), d.width, d.height);
    }
}

/// The whole image can be taken as the crop: every pixel of the image lies in it then.
pub proof fn law_full_image_is_the_crop(before: CropApp, after: CropApp, d: FolderData)
    requires
        full_image_used(before, after),
        before.source.data matches Some(b) && *b == d,
        0 < d.width <= 0x100_0000,
        0 < d.height <= 0x100_0000,
    ensures
        after.crop_region() matches Some(c) && forall|px: int, py: int| #[trigger]
            c.has(px, py) <==> 0 <= px < d.width && 0 <= py < d.height,
{
    let c = CropRect { x: 0, y: 0, width: d.width, height: d.height };
    lemma_crop_is_set(before, c, after, d);
}

/// The initial crop can be taken again: the crop then has the pixels of the image that
/// lie in the initial one. Where there are none, the crop stays as it is.
pub proof fn law_initial_crop_is_taken_again(
    before: CropApp,
    after: CropApp,
    d: FolderData,
    init: CropRect,
)
    requires
        initial_crop_used(before, after),
        before.source.data matches Some(b) && *b == d,
        before.editor.initial_crop == Some(init),
        d.width <= 0x100_0000,
        d.height <= 0x100_0000,
    ensures
        match init.clamped(d.width, d.height) {
            Some(_) => after.crop_region() matches Some(c) && forall|px: int, py: int| #[trigger]
                c.has(px, py) <==> init.has(px, py) && 0 <= px < d.width && 0 <= py < d.height,
            None => after.editor == before.editor,
        },
        after.editor.initial_crop == Some(init),
{
    if let Some(c) = init.clamped(d.width, d.height) {
        init.law_clamp_fits(d.width, d.height);
        lemma_crop_is_set(before, c, after, d);
    }
}

/// Numbers that were typed in are the crop, as far as it lies on the image; nothing is
/// smaller than a pixel. It can be undone, and the statistics follow.
pub proof fn law_typed_numbers_are_the_crop(
    before: CropApp,
    x: i64,
    y: i64,
    width: i64,
    height: i64,
    after: CropApp,
    d: FolderData,
)
    requires
        fields_typed(before, x, y, width, height, after),
        before.wf(),
        before.source.data matches Some(b) && *b == d,
        0 <= x < d.width <= 0x100_0000,
        0 <= y < d.height <= 0x100_0000,
        width <= d.width,
        height <= d.height,
    ensures
        after.check.dirty,
        after.editor@.undone().crop == before.editor.crop,
        after.crop_region() matches Some(c) && {
            &&& c.x == x && c.y == y
            &&& 1 <= width <= d.width - x ==> c.width == width
            &&& width < 1 ==> c.width == 1
            &&& width > d.width - x ==> c.width == d.width - x
            &&& 1 <= height <= d.height - y ==> c.height == height
            &&& height < 1 ==> c.height == 1
            &&& height > d.height - y ==> c.height == d.height - y
        },
{
    let c = typed_crop(x, y, width, height).clamped(d.width, d.height)->0;
    c.law_snap_keeps_whole_pixels(d.width, d.height);
}

/// Statistics are computed of the crop on the image, with a band of at least one pixel,
/// exactly when it was changed, nothing is being loaded and none are being computed
/// already; then they are not computed again before the crop is changed again.
pub proof fn law_statistics_are_computed_once(app: CropApp, next: CropApp)
    requires
        next == (CropApp { check: app.stats_asked().1, ..app }),
    ensures
        app.stats_asked().0 is Some <==> app.check.dirty && !app.check.running
            && app.source.loading is None && app.crop_region() is Some,
        app.stats_asked().0 matches Some((c, band)) ==> {
            &&& app.crop_region() == Some(c)
            &&& band >= 1
            &&& app.check.edge_band >= 1 ==> band == app.check.edge_band
            &&& app.check.edge_band == 0 ==> band == 1
            &&& next.check.running
            &&& next.check.stats == app.check.stats
        },
        app.check.dirty && !app.check.running && app.source.loading is None && app.source.data
            is Some && app.crop_region() is None ==> next.check.stats is None,
        next.stats_asked().0 is None,
        app.check.running ==> next == app,
{
}

/// Of an initial crop that lies on the image nothing is said; of one that lies on it in
/// part it is said that it was clipped, and of one that does not that it was ignored.
/// Where the crop that there was is kept, nothing is said.
pub proof fn law_changed_initial_crop_is_told(
    edit: Edit,
    same: bool,
    w: usize,
    h: usize,
    init: CropRect,
    inside: (int, int),
    outside: (int, int),
)
    requires
        edit.initial_crop == Some(init),
    ensures
        same && edit.crop is Some ==> edit.start_note(same, w, h) == ""@,
        !(same && edit.crop is Some) ==> {
            &&& init.fits(w as int, h as int) ==> edit.start_note(same, w, h) == ""@
            &&& {
                &&& init.has(inside.0, inside.1) && inside.0 < w && inside.1 < h
                &&& init.has(outside.0, outside.1) && !(outside.0 < w && outside.1 < h)
            } ==> edit.start_note(same, w, h) == " — initial crop clipped to the image"@
            &&& (forall|px: int, py: int| #[trigger]
                init.has(px, py) ==> !(px < w && py < h)) ==> edit.start_note(same, w, h)
                == " — initial crop is outside the image, ignored"@
        },
{
    init.law_clamp_fits(w, h);
    init.law_clamp_is_intersection(w, h, inside.0, inside.1);
    init.law_clamp_is_intersection(w, h, outside.0, outside.1);
    if init.clamped(w, h) is Some {
        assert(init.has(init.x as int, init.y as int));
    }
}

/// What was computed is kept until something else is, and computing it ends only once.
pub proof fn law_statistics_come_back_once(check: Check, s: CropStats)
    ensures
        check.running ==> check.polled(Poll::Ready(s)).stats == Some(s),
        !check.running ==> check.polled(Poll::Ready(s)) == check,
        !check.polled(Poll::Ready(s)).running,
        !check.polled(Poll::Gone).running && check.polled(Poll::Gone).stats == check.stats,
        check.polled(Poll::Empty) == check,
        check.polled(Poll::Ready(s)).dirty == check.dirty,
{
}

/// A new stack is shown from scratch: nothing that was computed of the old one is left,
/// nothing is being dragged or played, the image is fitted and drawn anew, and the
/// slider stands on one of its images. Mode, zoom and what the user wants to do with the
/// result stay.
pub proof fn law_new_stack_is_shown_from_scratch(before: CropApp, data: FolderData, after: CropApp)
    requires
        data_applied(before, data, after),
        data.wf(),
    ensures
        after.source.data matches Some(d) && *d == data,
        after.check.stats is None && after.check.dirty && after.check.plot_refit,
        after.check.edge_band == before.check.edge_band,
        !after.editor.drag.drawing && !after.editor.drag.moving && after.editor.drag.resizing is None,
        after.editor.initial_crop == before.editor.initial_crop,
        !after.screen.is_playing() && after.screen.img_dirty && after.screen.fit_requested,
        after.screen.player.frame_idx < data.frames@.len(),
        before.screen.player.frame_idx < data.frames@.len() ==> after.screen.player.frame_idx
            == before.screen.player.frame_idx,
        after.screen.mode == before.screen.mode && after.screen.scale == before.screen.scale,
        after.output == before.output && after.help == before.help,
        after.source.inputs == before.source.inputs && after.source.selected
            == before.source.selected,
{
}

/// Loading ends with its result: a stack that was loaded is shown, a failure is said and
/// changes nothing else, and until then only the progress changes. What is sent while
/// nothing is being loaded is not looked at.
pub proof fn law_loading_ends_with_its_result(before: CropApp, msgs: Seq<LoadMsg>, after: CropApp)
    requires
        load_polled(before, msgs, after),
    ensures
        before.source.loading is None ==> after == before,
        before.source.loading matches Some(job) ==> match last_result(msgs) {
            None => {
                &&& after.source.loading == Some(last_progress(job, msgs))
                &&& after.source.data == before.source.data && after.editor == before.editor
                &&& after.screen == before.screen && after.check == before.check
                &&& after.status == before.status
            },
            Some(Ok(data)) => {
                &&& after.source.loading is None
                &&& after.source.data matches Some(d) && *d == data
            },
            Some(Err(e)) => {
                &&& after.source.loading is None
                &&& after.source.data == before.source.data && after.editor == before.editor
                &&& after.screen == before.screen && after.check == before.check
                &&& ends_with(after.status@, e@)
            },
        },
        after.source.inputs == before.source.inputs && after.source.selected
            == before.source.selected,
{
    if let Some(Err(e)) = last_result(msgs) {
        let said = "Load failed: "@ + e@;
        assert(said.skip(said.len() - e@.len()) =~= e@);
    }
}

/// Selecting an input starts to load it, from nothing, and leaves everything that is
/// shown as it is until it is there; what was not in the list is not selected.
pub proof fn law_selecting_starts_to_load(before: CropApp, idx: usize, after: CropApp)
    requires
        input_selected(before, idx, after),
    ensures
        idx >= before.source.inputs@.len() ==> after == before,
        idx < before.source.inputs@.len() ==> {
            &&& after.source.selected == Some(idx)
            &&& after.source.loading matches Some(job) && job.done == 0
        },
        after.source.inputs == before.source.inputs && after.source.data == before.source.data,
        after.editor == before.editor && after.screen == before.screen && after.check
            == before.check && after.output == before.output,
{
}

/// Of the messages of the loading thread the latest ones count: the last progress, and
/// the last result.
pub proof fn law_latest_messages_count(
    start: LoadJob,
    msgs: Seq<LoadMsg>,
    done: usize,
    total: usize,
    r: Result<FolderData, String>,
)
    ensures
        last_progress(start, msgs.push(LoadMsg::Progress { done, total })) == (LoadJob {
            done,
            total,
        }),
        last_progress(start, msgs.push(LoadMsg::Done(r))) == last_progress(start, msgs),
        last_result(msgs.push(LoadMsg::Done(r))) == Some(r),
        last_result(msgs.push(LoadMsg::Progress { done, total })) == last_result(msgs),
        last_progress(start, Seq::empty()) == start,
        last_result(Seq::empty()) is None,
{
    assert(msgs.push(LoadMsg::Progress { done, total }).drop_last() =~= msgs);
    assert(msgs.push(LoadMsg::Done(r)).drop_last() =~= msgs);
}

} // verus!
