use rust_crop_tiff::app::{CropApp, LoadMsg, Poll};
use rust_crop_tiff::binary::{Binary32, Binary64};
use rust_crop_tiff::crop::{CropRect, RectF};
use rust_crop_tiff::display::{human_bytes, normalize_range, raw_range, DisplayMode, Span};
use rust_crop_tiff::frame::Frame;
use rust_crop_tiff::handles::{crop_handles, cursor_for_handle, find_hit, resize_rect, CursorIcon, Handle, Point};
use rust_crop_tiff::interact::Pointer;
use rust_crop_tiff::loader::{accumulate, total_counts, FolderData};
use rust_crop_tiff::panel::{finite_points, kept_text, memory_text};
use rust_crop_tiff::save::{report, SaveAction, SaveJob, SaveStep};
use rust_crop_tiff::stats::compute;

fn b32(x: f32) -> Binary32 {
    Binary32 { bits: x.to_bits() }
}

fn b64(x: f64) -> Binary64 {
    Binary64 { bits: x.to_bits() }
}

fn f(b: Binary32) -> f32 {
    f32::from_bits(b.bits)
}

fn pt(x: f32, y: f32) -> Point {
    Point { x: b32(x), y: b32(y) }
}

fn rectf(x0: f32, y0: f32, x1: f32, y1: f32) -> RectF {
    RectF { x0: b32(x0), y0: b32(y0), x1: b32(x1), y1: b32(y1) }
}

fn span(lo: f32, hi: f32) -> Span {
    Span { lo: b32(lo), hi: b32(hi) }
}

/// A stack of images, each of one value.
fn stack(w: usize, h: usize, values: &[f32]) -> FolderData {
    let frames: Vec<Frame> = values
        .iter()
        .map(|v| Frame::from_pixels(h, w, vec![v.to_bits(); w * h]).unwrap())
        .collect();
    let acc = accumulate(&frames);
    let totals = total_counts(&frames);
    FolderData::assemble("/data/run_7".to_owned(), frames, acc, totals).unwrap()
}

fn empty() -> CropApp {
    CropApp::new(Vec::new(), None, None, None, false, None)
}

fn loaded(w: usize, h: usize, values: &[f32]) -> CropApp {
    let mut app = empty();
    app.apply_data(stack(w, h, values));
    app
}

fn still() -> Pointer {
    Pointer {
        origin: pt(0.0, 0.0),
        hover: None,
        press: None,
        interact: None,
        drag_started: false,
        dragged: false,
        drag_stopped: false,
    }
}

/// Distances of a point from the handles of the crop on screen.
fn distances(app: &CropApp, p: Point) -> Vec<Binary32> {
    app.find_handle_points(pt(0.0, 0.0))
        .iter()
        .map(|q| b32((f(q.x) - f(p.x)).hypot(f(q.y) - f(p.y))))
        .collect()
}

/// Drags from one point of the image to another, in the given number of steps.
fn drag(app: &mut CropApp, from: Point, to: Point) {
    let d = distances(app, from);
    let start = Pointer { press: Some(from), interact: Some(from), drag_started: true, dragged: true, ..still() };
    app.handle_interaction(start, &d);
    let mid = pt((f(from.x) + f(to.x)) / 2.0, (f(from.y) + f(to.y)) / 2.0);
    app.handle_interaction(Pointer { interact: Some(mid), dragged: true, ..still() }, &Vec::new());
    app.handle_interaction(Pointer { interact: Some(to), dragged: true, ..still() }, &Vec::new());
    app.handle_interaction(Pointer { interact: Some(to), drag_stopped: true, ..still() }, &Vec::new());
}

fn crop(x: usize, y: usize, width: usize, height: usize) -> CropRect {
    CropRect { x, y, width, height }
}

#[test]
fn modes_are_listed_in_order() {
    let labels: Vec<&str> = DisplayMode::ALL.iter().map(|m| m.label()).collect();
    assert_eq!(labels, vec!["Integrated", "Mean", "Max", "Min", "Std dev", "Single image"]);
    for (i, m) in DisplayMode::ALL.iter().enumerate() {
        assert_eq!(m.index(), i);
        assert!(!m.hover().is_empty());
    }
    assert_eq!(DisplayMode::Std.hover(), "Standard deviation of each pixel across the images — moving edges and changing regions light up");
}

#[test]
fn ranges_span_the_finite_values() {
    let bits = |v: &[f32]| v.iter().map(|x| x.to_bits()).collect::<Vec<u32>>();
    assert_eq!(raw_range(&bits(&[3.0, f32::NAN, -1.0, f32::INFINITY])), span(-1.0, 3.0));
    let none = raw_range(&bits(&[f32::NAN]));
    assert_eq!(none, span(f32::INFINITY, f32::NEG_INFINITY));
    assert_eq!(normalize_range(none), span(0.0, 1.0));
    assert_eq!(normalize_range(span(2.0, 2.0)), span(2.0, 2.0));
}

#[test]
fn bytes_are_written_as_people_do() {
    fn wanted(b: f64) -> String {
        const UNITS: [&str; 5] = ["B", "kB", "MB", "GB", "TB"];
        let mut v = b;
        let mut u = 0;
        while v >= 1000.0 && u < UNITS.len() - 1 {
            v /= 1000.0;
            u += 1;
        }
        format!("{v:.1} {}", UNITS[u])
    }
    for n in [0, 1, 999, 1000, 1049, 1050, 1150, 999_949, 999_950, 999_999, 123_456_789, 5_250_000_000, usize::MAX] {
        assert_eq!(human_bytes(n), wanted(n as f64), "{n}");
    }
    assert_eq!(human_bytes(1_500_000), "1.5 MB");
}

#[test]
fn handles_lie_on_the_rectangle() {
    let r = rectf(10.0, 8.0, 2.0, 4.0);
    let got: Vec<(i8, i8, f32, f32)> =
        crop_handles(&r).iter().map(|(h, p)| (h.hx, h.vy, f(p.x), f(p.y))).collect();
    assert_eq!(
        got,
        vec![
            (-1, -1, 2.0, 4.0),
            (0, -1, 6.0, 4.0),
            (1, -1, 10.0, 4.0),
            (-1, 0, 2.0, 6.0),
            (1, 0, 10.0, 6.0),
            (-1, 1, 2.0, 8.0),
            (0, 1, 6.0, 8.0),
            (1, 1, 10.0, 8.0),
        ]
    );
}

#[test]
fn handles_move_their_edges() {
    let mut r = rectf(10.0, 8.0, 2.0, 4.0);
    resize_rect(&mut r, Handle { hx: -1, vy: 1 }, pt(3.0, 9.0));
    assert_eq!(r, rectf(3.0, 4.0, 10.0, 9.0));
    resize_rect(&mut r, Handle { hx: 0, vy: -1 }, pt(99.0, 1.0));
    assert_eq!(r, rectf(3.0, 1.0, 10.0, 9.0));
}

#[test]
fn cursors_show_the_direction() {
    let icon = |hx, vy| cursor_for_handle(Handle { hx, vy });
    assert_eq!(icon(0, -1), CursorIcon::ResizeVertical);
    assert_eq!(icon(1, 0), CursorIcon::ResizeHorizontal);
    assert_eq!(icon(1, 1), CursorIcon::ResizeNwSe);
    assert_eq!(icon(1, -1), CursorIcon::ResizeNeSw);
}

#[test]
fn the_first_handle_within_reach_is_hit() {
    let d = |v: &[f32]| v.iter().map(|x| b32(*x)).collect::<Vec<Binary32>>();
    assert_eq!(find_hit(&d(&[11.0, 10.0, 1.0])), Some(Handle { hx: 0, vy: -1 }));
    assert_eq!(find_hit(&d(&[11.0, f32::NAN])), None);
    assert_eq!(find_hit(&Vec::new()), None);
}

#[test]
fn a_new_application_is_empty() {
    let app = empty();
    assert_eq!(app.status, "Add a folder of TIFF images or a .npy stack to begin.");
    assert_eq!(app.current_label(), "— select an input —");
    let mut app = CropApp::new(vec!["/a/run1".to_owned(), "b".to_owned()], None, None, None, false, None);
    assert_eq!(app.status, "2 input(s) on the command line.");
    assert_eq!(app.check.edge_band, 5);
    assert!(app.select_first());
    assert_eq!(app.status, "Loading run1…");
    assert_eq!(app.current_label(), "run1");
    assert!(!app.pick_input(0));
    assert!(app.pick_input(1));
    assert!(!app.select_input(2));
    app.add_input("/c/d/".to_owned());
    assert_eq!(app.current_label(), "d");
    assert_eq!(app.source.inputs.len(), 3);
    assert!(!empty().select_first());
}

#[test]
fn loading_is_followed() {
    let mut app = CropApp::new(vec!["x".to_owned()], None, None, None, false, None);
    app.poll_load(vec![LoadMsg::Done(Ok(stack(2, 2, &[1.0])))]);
    assert!(app.source.data.is_none(), "nothing is loading");
    app.select_first();
    assert!(f(app.progress().unwrap().0) == 0.0);
    app.poll_load(vec![
        LoadMsg::Progress { done: 1, total: 4 },
        LoadMsg::Progress { done: 3, total: 4 },
    ]);
    let (fraction, text) = app.progress().unwrap();
    assert_eq!((f(fraction), text.as_str()), (0.75, "⏳ Loading 3 / 4 files"));
    app.poll_load(vec![LoadMsg::Done(Err("disk on fire".to_owned()))]);
    assert_eq!(app.status, "Load failed: disk on fire");
    assert!(app.progress().is_none());
    app.select_first();
    app.poll_load(vec![LoadMsg::Done(Ok(stack(4, 3, &[1.0, 3.0])))]);
    assert_eq!(app.status, "Loaded 2 images (4×3 px) from run_7");
    assert!(app.screen.img_dirty && app.screen.fit_requested && app.check.dirty);
    assert_eq!(app.screen.ranges[0], span(4.0, 4.0));
    assert_eq!(app.screen.ranges[5], span(1.0, 3.0));
    assert_eq!(f(app.screen.contrast.vmax), 4.0);
}

#[test]
fn the_initial_crop_is_shown_on_the_stack() {
    let mut app = CropApp::new(Vec::new(), Some(crop(1, 1, 2, 2)), None, None, false, None);
    app.apply_data(stack(4, 4, &[1.0]));
    assert_eq!(app.crop_px(), Some(crop(1, 1, 2, 2)));
    assert_eq!(app.reference_outline(), None);
    assert_eq!(app.initial_text().unwrap(), "Initial crop (dashed orange): x=1 y=1 2×2");
    app.apply_data(stack(2, 2, &[1.0]));
    assert_eq!(app.crop_px(), Some(crop(1, 1, 1, 1)));
    assert_eq!(app.status, "Loaded 1 images (2×2 px) from run_7 — initial crop clipped to the image");
    assert_eq!(app.reference_outline(), Some(crop(1, 1, 2, 2)));
    app.apply_data(stack(1, 1, &[1.0]));
    assert_eq!(app.crop_px(), None);
    assert_eq!(
        app.status,
        "Loaded 1 images (1×1 px) from run_7 — initial crop is outside the image, ignored"
    );
    app.use_initial_crop();
    assert_eq!(app.status, "Initial crop is outside this image — not applied.");
    app.apply_data(stack(9, 9, &[1.0]));
    app.use_full_image();
    app.use_initial_crop();
    assert_eq!(app.crop_px(), Some(crop(1, 1, 2, 2)));
}

#[test]
fn a_crop_is_kept_on_the_same_size() {
    let mut app = loaded(8, 8, &[1.0]);
    app.set_crop(Some(rectf(1.0, 1.0, 3.0, 3.0)));
    app.apply_data(stack(8, 8, &[2.0, 5.0]));
    assert_eq!(app.crop_px(), Some(crop(1, 1, 2, 2)));
    assert_eq!(app.editor.undo.len(), 1);
    app.apply_data(stack(8, 9, &[2.0]));
    assert_eq!(app.crop_px(), None);
    assert!(app.editor.undo.is_empty());
}

#[test]
fn undo_brings_crops_back() {
    let mut app = loaded(8, 8, &[1.0]);
    app.use_full_image();
    app.set_crop(Some(rectf(1.0, 1.0, 3.0, 3.0)));
    app.set_crop(Some(rectf(1.0, 1.0, 3.0, 3.0)));
    assert_eq!(app.editor.undo.len(), 2);
    app.undo();
    assert_eq!(app.crop_px(), Some(crop(0, 0, 8, 8)));
    app.undo();
    assert_eq!(app.crop_px(), None);
    app.undo();
    assert_eq!(app.crop_px(), None);
}

#[test]
fn the_history_is_bounded() {
    let mut app = loaded(100, 100, &[1.0]);
    for k in 0..40 {
        app.set_crop(Some(rectf(0.0, 0.0, 1.0 + k as f32, 1.0)));
    }
    assert_eq!(app.editor.undo.len(), 24);
    for _ in 0..24 {
        app.undo();
    }
    assert_eq!(app.crop_px(), Some(crop(0, 0, 16, 1)));
}

#[test]
fn a_drag_draws_a_crop_in_whole_pixels() {
    let mut app = loaded(100, 100, &[1.0]);
    drag(&mut app, pt(40.4, 50.6), pt(10.2, 20.7));
    assert_eq!(app.editor.crop, Some(rectf(10.0, 21.0, 40.0, 51.0)));
    assert!(app.check.dirty);
    app.undo();
    assert_eq!(app.editor.crop, None);
}

#[test]
fn a_drag_inside_moves_the_crop() {
    let mut app = loaded(200, 200, &[1.0]);
    app.set_crop(Some(rectf(50.0, 50.0, 150.0, 150.0)));
    drag(&mut app, pt(80.0, 80.0), pt(90.3, 70.0));
    assert_eq!(app.crop_px(), Some(crop(60, 40, 100, 100)));
    app.undo();
    assert_eq!(app.crop_px(), Some(crop(50, 50, 100, 100)));
}

#[test]
fn a_drag_of_a_handle_resizes_the_crop() {
    let mut app = loaded(200, 200, &[1.0]);
    app.set_crop(Some(rectf(50.0, 50.0, 150.0, 150.0)));
    drag(&mut app, pt(151.0, 152.0), pt(180.0, 120.0));
    assert_eq!(app.crop_px(), Some(crop(50, 50, 130, 70)));
}

#[test]
fn a_click_leaves_the_crop() {
    let mut app = loaded(200, 200, &[1.0]);
    app.set_crop(Some(rectf(50.0, 50.0, 80.0, 80.0)));
    drag(&mut app, pt(150.0, 150.0), pt(150.3, 150.4));
    assert_eq!(app.crop_px(), Some(crop(50, 50, 30, 30)));
    assert_eq!(app.editor.undo.len(), 1);
}

#[test]
fn a_crop_dragged_off_the_image_comes_back() {
    let mut app = loaded(100, 100, &[1.0]);
    app.set_crop(Some(rectf(40.0, 40.0, 80.0, 80.0)));
    drag(&mut app, pt(60.0, 60.0), pt(900.0, 60.0));
    assert_eq!(app.crop_px(), Some(crop(40, 40, 40, 40)));
}

#[test]
fn the_pixel_under_the_mouse_is_read() {
    let mut app = loaded(4, 3, &[2.5]);
    app.screen.scale = b32(10.0);
    let at = |x: f32, y: f32| Pointer { origin: pt(5.0, 5.0), hover: Some(pt(x, y)), ..still() };
    app.handle_interaction(at(26.0, 15.5), &Vec::new());
    assert_eq!(app.screen.cursor, Some((2, 1, b32(2.5))));
    app.handle_interaction(at(4.9, 15.5), &Vec::new());
    assert_eq!(app.screen.cursor, None);
    app.handle_interaction(at(45.0, 15.5), &Vec::new());
    assert_eq!(app.screen.cursor, None);
}

#[test]
fn the_cursor_shows_what_can_be_dragged() {
    let mut app = loaded(200, 200, &[1.0]);
    app.set_crop(Some(rectf(50.0, 50.0, 150.0, 150.0)));
    let at = |app: &CropApp, p: Point| {
        let q = Pointer { hover: Some(p), ..still() };
        app.hover_icon(q, &distances(app, p))
    };
    assert_eq!(at(&app, pt(50.0, 50.0)), Some(CursorIcon::ResizeNwSe));
    assert_eq!(at(&app, pt(80.0, 80.0)), Some(CursorIcon::Grab));
    assert_eq!(at(&app, pt(10.0, 10.0)), None);
    app.clear_crop();
    assert_eq!(app.crop_px(), None);
    assert_eq!(at(&app, pt(80.0, 80.0)), None);
}

#[test]
fn numbers_can_be_typed() {
    let mut app = loaded(20, 10, &[1.0]);
    app.edit_crop_fields(3, 4, 100 - 80, 0);
    assert_eq!(app.crop_px(), Some(crop(3, 4, 17, 1)));
    app.edit_crop_fields(0, 0, 5, 5);
    assert_eq!(app.crop_px(), Some(crop(0, 0, 5, 5)));
    app.undo();
    assert_eq!(app.crop_px(), Some(crop(3, 4, 17, 1)));
}

#[test]
fn statistics_follow_the_crop() {
    let mut app = loaded(10, 10, &[1.0, 2.0]);
    assert_eq!(app.maybe_spawn_stats(), None);
    assert!(!app.check.dirty);
    app.use_full_image();
    assert_eq!(app.maybe_spawn_stats(), Some((crop(0, 0, 10, 10), 5)));
    app.set_crop(Some(rectf(1.0, 1.0, 9.0, 9.0)));
    assert_eq!(app.maybe_spawn_stats(), None, "one at a time");
    let data = app.source.data.clone().unwrap();
    app.poll_stats(Poll::Empty);
    app.poll_stats(Poll::Ready(compute(&data.frames, &data.frame_totals, crop(0, 0, 10, 10), 5)));
    assert!(app.worst_frame().is_some());
    assert_eq!(app.maybe_spawn_stats(), Some((crop(1, 1, 8, 8), 5)));
    app.poll_stats(Poll::Gone);
    app.set_edge_band(0);
    assert_eq!(app.maybe_spawn_stats(), Some((crop(1, 1, 8, 8), 1)));
}

#[test]
fn modes_reset_the_contrast() {
    let mut app = loaded(2, 2, &[1.0, 3.0]);
    app.screen.set_contrast(b32(0.0), b32(9.0));
    app.set_mode(DisplayMode::Max);
    assert_eq!((f(app.screen.contrast.vmin), f(app.screen.contrast.vmax)), (3.0, 3.0));
    app.screen.set_contrast(b32(0.0), b32(9.0));
    app.set_mode(DisplayMode::Max);
    assert_eq!(f(app.screen.contrast.vmax), 9.0);
    app.screen.auto_contrast();
    assert_eq!(f(app.screen.contrast.vmax), 3.0);
    assert_eq!(f(app.screen.contrast_speed()), 1.0 / 200.0);
}

#[test]
fn the_stack_plays_and_starts_over() {
    let mut app = loaded(2, 2, &[1.0, 2.0, 3.0]);
    app.show_frame(99);
    assert_eq!(app.screen.player.frame_idx, 2);
    assert!(app.has_slider());
    assert_eq!(app.slider_text().unwrap(), "3 / 3");
    assert!(!app.animate(0));
    app.screen.toggle_play();
    assert!(app.animate(1_000_000_000));
    assert_eq!(app.screen.player.frame_idx, 0);
    app.animate(1_079_999_999);
    assert_eq!(app.screen.player.frame_idx, 0);
    app.animate(1_080_000_000);
    assert_eq!(app.screen.player.frame_idx, 1);
    assert_eq!(app.marker(), Some(1));
    app.slide_to(2);
    assert!(!app.screen.player.playing);
    app.screen.toggle_play();
    app.set_mode(DisplayMode::Mean);
    assert!(!app.screen.player.playing && !app.has_slider());
    assert_eq!(app.marker(), None);
    app.click_plot(b64(1.4));
    assert_eq!(app.screen.player.frame_idx, 1);
    app.click_plot(b64(-7.0));
    assert_eq!(app.screen.player.frame_idx, 0);
    app.click_plot(b64(1e9));
    assert_eq!(app.screen.player.frame_idx, 2);
}

#[test]
fn pictures_are_coloured_by_the_contrast() {
    let mut lut = [[0u8; 3]; 256];
    for (i, c) in lut.iter_mut().enumerate() {
        *c = [i as u8, 255 - i as u8, 7];
    }
    let values = [0.0f32, 0.25, 1.0, 2.0, -1.0, f32::NAN];
    let frame = Frame::from_pixels(2, 3, values.iter().map(|v| v.to_bits()).collect()).unwrap();
    let frames = vec![frame];
    let acc = accumulate(&frames);
    let totals = total_counts(&frames);
    let data = FolderData::assemble("d".to_owned(), frames, acc, totals).unwrap();
    let mut app = empty();
    app.screen.mode = DisplayMode::Single;
    app.screen.set_contrast(b32(0.0), b32(1.0));
    let p = app.screen.render(&data, &lut).unwrap();
    assert_eq!((p.width, p.height, p.rgba.len()), (3, 2, 24));
    for (i, &v) in values.iter().enumerate() {
        let t = (v / 1.0f32.max(1e-12)).clamp(0.0, 1.0);
        let k = ((t * 255.0).round() as usize).min(255);
        assert_eq!(p.rgba[4 * i..4 * i + 4], [lut[k][0], lut[k][1], lut[k][2], 255], "{v}");
    }
    assert!(app.screen.render(&data, &lut).is_none(), "nothing changed");
}

#[test]
fn the_zoom_is_limited() {
    let mut app = loaded(100, 50, &[1.0]);
    app.screen.scale = b32(2.0);
    app.screen.zoom_in();
    assert_eq!(f(app.screen.scale), 2.5);
    app.screen.zoom_out();
    assert_eq!(f(app.screen.scale), 2.0);
    for _ in 0..40 {
        app.screen.zoom_out();
    }
    assert_eq!(f(app.screen.scale), 0.02);
    for _ in 0..80 {
        app.screen.zoom_in();
    }
    assert_eq!(f(app.screen.scale), 64.0);
    app.screen.fit(pt(300.0, 400.0), b32(20.0), 100, 50);
    assert_eq!(f(app.screen.scale), 3.0);
    assert!(!app.screen.fit_requested);
    app.screen.fit(pt(1.0, 1.0), b32(20.0), 100, 50);
    assert_eq!(f(app.screen.scale), 3.0);
}

#[test]
fn the_panel_tells_what_is_kept() {
    let c = crop(0, 0, 512, 300);
    let kept = 100.0 * (512.0 * 300.0) / (2048.0 * 2047.0);
    assert_eq!(
        kept_text(c, 2048, 2047),
        format!("Keeps {kept:.1}% of the pixels — 2048×2047 → 512×300")
    );
    assert_eq!(
        memory_text(c, 2048, 2047, 1000),
        "Stack in memory (f32): 16.8 GB → 614.4 MB"
    );
    assert_eq!(kept_text(crop(0, 0, 3, 3), 3, 3), "Keeps 100.0% of the pixels — 3×3 → 3×3");
    assert_eq!(
        finite_points(&vec![b64(1.0), b64(f64::NAN), b64(3.0)]),
        vec![(0, b64(1.0)), (2, b64(3.0))]
    );
}

#[test]
fn instructions_are_shown_until_dismissed() {
    let mut app = CropApp::new(Vec::new(), None, None, None, false, Some("read me".to_owned()));
    assert_eq!(app.instructions_modal().as_deref(), Some("read me"));
    app.show_instructions(false);
    assert_eq!(app.instructions_modal(), None);
    app.show_instructions(true);
    assert!(app.instructions_modal().is_some());
    let mut none = empty();
    none.show_instructions(true);
    assert_eq!(none.instructions_modal(), None);
    assert!(!none.help.show);
}

fn steps(job: &SaveJob) -> Vec<String> {
    job.actions()
        .iter()
        .map(|a| match a {
            SaveAction::WriteStack(p) => format!("stack {p}"),
            SaveAction::WriteJson(p) => format!("json {p}"),
            SaveAction::Print => "print".to_owned(),
        })
        .collect()
}

#[test]
fn the_crop_travels_with_the_stack() {
    let mut app = CropApp::new(Vec::new(), None, None, Some("/out/s.npy".to_owned()), true, None);
    assert!(app.save_and_quit().is_none());
    assert_eq!(app.status, "Nothing to save — draw a crop region first.");
    app.apply_data(stack(10, 10, &[1.0]));
    app.use_full_image();
    assert!(app.can_save());
    let (label, hover) = app.quit_button().unwrap();
    assert_eq!(label, "↩ Return to main application");
    assert_eq!(
        hover,
        "Return the result to the calling application (crop → /out/s_crop.json, crop → stdout, cropped 3-D stack (.npy) → /out/s.npy) and close"
    );
    let job = app.save_and_quit().unwrap();
    assert_eq!(app.status, "Writing the cropped stack to /out/s.npy…");
    assert_eq!(steps(&job), vec!["stack /out/s.npy", "json /out/s_crop.json", "print"]);
    assert_eq!(CropRect::from_json_text(&job.json), Ok(crop(0, 0, 10, 10)));
    assert!(!app.can_save());
    assert!(app.save_and_quit().is_none(), "one save at a time");
    let done = report(&job.actions(), None);
    assert_eq!(
        done.as_deref(),
        Ok("Saved: cropped stack → /out/s.npy, crop → /out/s_crop.json, crop → stdout")
    );
    assert!(!app.poll_saving(Poll::Empty));
    assert!(app.poll_saving(Poll::Ready(done)));
    assert!(app.can_save() && !app.output.close_after_save);
}

#[test]
fn a_failed_save_does_not_close() {
    let mut app = CropApp::new(Vec::new(), None, Some("c.json".to_owned()), None, false, None);
    app.apply_data(stack(10, 10, &[1.0]));
    app.use_full_image();
    let (label, hover) = app.quit_button().unwrap();
    assert_eq!((label, hover.as_str()), ("✅ Save crop & quit", "Write the result (crop → c.json) and close"));
    let job = app.save_and_quit().unwrap();
    assert_eq!(app.status, "Saving the crop…");
    let failed = report(&job.actions(), Some((0, "disk full".to_owned())));
    assert_eq!(failed.clone().unwrap_err(), "Failed to write c.json: disk full");
    assert!(!app.poll_saving(Poll::Ready(failed)));
    assert_eq!(app.status, "Failed to write c.json: disk full");
    app.save_and_quit().unwrap();
    assert!(!app.poll_saving(Poll::Gone));
    assert!(app.can_save());
    assert!(empty().quit_button().is_none());
}

#[test]
fn dialogs_name_the_files() {
    let mut app = loaded(10, 10, &[1.0]);
    app.use_full_image();
    assert!(app.save_crop_dialog(None).is_none());
    let job = app.save_crop_dialog(Some("a.json".to_owned())).unwrap();
    assert_eq!(steps(&job), vec!["json a.json"]);
    app.poll_saving(Poll::Gone);
    let job = app.save_stack_dialog(Some("d/b.npy".to_owned())).unwrap();
    assert_eq!(steps(&job), vec!["stack d/b.npy", "json d/b_crop.json"]);
    assert_eq!(job.crop, crop(0, 0, 10, 10));
}

/// Does a save whose steps have the given outcomes; returns the steps that were done
/// and what was said in the end.
fn save(job: &SaveJob, outcomes: &[Result<(), String>]) -> (Vec<String>, Result<String, String>) {
    let mut log = Vec::new();
    let mut last = None;
    loop {
        match job.next_step(log.len(), last) {
            SaveStep::Do(action) => {
                last = Some(outcomes[log.len()].clone());
                log.push(match action {
                    SaveAction::WriteStack(p) => format!("stack {p}"),
                    SaveAction::WriteJson(p) => format!("json {p}"),
                    SaveAction::Print => "print".to_owned(),
                });
            }
            SaveStep::End(said) => return (log, said),
        }
    }
}

#[test]
fn the_first_failure_ends_the_save() {
    let mut app = CropApp::new(
        Vec::new(),
        None,
        Some("/out/crop.json".to_owned()),
        Some("/out/s.npy".to_owned()),
        true,
        None,
    );
    app.apply_data(stack(20, 20, &[1.0]));
    app.use_full_image();
    let job = app.save_and_quit().unwrap();
    let full = || Err("disk full".to_owned());
    let (log, said) = save(&job, &[Ok(()), Ok(()), Ok(())]);
    assert_eq!(log, vec!["stack /out/s.npy", "json /out/crop.json", "print"]);
    assert_eq!(
        said.unwrap(),
        "Saved: cropped stack → /out/s.npy, crop → /out/crop.json, crop → stdout"
    );
    let (log, said) = save(&job, &[full(), Ok(()), Ok(())]);
    assert_eq!(log, vec!["stack /out/s.npy"]);
    assert_eq!(said.unwrap_err(), "Failed to write /out/s.npy: disk full");
    let (log, said) = save(&job, &[Ok(()), full(), Ok(())]);
    assert_eq!(log, vec!["stack /out/s.npy", "json /out/crop.json"]);
    assert_eq!(said.unwrap_err(), "Failed to write /out/crop.json: disk full");
}

#[test]
fn a_drag_shorter_than_a_pixel_leaves_the_crop() {
    let mut app = loaded(100, 100, &[1.0]);
    app.set_crop(Some(rectf(10.0, 10.0, 20.0, 20.0)));
    let before = app.crop_px();
    drag(&mut app, pt(50.0, 50.0), pt(50.5, 50.75));
    assert_eq!(app.crop_px(), before);
    assert_eq!(before, Some(crop(10, 10, 10, 10)));
}

#[test]
fn an_initial_crop_of_any_extent_is_clipped() {
    let far = CropRect { x: 3, y: 4, width: usize::MAX, height: usize::MAX };
    let mut app = CropApp::new(Vec::new(), Some(far), None, None, false, None);
    app.apply_data(stack(20, 10, &[1.0]));
    assert_eq!(app.crop_px(), Some(crop(3, 4, 17, 6)));
    assert_eq!(app.reference_outline(), Some(far));
}
