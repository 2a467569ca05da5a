//! A rectangular crop region on a stack of images: reading the stack, drawing and
//! editing the region, measuring it against every image, and saving it.
//!
//! - [`crop`] is the region, in pixels and as it is drawn, with its JSON form.
//! - [`loader`], [`directory`], [`samples`], [`frame`] and [`npy`] read and write
//!   stacks; [`project`] accumulates their projections, [`counts`] says when these are
//!   exact.
//! - [`stats`] measures the region and its edge band in every image; [`areas`] says
//!   what it measures.
//! - [`app`] is the state of a session. Its parts are in [`editor`] (the region and
//!   its history), [`screen`] (mode, contrast, zoom and play-through), [`save`],
//!   [`panel`] and [`interact`] (the mouse on the image, with [`handles`]).
//! - [`args`] reads the command line, [`paths`] and [`display`] name things.
//! - [`round`], [`float`] and [`binary`] are the arithmetic of IEEE 754 single and
//!   double precision on bit patterns; [`monotone`] shows that it keeps the order of
//!   numbers, [`integers`] that it is exact on small integers. [`order`] sorts, [`bytes`] reads numbers of several bytes, and [`text`]
//!   reads and writes numbers and looks into texts.
//!
//! A number of single or double precision is held as its bits, so that everything
//! computed from pixels has an exact contract.
pub mod app;
pub mod areas;
pub mod args;
pub mod binary;
pub mod bytes;
pub mod counts;
pub mod crop;
pub mod directory;
pub mod display;
pub mod editor;
pub mod float;
pub mod frame;
pub mod handles;
pub mod integers;
pub mod interact;
pub mod loader;
pub mod monotone;
pub mod npy;
pub mod order;
pub mod panel;
pub mod paths;
pub mod project;
pub mod round;
pub mod samples;
pub mod save;
pub mod screen;
pub mod stats;
pub mod text;
