# rust_crop_tiff

Define one rectangular crop region on a stack of TIFF images, look at it against
every image of the stack (projections, play-through, statistics of the crop's edge
band), and save it as JSON, with the cropped stack as a NumPy file if wanted.

- `src/` is the library, verified with Verus: the crop and its text forms, decoding
  pages into frames, projections, per-image statistics, the editor with its undo
  history, the state of the session and the command line. Floating-point numbers are
  bit patterns there, and the rounding of every operation is part of its contract.
- `app/` is the window around it, drawn with egui: files, dialogs, threads and
  widgets.
- `tests/` run the library on concrete values, the arithmetic among them against the
  machine's own.

Pages of a TIFF file may be compressed with LZW, deflate, PackBits or fax codes.
Pages of JPEG data are refused with an error: the decoder of these data can panic on
malformed ones, and the library promises not to.

What the library takes on trust is small and stands next to where it is used: the
TIFF decoder (`src/loader.rs`), the storage of a frame in an `ndarray` array
(`src/frame.rs`) and `String::push` (`src/text.rs`). Public proof functions whose
names begin with `law_` state what holds of several functions together.
