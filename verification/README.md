# ar_tracker

FAST-9 corner detection and the frame bookkeeping of a small augmented-reality
tracking engine, verified with Verus.

- `src/fast.rs`: the corner test on a ring of sixteen pixels (`is_corner`) and the
  detector (`detect_features`), with their exact specifications and the laws that
  the four-compass-point pre-test never rejects a corner and that the detector
  reports exactly the interior corners, in row-major order; that raising the
  threshold only removes points; and that inverting or uniformly brightening
  the image leaves the detected points unchanged.
- `src/engine.rs`: `AREngine`, which classifies incoming frames (grayscale or
  RGBA), converts RGBA to gray, decides between detecting features afresh and
  tracking, and keeps the previous frame and the tracked points; with laws that
  an RGBA frame behaves exactly like its grayscale conversion and that the
  frame buffers are always empty or one whole image.
- `app/`: the WebAssembly bindings (`wasm-bindgen`), the panic hook, and the
  floating-point Lucas-Kanade tracker (with `nalgebra`), which runs between
  `AREngine::begin_frame` and `AREngine::finish_track`.
- `tests/`: tests of both modules on concrete images.
