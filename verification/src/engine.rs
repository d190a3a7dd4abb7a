use vstd::prelude::*;

use crate::fast::detect_dims_ok;
use crate::fast::detect_features;
use crate::fast::every_interior_corner;
use crate::fast::in_row_major_order;
use crate::fast::lemma_detected_are_interior_corners;
use crate::fast::only_interior_corners;
use crate::fast::spec_detect_features;
use crate::fast::KeyPoint;

verus! {

/// Corner threshold used when features are (re)detected on a frame.
pub const DETECTION_THRESHOLD: u8 = 30;

/// Below this many tracked points the engine detects features afresh.
pub const MIN_TRACKED_POINTS: usize = 5;

/// How the bytes of an incoming frame are laid out.
#[derive(Clone, Copy, Debug, PartialEq, Eq, Structural)]
pub enum FrameFormat {
    /// Neither one byte nor four bytes per pixel.
    Invalid,
    /// One grayscale byte per pixel.
    Gray,
    /// Four bytes (red, green, blue, alpha) per pixel.
    Rgba,
}

/// The layout of a frame of `len` bytes for a `w` x `h` image; a length that
/// fits both (an empty image) counts as RGBA.
pub open spec fn spec_frame_format(len: int, w: int, h: int) -> FrameFormat {
    if len == 4 * (w * h) {
        FrameFormat::Rgba
    } else if len == w * h {
        FrameFormat::Gray
    } else {
        FrameFormat::Invalid
    }
}

/// The image sizes whose byte counts the engine can compute: the pixel count
/// fits in a `u32`, and four bytes per pixel fit in a `usize`.
pub open spec fn frame_dims_ok(w: int, h: int) -> bool {
    &&& w * h <= u32::MAX
    &&& 4 * (w * h) <= usize::MAX
}

/// The layout of a frame of `len` bytes for a `width` x `height` image.
pub fn frame_format(len: usize, width: u32, height: u32) -> (f: FrameFormat)
    requires
        frame_dims_ok(width as int, height as int),
    ensures
        f == spec_frame_format(len as int, width as int, height as int),
{
    let expected_gray = (width * height) as usize;
    let expected_rgba = expected_gray * 4;
    if len == expected_rgba {
        FrameFormat::Rgba
    } else if len == expected_gray {
        FrameFormat::Gray
    } else {
        FrameFormat::Invalid
    }
}

/// Whether the byte counts of `width` x `height` frames can be computed.
pub fn frame_dims_supported(width: u32, height: u32) -> (ok: bool)
    ensures
        ok == frame_dims_ok(width as int, height as int),
{
    let w = width as u64;
    let h = height as u64;
    assert(w * h <= u64::MAX) by (nonlinear_arith)
        requires
            w <= u32::MAX,
            h <= u32::MAX,
    ;
    let pixels = w * h;
    if pixels > u32::MAX as u64 {
        return false;
    }
    4 * pixels <= usize::MAX as u64
}

/// Integer luma of a colour: `(77 r + 150 g + 29 b) / 256`.
pub open spec fn luma(r: u8, g: u8, b: u8) -> int {
    (77 * r + 150 * g + 29 * b) / 256
}

/// The grayscale value of a colour, from integer weights that sum to 256.
pub fn rgb_to_gray(r: u8, g: u8, b: u8) -> (y: u8)
    ensures
        y == luma(r, g, b),
{
    let r = r as u16;
    let g = g as u16;
    let b = b as u16;
    let sum: u16 = 77 * r + 150 * g + 29 * b;
    let y: u16 = sum >> 8;
    assert(sum >> 8 == sum / 256) by (bit_vector);
    y as u8
}

/// A gray pixel (equal red, green and blue) keeps its value, and no colour
/// leaves the byte range.
pub proof fn lemma_luma_of_gray(v: u8, r: u8, g: u8, b: u8)
    ensures
        luma(v, v, v) == v,
        0 <= luma(r, g, b) <= 255,
{
}

/// The grayscale image of the first `n` pixels of an RGBA byte sequence.
pub open spec fn rgba_to_gray(img: Seq<u8>, n: int) -> Seq<u8> {
    Seq::new(n as nat, |i: int| luma(img[4 * i], img[4 * i + 1], img[4 * i + 2]) as u8)
}

/// The grayscale image a valid frame stands for: its conversion if it is
/// RGBA, itself if it is grayscale.
pub open spec fn frame_gray(img: Seq<u8>, w: int, h: int) -> Seq<u8> {
    if spec_frame_format(img.len() as int, w, h) == FrameFormat::Rgba {
        rgba_to_gray(img, w * h)
    } else {
        img
    }
}

/// What `begin_frame` did with a frame.
#[derive(Clone, Copy, Debug, PartialEq, Eq, Structural)]
pub enum FrameStep {
    /// The frame has neither size the engine accepts; nothing changed.
    Rejected,
    /// Features were detected afresh on the frame, which became the previous
    /// frame; there is no motion to report.
    Detected,
    /// The frame waits to be tracked against the previous frame, after which
    /// `finish_track` records the outcome.
    Track,
}

/// The state of the engine, as the contracts see it.
pub struct EngineView {
    pub width: u32,
    pub height: u32,
    /// The last grayscale frame, empty before the first one.
    pub prev_frame: Seq<u8>,
    /// The feature points being tracked.
    pub points: Seq<KeyPoint>,
    /// Scratch space that holds the conversion of the last RGBA frame.
    pub gray_buffer: Seq<u8>,
}

/// The engine detects features afresh on the next frame: there is no previous
/// frame yet, or too few points are left to track.
pub open spec fn will_detect(v: EngineView) -> bool {
    v.prev_frame.len() == 0 || v.points.len() < MIN_TRACKED_POINTS
}

/// The layout of `img` for the engine's image size.
pub open spec fn format_of(v: EngineView, img: Seq<u8>) -> FrameFormat {
    spec_frame_format(img.len() as int, v.width as int, v.height as int)
}

/// The grayscale image that `img` stands for at the engine's image size.
pub open spec fn gray_frame(v: EngineView, img: Seq<u8>) -> Seq<u8> {
    frame_gray(img, v.width as int, v.height as int)
}

/// What `begin_frame` does, from state `old` to state `new`, with frame `img`:
/// a frame of neither size is rejected and changes nothing; an RGBA frame is
/// converted into the scratch buffer (a grayscale frame leaves it alone); then
/// either features are detected afresh on the grayscale frame, which becomes the
/// previous frame, or (with a previous frame and enough points) the frame is
/// left to be tracked and the points and previous frame stay as they were.
pub open spec fn frame_begun(old: EngineView, new: EngineView, img: Seq<u8>, step: FrameStep) -> bool {
    let format = format_of(old, img);
    let gray = gray_frame(old, img);
    &&& new.width == old.width
    &&& new.height == old.height
    &&& format == FrameFormat::Invalid ==> step == FrameStep::Rejected && new == old
    &&& format == FrameFormat::Rgba ==> new.gray_buffer == gray
    &&& format == FrameFormat::Gray ==> new.gray_buffer == old.gray_buffer
    &&& format != FrameFormat::Invalid && will_detect(old) ==> {
        &&& step == FrameStep::Detected
        &&& new.prev_frame == gray
        &&& new.points == spec_detect_features(
            gray,
            old.width as int,
            old.height as int,
            DETECTION_THRESHOLD as int,
        )
    }
    &&& format != FrameFormat::Invalid && !will_detect(old) ==> {
        &&& step == FrameStep::Track
        &&& new.prev_frame == old.prev_frame
        &&& new.points == old.points
    }
}

/// The grayscale data the tracker works on for frame `img`: the scratch buffer
/// for an RGBA frame (which `begin_frame` fills), the frame itself otherwise.
pub open spec fn tracked_frame(v: EngineView, img: Seq<u8>) -> Seq<u8> {
    if format_of(v, img) == FrameFormat::Rgba {
        v.gray_buffer
    } else {
        img
    }
}

/// What `finish_track` does, from state `old` to state `new`, with frame `img`
/// and the tracked points `points`: they replace the old points, and the
/// frame's grayscale data (the scratch buffer for an RGBA frame) becomes the
/// previous frame.
pub open spec fn track_finished(old: EngineView, new: EngineView, img: Seq<u8>, points: Seq<KeyPoint>) -> bool {
    &&& new.width == old.width
    &&& new.height == old.height
    &&& new.gray_buffer == old.gray_buffer
    &&& new.points == points
    &&& new.prev_frame == tracked_frame(old, img)
}

/// Keeps the previous frame and the tracked feature points between frames.
pub struct AREngine {
    width: u32,
    height: u32,
    prev_frame: Vec<u8>,
    points: Vec<KeyPoint>,
    gray_buffer: Vec<u8>,
}

impl View for AREngine {
    type V = EngineView;

    closed spec fn view(&self) -> EngineView {
        EngineView {
            width: self.width,
            height: self.height,
            prev_frame: self.prev_frame@,
            points: self.points@,
            gray_buffer: self.gray_buffer@,
        }
    }
}

/// Makes `dst` a copy of `src`, reusing its storage.
fn copy_into(dst: &mut Vec<u8>, src: &[u8])
    ensures
        final(dst)@ == src@,
{
    let n = src.len();
    if dst.len() != n {
        dst.resize(n, 0);
    }
    let mut i: usize = 0;
    while i < n
        invariant
            n == src@.len(),
            dst@.len() == n,
            i <= n,
            forall|k: int| 0 <= k < i ==> dst@[k] == src@[k],
        decreases n - i,
    {
        dst[i] = src[i];
        i = i + 1;
    }
    assert(dst@ =~= src@);
}

/// Fills `dst` with the grayscale conversion of the `n` RGBA pixels of `src`,
/// reusing its storage.
fn convert_rgba(dst: &mut Vec<u8>, src: &[u8], n: usize)
    requires
        src@.len() == 4 * n,
    ensures
        final(dst)@ == rgba_to_gray(src@, n as int),
{
    if dst.len() != n {
        dst.resize(n, 0);
    }
    let len = src.len();
    let mut i: usize = 0;
    while i < n
        invariant
            src@.len() == 4 * n,
            len == src@.len(),
            dst@.len() == n,
            i <= n,
            forall|k: int|
                0 <= k < i ==> dst@[k] == luma(src@[4 * k], src@[4 * k + 1], src@[4 * k + 2]) as u8,
        decreases n - i,
    {
        let r = src[4 * i];
        let g = src[4 * i + 1];
        let b = src[4 * i + 2];
        dst[i] = rgb_to_gray(r, g, b);
        i = i + 1;
    }
    assert(dst@ =~= rgba_to_gray(src@, n as int));
}

impl AREngine {
    /// A fresh engine for frames of `width` x `height` pixels, with no
    /// previous frame and no points.
    pub fn init(width: u32, height: u32) -> (engine: AREngine)
        ensures
            engine@.width == width,
            engine@.height == height,
            engine@.prev_frame == Seq::<u8>::empty(),
            engine@.points == Seq::<KeyPoint>::empty(),
            engine@.gray_buffer == Seq::<u8>::empty(),
            buffers_sized(engine@),
    {
        AREngine {
            width,
            height,
            prev_frame: Vec::new(),
            points: Vec::new(),
            gray_buffer: Vec::new(),
        }
    }
}

impl AREngine {
    /// Frame width in pixels.
    pub fn width(&self) -> (w: u32)
        ensures
            w == self@.width,
    {
        self.width
    }

    /// Frame height in pixels.
    pub fn height(&self) -> (h: u32)
        ensures
            h == self@.height,
    {
        self.height
    }

    /// Whether the next accepted frame will have its features detected afresh.
    pub fn needs_detection(&self) -> (b: bool)
        ensures
            b == will_detect(self@),
            b == (self@.prev_frame.len() == 0 || self@.points.len() < MIN_TRACKED_POINTS),
    {
        self.prev_frame.len() == 0 || self.points.len() < MIN_TRACKED_POINTS
    }

    /// The feature points being tracked.
    pub fn points(&self) -> (points: &[KeyPoint])
        ensures
            points@ == self@.points,
    {
        self.points.as_slice()
    }

    /// The last grayscale frame; empty before the first accepted frame.
    pub fn prev_frame(&self) -> (frame: &[u8])
        ensures
            frame@ == self@.prev_frame,
    {
        self.prev_frame.as_slice()
    }

    /// Takes in a frame of `image_data`, one grayscale byte or four RGBA bytes
    /// per pixel. A frame of any other size is rejected and changes nothing.
    /// An RGBA frame is converted to grayscale into the scratch buffer. Then,
    /// when there is no previous frame yet or fewer than `MIN_TRACKED_POINTS`
    /// points are left, features are detected afresh on the grayscale frame,
    /// which becomes the previous frame; otherwise the frame is left to be
    /// tracked against the previous one.
    pub fn begin_frame(&mut self, image_data: &[u8]) -> (step: FrameStep)
        requires
            frame_dims_ok(old(self)@.width as int, old(self)@.height as int),
            format_of(old(self)@, image_data@) != FrameFormat::Invalid && will_detect(old(self)@)
                ==> detect_dims_ok(old(self)@.width as int, old(self)@.height as int),
        ensures
            frame_begun(old(self)@, final(self)@, image_data@, step),
    {
        let format = frame_format(image_data.len(), self.width, self.height);
        if format == FrameFormat::Invalid {
            return FrameStep::Rejected;
        }
        let expected_gray = (self.width * self.height) as usize;
        let rgba = format == FrameFormat::Rgba;
        if rgba {
            convert_rgba(&mut self.gray_buffer, image_data, expected_gray);
        }
        if self.needs_detection() {
            if rgba {
                self.points = detect_features(
                    self.gray_buffer.as_slice(),
                    self.width,
                    self.height,
                    DETECTION_THRESHOLD,
                );
                copy_into(&mut self.prev_frame, self.gray_buffer.as_slice());
            } else {
                self.points = detect_features(
                    image_data,
                    self.width,
                    self.height,
                    DETECTION_THRESHOLD,
                );
                copy_into(&mut self.prev_frame, image_data);
            }
            FrameStep::Detected
        } else {
            FrameStep::Track
        }
    }

    /// The grayscale data of a frame: the scratch buffer for an RGBA frame
    /// (which `begin_frame` filled), the frame itself otherwise.
    pub fn current_frame<'a>(&'a self, image_data: &'a [u8]) -> (frame: &'a [u8])
        requires
            frame_dims_ok(self@.width as int, self@.height as int),
        ensures
            frame@ == tracked_frame(self@, image_data@),
    {
        if frame_format(image_data.len(), self.width, self.height) == FrameFormat::Rgba {
            self.gray_buffer.as_slice()
        } else {
            image_data
        }
    }

    /// Records the outcome of tracking a frame that `begin_frame` left to be
    /// tracked: the tracked points replace the old ones, and the frame's
    /// grayscale data becomes the previous frame.
    pub fn finish_track(&mut self, image_data: &[u8], new_points: Vec<KeyPoint>)
        requires
            frame_dims_ok(old(self)@.width as int, old(self)@.height as int),
            format_of(old(self)@, image_data@) != FrameFormat::Invalid,
        ensures
            track_finished(old(self)@, final(self)@, image_data@, new_points@),
    {
        self.points = new_points;
        if frame_format(image_data.len(), self.width, self.height) == FrameFormat::Rgba {
            copy_into(&mut self.prev_frame, self.gray_buffer.as_slice());
        } else {
            copy_into(&mut self.prev_frame, image_data);
        }
    }
}

/// After any frame the engine accepts, the previous frame is that frame's
/// grayscale image: at once when features were detected, and after
/// `finish_track` when the frame was tracked.
pub proof fn lemma_accepted_frame_becomes_previous(
    before: EngineView,
    begun: EngineView,
    after: EngineView,
    img: Seq<u8>,
    step: FrameStep,
    points: Seq<KeyPoint>,
)
    requires
        frame_begun(before, begun, img, step),
        step == FrameStep::Track ==> track_finished(begun, after, img, points),
        step == FrameStep::Detected ==> after == begun,
        step != FrameStep::Rejected,
    ensures
        after.prev_frame == gray_frame(before, img),
        after.width == before.width,
        after.height == before.height,
        step == FrameStep::Track ==> after.points == points,
{
}

/// A frame of RGBA pixels whose red, green and blue are equal stands for the
/// same grayscale image as the frame of those gray values, whatever its alpha.
pub proof fn lemma_neutral_rgba_matches_gray(rgba: Seq<u8>, gray: Seq<u8>, w: int, h: int)
    requires
        0 <= w,
        0 <= h,
        gray.len() == w * h,
        rgba.len() == 4 * (w * h),
        forall|i: int|
            0 <= i < w * h ==> rgba[4 * i] == #[trigger] gray[i] && rgba[4 * i + 1] == gray[i]
                && rgba[4 * i + 2] == gray[i],
    ensures
        frame_gray(rgba, w, h) == frame_gray(gray, w, h),
{
    let conv = rgba_to_gray(rgba, w * h);
    assert forall|i: int| 0 <= i < w * h implies conv[i] == gray[i] by {
        lemma_luma_of_gray(gray[i], gray[i], gray[i], gray[i]);
    }
    assert(conv =~= gray);
}

/// The alpha bytes of an RGBA frame never matter: two RGBA frames that agree
/// on red, green and blue stand for the same grayscale image.
pub proof fn lemma_alpha_ignored(a: Seq<u8>, b: Seq<u8>, w: int, h: int)
    requires
        0 <= w,
        0 <= h,
        a.len() == 4 * (w * h),
        b.len() == a.len(),
        forall|i: int| 0 <= i < a.len() && i % 4 != 3 ==> #[trigger] a[i] == b[i],
    ensures
        frame_gray(a, w, h) == frame_gray(b, w, h),
{
    let ga = rgba_to_gray(a, w * h);
    let gb = rgba_to_gray(b, w * h);
    assert forall|i: int| 0 <= i < w * h implies ga[i] == gb[i] by {
        assert(a[4 * i] == b[4 * i]);
        assert(a[4 * i + 1] == b[4 * i + 1]);
        assert(a[4 * i + 2] == b[4 * i + 2]);
    }
    assert(rgba_to_gray(a, w * h) =~= rgba_to_gray(b, w * h));
}

/// Feeding an RGBA frame, or its grayscale conversion, to two engines in the
/// same state has the same outcome: the same step, the same previous frame
/// and points, the same frame handed to the tracker, and, once the tracking
/// outcome is recorded (or at once when there was nothing to track), again the
/// same previous frame and points.
pub proof fn lemma_rgba_frame_matches_its_luma(
    a0: EngineView,
    a1: EngineView,
    a2: EngineView,
    b0: EngineView,
    b1: EngineView,
    b2: EngineView,
    rgba: Seq<u8>,
    step_a: FrameStep,
    step_b: FrameStep,
    points: Seq<KeyPoint>,
)
    requires
        a0.width == b0.width,
        a0.height == b0.height,
        a0.prev_frame == b0.prev_frame,
        a0.points == b0.points,
        rgba.len() == 4 * (a0.width * a0.height),
        frame_begun(a0, a1, rgba, step_a),
        frame_begun(b0, b1, rgba_to_gray(rgba, a0.width * a0.height), step_b),
        step_a == FrameStep::Track ==> track_finished(a1, a2, rgba, points),
        step_a != FrameStep::Track ==> a2 == a1,
        step_b == FrameStep::Track ==> track_finished(
            b1,
            b2,
            rgba_to_gray(rgba, a0.width * a0.height),
            points,
        ),
        step_b != FrameStep::Track ==> b2 == b1,
    ensures
        step_a == step_b,
        a1.prev_frame == b1.prev_frame,
        a1.points == b1.points,
        step_a == FrameStep::Track ==> tracked_frame(a1, rgba) == tracked_frame(
            b1,
            rgba_to_gray(rgba, a0.width * a0.height),
        ),
        a2.prev_frame == b2.prev_frame,
        a2.points == b2.points,
{
    let n = a0.width * a0.height;
    let gray = rgba_to_gray(rgba, n);
    assert(format_of(a0, rgba) == FrameFormat::Rgba);
    if n == 0 {
        assert(gray =~= rgba);
    } else {
        assert(format_of(b0, gray) == FrameFormat::Gray);
    }
    assert(gray_frame(a0, rgba) == gray_frame(b0, gray));
}

/// Every frame buffer the engine keeps is empty or holds one grayscale image.
pub open spec fn buffers_sized(v: EngineView) -> bool {
    let n = v.width * v.height;
    &&& v.prev_frame.len() == 0 || v.prev_frame.len() == n
    &&& v.gray_buffer.len() == 0 || v.gray_buffer.len() == n
}

/// Every state that
/// `begin_frame` or `finish_track` (after an accepted frame) leaves behind.
/// After any accepted frame the previous frame holds a whole image, and once it
/// does it keeps doing so.
pub proof fn lemma_buffers_stay_sized(
    before: EngineView,
    begun: EngineView,
    after: EngineView,
    img: Seq<u8>,
    step: FrameStep,
    points: Seq<KeyPoint>,
)
    requires
        buffers_sized(before),
        frame_begun(before, begun, img, step),
        step == FrameStep::Track ==> track_finished(begun, after, img, points),
        step != FrameStep::Track ==> after == begun,
    ensures
        buffers_sized(begun),
        buffers_sized(after),
        after.width == before.width,
        after.height == before.height,
        step != FrameStep::Rejected ==> after.prev_frame.len() == before.width * before.height,
        before.prev_frame.len() == before.width * before.height ==> after.prev_frame.len()
            == before.width * before.height,
{
    let n = before.width * before.height;
    if format_of(before, img) == FrameFormat::Rgba {
        assert(0 <= before.width * before.height) by (nonlinear_arith)
            requires
                0 <= before.width,
                0 <= before.height,
        ;
        assert(rgba_to_gray(img, n).len() == n);
    }
}

/// When `begin_frame` accepts a frame, it detects features afresh exactly
/// when there is no previous frame or fewer than `MIN_TRACKED_POINTS` points
/// are left, and otherwise leaves the frame to be tracked.
pub proof fn lemma_detect_when_few_points(old: EngineView, new: EngineView, img: Seq<u8>, step: FrameStep)
    requires
        frame_begun(old, new, img, step),
        format_of(old, img) != FrameFormat::Invalid,
    ensures
        old.prev_frame.len() == 0 ==> step == FrameStep::Detected,
        old.points.len() < MIN_TRACKED_POINTS ==> step == FrameStep::Detected,
        old.prev_frame.len() > 0 && old.points.len() >= MIN_TRACKED_POINTS ==> step == FrameStep::Track,
{
}

/// A frame left to be tracked changes neither the points nor the previous
/// frame: the tracker is handed the old points together with the frame they
/// were found or tracked on.
pub proof fn lemma_track_step_keeps_points(old: EngineView, new: EngineView, img: Seq<u8>)
    requires
        frame_begun(old, new, img, FrameStep::Track),
    ensures
        new.points == old.points,
        new.prev_frame == old.prev_frame,
        old.prev_frame.len() > 0,
        old.points.len() >= MIN_TRACKED_POINTS,
{
}

/// After a detection step the points depend on the frame alone, not on the
/// points held before: two engines of the same size that both detect on the
/// same frame end with the same points and the same previous frame. Those
/// points are exactly the interior corners of the new previous frame at the
/// detection threshold, in row-major order.
pub proof fn lemma_detection_replaces_points(
    a0: EngineView,
    a1: EngineView,
    b0: EngineView,
    b1: EngineView,
    img: Seq<u8>,
)
    requires
        a0.width == b0.width,
        a0.height == b0.height,
        frame_begun(a0, a1, img, FrameStep::Detected),
        frame_begun(b0, b1, img, FrameStep::Detected),
    ensures
        a1.points == b1.points,
        a1.prev_frame == b1.prev_frame,
        only_interior_corners(
            a1.points,
            a1.prev_frame,
            a0.width as int,
            a0.height as int,
            DETECTION_THRESHOLD as int,
        ),
        in_row_major_order(a1.points),
        every_interior_corner(
            a1.points,
            a1.prev_frame,
            a0.width as int,
            a0.height as int,
            DETECTION_THRESHOLD as int,
        ),
{
    assert(format_of(a0, img) != FrameFormat::Invalid);
    lemma_detected_are_interior_corners(
        gray_frame(a0, img),
        a0.width as int,
        a0.height as int,
        DETECTION_THRESHOLD as int,
    );
}

} // verus!
