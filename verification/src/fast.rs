use vstd::prelude::*;

verus! {

/// A pixel position at which a corner was found.
#[derive(Clone, Copy, Debug, PartialEq, Eq, Structural)]
pub struct KeyPoint {
    pub x: usize,
    pub y: usize,
}

/// `v` lies strictly beyond `bound`: above it when `above`, below it otherwise.
pub open spec fn beyond(v: int, bound: int, above: bool) -> bool {
    if above {
        v > bound
    } else {
        v < bound
    }
}

/// The nine entries `s[start] .. s[start + 8]` exist and all lie beyond `bound`.
pub open spec fn arc_at(s: Seq<i16>, start: int, bound: int, above: bool) -> bool {
    &&& 0 <= start
    &&& start + 9 <= s.len()
    &&& forall|j: int| start <= j < start + 9 ==> #[trigger] beyond(s[j] as int, bound, above)
}

/// Some nine consecutive entries of `s` all lie beyond `bound`.
pub open spec fn has_arc(s: Seq<i16>, bound: int, above: bool) -> bool {
    exists|start: int| #[trigger] arc_at(s, start, bound, above)
}

/// The corner test on a ring of pixel values read twice in a row (so that an arc
/// may wrap around its end): nine consecutive values brighter than `p + t`, or
/// nine consecutive values darker than `p - t`.
pub open spec fn spec_is_corner(ring: Seq<i16>, p: int, t: int) -> bool {
    has_arc(ring + ring, p + t, true) || has_arc(ring + ring, p - t, false)
}

/// The run of `c` entries just before position `j` of `d` all lie beyond `bound`,
/// and the entry before that run (if any) does not.
spec fn run_before(d: Seq<i16>, j: int, c: int, bound: int, above: bool) -> bool {
    &&& 0 <= c <= j
    &&& c < 9
    &&& forall|q: int| j - c <= q < j ==> #[trigger] beyond(d[q] as int, bound, above)
    &&& c < j ==> !beyond(d[j - c - 1] as int, bound, above)
}

/// No arc of `d` ends at or before position `j`.
spec fn no_arc_before(d: Seq<i16>, j: int, bound: int, above: bool) -> bool {
    forall|start: int| 0 <= start && start + 9 <= j ==> !#[trigger] arc_at(d, start, bound, above)
}

/// Scans the ring twice for nine consecutive values beyond `bound`.
fn scan_arc(ring: &[i16], bound: i16, above: bool) -> (found: bool)
    ensures
        found == has_arc(ring@ + ring@, bound as int, above),
{
    let n = ring.len();
    let ghost d = ring@ + ring@;
    let ghost b = bound as int;
    let mut contiguous: usize = 0;
    let ghost mut j: int = 0;
    let mut pass: usize = 0;
    while pass < 2
        invariant
            n == ring@.len(),
            d == ring@ + ring@,
            b == bound as int,
            pass <= 2,
            j == (if pass == 0 {
                0int
            } else if pass == 1 {
                n as int
            } else {
                2 * n
            }),
            run_before(d, j, contiguous as int, b, above),
            no_arc_before(d, j, b, above),
        decreases 2 - pass,
    {
        let mut i: usize = 0;
        while i < n
            invariant
                n == ring@.len(),
                d == ring@ + ring@,
                b == bound as int,
                pass < 2,
                i <= n,
                j == (if pass == 0 {
                    0int
                } else {
                    n as int
                }) + i,
                run_before(d, j, contiguous as int, b, above),
                no_arc_before(d, j, b, above),
            decreases n - i,
        {
            let v = ring[i];
            assert(d[j] == v) by {
                if pass == 1 {
                    assert(j == n + i);
                }
            }
            let hit = if above {
                v > bound
            } else {
                v < bound
            };
            let ghost c0 = contiguous as int;
            if hit {
                contiguous = contiguous + 1;
            } else {
                contiguous = 0;
            }
            proof {
                j = j + 1;
            }
            if contiguous >= 9 {
                assert(arc_at(d, j - 9, b, above));
                return true;
            }
            assert forall|start: int| 0 <= start && start + 9 <= j implies !#[trigger] arc_at(
                d,
                start,
                b,
                above,
            ) by {
                if start + 9 == j {
                    if hit {
                        assert(!beyond(d[j - 1 - c0 - 1] as int, b, above));
                    } else {
                        assert(!beyond(d[j - 1] as int, b, above));
                    }
                }
            }
            i = i + 1;
        }
        pass = pass + 1;
    }
    assert(!has_arc(d, b, above)) by {
        assert(j == d.len());
        if has_arc(d, b, above) {
            let start = choose|start: int| #[trigger] arc_at(d, start, b, above);
            assert(!arc_at(d, start, b, above));
        }
    }
    false
}

/// Whether the ring of pixel values around a centre of brightness `p_val`
/// holds nine contiguous values brighter than `p_val + t` or darker than
/// `p_val - t`, the ring being read round past its end.
pub fn is_corner(ring: &[i16], p_val: i16, t: i16) -> (res: bool)
    requires
        i16::MIN <= p_val - t <= i16::MAX,
        i16::MIN <= p_val + t <= i16::MAX,
    ensures
        res == spec_is_corner(ring@, p_val as int, t as int),
{
    let lower = p_val - t;
    let upper = p_val + t;
    if scan_arc(ring, upper, true) {
        return true;
    }
    scan_arc(ring, lower, false)
}


/// How many of the four compass points of a sixteen-value ring (positions 0, 4,
/// 8 and 12: north, east, south and west) lie beyond `bound`.
pub open spec fn cardinal_count(ring: Seq<i16>, bound: int, above: bool) -> int {
    (if beyond(ring[0] as int, bound, above) { 1int } else { 0int })
        + (if beyond(ring[4] as int, bound, above) { 1int } else { 0int })
        + (if beyond(ring[8] as int, bound, above) { 1int } else { 0int })
        + (if beyond(ring[12] as int, bound, above) { 1int } else { 0int })
}

/// An arc of nine on a sixteen-value ring always covers two compass points.
proof fn lemma_arc_covers_two_cardinals(ring: Seq<i16>, bound: int, above: bool)
    requires
        ring.len() == 16,
        has_arc(ring + ring, bound, above),
    ensures
        cardinal_count(ring, bound, above) >= 2,
{
    let d = ring + ring;
    let start = choose|start: int| #[trigger] arc_at(d, start, bound, above);
    assert(arc_at(d, start, bound, above));
    if start <= 4 {
        assert(beyond(d[4] as int, bound, above));
        assert(beyond(d[8] as int, bound, above));
    } else if start <= 8 {
        assert(beyond(d[8] as int, bound, above));
        assert(beyond(d[12] as int, bound, above));
    } else if start <= 12 {
        assert(beyond(d[12] as int, bound, above));
        assert(beyond(d[16] as int, bound, above));
        assert(d[16] == ring[0]);
    } else if start <= 16 {
        assert(beyond(d[16] as int, bound, above));
        assert(beyond(d[20] as int, bound, above));
        assert(d[16] == ring[0]);
        assert(d[20] == ring[4]);
    } else if start <= 20 {
        assert(beyond(d[20] as int, bound, above));
        assert(beyond(d[24] as int, bound, above));
        assert(d[20] == ring[4]);
        assert(d[24] == ring[8]);
    } else {
        assert(beyond(d[24] as int, bound, above));
        assert(beyond(d[28] as int, bound, above));
        assert(d[24] == ring[8]);
        assert(d[28] == ring[12]);
    }
}

/// A corner of a sixteen-value ring has at least two compass points brighter
/// than `p + t`, or at least two darker than `p - t`: so the quick test on the
/// four compass points never rejects a corner.
pub proof fn lemma_corner_has_two_cardinals(ring: Seq<i16>, p: int, t: int)
    requires
        ring.len() == 16,
        spec_is_corner(ring, p, t),
    ensures
        cardinal_count(ring, p + t, true) >= 2 || cardinal_count(ring, p - t, false) >= 2,
{
    if has_arc(ring + ring, p + t, true) {
        lemma_arc_covers_two_cardinals(ring, p + t, true);
    } else {
        lemma_arc_covers_two_cardinals(ring, p - t, false);
    }
}

/// Horizontal offset of the `k`-th pixel of the radius-3 circle, clockwise from north.
pub open spec fn ring_dx(k: int) -> int {
    if k == 0 || k == 8 {
        0
    } else if k == 1 || k == 7 {
        1
    } else if k == 2 || k == 6 {
        2
    } else if 3 <= k <= 5 {
        3
    } else if k == 9 || k == 15 {
        -1
    } else if k == 10 || k == 14 {
        -2
    } else {
        -3
    }
}

/// Vertical offset of the `k`-th pixel of the radius-3 circle, clockwise from north.
pub open spec fn ring_dy(k: int) -> int {
    if k == 4 || k == 12 {
        0
    } else if k == 5 || k == 11 {
        1
    } else if k == 6 || k == 10 {
        2
    } else if 7 <= k <= 9 {
        3
    } else if k == 3 || k == 13 {
        -1
    } else if k == 2 || k == 14 {
        -2
    } else {
        -3
    }
}

/// The sixteen pixels on the circle of radius 3 around `(x, y)` in a
/// row-major image of width `w`.
pub open spec fn image_ring(img: Seq<u8>, w: int, x: int, y: int) -> Seq<i16> {
    Seq::new(16, |k: int| img[(y + ring_dy(k)) * w + x + ring_dx(k)] as i16)
}

/// The pixel at `(x, y)` is a FAST-9 corner for threshold `t`.
pub open spec fn is_fast_corner(img: Seq<u8>, w: int, x: int, y: int, t: int) -> bool {
    spec_is_corner(image_ring(img, w, x, y), img[y * w + x] as int, t)
}

/// The corners of row `y` with `3 <= x < x_end`, left to right.
pub open spec fn row_corners(img: Seq<u8>, w: int, t: int, y: int, x_end: int) -> Seq<KeyPoint>
    decreases x_end - 3,
{
    if x_end <= 3 {
        Seq::empty()
    } else {
        row_corners(img, w, t, y, x_end - 1) + if is_fast_corner(img, w, x_end - 1, y, t) {
            seq![KeyPoint { x: (x_end - 1) as usize, y: y as usize }]
        } else {
            Seq::empty()
        }
    }
}

/// The corners of the rows `3 <= y < y_end`, in row-major order.
pub open spec fn rows_corners(img: Seq<u8>, w: int, t: int, y_end: int) -> Seq<KeyPoint>
    decreases y_end - 3,
{
    if y_end <= 3 {
        Seq::empty()
    } else {
        rows_corners(img, w, t, y_end - 1) + row_corners(img, w, t, y_end - 1, w - 3)
    }
}

/// Every FAST-9 corner at least three pixels away from the image border, in
/// row-major order.
pub open spec fn spec_detect_features(img: Seq<u8>, w: int, h: int, t: int) -> Seq<KeyPoint> {
    rows_corners(img, w, t, h - 3)
}

/// `a` comes before `b` when an image is read row by row.
pub open spec fn row_major_before(a: KeyPoint, b: KeyPoint) -> bool {
    a.y < b.y || (a.y == b.y && a.x < b.x)
}

/// The key point at `(x, y)`.
pub open spec fn key_point(x: int, y: int) -> KeyPoint {
    KeyPoint { x: x as usize, y: y as usize }
}

/// `s` holds the key point at `(x, y)`.
pub open spec fn lists(s: Seq<KeyPoint>, x: int, y: int) -> bool {
    exists|i: int| 0 <= i < s.len() && s[i] == key_point(x, y)
}

/// Every point of `s` lies in row `y`, at `3 <= x < x_end`, and is a corner.
spec fn row_sound(s: Seq<KeyPoint>, img: Seq<u8>, w: int, t: int, y: int, x_end: int) -> bool {
    forall|i: int|
        0 <= i < s.len() ==> {
            let k = #[trigger] s[i];
            &&& k.y == y
            &&& 3 <= k.x < x_end
            &&& is_fast_corner(img, w, k.x as int, y, t)
        }
}

/// The points of `s` run strictly left to right.
spec fn left_to_right(s: Seq<KeyPoint>) -> bool {
    forall|i: int, j: int| 0 <= i < j < s.len() ==> (#[trigger] s[i]).x < (#[trigger] s[j]).x
}

/// Every corner of row `y` with `3 <= x < x_end` is in `s`.
spec fn row_complete(s: Seq<KeyPoint>, img: Seq<u8>, w: int, t: int, y: int, x_end: int) -> bool {
    forall|x: int| 3 <= x < x_end && #[trigger] is_fast_corner(img, w, x, y, t) ==> lists(s, x, y)
}

/// Every point of `s` lies at least three pixels inside a `w` x `h` image and
/// is a corner there.
pub open spec fn only_interior_corners(s: Seq<KeyPoint>, img: Seq<u8>, w: int, h: int, t: int) -> bool {
    forall|i: int|
        0 <= i < s.len() ==> {
            let k = #[trigger] s[i];
            &&& 3 <= k.x && k.x + 3 < w
            &&& 3 <= k.y && k.y + 3 < h
            &&& is_fast_corner(img, w, k.x as int, k.y as int, t)
        }
}

/// The points of `s` come in strict row-major order.
pub open spec fn in_row_major_order(s: Seq<KeyPoint>) -> bool {
    forall|i: int, j: int|
        0 <= i < j < s.len() ==> row_major_before(#[trigger] s[i], #[trigger] s[j])
}

/// Every corner at least three pixels inside a `w` x `h` image is in `s`.
pub open spec fn every_interior_corner(s: Seq<KeyPoint>, img: Seq<u8>, w: int, h: int, t: int) -> bool {
    forall|x: int, y: int|
        3 <= x && x + 3 < w && 3 <= y && y + 3 < h && #[trigger] is_fast_corner(img, w, x, y, t)
            ==> lists(s, x, y)
}

proof fn lemma_row_corners(img: Seq<u8>, w: int, t: int, y: int, x_end: int)
    requires
        0 <= y <= usize::MAX,
        x_end <= usize::MAX,
    ensures
        row_sound(row_corners(img, w, t, y, x_end), img, w, t, y, x_end),
        left_to_right(row_corners(img, w, t, y, x_end)),
        row_complete(row_corners(img, w, t, y, x_end), img, w, t, y, x_end),
    decreases x_end - 3,
{
    if x_end > 3 {
        lemma_row_corners(img, w, t, y, x_end - 1);
        let prev = row_corners(img, w, t, y, x_end - 1);
        let s = row_corners(img, w, t, y, x_end);
        assert forall|x: int|
            3 <= x < x_end && #[trigger] is_fast_corner(img, w, x, y, t) implies lists(s, x, y) by {
            if x < x_end - 1 {
                assert(lists(prev, x, y));
                let i = choose|i: int| 0 <= i < prev.len() && prev[i] == key_point(x, y);
                assert(s[i] == prev[i]);
            } else {
                assert(s[prev.len() as int] == key_point(x, y));
            }
        }
    }
}

proof fn lemma_rows_corners(img: Seq<u8>, w: int, t: int, y_end: int)
    requires
        y_end <= usize::MAX,
        w <= usize::MAX,
    ensures
        only_interior_corners(rows_corners(img, w, t, y_end), img, w, y_end + 3, t),
        in_row_major_order(rows_corners(img, w, t, y_end)),
        every_interior_corner(rows_corners(img, w, t, y_end), img, w, y_end + 3, t),
    decreases y_end - 3,
{
    if y_end > 3 {
        lemma_rows_corners(img, w, t, y_end - 1);
        lemma_row_corners(img, w, t, y_end - 1, w - 3);
        let prev = rows_corners(img, w, t, y_end - 1);
        let row = row_corners(img, w, t, y_end - 1, w - 3);
        let s = rows_corners(img, w, t, y_end);
        assert(s == prev + row);
        assert forall|i: int|
            0 <= i < s.len() implies {
                let k = #[trigger] s[i];
                &&& 3 <= k.x && k.x + 3 < w
                &&& 3 <= k.y && k.y + 3 < y_end + 3
                &&& is_fast_corner(img, w, k.x as int, k.y as int, t)
            } by {
            if i >= prev.len() {
                assert(s[i] == row[i - prev.len()]);
            } else {
                assert(s[i] == prev[i]);
            }
        }
        assert forall|i: int, j: int|
            0 <= i < j < s.len() implies row_major_before(#[trigger] s[i], #[trigger] s[j]) by {
            if j < prev.len() {
                assert(s[i] == prev[i]);
                assert(s[j] == prev[j]);
            } else if i >= prev.len() {
                assert(s[i] == row[i - prev.len()]);
                assert(s[j] == row[j - prev.len()]);
            } else {
                assert(s[i] == prev[i]);
                assert(s[j] == row[j - prev.len()]);
            }
        }
        assert forall|x: int, y: int|
            3 <= x && x + 3 < w && 3 <= y && y + 3 < y_end + 3 && #[trigger] is_fast_corner(
                img,
                w,
                x,
                y,
                t,
            ) implies lists(s, x, y) by {
            if y < y_end - 1 {
                assert(lists(prev, x, y));
                let i = choose|i: int| 0 <= i < prev.len() && prev[i] == key_point(x, y);
                assert(s[i] == prev[i]);
            } else {
                assert(lists(row, x, y));
                let i = choose|i: int| 0 <= i < row.len() && row[i] == key_point(x, y);
                assert(s[prev.len() + i] == row[i]);
            }
        }
    }
}

/// What the detector reports is exactly the set of interior corners: every
/// reported point lies at least three pixels inside the border and is a FAST-9
/// corner; the points come in strict row-major order (so none twice); and every
/// interior corner is reported.
pub proof fn lemma_detected_are_interior_corners(img: Seq<u8>, w: int, h: int, t: int)
    requires
        0 <= w <= u32::MAX,
        0 <= h <= u32::MAX,
    ensures
        only_interior_corners(spec_detect_features(img, w, h, t), img, w, h, t),
        in_row_major_order(spec_detect_features(img, w, h, t)),
        every_interior_corner(spec_detect_features(img, w, h, t), img, w, h, t),
{
    lemma_rows_corners(img, w, t, h - 3);
}

/// Lowering the threshold keeps every corner: a value beyond `p + t2` (or
/// `p - t2`) is also beyond `p + t1` (or `p - t1`) when `t1 <= t2`.
pub proof fn lemma_corner_at_lower_threshold(ring: Seq<i16>, p: int, t1: int, t2: int)
    requires
        t1 <= t2,
        spec_is_corner(ring, p, t2),
    ensures
        spec_is_corner(ring, p, t1),
{
    let d = ring + ring;
    if has_arc(d, p + t2, true) {
        let s = choose|s: int| #[trigger] arc_at(d, s, p + t2, true);
        assert forall|j: int| s <= j < s + 9 implies #[trigger] beyond(d[j] as int, p + t1, true) by {
            assert(beyond(d[j] as int, p + t2, true));
        }
        assert(arc_at(d, s, p + t1, true));
    } else {
        let s = choose|s: int| #[trigger] arc_at(d, s, p - t2, false);
        assert forall|j: int| s <= j < s + 9 implies #[trigger] beyond(d[j] as int, p - t1, false) by {
            assert(beyond(d[j] as int, p - t2, false));
        }
        assert(arc_at(d, s, p - t1, false));
    }
}

/// Keeps the key points of `s` that are corners of `img` at threshold `t`.
pub open spec fn corners_at(img: Seq<u8>, w: int, t: int) -> spec_fn(KeyPoint) -> bool {
    |k: KeyPoint| is_fast_corner(img, w, k.x as int, k.y as int, t)
}

proof fn lemma_filter_single(k: KeyPoint, pred: spec_fn(KeyPoint) -> bool)
    ensures
        seq![k].filter(pred) == (if pred(k) {
            seq![k]
        } else {
            Seq::<KeyPoint>::empty()
        }),
        Seq::<KeyPoint>::empty().filter(pred) == Seq::<KeyPoint>::empty(),
{
    reveal_with_fuel(Seq::filter, 2);
    assert(seq![k].drop_last() =~= Seq::<KeyPoint>::empty());
    if pred(k) {
        assert(Seq::<KeyPoint>::empty().push(k) =~= seq![k]);
    }
}

proof fn lemma_row_threshold(img: Seq<u8>, w: int, t1: int, t2: int, y: int, x_end: int)
    requires
        t1 <= t2,
        0 <= y <= usize::MAX,
        x_end <= usize::MAX,
    ensures
        row_corners(img, w, t2, y, x_end) == row_corners(img, w, t1, y, x_end).filter(
            corners_at(img, w, t2),
        ),
    decreases x_end - 3,
{
    let pred = corners_at(img, w, t2);
    if x_end <= 3 {
        lemma_filter_single(key_point(0, 0), pred);
    } else {
        lemma_row_threshold(img, w, t1, t2, y, x_end - 1);
        let x = x_end - 1;
        let k = KeyPoint { x: x as usize, y: y as usize };
        let prev = row_corners(img, w, t1, y, x);
        let tail = if is_fast_corner(img, w, x, y, t1) {
            seq![k]
        } else {
            Seq::empty()
        };
        Seq::filter_distributes_over_add(prev, tail, pred);
        lemma_filter_single(k, pred);
        if is_fast_corner(img, w, x, y, t2) {
            lemma_corner_at_lower_threshold(
                image_ring(img, w, x, y),
                img[y * w + x] as int,
                t1,
                t2,
            );
        }
        assert(pred(k) == is_fast_corner(img, w, x, y, t2));
    }
}

proof fn lemma_rows_threshold(img: Seq<u8>, w: int, t1: int, t2: int, y_end: int)
    requires
        t1 <= t2,
        y_end <= usize::MAX,
        w <= usize::MAX,
    ensures
        rows_corners(img, w, t2, y_end) == rows_corners(img, w, t1, y_end).filter(
            corners_at(img, w, t2),
        ),
    decreases y_end - 3,
{
    let pred = corners_at(img, w, t2);
    if y_end <= 3 {
        lemma_filter_single(key_point(0, 0), pred);
    } else {
        lemma_rows_threshold(img, w, t1, t2, y_end - 1);
        lemma_row_threshold(img, w, t1, t2, y_end - 1, w - 3);
        Seq::filter_distributes_over_add(
            rows_corners(img, w, t1, y_end - 1),
            row_corners(img, w, t1, y_end - 1, w - 3),
            pred,
        );
    }
}

/// Raising the threshold only removes points: what the detector reports at
/// threshold `t2` is what it reports at any lower threshold `t1`, less the
/// points that are not corners at `t2`, in the same order.
pub proof fn lemma_higher_threshold_keeps_fewer(img: Seq<u8>, w: int, h: int, t1: int, t2: int)
    requires
        t1 <= t2,
        0 <= w <= u32::MAX,
        0 <= h <= u32::MAX,
    ensures
        spec_detect_features(img, w, h, t2) == spec_detect_features(img, w, h, t1).filter(
            corners_at(img, w, t2),
        ),
{
    lemma_rows_threshold(img, w, t1, t2, h - 3);
}

/// Reflecting every value about `c / 2` (`v` to `c - v`) turns an arc above
/// `b` into an arc below `c - b`, and back.
proof fn lemma_arc_mirror(d: Seq<i16>, d2: Seq<i16>, b: int, c: int, above: bool)
    requires
        d2.len() == d.len(),
        forall|j: int| 0 <= j < d.len() ==> d2[j] as int == c - d[j] as int,
    ensures
        has_arc(d, b, above) == has_arc(d2, c - b, !above),
{
    let below = !above;
    assert forall|s: int| arc_at(d, s, b, above) == arc_at(d2, s, c - b, below) by {
        if arc_at(d, s, b, above) {
            assert forall|j: int| s <= j < s + 9 implies #[trigger] beyond(
                d2[j] as int,
                c - b,
                below,
            ) by {
                assert(beyond(d[j] as int, b, above));
            }
        }
        if arc_at(d2, s, c - b, below) {
            assert forall|j: int| s <= j < s + 9 implies #[trigger] beyond(d[j] as int, b, above) by {
                assert(beyond(d2[j] as int, c - b, below));
            }
        }
    }
    if has_arc(d, b, above) {
        let s = choose|s: int| #[trigger] arc_at(d, s, b, above);
        assert(arc_at(d2, s, c - b, below));
    }
    if has_arc(d2, c - b, below) {
        let s = choose|s: int| #[trigger] arc_at(d2, s, c - b, below);
        assert(arc_at(d, s, b, above));
    }
}

/// Adding `c` to every value moves an arc beyond `b` to one beyond `b + c`.
proof fn lemma_arc_shift(d: Seq<i16>, d2: Seq<i16>, b: int, c: int, above: bool)
    requires
        d2.len() == d.len(),
        forall|j: int| 0 <= j < d.len() ==> d2[j] as int == d[j] as int + c,
    ensures
        has_arc(d, b, above) == has_arc(d2, b + c, above),
{
    assert forall|s: int| arc_at(d, s, b, above) == arc_at(d2, s, b + c, above) by {
        if arc_at(d, s, b, above) {
            assert forall|j: int| s <= j < s + 9 implies #[trigger] beyond(d2[j] as int, b + c, above) by {
                assert(beyond(d[j] as int, b, above));
            }
        }
        if arc_at(d2, s, b + c, above) {
            assert forall|j: int| s <= j < s + 9 implies #[trigger] beyond(d[j] as int, b, above) by {
                assert(beyond(d2[j] as int, b + c, above));
            }
        }
    }
    if has_arc(d, b, above) {
        let s = choose|s: int| #[trigger] arc_at(d, s, b, above);
        assert(arc_at(d2, s, b + c, above));
    }
    if has_arc(d2, b + c, above) {
        let s = choose|s: int| #[trigger] arc_at(d2, s, b + c, above);
        assert(arc_at(d, s, b, above));
    }
}

/// The image `img2` is `img` with every value `v` replaced by `255 - v`.
pub open spec fn inverted(img: Seq<u8>, img2: Seq<u8>) -> bool {
    &&& img2.len() == img.len()
    &&& forall|i: int| 0 <= i < img.len() ==> #[trigger] img2[i] as int == 255 - img[i] as int
}

/// The image `img2` is `img` with `c` added to every value.
pub open spec fn brightened(img: Seq<u8>, img2: Seq<u8>, c: int) -> bool {
    &&& img2.len() == img.len()
    &&& forall|i: int| 0 <= i < img.len() ==> #[trigger] img2[i] as int == img[i] as int + c
}

/// The circle pixels of an interior point lie inside the image.
proof fn lemma_ring_index(w: int, h: int, x: int, y: int, k: int)
    requires
        3 <= x && x + 3 < w,
        3 <= y && y + 3 < h,
        0 <= k < 16,
    ensures
        0 <= (y + ring_dy(k)) * w + x + ring_dx(k) < w * h,
{
    lemma_pixel_index(w, h, x + ring_dx(k), y + ring_dy(k));
}

/// At an interior point, the corner test gives the same answer on `img` and on
/// its inversion, or on `img` shifted by `c`.
proof fn lemma_corner_transformed(img: Seq<u8>, img2: Seq<u8>, w: int, h: int, x: int, y: int, t: int, c: int, invert: bool)
    requires
        3 <= x && x + 3 < w,
        3 <= y && y + 3 < h,
        w * h <= img.len(),
        invert ==> inverted(img, img2),
        !invert ==> brightened(img, img2, c),
    ensures
        is_fast_corner(img2, w, x, y, t) == is_fast_corner(img, w, x, y, t),
{
    let r = image_ring(img, w, x, y);
    let r2 = image_ring(img2, w, x, y);
    let d = r + r;
    let d2 = r2 + r2;
    lemma_pixel_index(w, h, x, y);
    let p = img[y * w + x] as int;
    let p2 = img2[y * w + x] as int;
    assert forall|k: int| 0 <= k < 16 implies (if invert {
        r2[k] as int == 255 - r[k] as int
    } else {
        r2[k] as int == r[k] as int + c
    }) by {
        lemma_ring_index(w, h, x, y, k);
        let i = (y + ring_dy(k)) * w + x + ring_dx(k);
        assert(r[k] == img[i] as i16);
        assert(r2[k] == img2[i] as i16);
    }
    if invert {
        assert forall|j: int| 0 <= j < d.len() implies d2[j] as int == 255 - d[j] as int by {
            if j >= 16 {
                assert(d[j] == r[j - 16] && d2[j] == r2[j - 16]);
            }
        }
        lemma_arc_mirror(d, d2, p + t, 255, true);
        lemma_arc_mirror(d, d2, p - t, 255, false);
        assert(p2 == 255 - p);
    } else {
        assert forall|j: int| 0 <= j < d.len() implies d2[j] as int == d[j] as int + c by {
            if j >= 16 {
                assert(d[j] == r[j - 16] && d2[j] == r2[j - 16]);
            }
        }
        lemma_arc_shift(d, d2, p + t, c, true);
        lemma_arc_shift(d, d2, p - t, c, false);
        assert(p2 == p + c);
    }
}

proof fn lemma_rows_transformed(img: Seq<u8>, img2: Seq<u8>, w: int, h: int, t: int, c: int, invert: bool, y_end: int)
    requires
        w >= 7 && h >= 7 ==> w * h <= img.len(),
        invert ==> inverted(img, img2),
        !invert ==> brightened(img, img2, c),
        y_end <= h - 3,
    ensures
        rows_corners(img2, w, t, y_end) == rows_corners(img, w, t, y_end),
    decreases y_end - 3,
{
    if y_end > 3 {
        lemma_rows_transformed(img, img2, w, h, t, c, invert, y_end - 1);
        lemma_row_transformed(img, img2, w, h, t, c, invert, y_end - 1, w - 3);
    }
}

proof fn lemma_row_transformed(img: Seq<u8>, img2: Seq<u8>, w: int, h: int, t: int, c: int, invert: bool, y: int, x_end: int)
    requires
        w >= 7 && h >= 7 ==> w * h <= img.len(),
        invert ==> inverted(img, img2),
        !invert ==> brightened(img, img2, c),
        3 <= y && y + 3 < h,
        x_end <= w - 3,
    ensures
        row_corners(img2, w, t, y, x_end) == row_corners(img, w, t, y, x_end),
    decreases x_end - 3,
{
    if x_end > 3 {
        lemma_row_transformed(img, img2, w, h, t, c, invert, y, x_end - 1);
        lemma_corner_transformed(img, img2, w, h, x_end - 1, y, t, c, invert);
    }
}

/// Inverting the image (`v` to `255 - v`) leaves the detected points
/// unchanged: brighter arcs become darker arcs and the other way round.
pub proof fn lemma_detection_ignores_inversion(img: Seq<u8>, img2: Seq<u8>, w: int, h: int, t: int)
    requires
        inverted(img, img2),
        w >= 7 && h >= 7 ==> w * h <= img.len(),
    ensures
        spec_detect_features(img2, w, h, t) == spec_detect_features(img, w, h, t),
{
    lemma_rows_transformed(img, img2, w, h, t, 0, true, h - 3);
}

/// Brightening (or darkening) the whole image by the same amount `c` leaves
/// the detected points unchanged.
pub proof fn lemma_detection_ignores_brightness_shift(img: Seq<u8>, img2: Seq<u8>, w: int, h: int, t: int, c: int)
    requires
        brightened(img, img2, c),
        w >= 7 && h >= 7 ==> w * h <= img.len(),
    ensures
        spec_detect_features(img2, w, h, t) == spec_detect_features(img, w, h, t),
{
    lemma_rows_transformed(img, img2, w, h, t, c, false, h - 3);
}

/// The image sizes on which the detector runs without fault: at least three
/// rows; at least three columns once there is an interior to scan; and a
/// width whose circle offsets fit in 32-bit signed arithmetic.
pub open spec fn detect_dims_ok(width: int, height: int) -> bool {
    &&& height >= 3
    &&& height >= 7 ==> width >= 3
    &&& width <= 715_827_882 || (height <= 6 && width >= 3_579_139_414)
}

/// Whether the detector runs without fault on `width` x `height` images.
pub fn detect_dims_supported(width: u32, height: u32) -> (ok: bool)
    ensures
        ok == detect_dims_ok(width as int, height as int),
{
    height >= 3 && (height < 7 || width >= 3) && (width <= 715_827_882 || (height <= 6
        && width >= 3_579_139_414))
}

proof fn lemma_pixel_index(w: int, h: int, x: int, y: int)
    requires
        0 <= x < w,
        0 <= y < h,
    ensures
        0 <= y * w,
        y * w + x < w * h,
{
    assert(0 <= y * w) by (nonlinear_arith)
        requires
            0 <= y,
            0 <= w,
    ;
    assert(y * w + x < w * h) by (nonlinear_arith)
        requires
            0 <= x < w,
            0 <= y < h,
    ;
}

/// The circle offsets of pixel `k`, each shifted by 3 so as to be non-negative.
fn ring_offset(k: usize) -> (o: (usize, usize))
    requires
        k < 16,
    ensures
        o.0 == ring_dx(k as int) + 3,
        o.1 == ring_dy(k as int) + 3,
        o.0 <= 6,
        o.1 <= 6,
{
    if k == 0 {
        (3, 0)
    } else if k == 1 {
        (4, 0)
    } else if k == 2 {
        (5, 1)
    } else if k == 3 {
        (6, 2)
    } else if k == 4 {
        (6, 3)
    } else if k == 5 {
        (6, 4)
    } else if k == 6 {
        (5, 5)
    } else if k == 7 {
        (4, 6)
    } else if k == 8 {
        (3, 6)
    } else if k == 9 {
        (2, 6)
    } else if k == 10 {
        (1, 5)
    } else if k == 11 {
        (0, 4)
    } else if k == 12 {
        (0, 3)
    } else if k == 13 {
        (0, 2)
    } else if k == 14 {
        (1, 1)
    } else {
        (2, 0)
    }
}

/// The `k`-th circle pixel around `(x, y)`.
fn ring_value(image: &[u8], w: usize, h: usize, x: usize, y: usize, k: usize) -> (v: i16)
    requires
        3 <= x,
        x + 3 < w,
        3 <= y,
        y + 3 < h,
        w * h <= image@.len(),
        k < 16,
    ensures
        v == image_ring(image@, w as int, x as int, y as int)[k as int],
{
    let (ox, oy) = ring_offset(k);
    let xx = x - 3 + ox;
    let yy = y - 3 + oy;
    let n = image.len();
    proof {
        lemma_pixel_index(w as int, h as int, xx as int, yy as int);
    }
    assert(yy * w + xx < n);
    image[yy * w + xx] as i16
}

/// Finds the FAST-9 corners of a `width` x `height` grayscale image stored row
/// by row: the pixels at least three pixels from the border around which nine
/// contiguous circle pixels are all brighter than the centre plus `threshold`,
/// or all darker than the centre minus `threshold`. They come in row-major order.
pub fn detect_features(image: &[u8], width: u32, height: u32, threshold: u8) -> (keypoints: Vec<KeyPoint>)
    requires
        detect_dims_ok(width as int, height as int),
        width >= 7 && height >= 7 ==> width * height <= image@.len(),
    ensures
        keypoints@ == spec_detect_features(image@, width as int, height as int, threshold as int),
{
    let w = width as usize;
    let h = height as usize;
    let t = threshold as i16;
    let ghost img = image@;
    let ghost ti = threshold as int;
    let mut keypoints: Vec<KeyPoint> = Vec::new();
    let mut y: usize = 3;
    while y < h - 3
        invariant
            w == width as int,
            h == height as int,
            img == image@,
            ti == threshold as int,
            t == threshold as i16,
            detect_dims_ok(width as int, height as int),
            width >= 7 && height >= 7 ==> width * height <= image@.len(),
            3 <= y,
            y <= h - 3 || y == 3,
            keypoints@ == rows_corners(img, w as int, ti, y as int),
        decreases h - y,
    {
        let mut x: usize = 3;
        while x < w - 3
            invariant
                w == width as int,
                h == height as int,
                img == image@,
                ti == threshold as int,
                t == threshold as i16,
                width >= 7 && height >= 7 ==> width * height <= image@.len(),
                3 <= y,
                y + 3 < h,
                3 <= x,
                w >= 3,
                x <= w - 3 || x == 3,
                keypoints@ == rows_corners(img, w as int, ti, y as int) + row_corners(
                    img,
                    w as int,
                    ti,
                    y as int,
                    x as int,
                ),
            decreases w - x,
        {
            let n = image.len();
            proof {
                lemma_pixel_index(w as int, h as int, x as int, y as int);
            }
            assert(y * w + x < n);
            let p_val = image[y * w + x] as i16;
            let ghost ring = image_ring(img, w as int, x as int, y as int);
            let v0 = ring_value(image, w, h, x, y, 0);
            let v4 = ring_value(image, w, h, x, y, 4);
            let v8 = ring_value(image, w, h, x, y, 8);
            let v12 = ring_value(image, w, h, x, y, 12);

            let mut darker_count: u8 = 0;
            let mut brighter_count: u8 = 0;
            if v0 < p_val - t {
                darker_count += 1;
            }
            if v0 > p_val + t {
                brighter_count += 1;
            }
            if v4 < p_val - t {
                darker_count += 1;
            }
            if v4 > p_val + t {
                brighter_count += 1;
            }
            if v8 < p_val - t {
                darker_count += 1;
            }
            if v8 > p_val + t {
                brighter_count += 1;
            }
            if v12 < p_val - t {
                darker_count += 1;
            }
            if v12 > p_val + t {
                brighter_count += 1;
            }

            if darker_count < 2 && brighter_count < 2 {
                // Too few compass points stand out: no arc of nine can pass.
                proof {
                    assert(darker_count == cardinal_count(ring, p_val - ti, false));
                    assert(brighter_count == cardinal_count(ring, p_val + ti, true));
                    if spec_is_corner(ring, p_val as int, ti) {
                        lemma_corner_has_two_cardinals(ring, p_val as int, ti);
                    }
                    assert(!is_fast_corner(img, w as int, x as int, y as int, ti));
                }
            } else {
                let mut ring_vals: Vec<i16> = Vec::with_capacity(16);
                let mut k: usize = 0;
                while k < 16
                    invariant
                        w == width as int,
                        h == height as int,
                        img == image@,
                        width >= 7 && height >= 7 ==> width * height <= image@.len(),
                        3 <= y,
                        y + 3 < h,
                        3 <= x,
                        x + 3 < w,
                        ring == image_ring(img, w as int, x as int, y as int),
                        k <= 16,
                        ring_vals@.len() == k,
                        forall|i: int| 0 <= i < k ==> ring_vals@[i] == ring[i],
                    decreases 16 - k,
                {
                    let v = ring_value(image, w, h, x, y, k);
                    ring_vals.push(v);
                    k = k + 1;
                }
                assert(ring_vals@ =~= ring);
                if is_corner(&ring_vals, p_val, t) {
                    keypoints.push(KeyPoint { x, y });
                }
            }
            x = x + 1;
        }
        y = y + 1;
    }
    keypoints
}

/// Which circle pixel sits at offset `(dx, dy)` (16 for none).
spec fn ring_index_of(dx: int, dy: int) -> int {
    if dx == 0 && dy == -3 {
        0
    } else if dx == 1 && dy == -3 {
        1
    } else if dx == 2 && dy == -2 {
        2
    } else if dx == 3 && dy == -1 {
        3
    } else if dx == 3 && dy == 0 {
        4
    } else if dx == 3 && dy == 1 {
        5
    } else if dx == 2 && dy == 2 {
        6
    } else if dx == 1 && dy == 3 {
        7
    } else if dx == 0 && dy == 3 {
        8
    } else if dx == -1 && dy == 3 {
        9
    } else if dx == -2 && dy == 2 {
        10
    } else if dx == -3 && dy == 1 {
        11
    } else if dx == -3 && dy == 0 {
        12
    } else if dx == -3 && dy == -1 {
        13
    } else if dx == -2 && dy == -2 {
        14
    } else if dx == -1 && dy == -3 {
        15
    } else {
        16
    }
}

/// The facts about one circle pixel that the circle law gathers.
proof fn lemma_ring_offset_facts(k: int)
    requires
        0 <= k < 16,
    ensures
        7 <= ring_dx(k) * ring_dx(k) + ring_dy(k) * ring_dy(k) <= 12,
        -1 <= ring_dx(k) - ring_dx((k + 1) % 16) <= 1,
        -1 <= ring_dy(k) - ring_dy((k + 1) % 16) <= 1,
        ring_index_of(ring_dx(k), ring_dy(k)) == k,
{
    if k == 0 {
        assert(ring_dx(k) == 0 && ring_dy(k) == -3);
        assert(ring_dx(1) == 1 && ring_dy(1) == -3);
        assert(ring_dx(k) * ring_dx(k) + ring_dy(k) * ring_dy(k) == 9) by (nonlinear_arith)
            requires
                ring_dx(k) == 0,
                ring_dy(k) == -3,
        ;
    } else if k == 1 {
        assert(ring_dx(k) == 1 && ring_dy(k) == -3);
        assert(ring_dx(2) == 2 && ring_dy(2) == -2);
        assert(ring_dx(k) * ring_dx(k) + ring_dy(k) * ring_dy(k) == 10) by (nonlinear_arith)
            requires
                ring_dx(k) == 1,
                ring_dy(k) == -3,
        ;
    } else if k == 2 {
        assert(ring_dx(k) == 2 && ring_dy(k) == -2);
        assert(ring_dx(3) == 3 && ring_dy(3) == -1);
        assert(ring_dx(k) * ring_dx(k) + ring_dy(k) * ring_dy(k) == 8) by (nonlinear_arith)
            requires
                ring_dx(k) == 2,
                ring_dy(k) == -2,
        ;
    } else if k == 3 {
        assert(ring_dx(k) == 3 && ring_dy(k) == -1);
        assert(ring_dx(4) == 3 && ring_dy(4) == 0);
        assert(ring_dx(k) * ring_dx(k) + ring_dy(k) * ring_dy(k) == 10) by (nonlinear_arith)
            requires
                ring_dx(k) == 3,
                ring_dy(k) == -1,
        ;
    } else if k == 4 {
        assert(ring_dx(k) == 3 && ring_dy(k) == 0);
        assert(ring_dx(5) == 3 && ring_dy(5) == 1);
        assert(ring_dx(k) * ring_dx(k) + ring_dy(k) * ring_dy(k) == 9) by (nonlinear_arith)
            requires
                ring_dx(k) == 3,
                ring_dy(k) == 0,
        ;
    } else if k == 5 {
        assert(ring_dx(k) == 3 && ring_dy(k) == 1);
        assert(ring_dx(6) == 2 && ring_dy(6) == 2);
        assert(ring_dx(k) * ring_dx(k) + ring_dy(k) * ring_dy(k) == 10) by (nonlinear_arith)
            requires
                ring_dx(k) == 3,
                ring_dy(k) == 1,
        ;
    } else if k == 6 {
        assert(ring_dx(k) == 2 && ring_dy(k) == 2);
        assert(ring_dx(7) == 1 && ring_dy(7) == 3);
        assert(ring_dx(k) * ring_dx(k) + ring_dy(k) * ring_dy(k) == 8) by (nonlinear_arith)
            requires
                ring_dx(k) == 2,
                ring_dy(k) == 2,
        ;
    } else if k == 7 {
        assert(ring_dx(k) == 1 && ring_dy(k) == 3);
        assert(ring_dx(8) == 0 && ring_dy(8) == 3);
        assert(ring_dx(k) * ring_dx(k) + ring_dy(k) * ring_dy(k) == 10) by (nonlinear_arith)
            requires
                ring_dx(k) == 1,
                ring_dy(k) == 3,
        ;
    } else if k == 8 {
        assert(ring_dx(k) == 0 && ring_dy(k) == 3);
        assert(ring_dx(9) == -1 && ring_dy(9) == 3);
        assert(ring_dx(k) * ring_dx(k) + ring_dy(k) * ring_dy(k) == 9) by (nonlinear_arith)
            requires
                ring_dx(k) == 0,
                ring_dy(k) == 3,
        ;
    } else if k == 9 {
        assert(ring_dx(k) == -1 && ring_dy(k) == 3);
        assert(ring_dx(10) == -2 && ring_dy(10) == 2);
        assert(ring_dx(k) * ring_dx(k) + ring_dy(k) * ring_dy(k) == 10) by (nonlinear_arith)
            requires
                ring_dx(k) == -1,
                ring_dy(k) == 3,
        ;
    } else if k == 10 {
        assert(ring_dx(k) == -2 && ring_dy(k) == 2);
        assert(ring_dx(11) == -3 && ring_dy(11) == 1);
        assert(ring_dx(k) * ring_dx(k) + ring_dy(k) * ring_dy(k) == 8) by (nonlinear_arith)
            requires
                ring_dx(k) == -2,
                ring_dy(k) == 2,
        ;
    } else if k == 11 {
        assert(ring_dx(k) == -3 && ring_dy(k) == 1);
        assert(ring_dx(12) == -3 && ring_dy(12) == 0);
        assert(ring_dx(k) * ring_dx(k) + ring_dy(k) * ring_dy(k) == 10) by (nonlinear_arith)
            requires
                ring_dx(k) == -3,
                ring_dy(k) == 1,
        ;
    } else if k == 12 {
        assert(ring_dx(k) == -3 && ring_dy(k) == 0);
        assert(ring_dx(13) == -3 && ring_dy(13) == -1);
        assert(ring_dx(k) * ring_dx(k) + ring_dy(k) * ring_dy(k) == 9) by (nonlinear_arith)
            requires
                ring_dx(k) == -3,
                ring_dy(k) == 0,
        ;
    } else if k == 13 {
        assert(ring_dx(k) == -3 && ring_dy(k) == -1);
        assert(ring_dx(14) == -2 && ring_dy(14) == -2);
        assert(ring_dx(k) * ring_dx(k) + ring_dy(k) * ring_dy(k) == 10) by (nonlinear_arith)
            requires
                ring_dx(k) == -3,
                ring_dy(k) == -1,
        ;
    } else if k == 14 {
        assert(ring_dx(k) == -2 && ring_dy(k) == -2);
        assert(ring_dx(15) == -1 && ring_dy(15) == -3);
        assert(ring_dx(k) * ring_dx(k) + ring_dy(k) * ring_dy(k) == 8) by (nonlinear_arith)
            requires
                ring_dx(k) == -2,
                ring_dy(k) == -2,
        ;
    } else if k == 15 {
        assert(ring_dx(k) == -1 && ring_dy(k) == -3);
        assert(ring_dx(0) == 0 && ring_dy(0) == -3);
        assert(ring_dx(k) * ring_dx(k) + ring_dy(k) * ring_dy(k) == 10) by (nonlinear_arith)
            requires
                ring_dx(k) == -1,
                ring_dy(k) == -3,
        ;
    }
}

proof fn lemma_ring_distances()
    ensures
        forall|k: int|
            0 <= k < 16 ==> 7 <= #[trigger] ring_dx(k) * ring_dx(k) + ring_dy(k) * ring_dy(k) <= 12,
{
    assert forall|k: int| 0 <= k < 16 implies 7 <= #[trigger] ring_dx(k) * ring_dx(k) + ring_dy(k)
        * ring_dy(k) <= 12 by {
        lemma_ring_offset_facts(k);
    }
}

proof fn lemma_ring_distinct()
    ensures
        forall|k1: int, k2: int|
            0 <= k1 < k2 < 16 ==> ring_dx(k1) != ring_dx(k2) || #[trigger] ring_dy(k1) != #[trigger] ring_dy(k2),
{
    assert forall|k1: int, k2: int| 0 <= k1 < k2 < 16 implies ring_dx(k1) != ring_dx(k2) || #[trigger] ring_dy(
        k1,
    ) != #[trigger] ring_dy(k2) by {
        lemma_ring_offset_facts(k1);
        lemma_ring_offset_facts(k2);
        if ring_dx(k1) == ring_dx(k2) && ring_dy(k1) == ring_dy(k2) {
            assert(ring_index_of(ring_dx(k1), ring_dy(k1)) == ring_index_of(ring_dx(k2), ring_dy(k2)));
        }
    }
}

proof fn lemma_ring_adjacent()
    ensures
        forall|k: int, j: int|
            0 <= k < 16 && j == (k + 1) % 16 ==> -1 <= #[trigger] ring_dx(k) - #[trigger] ring_dx(j) <= 1
                && -1 <= ring_dy(k) - ring_dy(j) <= 1,
{
    assert forall|k: int, j: int| 0 <= k < 16 && j == (k + 1) % 16 implies -1 <= #[trigger] ring_dx(k)
        - #[trigger] ring_dx(j) <= 1 && -1 <= ring_dy(k) - ring_dy(j) <= 1 by {
        lemma_ring_offset_facts(k);
    }
}

proof fn lemma_ring_cardinal_pixels(img: Seq<u8>, w: int, x: int, y: int)
    ensures
        image_ring(img, w, x, y)[0] == img[(y - 3) * w + x] as i16,
        image_ring(img, w, x, y)[4] == img[y * w + x + 3] as i16,
        image_ring(img, w, x, y)[8] == img[(y + 3) * w + x] as i16,
        image_ring(img, w, x, y)[12] == img[y * w + x - 3] as i16,
{
    assert(ring_dx(0) == 0 && ring_dy(0) == -3);
    assert(ring_dx(4) == 3 && ring_dy(4) == 0);
    assert(ring_dx(8) == 0 && ring_dy(8) == 3);
    assert(ring_dx(12) == -3 && ring_dy(12) == 0);
    assert((y + -3) * w == (y - 3) * w);
    assert((y + 0) * w == y * w);
}

/// The circle of the detector is the radius-3 Bresenham circle, read clockwise
/// from north: its sixteen offsets are sixteen distinct points whose squared
/// distance from the centre lies in `7..=12` (so between 2.5 and 3.5 pixels;
/// these are exactly the sixteen lattice points of that ring), each touches the
/// next (including the last the first), and it starts due north with pixel 4
/// due east. In the image, pixels 0, 4, 8 and 12 are those straight above, to
/// the right of, below and to the left of the centre at distance 3.
pub proof fn lemma_ring_is_radius_three_circle(img: Seq<u8>, w: int, x: int, y: int)
    ensures
        forall|k: int|
            0 <= k < 16 ==> 7 <= #[trigger] ring_dx(k) * ring_dx(k) + ring_dy(k) * ring_dy(k) <= 12,
        forall|k1: int, k2: int|
            0 <= k1 < k2 < 16 ==> ring_dx(k1) != ring_dx(k2) || #[trigger] ring_dy(k1) != #[trigger] ring_dy(k2),
        forall|k: int, j: int|
            0 <= k < 16 && j == (k + 1) % 16 ==> -1 <= #[trigger] ring_dx(k) - #[trigger] ring_dx(j) <= 1
                && -1 <= ring_dy(k) - ring_dy(j) <= 1,
        ring_dx(0) == 0 && ring_dy(0) == -3,
        ring_dx(4) == 3 && ring_dy(4) == 0,
        image_ring(img, w, x, y)[0] == img[(y - 3) * w + x] as i16,
        image_ring(img, w, x, y)[4] == img[y * w + x + 3] as i16,
        image_ring(img, w, x, y)[8] == img[(y + 3) * w + x] as i16,
        image_ring(img, w, x, y)[12] == img[y * w + x - 3] as i16,
{
    lemma_ring_distances();
    lemma_ring_distinct();
    lemma_ring_adjacent();
    lemma_ring_cardinal_pixels(img, w, x, y);
}

/// An arc of nine on a sixteen-value ring covers position `j` or the opposite
/// position `j + 8` (here for north/south and for east/west).
proof fn lemma_arc_covers_opposite(ring: Seq<i16>, bound: int, above: bool, j: int)
    requires
        ring.len() == 16,
        j == 0 || j == 4,
        has_arc(ring + ring, bound, above),
    ensures
        beyond(ring[j] as int, bound, above) || beyond(ring[j + 8] as int, bound, above),
{
    let d = ring + ring;
    let start = choose|start: int| #[trigger] arc_at(d, start, bound, above);
    assert(arc_at(d, start, bound, above));
    if j == 0 {
        if start == 0 {
            assert(beyond(d[0] as int, bound, above));
        } else if start <= 8 {
            assert(beyond(d[8] as int, bound, above));
        } else if start <= 16 {
            assert(beyond(d[16] as int, bound, above));
            assert(d[16] == ring[0]);
        } else {
            assert(beyond(d[24] as int, bound, above));
            assert(d[24] == ring[8]);
        }
    } else {
        if start <= 4 {
            assert(beyond(d[4] as int, bound, above));
        } else if start <= 12 {
            assert(beyond(d[12] as int, bound, above));
        } else if start <= 20 {
            assert(beyond(d[20] as int, bound, above));
            assert(d[20] == ring[4]);
        } else {
            assert(beyond(d[28] as int, bound, above));
            assert(d[28] == ring[12]);
        }
    }
}

/// `img` is a `w` x `h` image of value `b` crossed by a straight line of
/// value `v`: row `y0` when `horizontal`, column `x0` otherwise.
pub open spec fn straight_line_image(
    img: Seq<u8>,
    w: int,
    h: int,
    horizontal: bool,
    at: int,
    v: u8,
    b: u8,
) -> bool {
    &&& img.len() == w * h
    &&& forall|x: int, y: int|
        0 <= x < w && 0 <= y < h ==> #[trigger] img[y * w + x] == if (if horizontal {
            y
        } else {
            x
        }) == at {
            v
        } else {
            b
        }
}

/// If nothing is a corner, the detector reports nothing.
proof fn lemma_no_corner_nothing_found(img: Seq<u8>, w: int, h: int, t: int)
    requires
        0 <= w <= u32::MAX,
        0 <= h <= u32::MAX,
        forall|x: int, y: int|
            3 <= x && x + 3 < w && 3 <= y && y + 3 < h ==> !#[trigger] is_fast_corner(img, w, x, y, t),
    ensures
        spec_detect_features(img, w, h, t) == Seq::<KeyPoint>::empty(),
{
    lemma_detected_are_interior_corners(img, w, h, t);
    let s = spec_detect_features(img, w, h, t);
    if s.len() > 0 {
        let k = s[0];
        assert(is_fast_corner(img, w, k.x as int, k.y as int, t));
    }
    assert(s =~= Seq::<KeyPoint>::empty());
}

/// One interior pixel of a straight-line image is not a corner.
proof fn lemma_line_pixel_not_corner(
    img: Seq<u8>,
    w: int,
    h: int,
    horizontal: bool,
    at: int,
    v: u8,
    b: u8,
    t: int,
    x: int,
    y: int,
)
    requires
        0 <= t,
        straight_line_image(img, w, h, horizontal, at, v, b),
        3 <= x && x + 3 < w,
        3 <= y && y + 3 < h,
    ensures
        !is_fast_corner(img, w, x, y, t),
{
    let r = image_ring(img, w, x, y);
    lemma_ring_is_radius_three_circle(img, w, x, y);
    assert(img[y * w + x] == if (if horizontal { y } else { x }) == at { v } else { b });
    assert(img[(y - 3) * w + x] == if (if horizontal { y - 3 } else { x }) == at { v } else { b });
    assert(img[(y + 3) * w + x] == if (if horizontal { y + 3 } else { x }) == at { v } else { b });
    assert(img[y * w + (x + 3)] == if (if horizontal { y } else { x + 3 }) == at { v } else { b });
    assert(img[y * w + (x - 3)] == if (if horizontal { y } else { x - 3 }) == at { v } else { b });
    assert(y * w + (x + 3) == y * w + x + 3);
    assert(y * w + (x - 3) == y * w + x - 3);
    let p = img[y * w + x] as int;
    let on_line = (if horizontal { y } else { x }) == at;
    if on_line {
        let j = if horizontal { 4int } else { 0int };
        assert(r[j] as int == p && r[j + 8] as int == p);
        if has_arc(r + r, p + t, true) {
            lemma_arc_covers_opposite(r, p + t, true, j);
        }
        if has_arc(r + r, p - t, false) {
            lemma_arc_covers_opposite(r, p - t, false, j);
        }
    } else {
        if spec_is_corner(r, p, t) {
            lemma_corner_has_two_cardinals(r, p, t);
        }
    }
}

/// A straight horizontal or vertical line of one value on a background of
/// another has no corners: along the line the two circle pixels that lie on
/// it break every arc, and off the line at most one compass point differs from
/// the centre. So the detector reports nothing on such an image, whatever the
/// (non-negative) threshold.
pub proof fn lemma_straight_line_has_no_corners(
    img: Seq<u8>,
    w: int,
    h: int,
    horizontal: bool,
    at: int,
    v: u8,
    b: u8,
    t: int,
)
    requires
        0 <= w <= u32::MAX,
        0 <= h <= u32::MAX,
        0 <= t,
        straight_line_image(img, w, h, horizontal, at, v, b),
    ensures
        spec_detect_features(img, w, h, t) == Seq::<KeyPoint>::empty(),
{
    assert forall|x: int, y: int| 3 <= x && x + 3 < w && 3 <= y && y + 3 < h implies !#[trigger] is_fast_corner(
        img,
        w,
        x,
        y,
        t,
    ) by {
        lemma_line_pixel_not_corner(img, w, h, horizontal, at, v, b, t, x, y);
    }
    lemma_no_corner_nothing_found(img, w, h, t);
}

} // verus!
