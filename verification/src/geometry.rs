//! Plane geometry primitives: points, distances, midpoints, domain
//! membership, and adjacent-duplicate removal.

use vstd::prelude::*;

verus! {

/// A point of the plane in fixed-point coordinates.
#[derive(Clone, Copy, PartialEq, Eq, Structural, Debug)]
pub struct Point {
    pub x: i64,
    pub y: i64,
}

/// Largest coordinate magnitude admitted inside a bounding domain; the
/// squared distance of two points within this bound fits in `i128`.
pub const COORD_LIMIT: i64 = 2_000_000_000_000_000_000;

/// Both coordinates lie within `[-COORD_LIMIT, COORD_LIMIT]`.
pub open spec fn bounded(p: Point) -> bool {
    -COORD_LIMIT <= p.x <= COORD_LIMIT && -COORD_LIMIT <= p.y <= COORD_LIMIT
}

/// Squared Euclidean distance, as an unbounded integer.
pub open spec fn dist2_spec(a: Point, b: Point) -> int {
    (a.x - b.x) * (a.x - b.x) + (a.y - b.y) * (a.y - b.y)
}

pub proof fn lemma_square_bound(v: int, m: int)
    requires
        -m <= v <= m,
        0 <= m,
    ensures
        0 <= v * v <= m * m,
{
    assert(0 <= v * v <= m * m) by (nonlinear_arith)
        requires
            -m <= v <= m,
            0 <= m,
    ;
}

/// Squared Euclidean distance, exact over bounded points.
pub fn distance_sq(a: Point, b: Point) -> (r: i128)
    requires
        bounded(a),
        bounded(b),
    ensures
        r == dist2_spec(a, b),
{
    let dx: i128 = a.x as i128 - b.x as i128;
    let dy: i128 = a.y as i128 - b.y as i128;
    proof {
        lemma_square_bound(dx as int, 2 * COORD_LIMIT as int);
        lemma_square_bound(dy as int, 2 * COORD_LIMIT as int);
    }
    dx * dx + dy * dy
}

/// Membership in the axis-aligned rectangle `[min, max]`, inclusive on all
/// sides.
pub open spec fn inside_spec(p: Point, min: Point, max: Point) -> bool {
    min.x <= p.x <= max.x && min.y <= p.y <= max.y
}

pub fn inside(p: Point, min: Point, max: Point) -> (r: bool)
    ensures
        r == inside_spec(p, min, max),
{
    p.x >= min.x && p.x <= max.x && p.y >= min.y && p.y <= max.y
}

/// Coordinate of the midpoint: the half of the gap is taken towards the
/// larger endpoint, so the result always lies between the two inputs.
pub open spec fn mid_coord_spec(a: int, b: int) -> int {
    if a <= b {
        a + (b - a) / 2
    } else {
        b + (a - b) / 2
    }
}

pub open spec fn midpoint_spec(a: Point, b: Point) -> Point {
    Point { x: mid_coord_spec(a.x as int, b.x as int) as i64, y: mid_coord_spec(a.y as int, b.y as int) as i64 }
}

fn mid_coord(a: i64, b: i64) -> (r: i64)
    ensures
        r == mid_coord_spec(a as int, b as int),
{
    let (lo, hi) = if a <= b { (a, b) } else { (b, a) };
    let d: i128 = hi as i128 - lo as i128;
    let h: i128 = ((d as u128) / 2u128) as i128;
    assert(0 <= h <= d);
    (lo as i128 + h) as i64
}

/// Midpoint of a segment, total over all points.
pub fn midpoint(a: Point, b: Point) -> (r: Point)
    ensures
        r == midpoint_spec(a, b),
{
    Point { x: mid_coord(a.x, b.x), y: mid_coord(a.y, b.y) }
}

pub open spec fn iabs(v: int) -> int {
    if v < 0 {
        -v
    } else {
        v
    }
}

/// Taxicab size of a segment; the bisection recursion terminates because a
/// proper midpoint splits this measure into two strictly smaller parts.
pub open spec fn seg_measure(a: Point, b: Point) -> int {
    iabs(b.x - a.x) + iabs(b.y - a.y)
}

proof fn lemma_mid_coord_between(a: int, b: int)
    ensures
        a <= b ==> a <= mid_coord_spec(a, b) <= b,
        b <= a ==> b <= mid_coord_spec(a, b) <= a,
        iabs(mid_coord_spec(a, b) - a) + iabs(b - mid_coord_spec(a, b)) == iabs(b - a),
{
    if a <= b {
        let d = b - a;
        assert(0 <= d / 2 <= d);
    } else {
        let d = a - b;
        assert(0 <= d / 2 <= d);
    }
}

/// A proper midpoint splits the segment measure additively, so each half is
/// strictly smaller whenever the midpoint is distinct from both endpoints.
pub proof fn lemma_midpoint_measure(a: Point, b: Point)
    ensures
        0 <= seg_measure(a, midpoint_spec(a, b)),
        0 <= seg_measure(midpoint_spec(a, b), b),
        seg_measure(a, midpoint_spec(a, b)) + seg_measure(midpoint_spec(a, b), b) == seg_measure(a, b),
        midpoint_spec(a, b) != a && midpoint_spec(a, b) != b ==> seg_measure(a, midpoint_spec(a, b)) < seg_measure(a, b)
            && seg_measure(midpoint_spec(a, b), b) < seg_measure(a, b),
{
    lemma_mid_coord_between(a.x as int, b.x as int);
    lemma_mid_coord_between(a.y as int, b.y as int);
    let m = midpoint_spec(a, b);
    assert(iabs(m.x - a.x) + iabs(b.x - m.x) == iabs(b.x - a.x));
    assert(iabs(m.y - a.y) + iabs(b.y - m.y) == iabs(b.y - a.y));
    if m != a && m != b {
        assert(seg_measure(a, m) >= 1);
        assert(seg_measure(m, b) >= 1);
    }
}

/// Collapse of runs of equal adjacent points, keeping the first of each run.
pub open spec fn dedup_spec(s: Seq<Point>) -> Seq<Point>
    decreases s.len(),
{
    if s.len() == 0 {
        Seq::empty()
    } else {
        let d = dedup_spec(s.drop_last());
        if d.len() > 0 && d.last() == s.last() {
            d
        } else {
            d.push(s.last())
        }
    }
}

/// Removes consecutive duplicate points from a chain.
pub fn neat_uniq(v: Vec<Point>) -> (r: Vec<Point>)
    ensures
        r@ == dedup_spec(v@),
{
    let mut out: Vec<Point> = Vec::new();
    let mut i: usize = 0;
    while i < v.len()
        invariant
            i <= v.len(),
            out@ == dedup_spec(v@.take(i as int)),
        decreases v.len() - i,
    {
        let p = v[i];
        if out.len() == 0 || out[out.len() - 1] != p {
            out.push(p);
        }
        proof {
            let t = v@.take(i + 1 as int);
            assert(t.drop_last() =~= v@.take(i as int));
            assert(t.last() == v@[i as int]);
        }
        i += 1;
    }
    proof {
        assert(v@.take(v@.len() as int) =~= v@);
    }
    out
}

/// The collapse never leaves two equal points adjacent.
pub proof fn lemma_dedup_no_adjacent(s: Seq<Point>)
    ensures
        forall|i: int| 0 <= i < dedup_spec(s).len() - 1 ==> #[trigger] dedup_spec(s)[i] != dedup_spec(s)[i + 1],
    decreases s.len(),
{
    if s.len() > 0 {
        lemma_dedup_no_adjacent(s.drop_last());
        let d = dedup_spec(s.drop_last());
        if !(d.len() > 0 && d.last() == s.last()) {
            let e = dedup_spec(s);
            assert(e == d.push(s.last()));
            assert forall|i: int| 0 <= i < e.len() - 1 implies #[trigger] e[i] != e[i + 1] by {
                if i + 1 < d.len() {
                    assert(e[i] == d[i]);
                    assert(e[i + 1] == d[i + 1]);
                } else {
                    assert(e[i] == d[i]);
                    assert(e[i + 1] == s.last());
                    assert(d[i] == d.last());
                }
            }
        }
    }
}

/// Every point of the collapsed chain occurs in the original chain.
pub proof fn lemma_dedup_elements(s: Seq<Point>)
    ensures
        forall|i: int| 0 <= i < dedup_spec(s).len() ==> s.contains(#[trigger] dedup_spec(s)[i]),
    decreases s.len(),
{
    if s.len() > 0 {
        lemma_dedup_elements(s.drop_last());
        let d = dedup_spec(s.drop_last());
        let e = dedup_spec(s);
        assert forall|i: int| 0 <= i < e.len() implies s.contains(#[trigger] e[i]) by {
            if i < d.len() {
                assert(e[i] == d[i]);
                assert(s.drop_last().contains(d[i]));
                let j = choose|j: int| 0 <= j < s.drop_last().len() && s.drop_last()[j] == d[i];
                assert(s[j] == d[i]);
            } else {
                assert(e[i] == s.last());
                assert(s[s.len() - 1] == s.last());
            }
        }
    }
}

/// Collapsing a non-empty chain leaves it non-empty.
pub proof fn lemma_dedup_nonempty(s: Seq<Point>)
    requires
        s.len() > 0,
    ensures
        dedup_spec(s).len() > 0,
{
}

} // verus!
