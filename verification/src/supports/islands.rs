//! Island detection: joining slice segments into polygons, and deciding,
//! layer by layer, which regions rest on supported geometry below.

use vstd::prelude::*;

verus! {

/// A point on the slicing grid (a thousandth of the model's unit per step).
pub type GridPoint = [i32; 2];

/// A segment between two grid points.
pub type Segment = (GridPoint, GridPoint);

/// The largest squared grid distance at which the next segment still
/// continues a polygon: half a unit, that is 500 grid steps.
pub const JOIN_CUTOFF_SQUARED: i128 = 250_000;

/// The squared distance between two grid points.
pub open spec fn dist2(a: GridPoint, b: GridPoint) -> int {
    (a[0] - b[0]) * (a[0] - b[0]) + (a[1] - b[1]) * (a[1] - b[1])
}

fn exec_dist2(a: GridPoint, b: GridPoint) -> (d: i128)
    ensures
        d == dist2(a, b),
        d >= 0,
{
    let dx = a[0] as i128 - b[0] as i128;
    let dy = a[1] as i128 - b[1] as i128;
    assert(0 <= dx * dx <= 0x1_0000_0000 * 0x1_0000_0000) by (nonlinear_arith)
        requires
            -0x1_0000_0000 <= dx <= 0x1_0000_0000,
    ;
    assert(0 <= dy * dy <= 0x1_0000_0000 * 0x1_0000_0000) by (nonlinear_arith)
        requires
            -0x1_0000_0000 <= dy <= 0x1_0000_0000,
    ;
    dx * dx + dy * dy
}

fn same_point(a: GridPoint, b: GridPoint) -> (eq: bool)
    ensures
        eq == (a == b),
{
    let eq = a[0] == b[0] && a[1] == b[1];
    proof {
        if eq {
            assert(a =~= b);
        }
    }
    eq
}

fn same_segment(a: Segment, b: Segment) -> (eq: bool)
    ensures
        eq == (a == b),
{
    same_point(a.0, b.0) && same_point(a.1, b.1)
}

fn min_i128(a: i128, b: i128) -> (m: i128)
    ensures
        m == (if a <= b {
            a
        } else {
            b
        }),
{
    if a <= b {
        a
    } else {
        b
    }
}

/// The segments given by `points`: each two consecutive points, from the
/// first on; an odd point at the end is left out.
pub open spec fn input_segments(points: Seq<GridPoint>) -> Seq<Segment> {
    Seq::new(points.len() / 2, |k: int| (points[2 * k], points[2 * k + 1]))
}

/// `p` is an end of `s`.
pub open spec fn touches(s: Segment, p: GridPoint) -> bool {
    s.0 == p || s.1 == p
}

/// The distance from `p` to the nearer end of `s`, squared.
pub open spec fn end_dist(p: GridPoint, s: Segment) -> int {
    if dist2(p, s.0) <= dist2(p, s.1) {
        dist2(p, s.0)
    } else {
        dist2(p, s.1)
    }
}

/// A chain may go on from `a` to `b`: some segment has one end within the
/// cutoff of `a` and `b` as its other end.
pub open spec fn continues(segs: Seq<Segment>, a: GridPoint, b: GridPoint) -> bool {
    exists|s: Segment|
        #[trigger] segs.contains(s) && ((dist2(a, s.0) <= JOIN_CUTOFF_SQUARED && b == s.1) || (dist2(a, s.1)
            <= JOIN_CUTOFF_SQUARED && b == s.0))
}

/// The step from point `i` of `poly` to point `i + 1` follows `segs`.
pub open spec fn chain_step(segs: Seq<Segment>, poly: Seq<GridPoint>, i: int) -> bool {
    continues(segs, poly[i], poly[i + 1])
}

/// `poly` is a chain of `segs`: at least three points, the first two the
/// ends of a segment, and every later point reached by a step that follows
/// a segment.
pub open spec fn is_chain(segs: Seq<Segment>, poly: Seq<GridPoint>) -> bool {
    &&& poly.len() >= 3
    &&& segs.contains((poly[0], poly[1]))
    &&& forall|i: int| 1 <= i < poly.len() - 1 ==> #[trigger] chain_step(segs, poly, i)
}

/// The step from point `i` of `poly` to the next follows segment `s`: the
/// first step is the segment itself; a later one goes from a point within
/// the cutoff of one end of `s` to its other end.
pub open spec fn step_follows(poly: Seq<GridPoint>, i: int, s: Segment) -> bool {
    if i == 0 {
        s == (poly[0], poly[1])
    } else {
        (dist2(poly[i], s.0) <= JOIN_CUTOFF_SQUARED && poly[i + 1] == s.1) || (dist2(poly[i], s.1)
            <= JOIN_CUTOFF_SQUARED && poly[i + 1] == s.0)
    }
}

/// `used[q][i]` is the segment of `segs` that the step from point `i` of
/// polygon `q` follows, and no segment is followed by two steps.
pub open spec fn steps_use_distinct(
    segs: Seq<Segment>,
    polys: Seq<Vec<GridPoint>>,
    used: Seq<Seq<Segment>>,
) -> bool {
    &&& used.len() == polys.len()
    &&& forall|q: int| 0 <= q < polys.len() ==> #[trigger] used[q].len() == polys[q]@.len() - 1
    &&& forall|q: int, i: int|
        0 <= q < used.len() && 0 <= i < used[q].len() ==> segs.contains(#[trigger] used[q][i])
            && step_follows(polys[q]@, i, used[q][i])
    &&& forall|q: int, i: int, r: int, j: int|
        0 <= q < used.len() && 0 <= i < used[q].len() && 0 <= r < used.len() && 0 <= j < used[r].len() && (q
            != r || i != j) ==> #[trigger] used[q][i] != #[trigger] used[r][j]
}

/// The distinct segments of `segs`, each where it first occurs.
pub open spec fn first_occurrences(segs: Seq<Segment>) -> Seq<Segment>
    decreases segs.len(),
{
    if segs.len() == 0 {
        Seq::empty()
    } else {
        let kept = first_occurrences(segs.drop_last());
        if kept.contains(segs.last()) {
            kept
        } else {
            kept.push(segs.last())
        }
    }
}

/// The place in `rem` of the segment with the end nearest to `p`, the first
/// such one on a tie.
pub open spec fn nearest_index(rem: Seq<Segment>, p: GridPoint) -> int
    decreases rem.len(),
{
    if rem.len() <= 1 {
        0
    } else {
        let b = nearest_index(rem.drop_last(), p);
        if end_dist(p, rem.last()) < end_dist(p, rem[b]) {
            rem.len() - 1
        } else {
            b
        }
    }
}

/// The nearest segment is one of the segments.
pub proof fn lemma_nearest_in_range(rem: Seq<Segment>, p: GridPoint)
    requires
        rem.len() > 0,
    ensures
        0 <= nearest_index(rem, p) < rem.len(),
    decreases rem.len(),
{
    if rem.len() > 1 {
        lemma_nearest_in_range(rem.drop_last(), p);
    }
}

/// Follows a chain that has reached `poly` and started at `first`, with the
/// segments `rem` not yet taken: the segment with the end nearest to the
/// last point is taken out, and its other end is the next point. The chain
/// ends when no segment is left, when the next point is `first`, or when
/// both ends of that segment lie beyond the cutoff. Gives the chain and the
/// segments left.
pub open spec fn follow(rem: Seq<Segment>, first: GridPoint, poly: Seq<GridPoint>) -> (Seq<GridPoint>, Seq<Segment>)
    decreases rem.len(),
{
    if rem.len() == 0 {
        (poly, rem)
    } else {
        let last = poly.last();
        let b = nearest_index(rem, last);
        let e = rem[b];
        let next = if dist2(last, e.0) < dist2(last, e.1) {
            e.1
        } else {
            e.0
        };
        proof {
            lemma_nearest_in_range(rem, last);
        }
        let rest = rem.remove(b);
        if next == first || (dist2(last, e.0) > JOIN_CUTOFF_SQUARED && dist2(last, e.1) > JOIN_CUTOFF_SQUARED) {
            (poly, rest)
        } else {
            follow(rest, first, poly.push(next))
        }
    }
}

/// The chain that starts with the first segment of `rem`, and the segments
/// left after it.
pub open spec fn take_chain(rem: Seq<Segment>) -> (Seq<GridPoint>, Seq<Segment>) {
    follow(rem.remove(0), rem[0].0, seq![rem[0].0, rem[0].1])
}

/// Following a chain leaves no more segments than it started with.
pub proof fn lemma_follow_shrinks(rem: Seq<Segment>, first: GridPoint, poly: Seq<GridPoint>)
    ensures
        follow(rem, first, poly).1.len() <= rem.len(),
    decreases rem.len(),
{
    if rem.len() > 0 {
        let last = poly.last();
        lemma_nearest_in_range(rem, last);
        let b = nearest_index(rem, last);
        let e = rem[b];
        let next = if dist2(last, e.0) < dist2(last, e.1) {
            e.1
        } else {
            e.0
        };
        lemma_follow_shrinks(rem.remove(b), first, poly.push(next));
    }
}

/// The chains taken one after the other from `rem` until no segment is
/// left, keeping those of at least three points.
pub open spec fn join_all(rem: Seq<Segment>) -> Seq<Seq<GridPoint>>
    decreases rem.len(),
{
    if rem.len() == 0 {
        Seq::empty()
    } else {
        proof {
            lemma_follow_shrinks(rem.remove(0), rem[0].0, seq![rem[0].0, rem[0].1]);
        }
        let chain = take_chain(rem);
        let tail = join_all(chain.1);
        if chain.0.len() >= 3 {
            seq![chain.0] + tail
        } else {
            tail
        }
    }
}

/// The points of each polygon.
pub open spec fn polygon_views(polys: Seq<Vec<GridPoint>>) -> Seq<Seq<GridPoint>> {
    polys.map_values(|poly: Vec<GridPoint>| poly@)
}

/// `a` and `b` are the two ends of a segment, in either direction.
pub open spec fn joined(segs: Seq<Segment>, a: GridPoint, b: GridPoint) -> bool {
    segs.contains((a, b)) || segs.contains((b, a))
}

/// The point after point `i` of a closed polygon.
pub open spec fn after(poly: Seq<GridPoint>, i: int) -> GridPoint {
    if i + 1 < poly.len() {
        poly[i + 1]
    } else {
        poly[0]
    }
}

/// Point `i` of `poly` and the one after it are joined by `segs`.
pub open spec fn loop_step(segs: Seq<Segment>, poly: Seq<GridPoint>, i: int) -> bool {
    joined(segs, poly[i], after(poly, i))
}

/// `poly` goes once round a loop of `segs`: at least three distinct points,
/// each joined to the next and the last to the first.
pub open spec fn is_loop(segs: Seq<Segment>, poly: Seq<GridPoint>) -> bool {
    &&& poly.len() >= 3
    &&& poly.no_duplicates()
    &&& forall|i: int| 0 <= i < poly.len() ==> #[trigger] loop_step(segs, poly, i)
}

/// `s` joins point `i` of the closed polygon `poly` to the next point.
pub open spec fn loop_edge(poly: Seq<GridPoint>, i: int, s: Segment) -> bool {
    s == (poly[i], after(poly, i)) || s == (after(poly, i), poly[i])
}

/// `s` is a side of the closed polygon `poly`.
pub open spec fn edge_of(poly: Seq<GridPoint>, s: Segment) -> bool {
    exists|i: int| 0 <= i < poly.len() && #[trigger] loop_edge(poly, i, s)
}

/// Some segment other than `s` also ends at `p`.
pub open spec fn has_partner(segs: Seq<Segment>, s: Segment, p: GridPoint) -> bool {
    exists|t: Segment| segs.contains(t) && t != s && #[trigger] touches(t, p)
}

/// The segments form disjoint closed loops: no segment is a single point or
/// is given in both directions, and each end of a segment is the end of
/// exactly one other segment.
pub open spec fn forms_closed_loops(segs: Seq<Segment>) -> bool {
    &&& forall|s: Segment| #[trigger] segs.contains(s) ==> s.0 != s.1 && !segs.contains((s.1, s.0))
    &&& forall|s: Segment, p: GridPoint|
        #![trigger segs.contains(s), touches(s, p)]
        segs.contains(s) && touches(s, p) ==> has_partner(segs, s, p)
    &&& forall|s: Segment, t: Segment, u: Segment, p: GridPoint|
        #![trigger touches(s, p), touches(t, p), touches(u, p)]
        segs.contains(s) && segs.contains(t) && segs.contains(u) && touches(s, p) && touches(t, p) && touches(
            u,
            p,
        ) ==> s == t || s == u || t == u
}

/// Some polygon of `polys` has `s` as a side.
pub open spec fn side_of_some(polys: Seq<Vec<GridPoint>>, s: Segment) -> bool {
    exists|q: int| 0 <= q < polys.len() && #[trigger] edge_of(polys[q]@, s)
}

/// No two polygons share a point.
pub open spec fn apart(polys: Seq<Vec<GridPoint>>) -> bool {
    forall|q: int, r: int, i: int, j: int|
        0 <= q < polys.len() && 0 <= r < polys.len() && q != r && 0 <= i < polys[q]@.len() && 0 <= j
            < polys[r]@.len() ==> #[trigger] polys[q]@[i] != #[trigger] polys[r]@[j]
}

/// The polygons are exactly the loops of `segs`: each goes once round a
/// loop, every segment is a side of one of them, and no two share a point.
pub open spec fn loops_found(segs: Seq<Segment>, polys: Seq<Vec<GridPoint>>) -> bool {
    &&& forall|q: int| 0 <= q < polys.len() ==> is_loop(segs, #[trigger] polys[q]@)
    &&& forall|s: Segment| #[trigger] segs.contains(s) ==> side_of_some(polys, s)
    &&& apart(polys)
}

/// A segment of `rem` ends at `p`.
pub open spec fn touched_by(rem: Seq<Segment>, p: GridPoint) -> bool {
    exists|s: Segment| #[trigger] rem.contains(s) && touches(s, p)
}

/// No segment of `rem` ends at a point of `poly`.
pub open spec fn untouched_by(rem: Seq<Segment>, poly: Seq<GridPoint>) -> bool {
    forall|s: Segment, i: int| #[trigger] rem.contains(s) && 0 <= i < poly.len() ==> !touches(s, #[trigger] poly[i])
}

/// Every segment of `segs` that shares an end with a segment of `rem` is in
/// `rem`: `rem` is made of whole loops.
pub open spec fn remaining_closed(segs: Seq<Segment>, rem: Seq<Segment>) -> bool {
    forall|s: Segment, t: Segment, p: GridPoint|
        #![trigger rem.contains(s), segs.contains(t), touches(s, p), touches(t, p)]
        rem.contains(s) && segs.contains(t) && touches(s, p) && touches(t, p) ==> rem.contains(t)
}

/// `s` joins point `i` of the open chain `poly` to point `i + 1`.
pub open spec fn chain_edge(poly: Seq<GridPoint>, i: int, s: Segment) -> bool {
    s == (poly[i], poly[i + 1]) || s == (poly[i + 1], poly[i])
}

/// `s` is a step of the open chain `poly`.
pub open spec fn on_chain(poly: Seq<GridPoint>, s: Segment) -> bool {
    exists|i: int| 0 <= i < poly.len() - 1 && #[trigger] chain_edge(poly, i, s)
}

/// Point `i` and point `i + 1` of `poly` are joined by a segment of `whole`.
pub open spec fn chain_joined(whole: Seq<Segment>, poly: Seq<GridPoint>, i: int) -> bool {
    joined(whole, poly[i], poly[i + 1])
}

/// While following a loop: `poly` starts with the first segment of `whole`,
/// has distinct points joined by segments of `whole`, and `rem` holds the
/// segments of `whole` not yet followed.
spec fn open_chain(whole: Seq<Segment>, rem: Seq<Segment>, poly: Seq<GridPoint>) -> bool {
    &&& whole.len() > 0
    &&& poly.len() >= 2
    &&& poly.no_duplicates()
    &&& (poly[0], poly[1]) == whole[0]
    &&& forall|i: int| 0 <= i < poly.len() - 1 ==> #[trigger] chain_joined(whole, poly, i)
    &&& forall|s: Segment| #[trigger] rem.contains(s) <==> (whole.contains(s) && !on_chain(poly, s))
}

/// After a loop is closed: `poly` goes round it, its sides are the segments
/// of `whole` no longer in `rem`, and `rem` is made of whole other loops.
spec fn closed_chain(segs: Seq<Segment>, whole: Seq<Segment>, rem: Seq<Segment>, poly: Seq<GridPoint>) -> bool {
    &&& is_loop(segs, poly)
    &&& forall|s: Segment| #[trigger] whole.contains(s) ==> rem.contains(s) || edge_of(poly, s)
    &&& untouched_by(rem, poly)
    &&& remaining_closed(segs, rem)
}

proof fn lemma_dist2_zero(a: GridPoint, b: GridPoint)
    ensures
        dist2(a, b) >= 0,
        dist2(a, b) == 0 <==> a == b,
{
    let dx = a[0] - b[0];
    let dy = a[1] - b[1];
    assert(dx * dx >= 0 && dy * dy >= 0) by (nonlinear_arith);
    assert(dx * dx == 0 ==> dx == 0) by (nonlinear_arith);
    assert(dy * dy == 0 ==> dy == 0) by (nonlinear_arith);
    if dist2(a, b) == 0 {
        assert(a =~= b);
    }
}

proof fn lemma_remove_distinct(rem: Seq<Segment>, j: int)
    requires
        rem.no_duplicates(),
        0 <= j < rem.len(),
    ensures
        rem.remove(j).no_duplicates(),
        rem.remove(j).len() == rem.len() - 1,
        forall|s: Segment| #[trigger] rem.remove(j).contains(s) <==> (rem.contains(s) && s != rem[j]),
{
    let out = rem.remove(j);
    assert forall|a: int, b: int| 0 <= a < out.len() && 0 <= b < out.len() && a != b implies out[a] != out[b] by {
        let ia = if a < j { a } else { a + 1 };
        let ib = if b < j { b } else { b + 1 };
        assert(out[a] == rem[ia]);
        assert(out[b] == rem[ib]);
    }
    assert forall|s: Segment| #[trigger] out.contains(s) <==> (rem.contains(s) && s != rem[j]) by {
        if out.contains(s) {
            let a = choose|a: int| 0 <= a < out.len() && out[a] == s;
            let ia = if a < j { a } else { a + 1 };
            assert(out[a] == rem[ia]);
        }
        if rem.contains(s) && s != rem[j] {
            let k = choose|k: int| 0 <= k < rem.len() && rem[k] == s;
            let a = if k < j { k } else { k - 1 };
            assert(out[a] == s);
        }
    }
}

/// The segments of `whole` at the two ends of a chain step.
proof fn lemma_chain_segment(whole: Seq<Segment>, poly: Seq<GridPoint>, i: int) -> (c: Segment)
    requires
        0 <= i < poly.len() - 1,
        chain_joined(whole, poly, i),
    ensures
        whole.contains(c),
        chain_edge(poly, i, c),
        touches(c, poly[i]),
        touches(c, poly[i + 1]),
{
    if whole.contains((poly[i], poly[i + 1])) {
        (poly[i], poly[i + 1])
    } else {
        (poly[i + 1], poly[i])
    }
}

/// A chain edge that ends at point `k` of a chain with distinct points is
/// the step into `k` or the step out of it.
proof fn lemma_chain_edge_at(poly: Seq<GridPoint>, i: int, s: Segment, k: int)
    requires
        poly.no_duplicates(),
        0 <= i < poly.len() - 1,
        0 <= k < poly.len(),
        chain_edge(poly, i, s),
        touches(s, poly[k]),
    ensures
        i == k || i + 1 == k,
{
    if poly[i] == poly[k] {
        assert(i == k);
    } else {
        assert(poly[i + 1] == poly[k]);
    }
}

/// While a loop is followed, a segment not yet followed goes on from the
/// last point.
proof fn lemma_chain_goes_on(segs: Seq<Segment>, whole: Seq<Segment>, rem: Seq<Segment>, poly: Seq<GridPoint>)
    requires
        forms_closed_loops(segs),
        open_chain(whole, rem, poly),
        remaining_closed(segs, whole),
        forall|s: Segment| whole.contains(s) ==> segs.contains(s),
    ensures
        exists|j: int| 0 <= j < rem.len() && touches(#[trigger] rem[j], poly.last()),
{
    let k = poly.len() - 1;
    let v = poly[k];
    assert(chain_joined(whole, poly, k - 1));
    let c = lemma_chain_segment(whole, poly, k - 1);
    assert(segs.contains(c));
    assert(has_partner(segs, c, v));
    let t = choose|t: Segment| segs.contains(t) && t != c && #[trigger] touches(t, v);
    assert(whole.contains(t));
    if on_chain(poly, t) {
        let i = choose|i: int| 0 <= i < poly.len() - 1 && #[trigger] chain_edge(poly, i, t);
        lemma_chain_edge_at(poly, i, t, k);
        assert(segs.contains((c.1, c.0)));
        assert(false);
    }
    assert(rem.contains(t));
    let j = choose|j: int| 0 <= j < rem.len() && rem[j] == t;
    assert(touches(rem[j], poly.last()));
}

/// Following segment `rem[j]` from the last point to a point other than the
/// first extends the chain.
proof fn lemma_chain_extends(
    segs: Seq<Segment>,
    whole: Seq<Segment>,
    rem: Seq<Segment>,
    poly: Seq<GridPoint>,
    j: int,
    far: GridPoint,
)
    requires
        forms_closed_loops(segs),
        open_chain(whole, rem, poly),
        forall|s: Segment| whole.contains(s) ==> segs.contains(s),
        rem.no_duplicates(),
        0 <= j < rem.len(),
        rem[j] == (poly.last(), far) || rem[j] == (far, poly.last()),
        far != poly[0],
    ensures
        open_chain(whole, rem.remove(j), poly.push(far)),
{
    let e = rem[j];
    let k = poly.len() - 1;
    assert(rem.contains(e));
    assert(whole.contains(e) && segs.contains(e));
    lemma_remove_distinct(rem, j);
    // The new point is not on the chain yet.
    assert forall|i: int| 0 <= i < poly.len() implies poly[i] != far by {
        if poly[i] == far {
            if i == k {
                assert(e.0 == e.1);
            } else if i > 0 {
                assert(chain_joined(whole, poly, i - 1));
                assert(chain_joined(whole, poly, i));
                let c1 = lemma_chain_segment(whole, poly, i - 1);
                let c2 = lemma_chain_segment(whole, poly, i);
                assert(segs.contains(c1) && segs.contains(c2));
                assert(!on_chain(poly, e));
                assert(e != c1);
                assert(e != c2);
                assert(c1 != c2);
                assert(touches(c1, poly[i]) && touches(c2, poly[i]) && touches(e, poly[i]));
            }
        }
    }
    let next = poly.push(far);
    assert forall|a: int, b: int| 0 <= a < next.len() && 0 <= b < next.len() && a != b implies next[a] != next[b] by {
        if a < poly.len() && b < poly.len() {
            assert(next[a] == poly[a] && next[b] == poly[b]);
        } else if a < poly.len() {
            assert(next[a] == poly[a]);
        } else if b < poly.len() {
            assert(next[b] == poly[b]);
        }
    }
    assert forall|i: int| 0 <= i < next.len() - 1 implies #[trigger] chain_joined(whole, next, i) by {
        if i < k {
            assert(chain_joined(whole, poly, i));
            assert(next[i] == poly[i] && next[i + 1] == poly[i + 1]);
        } else {
            assert(next[i] == poly[k] && next[i + 1] == far);
        }
    }
    assert forall|s: Segment| #[trigger] rem.remove(j).contains(s) <==> (whole.contains(s) && !on_chain(next, s)) by {
        if on_chain(next, s) {
            let i = choose|i: int| 0 <= i < next.len() - 1 && #[trigger] chain_edge(next, i, s);
            if i < k {
                assert(next[i] == poly[i] && next[i + 1] == poly[i + 1]);
                assert(chain_edge(poly, i, s));
                assert(on_chain(poly, s));
            } else {
                assert(next[i] == poly[k] && next[i + 1] == far);
                if whole.contains(s) && s != e {
                    assert(segs.contains(s));
                    assert(s == (e.1, e.0));
                    assert(false);
                }
            }
        } else {
            if on_chain(poly, s) {
                let i = choose|i: int| 0 <= i < poly.len() - 1 && #[trigger] chain_edge(poly, i, s);
                assert(next[i] == poly[i] && next[i + 1] == poly[i + 1]);
                assert(chain_edge(next, i, s));
            }
            if s == e {
                assert(chain_edge(next, k, s));
            }
        }
    }
}

/// Following segment `rem[j]` from the last point back to the first closes
/// the loop.
proof fn lemma_chain_closes(segs: Seq<Segment>, whole: Seq<Segment>, rem: Seq<Segment>, poly: Seq<GridPoint>, j: int)
    requires
        forms_closed_loops(segs),
        open_chain(whole, rem, poly),
        remaining_closed(segs, whole),
        forall|s: Segment| whole.contains(s) ==> segs.contains(s),
        rem.no_duplicates(),
        0 <= j < rem.len(),
        rem[j] == (poly.last(), poly[0]) || rem[j] == (poly[0], poly.last()),
    ensures
        closed_chain(segs, whole, rem.remove(j), poly),
{
    let e = rem[j];
    let k = poly.len() - 1;
    let out = rem.remove(j);
    assert(rem.contains(e));
    assert(whole.contains(e) && segs.contains(e));
    assert(!on_chain(poly, e));
    lemma_remove_distinct(rem, j);
    let start = whole[0];
    assert(whole.contains(start));
    assert(chain_edge(poly, 0, start));
    if k == 1 {
        assert(e == (start.1, start.0));
        assert(false);
    }
    // Every point is joined to the next.
    assert forall|i: int| 0 <= i < poly.len() implies #[trigger] loop_step(segs, poly, i) by {
        if i < k {
            assert(chain_joined(whole, poly, i));
            let c = lemma_chain_segment(whole, poly, i);
            assert(segs.contains(c));
        } else {
            assert(after(poly, i) == poly[0]);
        }
    }
    // The segments of `whole` that are gone are the sides of the loop.
    assert forall|s: Segment| #[trigger] whole.contains(s) implies out.contains(s) || edge_of(poly, s) by {
        if s == e {
            assert(loop_edge(poly, k, s));
        } else if !rem.contains(s) {
            let i = choose|i: int| 0 <= i < poly.len() - 1 && #[trigger] chain_edge(poly, i, s);
            assert(loop_edge(poly, i, s));
        }
    }
    // Nothing left ends at a point of the loop.
    assert forall|s: Segment, i: int| #[trigger] out.contains(s) && 0 <= i < poly.len() implies !touches(s, #[trigger] poly[i]) by {
        if touches(s, poly[i]) {
            assert(rem.contains(s) && s != e);
            assert(whole.contains(s) && segs.contains(s));
            assert(!on_chain(poly, s));
            let (a, b) = if i == 0 {
                (start, e)
            } else if i == k {
                assert(chain_joined(whole, poly, k - 1));
                (lemma_chain_segment(whole, poly, k - 1), e)
            } else {
                assert(chain_joined(whole, poly, i - 1));
                assert(chain_joined(whole, poly, i));
                (lemma_chain_segment(whole, poly, i - 1), lemma_chain_segment(whole, poly, i))
            };
            assert(segs.contains(a) && segs.contains(b));
            assert(touches(a, poly[i]) && touches(b, poly[i]));
            assert(s != a && s != b);
            assert(a != b);
        }
    }
    // What is left is still made of whole loops.
    assert forall|s: Segment, t: Segment, p: GridPoint|
        #![trigger out.contains(s), segs.contains(t), touches(s, p), touches(t, p)]
        out.contains(s) && segs.contains(t) && touches(s, p) && touches(t, p) implies out.contains(t) by {
        assert(rem.contains(s) && whole.contains(s));
        assert(whole.contains(t));
        if !out.contains(t) {
            let i: int = if t == e {
                if p == e.0 { if e.0 == poly[k] { k } else { 0 } } else { if e.1 == poly[k] { k } else { 0 } }
            } else {
                let m = choose|m: int| 0 <= m < poly.len() - 1 && #[trigger] chain_edge(poly, m, t);
                if p == poly[m] { m } else { m + 1 }
            };
            assert(0 <= i < poly.len() && poly[i] == p);
            assert(!touches(s, poly[i]));
        }
    }
}

/// The distinct segments given by `points`, in the order first given.
fn distinct_segments(points: &[GridPoint]) -> (segments: Vec<Segment>)
    ensures
        segments@.no_duplicates(),
        forall|s: Segment| #[trigger] segments@.contains(s) <==> input_segments(points@).contains(s),
        segments@ == first_occurrences(input_segments(points@)),
{
    let ghost segs = input_segments(points@);
    let mut segments: Vec<Segment> = Vec::new();
    let mut c: usize = 0;
    while points.len() - c >= 2
        invariant
            c <= points.len(),
            c % 2 == 0,
            segs == input_segments(points@),
            segments@.no_duplicates(),
            forall|i: int| 0 <= i < segments@.len() ==> segs.contains(#[trigger] segments@[i]),
            forall|k: int| 0 <= k < c / 2 ==> segments@.contains(#[trigger] segs[k]),
            segments@ == first_occurrences(segs.take((c / 2) as int)),
        decreases points.len() - c,
    {
        let segment = (points[c], points[c + 1]);
        assert(segs[(c / 2) as int] == segment);
        let mut known = false;
        let mut s: usize = 0;
        while s < segments.len()
            invariant
                0 <= s <= segments.len(),
                known <==> exists|i: int| 0 <= i < s && #[trigger] segments@[i] == segment,
            decreases segments.len() - s,
        {
            if same_segment(segments[s], segment) {
                known = true;
            }
            s += 1;
        }
        let ghost before = segments@;
        proof {
            let upto = segs.take((c / 2) as int + 1);
            assert(upto.drop_last() =~= segs.take((c / 2) as int));
            assert(upto.last() == segment);
            if known {
                let i = choose|i: int| 0 <= i < before.len() && #[trigger] before[i] == segment;
                assert(before.contains(segment));
            }
        }
        if !known {
            segments.push(segment);
            assert forall|a: int, b: int| 0 <= a < segments@.len() && 0 <= b < segments@.len() && a != b implies segments@[a] != segments@[b] by {
                if a < before.len() && b < before.len() {
                    assert(before[a] != before[b]);
                }
            }
            assert forall|i: int| 0 <= i < segments@.len() implies segs.contains(#[trigger] segments@[i]) by {
                if i < before.len() {
                    assert(segments@[i] == before[i]);
                }
            }
        } else {
            proof {
                let i = choose|i: int| 0 <= i < before.len() && #[trigger] before[i] == segment;
                assert(segments@.contains(segs[(c / 2) as int]));
            }
        }
        assert forall|k: int| 0 <= k < (c + 2) as int / 2 implies segments@.contains(#[trigger] segs[k]) by {
            if k < c / 2 {
                let i = choose|i: int| 0 <= i < before.len() && before[i] == segs[k];
                assert(segments@[i] == segs[k]);
            } else {
                assert(k == c / 2);
                if !known {
                    assert(segments@[before.len() as int] == segs[k]);
                }
            }
        }
        c += 2;
    }
    assert(segs.take((c / 2) as int) =~= segs);
    assert forall|s: Segment| #[trigger] segments@.contains(s) <==> segs.contains(s) by {
        if segments@.contains(s) {
            let i = choose|i: int| 0 <= i < segments@.len() && segments@[i] == s;
            assert(segs.contains(segments@[i]));
        }
        if segs.contains(s) {
            let k = choose|k: int| 0 <= k < segs.len() && segs[k] == s;
            assert(segments@.contains(segs[k]));
        }
    }
    segments
}

/// The segment with the end nearest to `last`, the first such one on a tie.
fn nearest_segment(segments: &Vec<Segment>, last: GridPoint) -> (best: usize)
    requires
        segments@.len() > 0,
    ensures
        best < segments@.len(),
        forall|j: int| 0 <= j < segments@.len() ==> end_dist(last, segments@[best as int]) <= end_dist(last, #[trigger] segments@[j]),
        forall|j: int| 0 <= j < best ==> end_dist(last, segments@[best as int]) < end_dist(last, #[trigger] segments@[j]),
        best == nearest_index(segments@, last),
{
    let first = segments[0];
    let mut best: usize = 0;
    let mut best_d = min_i128(exec_dist2(last, first.0), exec_dist2(last, first.1));
    let mut i: usize = 1;
    while i < segments.len()
        invariant
            1 <= i <= segments@.len(),
            best < i,
            best_d == end_dist(last, segments@[best as int]),
            forall|j: int| 0 <= j < i ==> best_d <= end_dist(last, #[trigger] segments@[j]),
            forall|j: int| 0 <= j < best ==> best_d < end_dist(last, #[trigger] segments@[j]),
            best == nearest_index(segments@.take(i as int), last),
        decreases segments.len() - i,
    {
        proof {
            let upto = segments@.take(i + 1);
            assert(upto.drop_last() =~= segments@.take(i as int));
            assert(upto.last() == segments@[i as int]);
            assert(upto[best as int] == segments@[best as int]);
        }
        let edge = segments[i];
        let d = min_i128(exec_dist2(last, edge.0), exec_dist2(last, edge.1));
        if d < best_d {
            best = i;
            best_d = d;
        }
        i += 1;
    }
    assert(segments@.take(i as int) =~= segments@);
    best
}

/// Takes the first segment of `segments` and follows it: from its second
/// end, repeatedly takes the segment with an end nearest to the current end
/// and moves to that segment's other end, until that end is the first
/// point again, no segment is left, or the nearest end is beyond the
/// cutoff. Every segment taken is removed.
fn follow_chain(segments: &mut Vec<Segment>, Ghost(segs): Ghost<Seq<Segment>>) -> (out: (
    Vec<GridPoint>,
    Ghost<Seq<Segment>>,
))
    requires
        old(segments)@.len() > 0,
        old(segments)@.no_duplicates(),
        forall|s: Segment| old(segments)@.contains(s) ==> segs.contains(s),
        forms_closed_loops(segs) ==> remaining_closed(segs, old(segments)@),
    ensures
        final(segments)@.len() < old(segments)@.len(),
        final(segments)@.no_duplicates(),
        forall|s: Segment| final(segments)@.contains(s) ==> old(segments)@.contains(s),
        out.0@.len() >= 3 ==> is_chain(segs, out.0@),
        forall|i: int| 0 <= i < out.0@.len() ==> touched_by(old(segments)@, #[trigger] out.0@[i]),
        forms_closed_loops(segs) ==> closed_chain(segs, old(segments)@, final(segments)@, out.0@),
        out.1@.len() == out.0@.len() - 1,
        out.1@.no_duplicates(),
        forall|i: int|
            0 <= i < out.1@.len() ==> old(segments)@.contains(#[trigger] out.1@[i])
                && !final(segments)@.contains(out.1@[i]) && step_follows(out.0@, i, out.1@[i]),
        (out.0@, final(segments)@) == take_chain(old(segments)@),
{
    let ghost loops = forms_closed_loops(segs);
    let ghost whole = segments@;
    let start = segments.remove(0);
    proof {
        lemma_remove_distinct(whole, 0);
        assert(whole.contains(start));
    }
    let mut polygon: Vec<GridPoint> = Vec::new();
    polygon.push(start.0);
    polygon.push(start.1);
    let mut last = start.1;
    let ghost mut used: Seq<Segment> = seq![start];
    proof {
        assert(!segments@.contains(start));
        assert(step_follows(polygon@, 0, start));
        if loops {
            assert(segs.contains(start));
            assert(polygon@[0] != polygon@[1]);
            assert(chain_joined(whole, polygon@, 0));
            assert forall|s: Segment| #[trigger] segments@.contains(s) <==> (whole.contains(s) && !on_chain(polygon@, s)) by {
                if on_chain(polygon@, s) {
                    assert(chain_edge(polygon@, 0, s));
                    if s != start && whole.contains(s) {
                        assert(s == (start.1, start.0));
                        assert(segs.contains(s));
                    }
                }
                if s == start {
                    assert(chain_edge(polygon@, 0, s));
                }
            }
        }
        assert(touches(start, polygon@[0]) && touches(start, polygon@[1]));
        assert(polygon@ =~= seq![start.0, start.1]);
    }
    loop
        invariant_except_break
            whole.len() > 0,
            start == whole[0],
            whole.no_duplicates(),
            forall|s: Segment| whole.contains(s) ==> segs.contains(s),
            loops == forms_closed_loops(segs),
            loops ==> remaining_closed(segs, whole),
            segments@.len() < whole.len(),
            segments@.no_duplicates(),
            forall|s: Segment| segments@.contains(s) ==> whole.contains(s),
            polygon@.len() >= 2,
            polygon@[0] == start.0,
            polygon@[1] == start.1,
            last == polygon@.last(),
            forall|i: int| 1 <= i < polygon@.len() - 1 ==> #[trigger] chain_step(segs, polygon@, i),
            forall|i: int| 0 <= i < polygon@.len() ==> touched_by(whole, #[trigger] polygon@[i]),
            loops ==> open_chain(whole, segments@, polygon@),
            used.len() == polygon@.len() - 1,
            used.no_duplicates(),
            forall|i: int|
                0 <= i < used.len() ==> whole.contains(#[trigger] used[i]) && !segments@.contains(used[i])
                    && step_follows(polygon@, i, used[i]),
            follow(segments@, start.0, polygon@) == take_chain(whole),
        ensures
            segments@.len() < whole.len(),
            segments@.no_duplicates(),
            forall|s: Segment| segments@.contains(s) ==> whole.contains(s),
            polygon@.len() >= 2,
            polygon@[0] == start.0,
            polygon@[1] == start.1,
            forall|i: int| 1 <= i < polygon@.len() - 1 ==> #[trigger] chain_step(segs, polygon@, i),
            forall|i: int| 0 <= i < polygon@.len() ==> touched_by(whole, #[trigger] polygon@[i]),
            loops ==> closed_chain(segs, whole, segments@, polygon@),
            used.len() == polygon@.len() - 1,
            used.no_duplicates(),
            forall|i: int|
                0 <= i < used.len() ==> whole.contains(#[trigger] used[i]) && !segments@.contains(used[i])
                    && step_follows(polygon@, i, used[i]),
            (polygon@, segments@) == take_chain(whole),
        decreases segments@.len(),
    {
        if segments.len() == 0 {
            proof {
                if loops {
                    lemma_chain_goes_on(segs, whole, segments@, polygon@);
                }
            }
            break;
        }
        let best = nearest_segment(&segments, last);
        let edge = segments[best];
        let d0 = exec_dist2(last, edge.0);
        let d1 = exec_dist2(last, edge.1);
        let next = if d0 < d1 {
            edge.1
        } else {
            edge.0
        };
        let ghost rem = segments@;
        proof {
            lemma_dist2_zero(last, edge.0);
            lemma_dist2_zero(last, edge.1);
            lemma_remove_distinct(rem, best as int);
            assert(rem.contains(edge));
            if loops {
                lemma_chain_goes_on(segs, whole, rem, polygon@);
                let j = choose|j: int| 0 <= j < rem.len() && touches(#[trigger] rem[j], polygon@.last());
                lemma_dist2_zero(last, rem[j].0);
                lemma_dist2_zero(last, rem[j].1);
                assert(end_dist(last, rem[j]) == 0);
                assert(end_dist(last, edge) == 0);
                if d0 < d1 {
                    assert(edge == (last, next));
                } else {
                    assert(edge == (next, last));
                }
            }
        }
        if same_point(next, start.0) || (d0 > JOIN_CUTOFF_SQUARED && d1 > JOIN_CUTOFF_SQUARED) {
            segments.remove(best);
            proof {
                if loops {
                    lemma_chain_closes(segs, whole, rem, polygon@, best as int);
                }
            }
            break;
        }
        proof {
            assert(chain_step(segs, polygon@.push(next), polygon@.len() - 1)) by {
                assert(segs.contains(edge));
            }
            if loops {
                lemma_chain_extends(segs, whole, rem, polygon@, best as int, next);
            }
        }
        let ghost old_poly = polygon@;
        let ghost old_used = used;
        polygon.push(next);
        last = next;
        segments.remove(best);
        proof {
            used = used.push(edge);
            assert forall|i: int| 0 <= i < used.len() implies whole.contains(#[trigger] used[i]) && !segments@.contains(used[i])
                && step_follows(polygon@, i, used[i]) by {
                if i < old_used.len() {
                    assert(used[i] == old_used[i]);
                    assert(step_follows(old_poly, i, old_used[i]));
                    assert(polygon@[i] == old_poly[i] && polygon@[i + 1] == old_poly[i + 1]);
                    assert(polygon@[0] == old_poly[0] && polygon@[1] == old_poly[1]);
                } else {
                    assert(used[i] == edge);
                    assert(polygon@[i] == old_poly[i] && polygon@[i + 1] == next);
                }
            }
            assert forall|a: int, b: int| 0 <= a < used.len() && 0 <= b < used.len() && a != b implies used[a] != used[b] by {
                if a < old_used.len() && b < old_used.len() {
                    assert(old_used[a] != old_used[b]);
                } else if a < old_used.len() {
                    assert(!rem.contains(old_used[a]));
                } else if b < old_used.len() {
                    assert(!rem.contains(old_used[b]));
                }
            }
            assert forall|i: int| 1 <= i < polygon@.len() - 1 implies #[trigger] chain_step(segs, polygon@, i) by {
                if i < old_poly.len() - 1 {
                    assert(chain_step(segs, old_poly, i));
                    assert(polygon@[i] == old_poly[i] && polygon@[i + 1] == old_poly[i + 1]);
                }
            }
            assert forall|i: int| 0 <= i < polygon@.len() implies touched_by(whole, #[trigger] polygon@[i]) by {
                if i < old_poly.len() {
                    assert(polygon@[i] == old_poly[i]);
                } else {
                    assert(whole.contains(edge) && touches(edge, next));
                }
            }
        }
    }
    (polygon, Ghost(used))
}

/// Chains sliced segments, given as consecutive pairs of endpoints, into
/// closed polygons. Segments given twice in the same direction count once,
/// where they first occur. Each polygon starts with the first segment not
/// yet used and follows it: from the current end, it takes the unused
/// segment with an end nearest to that end (the first such one on a tie) and
/// moves to that segment's other end, until it comes back to the first
/// point, no segment is left, or both ends of the nearest segment lie beyond
/// the cutoff (that segment is then dropped). Chains of fewer than three
/// points are dropped. The result is exactly `join_all` of the distinct
/// segments.
///
/// Every point of a polygon is an end of a given segment, and every step of
/// every polygon follows its own segment, one that no other step follows.
/// Where the segments form disjoint closed loops, the polygons are exactly
/// those loops, one polygon per loop.
pub fn join_segments(points: &[GridPoint]) -> (polygons: Vec<Vec<GridPoint>>)
    ensures
        forall|q: int| 0 <= q < polygons@.len() ==> is_chain(input_segments(points@), #[trigger] polygons@[q]@),
        forall|q: int, i: int|
            0 <= q < polygons@.len() && 0 <= i < polygons@[q]@.len() ==> touched_by(
                input_segments(points@),
                #[trigger] polygons@[q]@[i],
            ),
        exists|used: Seq<Seq<Segment>>| steps_use_distinct(input_segments(points@), polygons@, used),
        forms_closed_loops(input_segments(points@)) ==> loops_found(input_segments(points@), polygons@),
        polygon_views(polygons@) == join_all(first_occurrences(input_segments(points@))),
{
    let ghost segs = input_segments(points@);
    let ghost loops = forms_closed_loops(segs);
    let mut segments = distinct_segments(points);
    let ghost target = join_all(segments@);
    let mut polygons: Vec<Vec<GridPoint>> = Vec::new();
    let ghost mut used_all: Seq<Seq<Segment>> = Seq::empty();
    proof {
        if loops {
            assert forall|s: Segment, t: Segment, p: GridPoint|
                #![trigger segments@.contains(s), segs.contains(t), touches(s, p), touches(t, p)]
                segments@.contains(s) && segs.contains(t) && touches(s, p) && touches(t, p) implies segments@.contains(t) by {
                assert(segments@.contains(t) <==> segs.contains(t));
            }
        }
    }
    while segments.len() > 0
        invariant
            segs == input_segments(points@),
            loops == forms_closed_loops(segs),
            segments@.no_duplicates(),
            forall|s: Segment| segments@.contains(s) ==> segs.contains(s),
            forall|q: int| 0 <= q < polygons@.len() ==> is_chain(segs, #[trigger] polygons@[q]@),
            loops ==> remaining_closed(segs, segments@),
            loops ==> forall|q: int| 0 <= q < polygons@.len() ==> is_loop(segs, #[trigger] polygons@[q]@),
            loops ==> forall|s: Segment| #[trigger] segs.contains(s) ==> segments@.contains(s) || side_of_some(polygons@, s),
            loops ==> forall|q: int| 0 <= q < polygons@.len() ==> untouched_by(segments@, #[trigger] polygons@[q]@),
            loops ==> apart(polygons@),
            steps_use_distinct(segs, polygons@, used_all),
            polygon_views(polygons@) + join_all(segments@) == target,
            forall|q: int, i: int|
                0 <= q < polygons@.len() && 0 <= i < polygons@[q]@.len() ==> touched_by(
                    segs,
                    #[trigger] polygons@[q]@[i],
                ),
            forall|q: int, i: int|
                0 <= q < used_all.len() && 0 <= i < used_all[q].len() ==> !segments@.contains(
                    #[trigger] used_all[q][i],
                ),
        decreases segments.len(),
    {
        let ghost rem = segments@;
        let ghost polys = polygons@;
        let ghost used_before = used_all;
        let (polygon, Ghost(used)) = follow_chain(&mut segments, Ghost(segs));
        let ghost chain = polygon@;
        proof {
            assert(take_chain(rem) == (chain, segments@));
            assert(join_all(rem) == if chain.len() >= 3 {
                seq![chain] + join_all(segments@)
            } else {
                join_all(segments@)
            });
            assert forall|i: int| 0 <= i < used.len() implies #[trigger] step_follows(chain, i, used[i]) by {
                assert(rem.contains(used[i]));
            }
        }
        if polygon.len() >= 3 {
            polygons.push(polygon);
            proof {
                used_all = used_all.push(used);
                assert(polygons@.drop_last() =~= polys);
                assert(polygons@.last()@ == chain);
                assert(polygon_views(polygons@) =~= polygon_views(polys).push(chain));
                assert(polygon_views(polys).push(chain) + join_all(segments@) =~= polygon_views(polys) + (seq![chain]
                    + join_all(segments@)));
                assert forall|q: int, i: int|
                    0 <= q < polygons@.len() && 0 <= i < polygons@[q]@.len() implies touched_by(
                        segs,
                        #[trigger] polygons@[q]@[i],
                    ) by {
                    if q < polys.len() {
                        assert(polygons@[q] == polys[q]);
                    } else {
                        assert(touched_by(rem, chain[i]));
                        let s = choose|s: Segment| #[trigger] rem.contains(s) && touches(s, chain[i]);
                        assert(segs.contains(s));
                    }
                }
            }
        }
        proof {
            lemma_steps_extend(segs, rem, segments@, polys, polygons@, used_before, used_all, used);
            if loops {
                let poly = polygon@;
                assert(polygons@.len() == polys.len() + 1);
                let n = polys.len() as int;
                assert(polygons@[n]@ == poly);
                assert forall|q: int| 0 <= q < polygons@.len() implies is_loop(segs, #[trigger] polygons@[q]@) by {
                    if q < n {
                        assert(polygons@[q] == polys[q]);
                    }
                }
                assert forall|s: Segment| #[trigger] segs.contains(s) implies segments@.contains(s) || side_of_some(polygons@, s) by {
                    if rem.contains(s) {
                        if !segments@.contains(s) {
                            assert(edge_of(polygons@[n]@, s));
                        }
                    } else {
                        let q = choose|q: int| 0 <= q < polys.len() && #[trigger] edge_of(polys[q]@, s);
                        assert(polygons@[q] == polys[q]);
                        assert(edge_of(polygons@[q]@, s));
                    }
                }
                assert forall|q: int| 0 <= q < polygons@.len() implies untouched_by(segments@, #[trigger] polygons@[q]@) by {
                    if q < n {
                        assert(polygons@[q] == polys[q]);
                        assert(untouched_by(rem, polys[q]@));
                    }
                }
                assert forall|q: int, r: int, i: int, j: int|
                    0 <= q < polygons@.len() && 0 <= r < polygons@.len() && q != r && 0 <= i < polygons@[q]@.len() && 0 <= j
                        < polygons@[r]@.len() implies #[trigger] polygons@[q]@[i] != #[trigger] polygons@[r]@[j] by {
                    if q < n && r < n {
                        assert(polygons@[q] == polys[q] && polygons@[r] == polys[r]);
                    } else if q < n {
                        assert(polygons@[q] == polys[q]);
                        assert(touched_by(rem, poly[j]));
                        let s = choose|s: Segment| #[trigger] rem.contains(s) && touches(s, poly[j]);
                        assert(untouched_by(rem, polys[q]@));
                        assert(!touches(s, polys[q]@[i]));
                    } else {
                        assert(polygons@[r] == polys[r]);
                        assert(touched_by(rem, poly[i]));
                        let s = choose|s: Segment| #[trigger] rem.contains(s) && touches(s, poly[i]);
                        assert(untouched_by(rem, polys[r]@));
                        assert(!touches(s, polys[r]@[j]));
                    }
                }
            } else {
                assert forall|q: int| 0 <= q < polygons@.len() implies is_chain(segs, #[trigger] polygons@[q]@) by {
                    if q < polys.len() {
                        assert(polygons@[q] == polys[q]);
                    }
                }
            }
        }
    }
    assert(polygon_views(polygons@) + join_all(segments@) =~= polygon_views(polygons@));
    polygons
}

/// The bookkeeping of followed segments survives taking one more chain.
proof fn lemma_steps_extend(
    segs: Seq<Segment>,
    rem: Seq<Segment>,
    rem_after: Seq<Segment>,
    polys: Seq<Vec<GridPoint>>,
    polys_after: Seq<Vec<GridPoint>>,
    used_before: Seq<Seq<Segment>>,
    used_after: Seq<Seq<Segment>>,
    used: Seq<Segment>,
)
    requires
        steps_use_distinct(segs, polys, used_before),
        forall|q: int, i: int|
            0 <= q < used_before.len() && 0 <= i < used_before[q].len() ==> !rem.contains(
                #[trigger] used_before[q][i],
            ),
        forall|s: Segment| rem_after.contains(s) ==> rem.contains(s),
        forall|s: Segment| rem.contains(s) ==> segs.contains(s),
        used.no_duplicates(),
        forall|i: int|
            0 <= i < used.len() ==> rem.contains(#[trigger] used[i]) && !rem_after.contains(used[i]),
        (polys_after == polys && used_after == used_before) || (polys_after.len() == polys.len() + 1
            && polys_after.drop_last() == polys && used_after == used_before.push(used) && used.len()
            == polys_after.last()@.len() - 1 && forall|i: int|
            0 <= i < used.len() ==> #[trigger] step_follows(polys_after.last()@, i, used[i])),
    ensures
        steps_use_distinct(segs, polys_after, used_after),
        forall|q: int, i: int|
            0 <= q < used_after.len() && 0 <= i < used_after[q].len() ==> !rem_after.contains(
                #[trigger] used_after[q][i],
            ),
{
    if polys_after != polys || used_after != used_before {
        let n = polys.len() as int;
        assert forall|q: int| 0 <= q < polys_after.len() implies #[trigger] used_after[q].len() == polys_after[q]@.len() - 1 by {
            if q < n {
                assert(polys_after[q] == polys[q]);
                assert(used_after[q] == used_before[q]);
            }
        }
        assert forall|q: int, i: int|
            0 <= q < used_after.len() && 0 <= i < used_after[q].len() implies segs.contains(#[trigger] used_after[q][i])
                && step_follows(polys_after[q]@, i, used_after[q][i]) by {
            if q < n {
                assert(polys_after[q] == polys[q]);
                assert(used_after[q] == used_before[q]);
            } else {
                assert(used_after[q] == used);
                assert(step_follows(polys_after.last()@, i, used[i]));
            }
        }
        assert forall|q: int, i: int, r: int, j: int|
            0 <= q < used_after.len() && 0 <= i < used_after[q].len() && 0 <= r < used_after.len() && 0 <= j
                < used_after[r].len() && (q != r || i != j) implies #[trigger] used_after[q][i]
                != #[trigger] used_after[r][j] by {
            if q < n && r < n {
                assert(used_after[q] == used_before[q] && used_after[r] == used_before[r]);
            } else if q < n {
                assert(used_after[q] == used_before[q] && used_after[r] == used);
                assert(rem.contains(used[j]));
            } else if r < n {
                assert(used_after[r] == used_before[r] && used_after[q] == used);
                assert(rem.contains(used[i]));
            } else {
                assert(used_after[q] == used && used_after[r] == used);
            }
        }
        assert forall|q: int, i: int|
            0 <= q < used_after.len() && 0 <= i < used_after[q].len() implies !rem_after.contains(
                #[trigger] used_after[q][i],
            ) by {
            if q < n {
                assert(used_after[q] == used_before[q]);
            } else {
                assert(used_after[q] == used);
            }
        }
    }
}

/// Whether a layer with regions has been met yet, and which regions of the
/// last such layer are supported.
pub type SupportState = (bool, Seq<bool>);

/// Support of the regions of one layer, given the state left by the layers
/// below: in the first layer with regions a region is supported exactly when
/// the model touches the build plate; above it, exactly when it overlaps a
/// supported region of the nearest layer below that has regions.
/// `overlaps[r][q]` tells whether region `r` overlaps region `q` of that
/// layer; a missing entry counts as no overlap.
pub open spec fn layer_support(touches_plate: bool, state: SupportState, overlaps: Seq<Vec<bool>>) -> Seq<bool> {
    Seq::new(
        overlaps.len(),
        |r: int|
            if !state.0 {
                touches_plate
            } else {
                exists|q: int|
                    0 <= q < state.1.len() && q < overlaps[r]@.len() && state.1[q] && #[trigger] overlaps[r]@[q]
            },
    )
}

/// The state after the first `l` layers; layers without regions change
/// nothing.
pub open spec fn support_state(touches_plate: bool, layers: Seq<Vec<Vec<bool>>>, l: int) -> SupportState
    decreases l,
{
    if l <= 0 {
        (false, Seq::empty())
    } else {
        let below = support_state(touches_plate, layers, l - 1);
        if layers[l - 1]@.len() == 0 {
            below
        } else {
            (true, layer_support(touches_plate, below, layers[l - 1]@))
        }
    }
}

/// Region `r` of layer `l` is supported.
pub open spec fn region_supported(touches_plate: bool, layers: Seq<Vec<Vec<bool>>>, l: int, r: int) -> bool {
    layer_support(touches_plate, support_state(touches_plate, layers, l), layers[l]@)[r]
}

proof fn lemma_floating_state(layers: Seq<Vec<Vec<bool>>>, m: int)
    requires
        0 <= m <= layers.len(),
    ensures
        forall|q: int|
            0 <= q < support_state(false, layers, m).1.len() ==> !#[trigger] support_state(
                false,
                layers,
                m,
            ).1[q],
    decreases m,
{
    if m > 0 {
        lemma_floating_state(layers, m - 1);
        let below = support_state(false, layers, m - 1);
        if layers[m - 1]@.len() > 0 {
            let now = layer_support(false, below, layers[m - 1]@);
            assert forall|q: int| 0 <= q < now.len() implies !now[q] by {
                if below.0 {
                    if now[q] {
                        let k = choose|k: int|
                            0 <= k < below.1.len() && k < layers[m - 1]@[q]@.len() && below.1[k]
                                && #[trigger] layers[m - 1]@[q]@[k];
                    }
                }
            }
        }
    }
}

/// A model that does not touch the build plate has no supported region at
/// all: every region of every layer is an island.
pub proof fn lemma_floating_model_is_all_islands(layers: Seq<Vec<Vec<bool>>>, l: int, r: int)
    requires
        0 <= l < layers.len(),
        0 <= r < layers[l]@.len(),
    ensures
        !region_supported(false, layers, l, r),
{
    lemma_floating_state(layers, l);
}

/// In the lowest layer that has regions, the regions are supported exactly
/// when the model touches the build plate.
pub proof fn lemma_lowest_layer_rests_on_plate(
    touches_plate: bool,
    layers: Seq<Vec<Vec<bool>>>,
    l: int,
    r: int,
)
    requires
        0 <= l < layers.len(),
        0 <= r < layers[l]@.len(),
        forall|k: int| 0 <= k < l ==> #[trigger] layers[k]@.len() == 0,
    ensures
        region_supported(touches_plate, layers, l, r) == touches_plate,
{
    lemma_state_before_regions(touches_plate, layers, l);
}

proof fn lemma_state_before_regions(touches_plate: bool, layers: Seq<Vec<Vec<bool>>>, m: int)
    requires
        0 <= m <= layers.len(),
        forall|k: int| 0 <= k < m ==> #[trigger] layers[k]@.len() == 0,
    ensures
        !support_state(touches_plate, layers, m).0,
    decreases m,
{
    if m > 0 {
        lemma_state_before_regions(touches_plate, layers, m - 1);
    }
}

/// The nearest layer below layer `l` that has regions, or -1 if there is
/// none.
pub open spec fn layer_below(layers: Seq<Vec<Vec<bool>>>, l: int) -> int
    decreases l,
{
    if l <= 0 {
        -1
    } else if layers[l - 1]@.len() > 0 {
        l - 1
    } else {
        layer_below(layers, l - 1)
    }
}

/// Region `upper.1` of layer `upper.0` overlaps region `lower.1` of the
/// layer below it that the overlaps refer to.
pub open spec fn rests_on(layers: Seq<Vec<Vec<bool>>>, upper: (int, int), lower: (int, int)) -> bool {
    lower.1 < layers[upper.0]@[upper.1]@.len() && layers[upper.0]@[upper.1]@[lower.1]
}

/// `chain` climbs, one layer with regions at a time, from a region of the
/// lowest layer that has regions up to region `r` of layer `l`; each entry
/// is a (layer, region) pair resting on the entry before it.
pub open spec fn is_support_chain(layers: Seq<Vec<Vec<bool>>>, chain: Seq<(int, int)>, l: int, r: int) -> bool {
    &&& chain.len() > 0
    &&& chain.last() == (l, r)
    &&& layer_below(layers, chain[0].0) < 0
    &&& forall|i: int|
        0 <= i < chain.len() ==> 0 <= (#[trigger] chain[i]).0 < layers.len() && 0 <= chain[i].1
            < layers[chain[i].0]@.len()
    &&& forall|i: int|
        #![trigger chain[i]]
        0 <= i < chain.len() - 1 ==> chain[i].0 == layer_below(layers, chain[i + 1].0) && rests_on(
            layers,
            chain[i + 1],
            chain[i],
        )
}

proof fn lemma_layer_below_range(layers: Seq<Vec<Vec<bool>>>, l: int)
    ensures
        -1 <= layer_below(layers, l) < l || (l <= 0 && layer_below(layers, l) == -1),
        layer_below(layers, l) >= 0 ==> layers[layer_below(layers, l)]@.len() > 0,
    decreases l,
{
    if l > 0 {
        lemma_layer_below_range(layers, l - 1);
    }
}

proof fn lemma_state_from_below(touches_plate: bool, layers: Seq<Vec<Vec<bool>>>, l: int)
    requires
        0 <= l <= layers.len(),
    ensures
        ({
            let b = layer_below(layers, l);
            if b < 0 {
                support_state(touches_plate, layers, l) == (false, Seq::<bool>::empty())
            } else {
                support_state(touches_plate, layers, l) == (
                    true,
                    layer_support(touches_plate, support_state(touches_plate, layers, b), layers[b]@),
                )
            }
        }),
    decreases l,
{
    if l > 0 && layers[l - 1]@.len() == 0 {
        lemma_state_from_below(touches_plate, layers, l - 1);
    }
}

proof fn lemma_supported_from_below(touches_plate: bool, layers: Seq<Vec<Vec<bool>>>, l: int, r: int)
    requires
        0 <= l < layers.len(),
        0 <= r < layers[l]@.len(),
    ensures
        ({
            let b = layer_below(layers, l);
            region_supported(touches_plate, layers, l, r) == if b < 0 {
                touches_plate
            } else {
                exists|q: int|
                    0 <= q < layers[b]@.len() && #[trigger] rests_on(layers, (l, r), (b, q))
                        && region_supported(touches_plate, layers, b, q)
            }
        }),
{
    lemma_state_from_below(touches_plate, layers, l);
    lemma_layer_below_range(layers, l);
    let b = layer_below(layers, l);
    if b >= 0 {
        let state = support_state(touches_plate, layers, l);
        let below = layer_support(touches_plate, support_state(touches_plate, layers, b), layers[b]@);
        assert(state.1 == below);
        if region_supported(touches_plate, layers, l, r) {
            let q = choose|q: int|
                0 <= q < state.1.len() && q < layers[l]@[r]@.len() && state.1[q]
                    && #[trigger] layers[l]@[r]@[q];
            assert(rests_on(layers, (l, r), (b, q)));
        }
        if exists|q: int|
            0 <= q < layers[b]@.len() && #[trigger] rests_on(layers, (l, r), (b, q))
                && region_supported(touches_plate, layers, b, q) {
            let q = choose|q: int|
                0 <= q < layers[b]@.len() && #[trigger] rests_on(layers, (l, r), (b, q))
                    && region_supported(touches_plate, layers, b, q);
            assert(state.1[q] && layers[l]@[r]@[q]);
        }
    }
}

proof fn lemma_chain_supports(touches_plate: bool, layers: Seq<Vec<Vec<bool>>>, chain: Seq<(int, int)>, l: int, r: int)
    requires
        touches_plate,
        is_support_chain(layers, chain, l, r),
    ensures
        region_supported(touches_plate, layers, l, r),
    decreases chain.len(),
{
    assert(0 <= chain.last().0 < layers.len());
    lemma_supported_from_below(touches_plate, layers, l, r);
    if chain.len() > 1 {
        let prev = chain.drop_last();
        let lower = chain[chain.len() - 2];
        assert(lower == prev.last());
        assert(is_support_chain(layers, prev, lower.0, lower.1)) by {
            assert forall|i: int| #![trigger prev[i]] 0 <= i < prev.len() - 1 implies prev[i].0 == layer_below(
                layers,
                prev[i + 1].0,
            ) && rests_on(layers, prev[i + 1], prev[i]) by {
                assert(prev[i] == chain[i] && prev[i + 1] == chain[i + 1]);
            }
        }
        lemma_chain_supports(touches_plate, layers, prev, lower.0, lower.1);
        assert(lower.0 == layer_below(layers, l) && rests_on(layers, (l, r), lower));
    }
}

proof fn lemma_supported_has_chain(touches_plate: bool, layers: Seq<Vec<Vec<bool>>>, l: int, r: int) -> (chain: Seq<(int, int)>)
    requires
        0 <= l < layers.len(),
        0 <= r < layers[l]@.len(),
        region_supported(touches_plate, layers, l, r),
    ensures
        touches_plate,
        is_support_chain(layers, chain, l, r),
    decreases l,
{
    lemma_supported_from_below(touches_plate, layers, l, r);
    lemma_layer_below_range(layers, l);
    let b = layer_below(layers, l);
    if b < 0 {
        seq![(l, r)]
    } else {
        let q = choose|q: int|
            0 <= q < layers[b]@.len() && #[trigger] rests_on(layers, (l, r), (b, q))
                && region_supported(touches_plate, layers, b, q);
        let lower = lemma_supported_has_chain(touches_plate, layers, b, q);
        let chain = lower.push((l, r));
        assert(is_support_chain(layers, chain, l, r)) by {
            assert(chain[0] == lower[0]);
            assert forall|i: int| 0 <= i < chain.len() implies 0 <= (#[trigger] chain[i]).0 < layers.len()
                && 0 <= chain[i].1 < layers[chain[i].0]@.len() by {
                if i < lower.len() {
                    assert(chain[i] == lower[i]);
                }
            }
            assert forall|i: int| #![trigger chain[i]] 0 <= i < chain.len() - 1 implies chain[i].0 == layer_below(
                layers,
                chain[i + 1].0,
            ) && rests_on(layers, chain[i + 1], chain[i]) by {
                if i < lower.len() - 1 {
                    assert(chain[i] == lower[i] && chain[i + 1] == lower[i + 1]);
                } else {
                    assert(chain[i] == lower.last());
                    assert(lower.last() == (b, q));
                }
            }
        }
        chain
    }
}

/// A region is supported exactly when the model touches the build plate and
/// a chain of overlapping regions, one in each layer with regions, leads
/// down from it to the lowest layer that has regions: the regions reported
/// as islands are those with no such path to the build plate.
pub proof fn lemma_supported_iff_chain_to_plate(
    touches_plate: bool,
    layers: Seq<Vec<Vec<bool>>>,
    l: int,
    r: int,
)
    requires
        0 <= l < layers.len(),
        0 <= r < layers[l]@.len(),
    ensures
        region_supported(touches_plate, layers, l, r) <==> (touches_plate && exists|chain: Seq<(int, int)>|
            #[trigger] is_support_chain(layers, chain, l, r)),
{
    if region_supported(touches_plate, layers, l, r) {
        let chain = lemma_supported_has_chain(touches_plate, layers, l, r);
        assert(is_support_chain(layers, chain, l, r));
    }
    if touches_plate && exists|chain: Seq<(int, int)>| #[trigger] is_support_chain(layers, chain, l, r) {
        let chain = choose|chain: Seq<(int, int)>| #[trigger] is_support_chain(layers, chain, l, r);
        lemma_chain_supports(touches_plate, layers, chain, l, r);
    }
}

/// A layer holding regions that nothing below supports.
pub struct IslandLayerPlan {
    /// The index of the layer.
    pub layer_index: usize,
    /// Its unsupported regions, in increasing order.
    pub unsupported: Vec<usize>,
}

/// Some region of layer `l` is not supported.
pub open spec fn layer_has_island(touches_plate: bool, layers: Seq<Vec<Vec<bool>>>, l: int) -> bool {
    exists|r: int| 0 <= r < layers[l]@.len() && !#[trigger] region_supported(touches_plate, layers, l, r)
}

/// Layer `l` appears in `plan`.
pub open spec fn plan_lists_layer(plan: Seq<IslandLayerPlan>, l: int) -> bool {
    exists|i: int| 0 <= i < plan.len() && #[trigger] plan[i].layer_index == l
}

/// `plan` lists, in increasing layer order, exactly the layers with an
/// unsupported region, each with exactly its unsupported regions in
/// increasing order.
pub open spec fn is_island_plan(
    touches_plate: bool,
    layers: Seq<Vec<Vec<bool>>>,
    plan: Seq<IslandLayerPlan>,
) -> bool {
    is_island_plan_upto(touches_plate, layers, plan, layers.len() as int)
}

/// `is_island_plan` for the layers below `upto`.
pub open spec fn is_island_plan_upto(
    touches_plate: bool,
    layers: Seq<Vec<Vec<bool>>>,
    plan: Seq<IslandLayerPlan>,
    upto: int,
) -> bool {
    &&& forall|i: int, j: int|
        0 <= i < j < plan.len() ==> #[trigger] plan[i].layer_index < #[trigger] plan[j].layer_index
    &&& forall|i: int| 0 <= i < plan.len() ==> #[trigger] plan[i].layer_index < upto
    &&& forall|i: int, a: int, b: int|
        0 <= i < plan.len() && 0 <= a < b < plan[i].unsupported@.len() ==> #[trigger] plan[i].unsupported@[a]
            < #[trigger] plan[i].unsupported@[b]
    &&& forall|i: int, r: usize|
        0 <= i < plan.len() ==> (#[trigger] plan[i].unsupported@.contains(r) <==> (r
            < layers[plan[i].layer_index as int]@.len() && !region_supported(
            touches_plate,
            layers,
            plan[i].layer_index as int,
            r as int,
        )))
    &&& forall|l: int|
        0 <= l < upto ==> (#[trigger] layer_has_island(touches_plate, layers, l) <==> plan_lists_layer(
            plan,
            l,
        ))
}

/// Layers without regions hold no islands: when no layer has a region, the
/// plan lists no layer.
pub proof fn lemma_no_regions_no_islands(
    touches_plate: bool,
    layers: Seq<Vec<Vec<bool>>>,
    plan: Seq<IslandLayerPlan>,
)
    requires
        is_island_plan(touches_plate, layers, plan),
        forall|l: int| 0 <= l < layers.len() ==> #[trigger] layers[l]@.len() == 0,
    ensures
        plan.len() == 0,
{
    if plan.len() > 0 {
        let l = plan[0].layer_index as int;
        assert(plan_lists_layer(plan, l));
        assert(layers[l]@.len() == 0);
        assert(!layer_has_island(touches_plate, layers, l));
    }
}

/// Walks the layers from the bottom up and reports the regions that rest on
/// nothing: `layers[l][r][q]` tells whether region `r` of layer `l` overlaps
/// region `q` of the nearest layer below `l` that has regions.
pub fn classify_island_layers(touches_plate: bool, layers: &[Vec<Vec<bool>>]) -> (plan: Vec<IslandLayerPlan>)
    ensures
        is_island_plan(touches_plate, layers@, plan@),
{
    let ghost ls = layers@;
    let mut seen_non_empty = false;
    let mut previous_supported: Vec<bool> = Vec::new();
    let mut islands: Vec<IslandLayerPlan> = Vec::new();
    let mut l: usize = 0;
    while l < layers.len()
        invariant
            ls == layers@,
            0 <= l <= layers.len(),
            support_state(touches_plate, ls, l as int) == (seen_non_empty, previous_supported@),
            is_island_plan_upto(touches_plate, ls, islands@, l as int),
        decreases layers.len() - l,
    {
        let rows = &layers[l];
        let ghost state = (seen_non_empty, previous_supported@);
        let ghost expected = layer_support(touches_plate, state, rows@);
        let mut supported: Vec<bool> = Vec::new();
        let mut unsupported: Vec<usize> = Vec::new();
        let mut r: usize = 0;
        while r < rows.len()
            invariant
                0 <= r <= rows.len(),
                expected == layer_support(touches_plate, state, rows@),
                state == (seen_non_empty, previous_supported@),
                supported@ == expected.take(r as int),
                forall|a: int, b: int| 0 <= a < b < unsupported@.len() ==> unsupported@[a] < unsupported@[b],
                forall|x: usize| #[trigger] unsupported@.contains(x) <==> (x < r && !expected[x as int]),
            decreases rows.len() - r,
        {
            let row = &rows[r];
            let mut is_supported = touches_plate;
            if seen_non_empty {
                is_supported = false;
                let mut q: usize = 0;
                while q < previous_supported.len()
                    invariant
                        0 <= q <= previous_supported.len(),
                        is_supported <==> exists|k: int|
                            0 <= k < q && k < row@.len() && previous_supported@[k] && #[trigger] row@[k],
                    decreases previous_supported.len() - q,
                {
                    if q < row.len() && previous_supported[q] && row[q] {
                        is_supported = true;
                    }
                    q += 1;
                }
            }
            assert(is_supported == expected[r as int]);
            supported.push(is_supported);
            assert(supported@ == expected.take(r + 1));
            if !is_supported {
                let ghost before = unsupported@;
                unsupported.push(r);
                assert forall|x: usize| #[trigger] unsupported@.contains(x) <==> (x < r + 1
                    && !expected[x as int]) by {
                    if unsupported@.contains(x) && x != r {
                        let k = choose|k: int| 0 <= k < unsupported@.len() && unsupported@[k] == x;
                        assert(before[k] == x);
                    }
                    if x == r {
                        assert(unsupported@[before.len() as int] == x);
                    }
                    if before.contains(x) {
                        let k = choose|k: int| 0 <= k < before.len() && before[k] == x;
                        assert(unsupported@[k] == x);
                    }
                }
                assert forall|a: int, b: int| 0 <= a < b < unsupported@.len() implies unsupported@[a]
                    < unsupported@[b] by {
                    if b == before.len() {
                        assert(before.contains(unsupported@[a]));
                    }
                }
            }
            r += 1;
        }
        assert(supported@ == expected);
        assert(rows@ == ls[l as int]@);
        assert forall|x: int| 0 <= x < rows@.len() implies region_supported(touches_plate, ls, l as int, x)
            == expected[x] by {}
        let ghost before = islands@;
        if rows.len() > 0 {
            seen_non_empty = true;
            previous_supported = supported;
            if unsupported.len() > 0 {
                let ghost u = unsupported@;
                islands.push(IslandLayerPlan { layer_index: l, unsupported });
                proof {
                    assert(islands@[before.len() as int].layer_index == l);
                    assert(islands@[before.len() as int].unsupported@ == u);
                    assert(u.contains(u[0]));
                    assert(!region_supported(touches_plate, ls, l as int, u[0] as int));
                    assert(layer_has_island(touches_plate, ls, l as int));
                    assert(plan_lists_layer(islands@, l as int));
                    assert forall|ll: int| 0 <= ll < l + 1 implies (#[trigger] layer_has_island(
                        touches_plate,
                        ls,
                        ll,
                    ) <==> plan_lists_layer(islands@, ll)) by {
                        if ll < l {
                            if plan_lists_layer(islands@, ll) {
                                let i = choose|i: int|
                                    0 <= i < islands@.len() && #[trigger] islands@[i].layer_index == ll;
                                assert(before[i] == islands@[i]);
                            }
                            if plan_lists_layer(before, ll) {
                                let i = choose|i: int|
                                    0 <= i < before.len() && #[trigger] before[i].layer_index == ll;
                                assert(before[i] == islands@[i]);
                            }
                        }
                    }
                    assert forall|i: int, r: usize|
                        0 <= i < islands@.len() implies (#[trigger] islands@[i].unsupported@.contains(r)
                        <==> (r < ls[islands@[i].layer_index as int]@.len() && !region_supported(
                        touches_plate,
                        ls,
                        islands@[i].layer_index as int,
                        r as int,
                    ))) by {
                        if i < before.len() {
                            assert(before[i] == islands@[i]);
                        }
                    }
                }
            } else {
                proof {
                    assert(!layer_has_island(touches_plate, ls, l as int)) by {
                        if layer_has_island(touches_plate, ls, l as int) {
                            let r = choose|r: int|
                                0 <= r < ls[l as int]@.len() && !#[trigger] region_supported(
                                    touches_plate,
                                    ls,
                                    l as int,
                                    r,
                                );
                            assert(unsupported@.contains(r as usize));
                        }
                    }
                }
            }
        }
        l += 1;
    }
    islands
}

} // verus!
