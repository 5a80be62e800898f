//! Value types of the layout engine: rectangular zones, final window
//! placements, and the predicates that say what a well-formed tiling is.

use vstd::prelude::*;

verus! {

/// Largest magnitude a work-area coordinate may have. Keeping every
/// coordinate inside this bound keeps all the arithmetic of the crate
/// far away from `i32` overflow.
pub const COORD_LIMIT: i32 = 0x10_0000;

/// Invisible-border compensation: the OS draws a shadow margin of this
/// many pixels around the left, right and bottom sides of a window, so
/// placements are widened by it to make windows visually flush.
pub const BORDER_COMPENSATION: i32 = 7;

/// A rectangular region of a monitor work-area, half-open on the right
/// and bottom edges: the points (x, y) with `left <= x < right` and
/// `top <= y < bottom`.
#[derive(Clone, Copy, Debug, PartialEq, Eq, Structural)]
pub struct Zone {
    pub left: i32,
    pub top: i32,
    pub right: i32,
    pub bottom: i32,
}

/// The exact arguments of one OS reposition call: origin and extent.
#[derive(Clone, Copy, Debug, PartialEq, Eq, Structural)]
pub struct Position {
    pub x: i32,
    pub y: i32,
    pub cx: i32,
    pub cy: i32,
}

/// Axis of a repeated split.
#[derive(Clone, Copy, Debug, PartialEq, Eq, Structural)]
pub enum Direction {
    Horizontal,
    Vertical,
}

/// A single cut through a zone at an absolute coordinate: a horizontal
/// cut at a y value, or a vertical cut at an x value.
#[derive(Clone, Copy, Debug, PartialEq, Eq, Structural)]
pub enum SplitDirection {
    Horizontal(i32),
    Vertical(i32),
}

impl Zone {
    /// Ordered edges and coordinates within `COORD_LIMIT`.
    pub open spec fn wf(self) -> bool {
        &&& -COORD_LIMIT <= self.left <= self.right <= COORD_LIMIT
        &&& -COORD_LIMIT <= self.top <= self.bottom <= COORD_LIMIT
    }

    pub open spec fn spec_w(self) -> int {
        self.right - self.left
    }

    pub open spec fn spec_h(self) -> int {
        self.bottom - self.top
    }

    /// Width of the zone.
    pub fn w(&self) -> (r: i32)
        requires
            self.wf(),
        ensures
            r == self.spec_w(),
    {
        self.right - self.left
    }

    /// Height of the zone.
    pub fn h(&self) -> (r: i32)
        requires
            self.wf(),
        ensures
            r == self.spec_h(),
    {
        self.bottom - self.top
    }
}

/// The point (x, y) lies in the half-open rectangle `z`.
pub open spec fn pt_in(z: Zone, x: int, y: int) -> bool {
    z.left <= x < z.right && z.top <= y < z.bottom
}

/// The box of `inner` lies inside the box of `outer`, edge by edge.
pub open spec fn zone_in_box(inner: Zone, outer: Zone) -> bool {
    &&& outer.left <= inner.left
    &&& inner.right <= outer.right
    &&& outer.top <= inner.top
    &&& inner.bottom <= outer.bottom
}

/// No point lies in both zones.
pub open spec fn two_disjoint(a: Zone, b: Zone) -> bool {
    forall|x: int, y: int| !(#[trigger] pt_in(a, x, y) && #[trigger] pt_in(b, x, y))
}

/// No point lies in two distinct zones of the tiling.
pub open spec fn tiling_disjoint(t: Seq<Zone>) -> bool {
    forall|i: int, j: int|
        0 <= i < j < t.len() ==> two_disjoint(#[trigger] t[i], #[trigger] t[j])
}

/// Every point of the monitor work-area lies in some zone.
pub open spec fn tiling_covers(mon: Zone, t: Seq<Zone>) -> bool {
    forall|x: int, y: int| #[trigger]
        pt_in(mon, x, y) ==> exists|i: int| 0 <= i < t.len() && pt_in(#[trigger] t[i], x, y)
}

/// Every zone of the tiling is well-formed and boxed inside the monitor.
pub open spec fn tiling_boxed(mon: Zone, t: Seq<Zone>) -> bool {
    forall|i: int| 0 <= i < t.len() ==> (#[trigger] t[i]).wf() && zone_in_box(t[i], mon)
}

/// A well-formed tiling of the monitor work-area: zones inside the
/// monitor, pairwise disjoint, together covering every point of it.
pub open spec fn tiling_wf(mon: Zone, t: Seq<Zone>) -> bool {
    &&& tiling_boxed(mon, t)
    &&& tiling_disjoint(t)
    &&& tiling_covers(mon, t)
}

/// Bounded, non-negative padding values.
pub open spec fn padding_wf(window_padding: int, edge_padding: int) -> bool {
    &&& 0 <= window_padding <= COORD_LIMIT
    &&& 0 <= edge_padding <= COORD_LIMIT
}

/// x of the placement of `z`: pulled left by the border compensation,
/// then padded; the edge padding replaces the window padding on a zone
/// edge that coincides with the monitor edge.
pub open spec fn pos_x(z: Zone, mon: Zone, wp: int, ep: int) -> int {
    z.left - BORDER_COMPENSATION + (if z.left == mon.left {
        ep
    } else {
        wp
    })
}

/// y of the placement of `z`; the top edge carries no compensation.
pub open spec fn pos_y(z: Zone, mon: Zone, wp: int, ep: int) -> int {
    z.top + (if z.top == mon.top {
        ep
    } else {
        wp
    })
}

/// Width of the placement of `z`.
pub open spec fn pos_cx(z: Zone, mon: Zone, wp: int, ep: int) -> int {
    z.spec_w() + 2 * BORDER_COMPENSATION - (if z.left == mon.left {
        ep
    } else {
        wp
    }) - (if z.right == mon.right {
        ep
    } else {
        wp
    })
}

/// Height of the placement of `z`.
pub open spec fn pos_cy(z: Zone, mon: Zone, wp: int, ep: int) -> int {
    z.spec_h() + BORDER_COMPENSATION - (if z.top == mon.top {
        ep
    } else {
        wp
    }) - (if z.bottom == mon.bottom {
        ep
    } else {
        wp
    })
}

/// `p` is exactly the placement of zone `z` under the given paddings.
pub open spec fn position_of(p: Position, z: Zone, mon: Zone, wp: int, ep: int) -> bool {
    &&& p.x == pos_x(z, mon, wp, ep)
    &&& p.y == pos_y(z, mon, wp, ep)
    &&& p.cx == pos_cx(z, mon, wp, ep)
    &&& p.cy == pos_cy(z, mon, wp, ep)
}

/// With both paddings zero the placement is the zone itself, shifted
/// and widened only by the fixed border compensation.
pub proof fn lemma_zero_padding_position(p: Position, z: Zone, mon: Zone)
    requires
        position_of(p, z, mon, 0, 0),
    ensures
        p.x == z.left - BORDER_COMPENSATION,
        p.y == z.top,
        p.cx == z.spec_w() + 2 * BORDER_COMPENSATION,
        p.cy == z.spec_h() + BORDER_COMPENSATION,
{
}

/// The sequence with the entries at `i` and `j` exchanged.
pub open spec fn seq_swap<A>(s: Seq<A>, i: int, j: int) -> Seq<A> {
    s.update(i, s[j]).update(j, s[i])
}

/// Exchanging two entries twice restores the sequence.
pub proof fn lemma_seq_swap_involution<A>(s: Seq<A>, i: int, j: int)
    requires
        0 <= i < s.len(),
        0 <= j < s.len(),
    ensures
        seq_swap(seq_swap(s, i, j), i, j) == s,
{
    assert(seq_swap(seq_swap(s, i, j), i, j) =~= s);
}

/// The cut coordinate lies inside the zone being split.
pub open spec fn split_at_ok(z: Zone, d: SplitDirection) -> bool {
    match d {
        SplitDirection::Horizontal(at) => z.top <= at <= z.bottom,
        SplitDirection::Vertical(at) => z.left <= at <= z.right,
    }
}

/// What remains of a zone after the cut: the half that keeps the
/// cut-end farther from the nearer boundary.
pub open spec fn split_zone_rest(z: Zone, d: SplitDirection) -> Zone {
    match d {
        SplitDirection::Horizontal(at) => if at - z.top < z.spec_h() / 2 {
            Zone { top: at, ..z }
        } else {
            Zone { bottom: at, ..z }
        },
        SplitDirection::Vertical(at) => if at - z.left < z.spec_w() / 2 {
            Zone { left: at, ..z }
        } else {
            Zone { right: at, ..z }
        },
    }
}

/// The new zone produced by the cut: the complement of the remainder.
pub open spec fn split_zone_new(z: Zone, d: SplitDirection) -> Zone {
    match d {
        SplitDirection::Horizontal(at) => if at - z.top < z.spec_h() / 2 {
            Zone { bottom: at, ..z }
        } else {
            Zone { top: at, ..z }
        },
        SplitDirection::Vertical(at) => if at - z.left < z.spec_w() / 2 {
            Zone { right: at, ..z }
        } else {
            Zone { left: at, ..z }
        },
    }
}

/// The tiling after cutting zone `j`: the remainder replaces it, the
/// new zone is appended at the end.
pub open spec fn split_tiling(t: Seq<Zone>, j: int, d: SplitDirection) -> Seq<Zone> {
    t.update(j, split_zone_rest(t[j], d)).push(split_zone_new(t[j], d))
}

/// The two halves of a cut partition the zone: every point of the zone
/// lies in exactly one of them, and both stay inside its box.
pub proof fn lemma_split_zone_partition(z: Zone, d: SplitDirection)
    requires
        z.wf(),
        split_at_ok(z, d),
    ensures
        forall|x: int, y: int|
            #[trigger] pt_in(z, x, y) <==> (pt_in(split_zone_rest(z, d), x, y) || pt_in(
                split_zone_new(z, d),
                x,
                y,
            )),
        two_disjoint(split_zone_rest(z, d), split_zone_new(z, d)),
        split_zone_rest(z, d).wf(),
        split_zone_new(z, d).wf(),
        zone_in_box(split_zone_rest(z, d), z),
        zone_in_box(split_zone_new(z, d), z),
{
}

/// Cutting one zone of a well-formed tiling yields a well-formed
/// tiling with one more zone.
pub proof fn lemma_split_tiling_wf(mon: Zone, t: Seq<Zone>, j: int, d: SplitDirection)
    requires
        tiling_wf(mon, t),
        0 <= j < t.len(),
        split_at_ok(t[j], d),
    ensures
        tiling_wf(mon, split_tiling(t, j, d)),
        split_tiling(t, j, d).len() == t.len() + 1,
{
    let t2 = split_tiling(t, j, d);
    let z = t[j];
    let rest = split_zone_rest(z, d);
    let nz = split_zone_new(z, d);
    let n = t.len() as int;
    lemma_split_zone_partition(z, d);
    assert(t2[j] == rest && t2[n] == nz);
    assert forall|i: int| 0 <= i < t2.len() implies (#[trigger] t2[i]).wf() && zone_in_box(
        t2[i],
        mon,
    ) by {
        if i != j && i != n {
            assert(t2[i] == t[i]);
        }
    }
    assert forall|x: int, y: int| #[trigger] pt_in(mon, x, y) implies exists|i: int|
        0 <= i < t2.len() && pt_in(#[trigger] t2[i], x, y) by {
        let i0 = choose|i: int| 0 <= i < t.len() && pt_in(#[trigger] t[i], x, y);
        if i0 == j {
            if pt_in(rest, x, y) {
                assert(pt_in(t2[j], x, y));
            } else {
                assert(pt_in(t2[n], x, y));
            }
        } else {
            assert(pt_in(t2[i0], x, y));
        }
    }
    assert forall|i: int, k: int| 0 <= i < k < t2.len() implies two_disjoint(
        #[trigger] t2[i],
        #[trigger] t2[k],
    ) by {
        // Map each zone of the new tiling to the zone of the old one
        // that contains it pointwise.
        let si = if i == n { j } else { i };
        let sk = if k == n { j } else { k };
        assert forall|x: int, y: int|
            !(#[trigger] pt_in(t2[i], x, y) && #[trigger] pt_in(t2[k], x, y)) by {
            if pt_in(t2[i], x, y) && pt_in(t2[k], x, y) {
                assert(pt_in(t[si], x, y));
                assert(pt_in(t[sk], x, y));
                if si == sk {
                    // Then one is the remainder and the other the new
                    // zone of the same cut: they are disjoint.
                    assert(i == j && k == n);
                    assert(pt_in(rest, x, y) && pt_in(nz, x, y));
                } else {
                    assert(two_disjoint(t[if si < sk {
                        si
                    } else {
                        sk
                    }], t[if si < sk {
                        sk
                    } else {
                        si
                    }]));
                }
            }
        }
    }
}

/// Exchanging two zones of a well-formed tiling keeps it well-formed.
pub proof fn lemma_swap_tiling_wf(mon: Zone, t: Seq<Zone>, a: int, b: int)
    requires
        tiling_wf(mon, t),
        0 <= a < t.len(),
        0 <= b < t.len(),
    ensures
        tiling_wf(mon, seq_swap(t, a, b)),
{
    let t2 = seq_swap(t, a, b);
    assert forall|i: int| 0 <= i < t2.len() implies (#[trigger] t2[i]).wf() && zone_in_box(
        t2[i],
        mon,
    ) by {
        if i == b {
            assert(t2[i] == t[a]);
        } else if i == a {
            assert(t2[i] == t[b]);
        } else {
            assert(t2[i] == t[i]);
        }
    }
    assert forall|x: int, y: int| #[trigger] pt_in(mon, x, y) implies exists|i: int|
        0 <= i < t2.len() && pt_in(#[trigger] t2[i], x, y) by {
        let i0 = choose|i: int| 0 <= i < t.len() && pt_in(#[trigger] t[i], x, y);
        let i2 = if i0 == a { b } else if i0 == b { a } else { i0 };
        if i0 == a {
            assert(t2[b] == t[a]);
        } else if i0 == b {
            assert(t2[a] == t[b]);
        } else {
            assert(t2[i0] == t[i0]);
        }
        assert(pt_in(t2[i2], x, y));
    }
    assert forall|i: int, k: int| 0 <= i < k < t2.len() implies two_disjoint(
        #[trigger] t2[i],
        #[trigger] t2[k],
    ) by {
        let si = if i == a { b } else if i == b { a } else { i };
        let sk = if k == a { b } else if k == b { a } else { k };
        assert(t2[i] == t[si] && t2[k] == t[sk]);
        assert(two_disjoint(t[if si < sk {
            si
        } else {
            sk
        }], t[if si < sk {
            sk
        } else {
            si
        }]));
        assert forall|x: int, y: int|
            !(#[trigger] pt_in(t2[i], x, y) && #[trigger] pt_in(t2[k], x, y)) by {}
    }
}

/// Two zones share a full edge: equal left and right sides with one
/// atop the other, or equal top and bottom sides with one beside the
/// other.
pub open spec fn zones_mergeable(a: Zone, b: Zone) -> bool {
    (a.left == b.left && a.right == b.right && (a.bottom == b.top || a.top == b.bottom)) || (a.top
        == b.top && a.bottom == b.bottom && (a.right == b.left || a.left == b.right))
}

/// What merging `a` toward `b` yields, exactly as the editing
/// operation decides it: `a` is extended over `b` when the two share a
/// full edge, in the order the operation tests the edges.
pub open spec fn merge_result(a: Zone, b: Zone) -> Option<Zone> {
    if a.left == b.left && a.right == b.right {
        if a.bottom == b.top {
            Some(Zone { bottom: b.bottom, ..a })
        } else if a.top == b.bottom {
            Some(Zone { top: b.top, ..a })
        } else {
            None
        }
    } else if a.top == b.top && a.bottom == b.bottom {
        if a.right == b.left {
            Some(Zone { right: b.right, ..a })
        } else if a.left == b.right {
            Some(Zone { left: b.left, ..a })
        } else {
            None
        }
    } else {
        None
    }
}

/// The tiling after merging zones `j` and `k` (distinct): when the two
/// can merge, the lower-indexed one is extended over the other and the
/// higher-indexed one is removed; otherwise nothing changes.
pub open spec fn merge_tiling(t: Seq<Zone>, j: int, k: int) -> Seq<Zone> {
    let f = if j < k {
        j
    } else {
        k
    };
    let s = if j < k {
        k
    } else {
        j
    };
    match merge_result(t[f], t[s]) {
        Some(mz) => t.update(f, mz).remove(s),
        None => t,
    }
}

/// A merged zone covers exactly the points of the two zones merged.
pub proof fn lemma_merge_zone_partition(a: Zone, b: Zone, mz: Zone)
    requires
        a.wf(),
        b.wf(),
        merge_result(a, b) == Some(mz),
    ensures
        forall|x: int, y: int| #[trigger] pt_in(mz, x, y) <==> (pt_in(a, x, y) || pt_in(b, x, y)),
        mz.wf(),
        zone_in_box(a, mz),
        zone_in_box(b, mz),
{
}

/// Merging two zones of a well-formed tiling keeps it well-formed.
pub proof fn lemma_merge_tiling_wf(mon: Zone, t: Seq<Zone>, j: int, k: int)
    requires
        tiling_wf(mon, t),
        0 <= j < t.len(),
        0 <= k < t.len(),
        j != k,
    ensures
        tiling_wf(mon, merge_tiling(t, j, k)),
{
    let f = if j < k {
        j
    } else {
        k
    };
    let s = if j < k {
        k
    } else {
        j
    };
    if merge_result(t[f], t[s]) is Some {
        let mz = merge_result(t[f], t[s])->Some_0;
        let t2 = merge_tiling(t, j, k);
        let n = t.len() as int;
        lemma_merge_zone_partition(t[f], t[s], mz);
        // Index of the old tiling a zone of the new one comes from.
        let ghost src = |i: int| if i == f { f } else if i < s { i } else { i + 1 };
        assert(t2.len() == n - 1);
        assert forall|i: int| 0 <= i < t2.len() implies t2[i] == (if i == f {
            mz
        } else {
            t[src(i)]
        }) by {}
        assert forall|i: int| 0 <= i < t2.len() implies (#[trigger] t2[i]).wf() && zone_in_box(
            t2[i],
            mon,
        ) by {
            if i == f {
                assert(zone_in_box(t[f], mon) && zone_in_box(t[s], mon));
            }
        }
        assert forall|x: int, y: int| #[trigger] pt_in(mon, x, y) implies exists|i: int|
            0 <= i < t2.len() && pt_in(#[trigger] t2[i], x, y) by {
            let i0 = choose|i: int| 0 <= i < t.len() && pt_in(#[trigger] t[i], x, y);
            if i0 == f || i0 == s {
                assert(pt_in(t2[f], x, y));
            } else if i0 < s {
                assert(pt_in(t2[i0], x, y));
            } else {
                assert(pt_in(t2[i0 - 1], x, y));
            }
        }
        assert forall|i: int, k2: int| 0 <= i < k2 < t2.len() implies two_disjoint(
            #[trigger] t2[i],
            #[trigger] t2[k2],
        ) by {
            assert forall|x: int, y: int|
                !(#[trigger] pt_in(t2[i], x, y) && #[trigger] pt_in(t2[k2], x, y)) by {
                if pt_in(t2[i], x, y) && pt_in(t2[k2], x, y) {
                    let si = src(i);
                    let sk = src(k2);
                    if i == f {
                        // The other zone meets a point of t[f] or t[s].
                        assert(pt_in(t[sk], x, y));
                        assert(pt_in(t[f], x, y) || pt_in(t[s], x, y));
                        assert(sk != f && sk != s);
                        lemma_pairwise_disjoint(t, sk, f);
                        lemma_pairwise_disjoint(t, sk, s);
                    } else {
                        assert(pt_in(t[si], x, y) && pt_in(t[sk], x, y));
                        assert(si != sk);
                        lemma_pairwise_disjoint(t, si, sk);
                    }
                }
            }
        }
    }
}

/// In a disjoint tiling no point lies in two zones of distinct
/// indices, in either order.
pub proof fn lemma_pairwise_disjoint(t: Seq<Zone>, i: int, j: int)
    requires
        tiling_disjoint(t),
        0 <= i < t.len(),
        0 <= j < t.len(),
        i != j,
    ensures
        two_disjoint(t[i], t[j]),
        two_disjoint(t[j], t[i]),
{
    if i < j {
        assert(two_disjoint(t[i], t[j]));
    } else {
        assert(two_disjoint(t[j], t[i]));
    }
    assert forall|x: int, y: int|
        !(#[trigger] pt_in(t[i], x, y) && #[trigger] pt_in(t[j], x, y)) by {}
    assert forall|x: int, y: int|
        !(#[trigger] pt_in(t[j], x, y) && #[trigger] pt_in(t[i], x, y)) by {}
}

/// Moving the last zone of a well-formed tiling to position `pos`
/// keeps it well-formed.
pub proof fn lemma_reinsert_tiling_wf(mon: Zone, t: Seq<Zone>, pos: int)
    requires
        tiling_wf(mon, t),
        t.len() >= 1,
        0 <= pos <= t.len() - 1,
    ensures
        tiling_wf(mon, t.drop_last().insert(pos, t.last())),
{
    let t2 = t.drop_last().insert(pos, t.last());
    let n = t.len() as int;
    assert(t2.len() == n);
    assert forall|i: int| 0 <= i < t2.len() implies t2[i] == t[if i == pos {
        n - 1
    } else if i < pos {
        i
    } else {
        i - 1
    }] by {}
    assert forall|i: int| 0 <= i < t2.len() implies (#[trigger] t2[i]).wf() && zone_in_box(
        t2[i],
        mon,
    ) by {
        assert(t2[i] == t[if i == pos { n - 1 } else if i < pos { i } else { i - 1 }]);
    }
    assert forall|x: int, y: int| #[trigger] pt_in(mon, x, y) implies exists|i: int|
        0 <= i < t2.len() && pt_in(#[trigger] t2[i], x, y) by {
        let i0 = choose|i: int| 0 <= i < t.len() && pt_in(#[trigger] t[i], x, y);
        let i2 = if i0 == n - 1 {
            pos
        } else if i0 < pos {
            i0
        } else {
            i0 + 1
        };
        assert(pt_in(t2[i2], x, y));
    }
    assert forall|i: int, k: int| 0 <= i < k < t2.len() implies two_disjoint(
        #[trigger] t2[i],
        #[trigger] t2[k],
    ) by {
        let si = if i == pos { n - 1 } else if i < pos { i } else { i - 1 };
        let sk = if k == pos { n - 1 } else if k < pos { k } else { k - 1 };
        assert(t2[i] == t[si] && t2[k] == t[sk]);
        assert(si != sk);
        lemma_pairwise_disjoint(t, si, sk);
        assert forall|x: int, y: int|
            !(#[trigger] pt_in(t2[i], x, y) && #[trigger] pt_in(t2[k], x, y)) by {}
    }
}

/// Cutting a zone and then merging the two products restores the
/// tiling exactly.
pub proof fn lemma_split_merge_roundtrip(t: Seq<Zone>, j: int, d: SplitDirection)
    requires
        0 <= j < t.len(),
        t[j].wf(),
        t[j].left < t[j].right,
        t[j].top < t[j].bottom,
        split_at_ok(t[j], d),
    ensures
        merge_tiling(split_tiling(t, j, d), j, t.len() as int) == t,
{
    let t1 = split_tiling(t, j, d);
    let n = t.len() as int;
    assert(t1[j] == split_zone_rest(t[j], d) && t1[n] == split_zone_new(t[j], d));
    assert(merge_result(t1[j], t1[n]) == Some(t[j]));
    assert(merge_tiling(t1, j, n) =~= t);
}

/// A length `v` out of a span of `s`, mapped to a span of `t` with
/// round-to-nearest.
pub open spec fn scale_val(v: int, s: int, t: int) -> int {
    (2 * (v * t) + s) / (2 * s)
}

/// The scaled length stays within the target span.
pub proof fn lemma_scale_val_bounds(v: int, s: int, t: int)
    requires
        s >= 1,
        t >= 0,
        0 <= v <= s,
    ensures
        0 <= scale_val(v, s, t) <= t,
{
    let a = 2 * (v * t) + s;
    let b = 2 * s;
    vstd::arithmetic::div_mod::lemma_fundamental_div_mod(a, b);
    assert(a >= 0 && a < b * (t + 1)) by (nonlinear_arith)
        requires
            s >= 1,
            t >= 0,
            0 <= v <= s,
            a == 2 * (v * t) + s,
            b == 2 * s,
    ;
    assert(b * (a / b) >= 0 - b + 1 && b * (a / b) < b * (t + 1));
    assert(a / b >= 0 && a / b <= t) by (nonlinear_arith)
        requires
            b > 0,
            b * (a / b) >= 0 - b + 1,
            b * (a / b) < b * (t + 1),
    ;
}

/// Scaling is monotone in the length scaled.
pub proof fn lemma_scale_val_mono(v1: int, v2: int, s: int, t: int)
    requires
        s >= 1,
        t >= 0,
        v1 <= v2,
    ensures
        scale_val(v1, s, t) <= scale_val(v2, s, t),
{
    assert(2 * (v1 * t) + s <= 2 * (v2 * t) + s) by (nonlinear_arith)
        requires
            t >= 0,
            v1 <= v2,
    ;
    vstd::arithmetic::div_mod::lemma_div_is_ordered(2 * (v1 * t) + s, 2 * (v2 * t) + s, 2 * s);
}

/// A span scales to exactly the target span, and zero to zero; a span
/// scaled to itself is unchanged.
pub proof fn lemma_scale_val_endpoints(v: int, s: int, t: int)
    requires
        s >= 1,
        t >= 0,
    ensures
        scale_val(0, s, t) == 0,
        scale_val(s, s, t) == t,
        s == t ==> scale_val(v, s, t) == v,
{
    vstd::arithmetic::div_mod::lemma_fundamental_div_mod_converse(s, 2 * s, 0, s);
    assert(2 * (s * t) + s == (2 * s) * t + s) by (nonlinear_arith);
    vstd::arithmetic::div_mod::lemma_fundamental_div_mod_converse(2 * (s * t) + s, 2 * s, t, s);
    if s == t {
        assert(2 * (v * s) + s == (2 * s) * v + s) by (nonlinear_arith);
        vstd::arithmetic::div_mod::lemma_fundamental_div_mod_converse(2 * (v * s) + s, 2 * s, v, s);
    }
}

/// The largest source length whose image stays at or below `x`: the
/// witness of the discrete intermediate value property.
pub proof fn lemma_scale_val_locate(s: int, t: int, x: int, v: int) -> (w: int)
    requires
        s >= 1,
        t >= 1,
        0 <= x < t,
        0 <= v < s,
        scale_val(v, s, t) <= x,
    ensures
        v <= w < s,
        scale_val(w, s, t) <= x,
        x < scale_val(w + 1, s, t),
    decreases s - v,
{
    if v + 1 < s {
        if scale_val(v + 1, s, t) <= x {
            lemma_scale_val_locate(s, t, x, v + 1)
        } else {
            v
        }
    } else {
        lemma_scale_val_endpoints(0, s, t);
        assert(scale_val(v + 1, s, t) == t);
        v
    }
}

/// The x coordinate `c` carried from the source work-area to the
/// target work-area.
pub open spec fn sx(c: int, src: Zone, dst: Zone) -> int {
    dst.left + scale_val(c - src.left, src.spec_w(), dst.spec_w())
}

/// The y coordinate `c` carried from the source work-area to the
/// target work-area.
pub open spec fn sy(c: int, src: Zone, dst: Zone) -> int {
    dst.top + scale_val(c - src.top, src.spec_h(), dst.spec_h())
}

/// A zone carried from the source work-area to the target work-area,
/// edge by edge.
pub open spec fn scale_zone(z: Zone, src: Zone, dst: Zone) -> Zone {
    Zone {
        left: sx(z.left as int, src, dst) as i32,
        top: sy(z.top as int, src, dst) as i32,
        right: sx(z.right as int, src, dst) as i32,
        bottom: sy(z.bottom as int, src, dst) as i32,
    }
}

/// For a zone inside the source box the scaled edges are the scaled
/// coordinates themselves: nothing is lost in the narrowing.
pub proof fn lemma_scale_zone_coords(z: Zone, src: Zone, dst: Zone)
    requires
        scalable(src, dst),
        z.wf(),
        zone_in_box(z, src),
    ensures
        scale_zone(z, src, dst).left == sx(z.left as int, src, dst),
        scale_zone(z, src, dst).top == sy(z.top as int, src, dst),
        scale_zone(z, src, dst).right == sx(z.right as int, src, dst),
        scale_zone(z, src, dst).bottom == sy(z.bottom as int, src, dst),
{
    lemma_scale_val_bounds(z.left - src.left, src.spec_w(), dst.spec_w());
    lemma_scale_val_bounds(z.right - src.left, src.spec_w(), dst.spec_w());
    lemma_scale_val_bounds(z.top - src.top, src.spec_h(), dst.spec_h());
    lemma_scale_val_bounds(z.bottom - src.top, src.spec_h(), dst.spec_h());
}

/// A tiling carried zone by zone to the target work-area.
pub open spec fn scale_tiling(t: Seq<Zone>, src: Zone, dst: Zone) -> Seq<Zone> {
    t.map_values(|z: Zone| scale_zone(z, src, dst))
}

/// The work-areas a projection runs between: both well-formed, the
/// source with real extent.
pub open spec fn scalable(src: Zone, dst: Zone) -> bool {
    &&& src.wf()
    &&& dst.wf()
    &&& src.spec_w() >= 1
    &&& src.spec_h() >= 1
    &&& dst.spec_w() >= 1
    &&& dst.spec_h() >= 1
}

/// A scaled zone is well-formed and sits inside the target box.
pub proof fn lemma_scale_zone_boxed(z: Zone, src: Zone, dst: Zone)
    requires
        scalable(src, dst),
        z.wf(),
        zone_in_box(z, src),
    ensures
        scale_zone(z, src, dst).wf(),
        zone_in_box(scale_zone(z, src, dst), dst),
{
    lemma_scale_zone_coords(z, src, dst);
    lemma_scale_val_mono(0, z.left - src.left, src.spec_w(), dst.spec_w());
    lemma_scale_val_mono(z.left - src.left, z.right - src.left, src.spec_w(), dst.spec_w());
    lemma_scale_val_mono(z.right - src.left, src.spec_w(), src.spec_w(), dst.spec_w());
    lemma_scale_val_endpoints(0, src.spec_w(), dst.spec_w());
    lemma_scale_val_bounds(z.left - src.left, src.spec_w(), dst.spec_w());
    lemma_scale_val_bounds(z.right - src.left, src.spec_w(), dst.spec_w());
    lemma_scale_val_mono(0, z.top - src.top, src.spec_h(), dst.spec_h());
    lemma_scale_val_mono(z.top - src.top, z.bottom - src.top, src.spec_h(), dst.spec_h());
    lemma_scale_val_mono(z.bottom - src.top, src.spec_h(), src.spec_h(), dst.spec_h());
    lemma_scale_val_endpoints(0, src.spec_h(), dst.spec_h());
    lemma_scale_val_bounds(z.top - src.top, src.spec_h(), dst.spec_h());
    lemma_scale_val_bounds(z.bottom - src.top, src.spec_h(), dst.spec_h());
}

/// For a target point, the source point whose scaled cell holds it:
/// the two located coordinates.
proof fn lemma_scale_pt_source(src: Zone, dst: Zone, x: int, y: int) -> (c: (int, int))
    requires
        scalable(src, dst),
        pt_in(dst, x, y),
    ensures
        pt_in(src, c.0, c.1),
        sx(c.0, src, dst) <= x < sx(c.0 + 1, src, dst),
        sy(c.1, src, dst) <= y < sy(c.1 + 1, src, dst),
    {
    lemma_scale_val_endpoints(0, src.spec_w(), dst.spec_w());
    lemma_scale_val_endpoints(0, src.spec_h(), dst.spec_h());
    let vx = lemma_scale_val_locate(src.spec_w(), dst.spec_w(), x - dst.left, 0);
    let vy = lemma_scale_val_locate(src.spec_h(), dst.spec_h(), y - dst.top, 0);
    (src.left + vx, src.top + vy)
}

/// Carrying a well-formed tiling to another work-area keeps it
/// well-formed: the scaled zones stay in the target box, stay
/// disjoint, and still cover every point.
pub proof fn lemma_scale_tiling_wf(t: Seq<Zone>, src: Zone, dst: Zone)
    requires
        scalable(src, dst),
        tiling_wf(src, t),
    ensures
        tiling_wf(dst, scale_tiling(t, src, dst)),
        scale_tiling(t, src, dst).len() == t.len(),
{
    let t2 = scale_tiling(t, src, dst);
    assert forall|i: int| 0 <= i < t2.len() implies (#[trigger] t2[i]).wf() && zone_in_box(
        t2[i],
        dst,
    ) by {
        assert(t2[i] == scale_zone(t[i], src, dst));
        lemma_scale_zone_boxed(t[i], src, dst);
    }
    assert forall|x: int, y: int| #[trigger] pt_in(dst, x, y) implies exists|i: int|
        0 <= i < t2.len() && pt_in(#[trigger] t2[i], x, y) by {
        let c = lemma_scale_pt_source(src, dst, x, y);
        assert(pt_in(src, c.0, c.1));
        let iz = choose|i: int| 0 <= i < t.len() && pt_in(#[trigger] t[i], c.0, c.1);
        let z = t[iz];
        lemma_scale_zone_coords(z, src, dst);
        lemma_scale_val_mono(z.left - src.left, c.0 - src.left, src.spec_w(), dst.spec_w());
        lemma_scale_val_mono(c.0 + 1 - src.left, z.right - src.left, src.spec_w(), dst.spec_w());
        lemma_scale_val_mono(z.top - src.top, c.1 - src.top, src.spec_h(), dst.spec_h());
        lemma_scale_val_mono(c.1 + 1 - src.top, z.bottom - src.top, src.spec_h(), dst.spec_h());
        assert(t2[iz] == scale_zone(z, src, dst));
        assert(pt_in(t2[iz], x, y));
    }
    assert forall|i: int, j: int| 0 <= i < j < t2.len() implies two_disjoint(
        #[trigger] t2[i],
        #[trigger] t2[j],
    ) by {
        assert forall|x: int, y: int|
            !(#[trigger] pt_in(t2[i], x, y) && #[trigger] pt_in(t2[j], x, y)) by {
            if pt_in(t2[i], x, y) && pt_in(t2[j], x, y) {
                assert(pt_in(dst, x, y));
                let c = lemma_scale_pt_source(src, dst, x, y);
                assert(t2[i] == scale_zone(t[i], src, dst));
                assert(t2[j] == scale_zone(t[j], src, dst));
                lemma_scale_locate_member(t[i], src, dst, x, y, c.0, c.1);
                lemma_scale_locate_member(t[j], src, dst, x, y, c.0, c.1);
                assert(pt_in(t[i], c.0, c.1) && pt_in(t[j], c.0, c.1));
                assert(two_disjoint(t[i], t[j]));
            }
        }
    }
}

/// If the scaled image of a zone holds the target point, the zone
/// holds the located source point.
proof fn lemma_scale_locate_member(z: Zone, src: Zone, dst: Zone, x: int, y: int, cx: int, cy: int)
    requires
        scalable(src, dst),
        z.wf(),
        zone_in_box(z, src),
        pt_in(scale_zone(z, src, dst), x, y),
        sx(cx, src, dst) <= x < sx(cx + 1, src, dst),
        sy(cy, src, dst) <= y < sy(cy + 1, src, dst),
        pt_in(src, cx, cy),
    ensures
        pt_in(z, cx, cy),
{
    lemma_scale_zone_coords(z, src, dst);
    if cx < z.left {
        lemma_scale_val_mono(cx + 1 - src.left, z.left - src.left, src.spec_w(), dst.spec_w());
        assert(false);
    }
    if cx >= z.right {
        lemma_scale_val_mono(z.right - src.left, cx - src.left, src.spec_w(), dst.spec_w());
        assert(false);
    }
    if cy < z.top {
        lemma_scale_val_mono(cy + 1 - src.top, z.top - src.top, src.spec_h(), dst.spec_h());
        assert(false);
    }
    if cy >= z.bottom {
        lemma_scale_val_mono(z.bottom - src.top, cy - src.top, src.spec_h(), dst.spec_h());
        assert(false);
    }
}

/// Projecting a length to another span and back moves it by at most
/// one pixel, provided the target span is at least half the source
/// span.
pub proof fn lemma_scale_val_roundtrip(v: int, s: int, t: int)
    requires
        s >= 1,
        t >= 1,
        s <= 2 * t,
        0 <= v <= s,
    ensures
        scale_val(scale_val(v, s, t), t, s) - v <= 1,
        v - scale_val(scale_val(v, s, t), t, s) <= 1,
{
    let w = scale_val(v, s, t);
    let u = scale_val(w, t, s);
    lemma_scale_val_bounds(v, s, t);
    let a1 = 2 * (v * t) + s;
    let b1 = 2 * s;
    vstd::arithmetic::div_mod::lemma_fundamental_div_mod(a1, b1);
    let e1 = a1 - b1 * w;
    assert(0 <= e1 < b1);
    let a2 = 2 * (w * s) + t;
    let b2 = 2 * t;
    vstd::arithmetic::div_mod::lemma_fundamental_div_mod(a2, b2);
    let e2 = a2 - b2 * u;
    assert(0 <= e2 < b2);
    assert(2 * t * (v - u) == e1 - s + e2 - t) by (nonlinear_arith)
        requires
            a1 == 2 * (v * t) + s,
            e1 == a1 - 2 * s * w,
            a2 == 2 * (w * s) + t,
            e2 == a2 - 2 * t * u,
    ;
    assert(2 * t * (v - u) >= 0 - s - t && 2 * t * (v - u) < s + t);
    assert(v - u <= 1 && u - v <= 1) by (nonlinear_arith)
        requires
            t >= 1,
            s <= 2 * t,
            2 * t * (v - u) >= 0 - s - t,
            2 * t * (v - u) < s + t,
    ;
}

/// Padding monotonicity: on the same zone, a strictly larger window
/// padding gives a strictly smaller placement width, unless both
/// vertical edges of the zone lie on the monitor edge (there the edge
/// padding alone decides); and likewise for the height with the two
/// horizontal edges.
pub proof fn lemma_padding_monotone(
    p1: Position,
    p2: Position,
    z: Zone,
    mon: Zone,
    wp1: int,
    wp2: int,
    ep: int,
)
    requires
        position_of(p1, z, mon, wp1, ep),
        position_of(p2, z, mon, wp2, ep),
        wp1 < wp2,
    ensures
        !(z.left == mon.left && z.right == mon.right) ==> p2.cx < p1.cx,
        !(z.top == mon.top && z.bottom == mon.bottom) ==> p2.cy < p1.cy,
        z.left == mon.left && z.right == mon.right ==> p2.cx == p1.cx,
        z.top == mon.top && z.bottom == mon.bottom ==> p2.cy == p1.cy,
{
}

} // verus!
