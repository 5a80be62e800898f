//! A Layout: a family of tilings of one monitor work-area, indexed by
//! window count, together with the rule that derives the tiling for
//! more windows than the user arranged by hand.

use vstd::prelude::*;

use crate::geometry::merge_result;
use crate::geometry::merge_tiling;
use crate::geometry::padding_wf;
use crate::geometry::position_of;
use crate::geometry::pt_in;
use crate::geometry::seq_swap;
use crate::geometry::split_at_ok;
use crate::geometry::split_tiling;
use crate::geometry::tiling_wf;
use crate::geometry::two_disjoint;
use crate::geometry::zone_in_box;
use crate::geometry::lemma_merge_tiling_wf;
use crate::geometry::lemma_seq_swap_involution;
use crate::geometry::lemma_split_tiling_wf;
use crate::geometry::lemma_swap_tiling_wf;
use crate::geometry::Direction;
use crate::geometry::Position;
use crate::geometry::SplitDirection;
use crate::geometry::Zone;
use crate::geometry::COORD_LIMIT;

verus! {

/// One cut of the repeating end-tiling rule: axis, cut ratio as a
/// fraction strictly between zero and one, which zone of the growing
/// tiling the cut targets, and whether the two products swap places.
#[derive(Clone, Copy, Debug)]
pub struct RepeatingSplit {
    pub direction: Direction,
    pub ratio_num: u32,
    pub ratio_den: u32,
    pub split_idx_offset: usize,
    pub swap: bool,
}

impl RepeatingSplit {
    /// The ratio is a genuine fraction strictly between zero and one.
    pub open spec fn wf(self) -> bool {
        0 < self.ratio_num < self.ratio_den
    }

    /// A repeating cut with ratio `ratio_num / ratio_den`.
    pub fn new(direction: Direction, ratio_num: u32, ratio_den: u32, split_idx_offset: usize, swap: bool) -> (r: Self)
        requires
            0 < ratio_num < ratio_den,
        ensures
            r == (RepeatingSplit { direction, ratio_num, ratio_den, split_idx_offset, swap }),
    {
        RepeatingSplit { direction, ratio_num, ratio_den, split_idx_offset, swap }
    }
}

/// How a layout derives the tiling for more windows than it holds
/// manual arrangements for.
#[derive(Clone, Debug)]
pub enum EndTilingBehaviour {
    /// Repeatedly split one zone of a base tiling along one axis into
    /// equal fractions.
    Directional {
        direction: Direction,
        start_from: usize,
        from_zones: Option<Vec<Zone>>,
        zone_idx: usize,
    },
    /// Apply a cycle of recorded cuts, one group per extension step.
    Repeating { splits: Vec<Vec<RepeatingSplit>>, zone_idx: usize },
}

/// The mathematical value of an end-tiling behaviour.
pub enum EndTilingView {
    Directional {
        direction: Direction,
        start_from: int,
        from_zones: Option<Seq<Zone>>,
        zone_idx: int,
    },
    Repeating { splits: Seq<Seq<RepeatingSplit>>, zone_idx: int },
}

/// The view of an end-tiling behaviour value.
pub open spec fn etb_view(b: EndTilingBehaviour) -> EndTilingView {
    match b {
        EndTilingBehaviour::Directional { direction, start_from, from_zones, zone_idx } => EndTilingView::Directional {
            direction,
            start_from: start_from as int,
            from_zones: match from_zones {
                Some(fz) => Some(fz@),
                None => None,
            },
            zone_idx: zone_idx as int,
        },
        EndTilingBehaviour::Repeating { splits, zone_idx } => EndTilingView::Repeating {
            splits: splits@.map_values(|row: Vec<RepeatingSplit>| row@),
            zone_idx: zone_idx as int,
        },
    }
}

/// The same behaviour with another target zone index.
pub open spec fn view_with_zone_idx(b: EndTilingView, zi: int) -> EndTilingView {
    match b {
        EndTilingView::Directional { direction, start_from, from_zones, .. } => EndTilingView::Directional {
            direction,
            start_from,
            from_zones,
            zone_idx: zi,
        },
        EndTilingView::Repeating { splits, .. } => EndTilingView::Repeating { splits, zone_idx: zi },
    }
}

/// The zone index the end-tiling rule currently targets.
pub open spec fn view_zone_idx(b: EndTilingView) -> int {
    match b {
        EndTilingView::Directional { zone_idx, .. } => zone_idx,
        EndTilingView::Repeating { zone_idx, .. } => zone_idx,
    }
}

/// Static well-formedness of a behaviour on a given monitor: the
/// starting count is at least one, a captured base tiling is a real
/// tiling of the monitor with the target zone in range, and every
/// recorded ratio is a genuine fraction.
pub open spec fn behaviour_wf(b: EndTilingView, mon: Zone) -> bool {
    match b {
        EndTilingView::Directional { start_from, from_zones, zone_idx, .. } => {
            &&& start_from >= 1
            &&& zone_idx >= 0
            &&& match from_zones {
                Some(fz) => tiling_wf(mon, fz),
                None => true,
            }
        },
        EndTilingView::Repeating { splits, zone_idx } => {
            &&& zone_idx >= 0
            &&& forall|k: int, i: int|
                0 <= k < splits.len() && 0 <= i < splits[k].len() ==> (#[trigger] splits[k][i]).wf()
        },
    }
}

impl EndTilingBehaviour {
    /// A horizontal directional rule that splits the first zone,
    /// starting from the last manual tiling.
    pub fn default_directional() -> (r: Self)
        ensures
            etb_view(r) == (EndTilingView::Directional {
                direction: Direction::Horizontal,
                start_from: 1int,
                from_zones: None::<Seq<Zone>>,
                zone_idx: 0int,
            }),
    {
        EndTilingBehaviour::Directional {
            direction: Direction::Horizontal,
            start_from: 1,
            from_zones: None,
            zone_idx: 0,
        }
    }

    /// A repeating rule with no cuts recorded yet.
    pub fn default_repeating() -> (r: Self)
        ensures
            etb_view(r) == (EndTilingView::Repeating {
                splits: Seq::<Seq<RepeatingSplit>>::empty(),
                zone_idx: 0int,
            }),
    {
        let splits: Vec<Vec<RepeatingSplit>> = Vec::new();
        proof {
            assert(splits@.map_values(|row: Vec<RepeatingSplit>| row@) =~= Seq::<
                Seq<RepeatingSplit>,
            >::empty());
        }
        EndTilingBehaviour::Repeating { splits, zone_idx: 0 }
    }
}

/// A family of tilings of one monitor work-area. The first
/// `manual_zones_until` tilings are user-authored; all later ones are
/// derived by the end-tiling behaviour. `positions` caches, per
/// tiling, the placement of each zone under the paddings of the last
/// `update`.
#[derive(Debug)]
pub struct Layout {
    monitor_rect: Zone,
    zones: Vec<Vec<Zone>>,
    manual_zones_until: usize,
    end_tiling_behaviour: EndTilingBehaviour,
    positions: Vec<Vec<Position>>,
}

/// The views of a list of tilings.
pub open spec fn deep_zones(v: Seq<Vec<Zone>>) -> Seq<Seq<Zone>> {
    v.map_values(|t: Vec<Zone>| t@)
}

/// The views of a list of placement rows.
pub open spec fn deep_positions(v: Seq<Vec<Position>>) -> Seq<Seq<Position>> {
    v.map_values(|t: Vec<Position>| t@)
}

/// Two layouts with the same monitor and the same tilings have the
/// same tiling part of the invariant.
proof fn lemma_wf_frame(a: Layout, b: Layout)
    requires
        a.wf(),
        b.monitor() == a.monitor(),
        b.tilings() == a.tilings(),
        b.manual() == a.manual(),
        behaviour_wf(b.behaviour(), b.monitor()),
    ensures
        b.wf(),
{
    assert forall|i: int| 0 <= i < b.tilings().len() implies tiling_wf(
        b.monitor_rect,
        #[trigger] b.tilings()[i],
    ) by {
        assert(b.tilings()[i] == a.tilings()[i]);
        assert(tiling_wf(a.monitor_rect, a.tilings()[i]));
    }
}

impl Layout {
    /// The monitor work-area the layout tiles.
    pub closed spec fn monitor(self) -> Zone {
        self.monitor_rect
    }

    /// The family of tilings; the tiling at index `i` is the one used
    /// when exactly `i + 1` windows are present.
    pub closed spec fn tilings(self) -> Seq<Seq<Zone>> {
        deep_zones(self.zones@)
    }

    /// How many leading tilings are user-authored.
    pub closed spec fn manual(self) -> int {
        self.manual_zones_until as int
    }

    /// The end-tiling behaviour.
    pub closed spec fn behaviour(self) -> EndTilingView {
        etb_view(self.end_tiling_behaviour)
    }

    /// The cached placements.
    pub closed spec fn positions_view(self) -> Seq<Seq<Position>> {
        deep_positions(self.positions@)
    }

    /// The layout invariant: a well-formed monitor, every tiling a
    /// well-formed tiling of it, the manual count within range, and a
    /// well-formed behaviour.
    pub open spec fn wf(self) -> bool {
        &&& self.monitor().wf()
        &&& 0 <= self.manual() <= self.tilings().len()
        &&& forall|i: int|
            0 <= i < self.tilings().len() ==> tiling_wf(self.monitor(), #[trigger] self.tilings()[i])
        &&& behaviour_wf(self.behaviour(), self.monitor())
    }

    /// The tiling at index `i` holds exactly `i + 1` zones.
    pub open spec fn sized(self) -> bool {
        forall|i: int| 0 <= i < self.tilings().len() ==> (#[trigger] self.tilings()[i]).len() == i + 1
    }

    /// A directional rule that starts above one has captured its base
    /// tiling (done once, by `update`).
    pub open spec fn materialized(self) -> bool {
        match self.behaviour() {
            EndTilingView::Directional { start_from, from_zones, .. } => start_from > 1
                ==> from_zones is Some,
            EndTilingView::Repeating { .. } => true,
        }
    }

    /// `extend` can run now and forever after: the base tiling it
    /// clones exists and is no longer than needed, its target zone is
    /// in range, and a repeating rule has rows of the right lengths
    /// with targets that stay in range as the tilings grow.
    pub open spec fn extendable(self) -> bool {
        match self.behaviour() {
            EndTilingView::Directional { start_from, from_zones, zone_idx, .. } => {
                if start_from == 1 {
                    &&& 1 <= self.manual() <= self.tilings().len()
                    &&& zone_idx < self.tilings()[self.manual() - 1].len()
                } else {
                    &&& from_zones matches Some(fz)
                    &&& zone_idx < fz.len()
                    &&& fz.len() <= self.tilings().len() + 1
                }
            },
            EndTilingView::Repeating { splits, zone_idx } => {
                &&& splits.len() >= 1
                &&& 1 <= self.manual() <= self.tilings().len()
                &&& zone_idx < self.manual()
                &&& forall|k: int| 0 <= k < splits.len() ==> (#[trigger] splits[k]).len() == k + 1
                &&& forall|k: int, i: int|
                    0 <= k < splits.len() && 0 <= i < splits[k].len()
                        ==> (#[trigger] splits[k][i]).split_idx_offset <= (if i == 0 {
                        splits.len() as int
                    } else {
                        i
                    })
            },
        }
    }

    /// The cached placements mirror the tilings exactly under the
    /// given paddings.
    pub open spec fn positions_ok(self, wp: int, ep: int) -> bool {
        &&& self.positions_view().len() == self.tilings().len()
        &&& forall|i: int|
            0 <= i < self.tilings().len() ==> (#[trigger] self.positions_view()[i]).len()
                == self.tilings()[i].len()
        &&& forall|i: int, j: int|
            0 <= i < self.tilings().len() && 0 <= j < self.tilings()[i].len() ==> position_of(
                #[trigger] self.positions_view()[i][j],
                self.tilings()[i][j],
                self.monitor(),
                wp,
                ep,
            )
    }

    /// Ready for the manager: base tiling captured and placements
    /// current.
    pub open spec fn prepared(self, wp: int, ep: int) -> bool {
        self.materialized() && self.positions_ok(wp, ep)
    }

    /// `update` may run: a rule whose base tiling is still uncaptured
    /// has exactly its manual tilings, so the capture pops the right
    /// one.
    pub open spec fn update_ok(self) -> bool {
        self.wf() && (!self.materialized() ==> self.tilings().len() == self.manual()
            && self.manual() >= 1)
    }

    /// A layout the manager can adopt: well-formed, one tiling per
    /// window count, and extendable once `update` has captured the
    /// base tiling.
    pub open spec fn ready(self) -> bool {
        &&& self.wf()
        &&& self.sized()
        &&& if self.materialized() {
            self.extendable()
        } else {
            &&& self.tilings().len() == self.manual()
            &&& self.manual() >= 1
            &&& view_zone_idx(self.behaviour()) < self.tilings().last().len()
        }
    }

    /// A fresh layout: one tiling holding the whole work-area, the
    /// default directional end-tiling rule, no placements yet.
    pub fn new(w: i32, h: i32) -> (r: Self)
        requires
            0 <= w <= COORD_LIMIT,
            0 <= h <= COORD_LIMIT,
        ensures
            r.wf(),
            r.sized(),
            r.materialized(),
            r.extendable(),
            r.monitor() == (Zone { left: 0, top: 0, right: w, bottom: h }),
            r.tilings() =~= seq![seq![Zone { left: 0, top: 0, right: w, bottom: h }]],
            r.manual() == 1,
            r.behaviour() == (EndTilingView::Directional {
                direction: Direction::Horizontal,
                start_from: 1int,
                from_zones: None::<Seq<Zone>>,
                zone_idx: 0int,
            }),
            r.positions_view() =~= Seq::<Seq<Position>>::empty(),
    {
        let mon = Zone { left: 0, top: 0, right: w, bottom: h };
        let mut first: Vec<Zone> = Vec::new();
        first.push(mon);
        let mut zones: Vec<Vec<Zone>> = Vec::new();
        zones.push(first);
        let r = Layout {
            monitor_rect: mon,
            zones,
            manual_zones_until: 1,
            end_tiling_behaviour: EndTilingBehaviour::default_directional(),
            positions: Vec::new(),
        };
        proof {
            assert(r.tilings() =~= seq![seq![mon]]);
            lemma_full_zone_tiling(mon);
        }
        r
    }

    /// The tilings, outermost sequence indexed by window count minus
    /// one.
    pub fn get_zones(&self) -> (r: &Vec<Vec<Zone>>)
        ensures
            deep_zones(r@) == self.tilings(),
    {
        &self.zones
    }

    /// The monitor work-area.
    pub fn get_monitor_rect(&self) -> (r: &Zone)
        ensures
            *r == self.monitor(),
    {
        &self.monitor_rect
    }

    /// How many leading tilings are user-authored.
    pub fn manual_zones_until(&self) -> (r: usize)
        ensures
            r as int == self.manual(),
    {
        self.manual_zones_until
    }

    /// The cached placements for the tiling at index `i`.
    pub fn get_positions_at(&self, i: usize) -> (r: &Vec<Position>)
        requires
            i < self.positions_view().len(),
        ensures
            r@ == self.positions_view()[i as int],
    {
        proof {
            assert(self.positions_view()[i as int] == self.positions@[i as int]@);
        }
        &self.positions[i]
    }

    /// How many tilings have cached placements.
    pub fn positions_len(&self) -> (r: usize)
        ensures
            r as int == self.positions_view().len(),
    {
        self.positions.len()
    }

    /// Remove the tiling at index `i`, which must be user-authored.
    pub fn delete_zones(&mut self, i: usize)
        requires
            old(self).wf(),
            i < old(self).tilings().len(),
            old(self).manual() >= 1,
        ensures
            final(self).wf(),
            final(self).monitor() == old(self).monitor(),
            final(self).tilings() == old(self).tilings().remove(i as int),
            final(self).manual() == old(self).manual() - 1,
            final(self).behaviour() == old(self).behaviour(),
            final(self).positions_view() == old(self).positions_view(),
    {
        self.zones.remove(i);
        self.manual_zones_until = self.manual_zones_until - 1;
        proof {
            assert(self.tilings() =~= old(self).tilings().remove(i as int));
            assert forall|k: int| 0 <= k < self.tilings().len() implies tiling_wf(
                self.monitor_rect,
                #[trigger] self.tilings()[k],
            ) by {
                if k < i {
                    assert(self.tilings()[k] == old(self).tilings()[k]);
                } else {
                    assert(self.tilings()[k] == old(self).tilings()[k + 1]);
                }
            }
        }
    }

    /// Exchange the tilings at indices `i` and `j`.
    pub fn swap_zone_vectors(&mut self, i: usize, j: usize)
        requires
            old(self).wf(),
            i < old(self).tilings().len(),
            j < old(self).tilings().len(),
        ensures
            final(self).wf(),
            final(self).monitor() == old(self).monitor(),
            final(self).tilings() == seq_swap(old(self).tilings(), i as int, j as int),
            final(self).manual() == old(self).manual(),
            final(self).behaviour() == old(self).behaviour(),
            final(self).positions_view() == old(self).positions_view(),
    {
        if i == j {
            proof {
                assert(self.tilings() =~= seq_swap(old(self).tilings(), i as int, j as int));
            }
            return ;
        }
        let mut tmp: Vec<Zone> = Vec::new();
        vstd::pervasive::VecAdditionalExecFns::set_and_swap(&mut self.zones, i, &mut tmp);
        vstd::pervasive::VecAdditionalExecFns::set_and_swap(&mut self.zones, j, &mut tmp);
        vstd::pervasive::VecAdditionalExecFns::set_and_swap(&mut self.zones, i, &mut tmp);
        proof {
            assert(self.tilings() =~= seq_swap(old(self).tilings(), i as int, j as int));
            assert forall|k: int| 0 <= k < self.tilings().len() implies tiling_wf(
                self.monitor_rect,
                #[trigger] self.tilings()[k],
            ) by {
                let s = seq_swap(old(self).tilings(), i as int, j as int);
                assert(s[k] == old(self).tilings()[if k == i { j as int } else if k == j { i as int } else { k }]);
            }
        }
    }

    /// Append a new user-authored tiling of a single zone covering the
    /// whole work-area.
    pub fn new_zone_vec(&mut self)
        requires
            old(self).wf(),
            old(self).tilings().len() < usize::MAX,
            old(self).manual() < usize::MAX,
        ensures
            final(self).wf(),
            final(self).monitor() == old(self).monitor(),
            final(self).tilings() == old(self).tilings().push(seq![old(self).monitor()]),
            final(self).manual() == old(self).manual() + 1,
            final(self).behaviour() == old(self).behaviour(),
            final(self).positions_view() == old(self).positions_view(),
    {
        let mut t: Vec<Zone> = Vec::new();
        t.push(Zone {
            left: self.monitor_rect.left,
            top: self.monitor_rect.top,
            right: self.monitor_rect.right,
            bottom: self.monitor_rect.bottom,
        });
        self.zones.push(t);
        self.manual_zones_until = self.manual_zones_until + 1;
        proof {
            assert(t@ =~= seq![old(self).monitor()]);
            assert(self.tilings() =~= old(self).tilings().push(seq![old(self).monitor()]));
            lemma_full_zone_tiling(self.monitor_rect);
            assert forall|k: int| 0 <= k < self.tilings().len() implies tiling_wf(
                self.monitor_rect,
                #[trigger] self.tilings()[k],
            ) by {
                if k < old(self).tilings().len() {
                    assert(self.tilings()[k] == old(self).tilings()[k]);
                }
            }
        }
    }

    /// Append a new user-authored tiling that copies the tiling at
    /// index `i`.
    pub fn new_zone_vec_from(&mut self, i: usize)
        requires
            old(self).wf(),
            i < old(self).tilings().len(),
            old(self).tilings().len() < usize::MAX,
            old(self).manual() < usize::MAX,
        ensures
            final(self).wf(),
            final(self).monitor() == old(self).monitor(),
            final(self).tilings() == old(self).tilings().push(old(self).tilings()[i as int]),
            final(self).manual() == old(self).manual() + 1,
            final(self).behaviour() == old(self).behaviour(),
            final(self).positions_view() == old(self).positions_view(),
    {
        let t = copy_zone_vec(&self.zones[i]);
        self.zones.push(t);
        self.manual_zones_until = self.manual_zones_until + 1;
        proof {
            assert(self.tilings() =~= old(self).tilings().push(old(self).tilings()[i as int]));
            assert forall|k: int| 0 <= k < self.tilings().len() implies tiling_wf(
                self.monitor_rect,
                #[trigger] self.tilings()[k],
            ) by {
                if k < old(self).tilings().len() {
                    assert(self.tilings()[k] == old(self).tilings()[k]);
                }
            }
        }
    }
}

impl Layout {
    /// The zone index the end-tiling rule currently targets.
    pub fn get_end_zone_idx(&self) -> (r: usize)
        ensures
            r as int == view_zone_idx(self.behaviour()),
    {
        match &self.end_tiling_behaviour {
            EndTilingBehaviour::Directional { zone_idx, .. } => *zone_idx,
            EndTilingBehaviour::Repeating { zone_idx, .. } => *zone_idx,
        }
    }

    /// The end-tiling behaviour, for reading.
    pub fn get_end_tiling_behaviour(&self) -> (r: &EndTilingBehaviour)
        ensures
            etb_view(*r) == self.behaviour(),
    {
        &self.end_tiling_behaviour
    }

    /// Point the end-tiling rule at zone `i`.
    pub fn set_end_zone_idx(&mut self, i: usize)
        requires
            old(self).wf(),
        ensures
            final(self).wf(),
            final(self).monitor() == old(self).monitor(),
            final(self).manual() == old(self).manual(),
            final(self).tilings() == old(self).tilings(),
            final(self).positions_view() == old(self).positions_view(),
            final(self).behaviour() == view_with_zone_idx(old(self).behaviour(), i as int),
    {
        match &mut self.end_tiling_behaviour {
            EndTilingBehaviour::Directional { zone_idx, .. } => {
                *zone_idx = i;
            },
            EndTilingBehaviour::Repeating { zone_idx, .. } => {
                *zone_idx = i;
            },
        }
        proof {
            lemma_wf_frame(*old(self), *self);
        }
    }

    /// Replace the end-tiling behaviour.
    pub fn set_end_tiling_behaviour(&mut self, behaviour: EndTilingBehaviour)
        requires
            old(self).wf(),
            behaviour_wf(etb_view(behaviour), old(self).monitor()),
        ensures
            final(self).wf(),
            final(self).monitor() == old(self).monitor(),
            final(self).manual() == old(self).manual(),
            final(self).tilings() == old(self).tilings(),
            final(self).positions_view() == old(self).positions_view(),
            final(self).behaviour() == etb_view(behaviour),
    {
        self.end_tiling_behaviour = behaviour;
        proof {
            lemma_wf_frame(*old(self), *self);
        }
    }

    /// Change the axis of a directional rule; a repeating rule is left
    /// alone.
    pub fn set_end_tiling_direction(&mut self, new_direction: Direction)
        requires
            old(self).wf(),
        ensures
            final(self).wf(),
            final(self).monitor() == old(self).monitor(),
            final(self).manual() == old(self).manual(),
            final(self).tilings() == old(self).tilings(),
            final(self).positions_view() == old(self).positions_view(),
            final(self).behaviour() == match old(self).behaviour() {
                EndTilingView::Directional { start_from, from_zones, zone_idx, .. } => EndTilingView::Directional {
                    direction: new_direction,
                    start_from,
                    from_zones,
                    zone_idx,
                },
                b => b,
            },
    {
        match &mut self.end_tiling_behaviour {
            EndTilingBehaviour::Directional { direction, .. } => {
                *direction = new_direction;
            },
            EndTilingBehaviour::Repeating { .. } => {},
        }
        proof {
            lemma_wf_frame(*old(self), *self);
        }
    }

    /// Change where a directional rule starts repeating; a repeating
    /// rule is left alone.
    pub fn set_end_tiling_start_from(&mut self, val: usize)
        requires
            old(self).wf(),
            val >= 1,
        ensures
            final(self).wf(),
            final(self).monitor() == old(self).monitor(),
            final(self).manual() == old(self).manual(),
            final(self).tilings() == old(self).tilings(),
            final(self).positions_view() == old(self).positions_view(),
            final(self).behaviour() == match old(self).behaviour() {
                EndTilingView::Directional { direction, from_zones, zone_idx, .. } => EndTilingView::Directional {
                    direction,
                    start_from: val as int,
                    from_zones,
                    zone_idx,
                },
                b => b,
            },
    {
        match &mut self.end_tiling_behaviour {
            EndTilingBehaviour::Directional { start_from, .. } => {
                *start_from = val;
            },
            EndTilingBehaviour::Repeating { .. } => {},
        }
        proof {
            lemma_wf_frame(*old(self), *self);
        }
    }

    /// Record one more cut in a repeating rule: the first cut starts a
    /// first group; every later call copies the last group and appends
    /// the new cut to the copy. A directional rule is left alone.
    pub fn add_repeating_split(
        &mut self,
        direction: Direction,
        ratio_num: u32,
        ratio_den: u32,
        split_idx_offset: usize,
        swap: bool,
    )
        requires
            old(self).wf(),
            0 < ratio_num < ratio_den,
        ensures
            final(self).wf(),
            final(self).monitor() == old(self).monitor(),
            final(self).manual() == old(self).manual(),
            final(self).tilings() == old(self).tilings(),
            final(self).positions_view() == old(self).positions_view(),
            final(self).behaviour() == match old(self).behaviour() {
                EndTilingView::Repeating { splits, zone_idx } => EndTilingView::Repeating {
                    splits: if splits.len() == 0 {
                        seq![
                            seq![
                                RepeatingSplit {
                                    direction,
                                    ratio_num,
                                    ratio_den,
                                    split_idx_offset,
                                    swap,
                                },
                            ],
                        ]
                    } else {
                        splits.push(
                            splits.last().push(
                                RepeatingSplit {
                                    direction,
                                    ratio_num,
                                    ratio_den,
                                    split_idx_offset,
                                    swap,
                                },
                            ),
                        )
                    },
                    zone_idx,
                },
                b => b,
            },
    {
        let s = RepeatingSplit { direction, ratio_num, ratio_den, split_idx_offset, swap };
        match &mut self.end_tiling_behaviour {
            EndTilingBehaviour::Repeating { splits, .. } => {
                if splits.len() == 0 {
                    let mut row: Vec<RepeatingSplit> = Vec::new();
                    row.push(s);
                    splits.push(row);
                    proof {
                        assert(splits@.map_values(|r2: Vec<RepeatingSplit>| r2@) =~= seq![
                            seq![s],
                        ]);
                    }
                } else {
                    let mut row = copy_splits_row(&splits[splits.len() - 1]);
                    row.push(s);
                    splits.push(row);
                    proof {
                        match old(self).behaviour() {
                            EndTilingView::Repeating { splits: oldsp, .. } => {
                                assert(splits@.map_values(|r2: Vec<RepeatingSplit>| r2@)
                                    =~= oldsp.push(oldsp.last().push(s)));
                            },
                            _ => {},
                        }
                    }
                }
            },
            EndTilingBehaviour::Directional { .. } => {},
        }
        proof {
            lemma_wf_frame(*old(self), *self);
        }
    }


    /// Change the `direction` of the cut at place `j` of group
    /// `i` of a repeating rule; a directional rule is left alone.
    pub fn set_repeating_split_direction(&mut self, i: usize, j: usize, direction: Direction)
        requires
            old(self).wf(),
            old(self).behaviour() matches EndTilingView::Repeating { splits, .. } ==> i
                < splits.len() && j < splits[i as int].len(),
        ensures
            final(self).wf(),
            final(self).monitor() == old(self).monitor(),
            final(self).manual() == old(self).manual(),
            final(self).tilings() == old(self).tilings(),
            final(self).positions_view() == old(self).positions_view(),
            final(self).behaviour() == match old(self).behaviour() {
                EndTilingView::Repeating { splits, zone_idx } => EndTilingView::Repeating {
                    splits: splits.update(
                        i as int,
                        splits[i as int].update(
                            j as int,
                            RepeatingSplit { direction: direction, ..splits[i as int][j as int] },
                        ),
                    ),
                    zone_idx,
                },
                b => b,
            },
    {
        match &mut self.end_tiling_behaviour {
            EndTilingBehaviour::Repeating { splits, .. } => {
                let mut row: Vec<RepeatingSplit> = Vec::new();
                vstd::pervasive::VecAdditionalExecFns::set_and_swap(splits, i, &mut row);
                let mut cut = row[j];
                cut.direction = direction;
                vstd::pervasive::VecAdditionalExecFns::set(&mut row, j, cut);
                vstd::pervasive::VecAdditionalExecFns::set_and_swap(splits, i, &mut row);
                proof {
                    match old(self).behaviour() {
                        EndTilingView::Repeating { splits: oldsp, .. } => {
                            assert(splits@.map_values(|r2: Vec<RepeatingSplit>| r2@) =~~= oldsp
                                .update(
                                i as int,
                                oldsp[i as int].update(
                                    j as int,
                                    RepeatingSplit {
                                        direction: direction,
                                        ..oldsp[i as int][j as int]
                                    },
                                ),
                            ));
                        },
                        _ => {},
                    }
                }
            },
            EndTilingBehaviour::Directional { .. } => {},
        }
        proof {
            lemma_wf_frame(*old(self), *self);
        }
    }

    /// Change the `split_idx_offset` of the cut at place `j` of group
    /// `i` of a repeating rule; a directional rule is left alone.
    pub fn set_repeating_split_idx_offset(&mut self, i: usize, j: usize, val: usize)
        requires
            old(self).wf(),
            old(self).behaviour() matches EndTilingView::Repeating { splits, .. } ==> i
                < splits.len() && j < splits[i as int].len(),
        ensures
            final(self).wf(),
            final(self).monitor() == old(self).monitor(),
            final(self).manual() == old(self).manual(),
            final(self).tilings() == old(self).tilings(),
            final(self).positions_view() == old(self).positions_view(),
            final(self).behaviour() == match old(self).behaviour() {
                EndTilingView::Repeating { splits, zone_idx } => EndTilingView::Repeating {
                    splits: splits.update(
                        i as int,
                        splits[i as int].update(
                            j as int,
                            RepeatingSplit { split_idx_offset: val, ..splits[i as int][j as int] },
                        ),
                    ),
                    zone_idx,
                },
                b => b,
            },
    {
        match &mut self.end_tiling_behaviour {
            EndTilingBehaviour::Repeating { splits, .. } => {
                let mut row: Vec<RepeatingSplit> = Vec::new();
                vstd::pervasive::VecAdditionalExecFns::set_and_swap(splits, i, &mut row);
                let mut cut = row[j];
                cut.split_idx_offset = val;
                vstd::pervasive::VecAdditionalExecFns::set(&mut row, j, cut);
                vstd::pervasive::VecAdditionalExecFns::set_and_swap(splits, i, &mut row);
                proof {
                    match old(self).behaviour() {
                        EndTilingView::Repeating { splits: oldsp, .. } => {
                            assert(splits@.map_values(|r2: Vec<RepeatingSplit>| r2@) =~~= oldsp
                                .update(
                                i as int,
                                oldsp[i as int].update(
                                    j as int,
                                    RepeatingSplit {
                                        split_idx_offset: val,
                                        ..oldsp[i as int][j as int]
                                    },
                                ),
                            ));
                        },
                        _ => {},
                    }
                }
            },
            EndTilingBehaviour::Directional { .. } => {},
        }
        proof {
            lemma_wf_frame(*old(self), *self);
        }
    }

    /// Change the `swap` of the cut at place `j` of group
    /// `i` of a repeating rule; a directional rule is left alone.
    pub fn set_repeating_split_swap(&mut self, i: usize, j: usize, val: bool)
        requires
            old(self).wf(),
            old(self).behaviour() matches EndTilingView::Repeating { splits, .. } ==> i
                < splits.len() && j < splits[i as int].len(),
        ensures
            final(self).wf(),
            final(self).monitor() == old(self).monitor(),
            final(self).manual() == old(self).manual(),
            final(self).tilings() == old(self).tilings(),
            final(self).positions_view() == old(self).positions_view(),
            final(self).behaviour() == match old(self).behaviour() {
                EndTilingView::Repeating { splits, zone_idx } => EndTilingView::Repeating {
                    splits: splits.update(
                        i as int,
                        splits[i as int].update(
                            j as int,
                            RepeatingSplit { swap: val, ..splits[i as int][j as int] },
                        ),
                    ),
                    zone_idx,
                },
                b => b,
            },
    {
        match &mut self.end_tiling_behaviour {
            EndTilingBehaviour::Repeating { splits, .. } => {
                let mut row: Vec<RepeatingSplit> = Vec::new();
                vstd::pervasive::VecAdditionalExecFns::set_and_swap(splits, i, &mut row);
                let mut cut = row[j];
                cut.swap = val;
                vstd::pervasive::VecAdditionalExecFns::set(&mut row, j, cut);
                vstd::pervasive::VecAdditionalExecFns::set_and_swap(splits, i, &mut row);
                proof {
                    match old(self).behaviour() {
                        EndTilingView::Repeating { splits: oldsp, .. } => {
                            assert(splits@.map_values(|r2: Vec<RepeatingSplit>| r2@) =~~= oldsp
                                .update(
                                i as int,
                                oldsp[i as int].update(
                                    j as int,
                                    RepeatingSplit {
                                        swap: val,
                                        ..oldsp[i as int][j as int]
                                    },
                                ),
                            ));
                        },
                        _ => {},
                    }
                }
            },
            EndTilingBehaviour::Directional { .. } => {},
        }
        proof {
            lemma_wf_frame(*old(self), *self);
        }
    }

    /// Change the cut ratio of the cut at place `j` of group `i` of a
    /// repeating rule to the fraction `ratio_num / ratio_den`; a
    /// directional rule is left alone.
    pub fn set_repeating_split_ratio(&mut self, i: usize, j: usize, ratio_num: u32, ratio_den: u32)
        requires
            old(self).wf(),
            0 < ratio_num < ratio_den,
            old(self).behaviour() matches EndTilingView::Repeating { splits, .. } ==> i
                < splits.len() && j < splits[i as int].len(),
        ensures
            final(self).wf(),
            final(self).monitor() == old(self).monitor(),
            final(self).manual() == old(self).manual(),
            final(self).tilings() == old(self).tilings(),
            final(self).positions_view() == old(self).positions_view(),
            final(self).behaviour() == match old(self).behaviour() {
                EndTilingView::Repeating { splits, zone_idx } => EndTilingView::Repeating {
                    splits: splits.update(
                        i as int,
                        splits[i as int].update(
                            j as int,
                            RepeatingSplit {
                                ratio_num,
                                ratio_den,
                                ..splits[i as int][j as int]
                            },
                        ),
                    ),
                    zone_idx,
                },
                b => b,
            },
    {
        match &mut self.end_tiling_behaviour {
            EndTilingBehaviour::Repeating { splits, .. } => {
                let mut row: Vec<RepeatingSplit> = Vec::new();
                vstd::pervasive::VecAdditionalExecFns::set_and_swap(splits, i, &mut row);
                let mut cut = row[j];
                cut.ratio_num = ratio_num;
                cut.ratio_den = ratio_den;
                vstd::pervasive::VecAdditionalExecFns::set(&mut row, j, cut);
                vstd::pervasive::VecAdditionalExecFns::set_and_swap(splits, i, &mut row);
                proof {
                    match old(self).behaviour() {
                        EndTilingView::Repeating { splits: oldsp, .. } => {
                            assert(splits@.map_values(|r2: Vec<RepeatingSplit>| r2@) =~~= oldsp
                                .update(
                                i as int,
                                oldsp[i as int].update(
                                    j as int,
                                    RepeatingSplit {
                                        ratio_num,
                                        ratio_den,
                                        ..oldsp[i as int][j as int]
                                    },
                                ),
                            ));
                        },
                        _ => {},
                    }
                }
            },
            EndTilingBehaviour::Directional { .. } => {},
        }
        proof {
            lemma_wf_frame(*old(self), *self);
        }
    }

    /// Remove the cut at place `j` of group `i` of a repeating rule; a
    /// directional rule is left alone.
    pub fn remove_repeating_split(&mut self, i: usize, j: usize)
        requires
            old(self).wf(),
            old(self).behaviour() matches EndTilingView::Repeating { splits, .. } ==> i
                < splits.len() && j < splits[i as int].len(),
        ensures
            final(self).wf(),
            final(self).monitor() == old(self).monitor(),
            final(self).manual() == old(self).manual(),
            final(self).tilings() == old(self).tilings(),
            final(self).positions_view() == old(self).positions_view(),
            final(self).behaviour() == match old(self).behaviour() {
                EndTilingView::Repeating { splits, zone_idx } => EndTilingView::Repeating {
                    splits: splits.update(i as int, splits[i as int].remove(j as int)),
                    zone_idx,
                },
                b => b,
            },
    {
        match &mut self.end_tiling_behaviour {
            EndTilingBehaviour::Repeating { splits, .. } => {
                let mut row: Vec<RepeatingSplit> = Vec::new();
                vstd::pervasive::VecAdditionalExecFns::set_and_swap(splits, i, &mut row);
                row.remove(j);
                vstd::pervasive::VecAdditionalExecFns::set_and_swap(splits, i, &mut row);
                proof {
                    match old(self).behaviour() {
                        EndTilingView::Repeating { splits: oldsp, .. } => {
                            assert(splits@.map_values(|r2: Vec<RepeatingSplit>| r2@) =~= oldsp
                                .update(i as int, oldsp[i as int].remove(j as int)));
                        },
                        _ => {},
                    }
                }
            },
            EndTilingBehaviour::Directional { .. } => {},
        }
        proof {
            lemma_wf_frame(*old(self), *self);
        }
    }
}

impl Layout {
    /// Cut zone `j` of tiling `i` at an absolute coordinate. The half
    /// nearer its boundary becomes a new zone appended at the end of
    /// the tiling, and the end-tiling rule is pointed at it.
    pub fn split(&mut self, i: usize, j: usize, direction: SplitDirection)
        requires
            old(self).wf(),
            i < old(self).tilings().len(),
            j < old(self).tilings()[i as int].len(),
            split_at_ok(old(self).tilings()[i as int][j as int], direction),
            old(self).tilings()[i as int].len() < usize::MAX,
        ensures
            final(self).wf(),
            final(self).monitor() == old(self).monitor(),
            final(self).manual() == old(self).manual(),
            final(self).tilings() == old(self).tilings().update(
                i as int,
                split_tiling(old(self).tilings()[i as int], j as int, direction),
            ),
            final(self).positions_view() == old(self).positions_view(),
            final(self).behaviour() == view_with_zone_idx(
                old(self).behaviour(),
                old(self).tilings()[i as int].len() as int,
            ),
    {
        proof {
            assert(old(self).tilings()[i as int] == self.zones@[i as int]@);
            assert(tiling_wf(self.monitor_rect, old(self).tilings()[i as int]));
        }
        let zone = self.zones[i][j];
        let mut rest = zone;
        let new_zone: Zone;
        match direction {
            SplitDirection::Horizontal(at) => {
                if at - zone.top < zone.h() / 2 {
                    new_zone = Zone {
                        left: zone.left,
                        top: zone.top,
                        right: zone.right,
                        bottom: at,
                    };
                    rest.top = at;
                } else {
                    new_zone = Zone {
                        left: zone.left,
                        top: at,
                        right: zone.right,
                        bottom: zone.bottom,
                    };
                    rest.bottom = at;
                }
            },
            SplitDirection::Vertical(at) => {
                if at - zone.left < zone.w() / 2 {
                    new_zone = Zone {
                        left: zone.left,
                        top: zone.top,
                        right: at,
                        bottom: zone.bottom,
                    };
                    rest.left = at;
                } else {
                    new_zone = Zone {
                        left: at,
                        top: zone.top,
                        right: zone.right,
                        bottom: zone.bottom,
                    };
                    rest.right = at;
                }
            },
        }
        let tiling_len = self.zones[i].len();
        self.set_end_zone_idx(tiling_len);
        let mut inner: Vec<Zone> = Vec::new();
        vstd::pervasive::VecAdditionalExecFns::set_and_swap(&mut self.zones, i, &mut inner);
        vstd::pervasive::VecAdditionalExecFns::set(&mut inner, j, rest);
        inner.push(new_zone);
        vstd::pervasive::VecAdditionalExecFns::set_and_swap(&mut self.zones, i, &mut inner);
        proof {
            let t = old(self).tilings()[i as int];
            assert(rest == crate::geometry::split_zone_rest(zone, direction));
            assert(new_zone == crate::geometry::split_zone_new(zone, direction));
            assert(self.tilings() =~= old(self).tilings().update(
                i as int,
                split_tiling(t, j as int, direction),
            ));
            lemma_split_tiling_wf(self.monitor_rect, t, j as int, direction);
            assert forall|k: int| 0 <= k < self.tilings().len() implies tiling_wf(
                self.monitor_rect,
                #[trigger] self.tilings()[k],
            ) by {
                if k != i {
                    assert(self.tilings()[k] == old(self).tilings()[k]);
                    assert(tiling_wf(old(self).monitor_rect, old(self).tilings()[k]));
                }
            }
        }
    }

    /// Exchange zones `j` and `k` of tiling `i`.
    pub fn swap_zones(&mut self, i: usize, j: usize, k: usize)
        requires
            old(self).wf(),
            i < old(self).tilings().len(),
            j < old(self).tilings()[i as int].len(),
            k < old(self).tilings()[i as int].len(),
        ensures
            final(self).wf(),
            final(self).monitor() == old(self).monitor(),
            final(self).manual() == old(self).manual(),
            final(self).tilings() == old(self).tilings().update(
                i as int,
                seq_swap(old(self).tilings()[i as int], j as int, k as int),
            ),
            final(self).positions_view() == old(self).positions_view(),
            final(self).behaviour() == old(self).behaviour(),
    {
        proof {
            assert(old(self).tilings()[i as int] == self.zones@[i as int]@);
        }
        if j == k {
            proof {
                let t = old(self).tilings()[i as int];
                assert(seq_swap(t, j as int, k as int) =~= t);
                assert(old(self).tilings().update(i as int, t) =~= old(self).tilings());
            }
            return ;
        }
        let a = self.zones[i][j];
        let b = self.zones[i][k];
        let mut inner: Vec<Zone> = Vec::new();
        vstd::pervasive::VecAdditionalExecFns::set_and_swap(&mut self.zones, i, &mut inner);
        vstd::pervasive::VecAdditionalExecFns::set(&mut inner, j, b);
        vstd::pervasive::VecAdditionalExecFns::set(&mut inner, k, a);
        vstd::pervasive::VecAdditionalExecFns::set_and_swap(&mut self.zones, i, &mut inner);
        proof {
            let t = old(self).tilings()[i as int];
            assert(self.tilings() =~= old(self).tilings().update(
                i as int,
                seq_swap(t, j as int, k as int),
            ));
            lemma_swap_tiling_wf(self.monitor_rect, t, j as int, k as int);
            assert forall|k2: int| 0 <= k2 < self.tilings().len() implies tiling_wf(
                self.monitor_rect,
                #[trigger] self.tilings()[k2],
            ) by {
                if k2 != i {
                    assert(self.tilings()[k2] == old(self).tilings()[k2]);
                    assert(tiling_wf(old(self).monitor_rect, old(self).tilings()[k2]));
                }
            }
        }
    }

    /// Whether zones `j` and `k` of tiling `i` are distinct and share
    /// a full edge, so that merging them yields a rectangle.
    pub fn can_merge_zones(&self, i: usize, j: usize, k: usize) -> (r: bool)
        requires
            self.wf(),
            i < self.tilings().len(),
            j < self.tilings()[i as int].len(),
            k < self.tilings()[i as int].len(),
        ensures
            r == (j != k && crate::geometry::zones_mergeable(
                self.tilings()[i as int][j as int],
                self.tilings()[i as int][k as int],
            )),
    {
        if j == k {
            return false;
        }
        proof {
            assert(self.tilings()[i as int] == self.zones@[i as int]@);
        }
        let first_zone = self.zones[i][j];
        let second_zone = self.zones[i][k];
        (first_zone.left == second_zone.left && first_zone.right == second_zone.right && (
        first_zone.bottom == second_zone.top || first_zone.top == second_zone.bottom)) || (
        first_zone.top == second_zone.top && first_zone.bottom == second_zone.bottom && (
        first_zone.right == second_zone.left || first_zone.left == second_zone.right))
    }

    /// Merge zones `j` and `k` of tiling `i` when they share a full
    /// edge: the lower-indexed zone is extended over the other, which
    /// is removed. Anything else is left unchanged.
    pub fn merge_zones(&mut self, i: usize, j: usize, k: usize)
        requires
            old(self).wf(),
            i < old(self).tilings().len(),
            j < old(self).tilings()[i as int].len(),
            k < old(self).tilings()[i as int].len(),
        ensures
            final(self).wf(),
            final(self).monitor() == old(self).monitor(),
            final(self).manual() == old(self).manual(),
            final(self).tilings() == if j == k {
                old(self).tilings()
            } else {
                old(self).tilings().update(
                    i as int,
                    merge_tiling(old(self).tilings()[i as int], j as int, k as int),
                )
            },
            final(self).positions_view() == old(self).positions_view(),
            final(self).behaviour() == old(self).behaviour(),
    {
        if j == k {
            return ;
        }
        proof {
            assert(old(self).tilings()[i as int] == self.zones@[i as int]@);
        }
        let first_idx = if j < k {
            j
        } else {
            k
        };
        let second_idx = if j < k {
            k
        } else {
            j
        };
        let a = self.zones[i][first_idx];
        let b = self.zones[i][second_idx];
        let mut merged = a;
        if a.left == b.left && a.right == b.right {
            if a.bottom == b.top {
                merged.bottom = b.bottom;
            } else if a.top == b.bottom {
                merged.top = b.top;
            } else {
                proof {
                    let t = old(self).tilings()[i as int];
                    assert(merge_tiling(t, j as int, k as int) == t);
                    assert(old(self).tilings().update(i as int, t) =~= old(self).tilings());
                }
                return ;
            }
        } else if a.top == b.top && a.bottom == b.bottom {
            if a.right == b.left {
                merged.right = b.right;
            } else if a.left == b.right {
                merged.left = b.left;
            } else {
                proof {
                    let t = old(self).tilings()[i as int];
                    assert(merge_tiling(t, j as int, k as int) == t);
                    assert(old(self).tilings().update(i as int, t) =~= old(self).tilings());
                }
                return ;
            }
        } else {
            proof {
                let t = old(self).tilings()[i as int];
                assert(merge_tiling(t, j as int, k as int) == t);
                assert(old(self).tilings().update(i as int, t) =~= old(self).tilings());
            }
            return ;
        }
        let mut inner: Vec<Zone> = Vec::new();
        vstd::pervasive::VecAdditionalExecFns::set_and_swap(&mut self.zones, i, &mut inner);
        vstd::pervasive::VecAdditionalExecFns::set(&mut inner, first_idx, merged);
        inner.remove(second_idx);
        vstd::pervasive::VecAdditionalExecFns::set_and_swap(&mut self.zones, i, &mut inner);
        proof {
            let t = old(self).tilings()[i as int];
            assert(merge_result(t[first_idx as int], t[second_idx as int]) == Some(merged));
            assert(self.tilings() =~= old(self).tilings().update(
                i as int,
                merge_tiling(t, j as int, k as int),
            ));
            lemma_merge_tiling_wf(self.monitor_rect, t, j as int, k as int);
            assert forall|k2: int| 0 <= k2 < self.tilings().len() implies tiling_wf(
                self.monitor_rect,
                #[trigger] self.tilings()[k2],
            ) by {
                if k2 != i {
                    assert(self.tilings()[k2] == old(self).tilings()[k2]);
                    assert(tiling_wf(old(self).monitor_rect, old(self).tilings()[k2]));
                }
            }
        }
    }

    /// Merge zones `j` and `k` of tiling `i`, cut the merged zone, and
    /// put the new zone where the removed one sat, so the tiling keeps
    /// its display order.
    pub fn merge_and_split_zones(&mut self, i: usize, j: usize, k: usize, direction: SplitDirection)
        requires
            old(self).wf(),
            i < old(self).tilings().len(),
            j < old(self).tilings()[i as int].len(),
            k < old(self).tilings()[i as int].len(),
            j != k,
            split_at_ok(
                merge_tiling(old(self).tilings()[i as int], j as int, k as int)[if j < k {
                    j as int
                } else {
                    k as int
                }],
                direction,
            ),
            old(self).tilings()[i as int].len() < usize::MAX,
        ensures
            final(self).wf(),
            final(self).monitor() == old(self).monitor(),
            final(self).manual() == old(self).manual(),
            final(self).tilings() == old(self).tilings().update(
                i as int,
                merge_split_move(
                    old(self).tilings()[i as int],
                    j as int,
                    k as int,
                    direction,
                ),
            ),
            final(self).positions_view() == old(self).positions_view(),
            final(self).behaviour() == view_with_zone_idx(
                old(self).behaviour(),
                merge_tiling(old(self).tilings()[i as int], j as int, k as int).len() as int,
            ),
    {
        let first_idx = if j < k {
            j
        } else {
            k
        };
        let second_idx = if j < k {
            k
        } else {
            j
        };
        proof {
            let t = old(self).tilings()[i as int];
            let tm = merge_tiling(t, j as int, k as int);
            if merge_result(t[first_idx as int], t[second_idx as int]) is Some {
                assert(tm.len() == t.len() - 1);
            } else {
                assert(tm == t);
            }
        }
        self.merge_zones(i, j, k);
        self.split(i, first_idx, direction);
        proof {
            let t = old(self).tilings()[i as int];
            let tm = merge_tiling(t, j as int, k as int);
            let ts = split_tiling(tm, first_idx as int, direction);
            assert(self.tilings()[i as int] == ts);
            assert(ts.len() == tm.len() + 1);
        }
        self.move_last_zone_to(i, second_idx);
        proof {
            let t = old(self).tilings()[i as int];
            let tm = merge_tiling(t, j as int, k as int);
            let ts = split_tiling(tm, first_idx as int, direction);
            assert(merge_split_move(t, j as int, k as int, direction) == ts.drop_last().insert(
                second_idx as int,
                ts.last(),
            ));
            assert(self.tilings() =~~= old(self).tilings().update(
                i as int,
                merge_split_move(t, j as int, k as int, direction),
            ));
        }
    }

    /// Move the last zone of tiling `i` to position `pos`.
    fn move_last_zone_to(&mut self, i: usize, pos: usize)
        requires
            old(self).wf(),
            i < old(self).tilings().len(),
            old(self).tilings()[i as int].len() >= 1,
            pos <= old(self).tilings()[i as int].len() - 1,
        ensures
            final(self).wf(),
            final(self).monitor() == old(self).monitor(),
            final(self).manual() == old(self).manual(),
            final(self).tilings() == old(self).tilings().update(
                i as int,
                old(self).tilings()[i as int].drop_last().insert(
                    pos as int,
                    old(self).tilings()[i as int].last(),
                ),
            ),
            final(self).positions_view() == old(self).positions_view(),
            final(self).behaviour() == old(self).behaviour(),
    {
        proof {
            assert(old(self).tilings()[i as int] == self.zones@[i as int]@);
        }
        let mut inner: Vec<Zone> = Vec::new();
        vstd::pervasive::VecAdditionalExecFns::set_and_swap(&mut self.zones, i, &mut inner);
        let last = inner.len() - 1;
        let z = inner.remove(last);
        inner.insert(pos, z);
        vstd::pervasive::VecAdditionalExecFns::set_and_swap(&mut self.zones, i, &mut inner);
        proof {
            let t = old(self).tilings()[i as int];
            assert(t.remove(t.len() - 1) =~= t.drop_last());
            assert(self.zones@[i as int]@ == t.drop_last().insert(pos as int, t.last()));
            assert(self.tilings() =~~= old(self).tilings().update(
                i as int,
                t.drop_last().insert(pos as int, t.last()),
            ));
            crate::geometry::lemma_reinsert_tiling_wf(self.monitor_rect, t, pos as int);
            assert forall|k2: int| 0 <= k2 < self.tilings().len() implies tiling_wf(
                self.monitor_rect,
                #[trigger] self.tilings()[k2],
            ) by {
                if k2 != i {
                    assert(self.tilings()[k2] == old(self).tilings()[k2]);
                    assert(tiling_wf(old(self).monitor_rect, old(self).tilings()[k2]));
                }
            }
        }
    }
}

impl Layout {
    /// Recompute the cached placements for the given paddings. On a
    /// directional rule that starts above one, the first call pops
    /// the last manual tiling and captures it as the base the rule
    /// repeats from.
    pub fn update(&mut self, window_padding: i32, edge_padding: i32)
        requires
            old(self).wf(),
            padding_wf(window_padding as int, edge_padding as int),
            !old(self).materialized() ==> old(self).tilings().len() == old(self).manual()
                && old(self).manual() >= 1,
        ensures
            final(self).wf(),
            final(self).monitor() == old(self).monitor(),
            final(self).materialized(),
            final(self).positions_ok(window_padding as int, edge_padding as int),
            old(self).materialized() ==> final(self).tilings() == old(self).tilings()
                && final(self).manual() == old(self).manual() && final(self).behaviour() == old(self).behaviour(),
            !old(self).materialized() ==> final(self).tilings() == old(self).tilings().drop_last()
                && final(self).manual() == old(self).manual() - 1 && final(self).behaviour()
                == (match old(self).behaviour() {
                EndTilingView::Directional { direction, start_from, zone_idx, .. } => EndTilingView::Directional {
                    direction,
                    start_from,
                    from_zones: Some(old(self).tilings().last()),
                    zone_idx,
                },
                b => b,
            }),
            old(self).sized() ==> final(self).sized(),
            old(self).ready() ==> final(self).ready() && final(self).extendable(),
    {
        let needs = match &self.end_tiling_behaviour {
            EndTilingBehaviour::Directional { start_from, from_zones, .. } => *start_from > 1
                && from_zones.is_none(),
            EndTilingBehaviour::Repeating { .. } => false,
        };
        if needs {
            let last_idx = self.zones.len() - 1;
            let popped = self.zones.remove(last_idx);
            self.manual_zones_until = self.manual_zones_until - 1;
            match &mut self.end_tiling_behaviour {
                EndTilingBehaviour::Directional { from_zones, .. } => {
                    *from_zones = Some(popped);
                },
                EndTilingBehaviour::Repeating { .. } => {},
            }
            proof {
                assert(old(self).tilings().remove(old(self).tilings().len() - 1) =~= old(self).tilings().drop_last());
                assert(self.tilings() == old(self).tilings().drop_last());
                assert(popped@ == old(self).tilings().last());
                assert(tiling_wf(self.monitor_rect, popped@));
                assert forall|k: int| 0 <= k < self.tilings().len() implies tiling_wf(
                    self.monitor_rect,
                    #[trigger] self.tilings()[k],
                ) by {
                    assert(self.tilings()[k] == old(self).tilings()[k]);
                    assert(tiling_wf(old(self).monitor_rect, old(self).tilings()[k]));
                }
                if old(self).sized() {
                    assert forall|k: int| 0 <= k < self.tilings().len() implies (
                    #[trigger] self.tilings()[k]).len() == k + 1 by {
                        assert(self.tilings()[k] == old(self).tilings()[k]);
                        assert(old(self).tilings()[k].len() == k + 1);
                    }
                }
            }
        } else {
            proof {
                if old(self).sized() {
                    assert forall|k: int| 0 <= k < self.tilings().len() implies (
                    #[trigger] self.tilings()[k]).len() == k + 1 by {
                        assert(old(self).tilings()[k].len() == k + 1);
                    }
                }
            }
        }
        let mon = Zone {
            left: self.monitor_rect.left,
            top: self.monitor_rect.top,
            right: self.monitor_rect.right,
            bottom: self.monitor_rect.bottom,
        };
        let fresh = compute_positions(&self.zones, mon, window_padding, edge_padding);
        self.positions = fresh;
        proof {
            if old(self).ready() {
                if old(self).materialized() {
                    lemma_extendable_frame(*old(self), *self);
                } else {
                    match self.behaviour() {
                        EndTilingView::Directional { start_from, from_zones, zone_idx, .. } => {
                            assert(from_zones matches Some(fz) && fz == old(self).tilings().last());
                            assert(old(self).tilings().last().len() == old(self).manual());
                        },
                        EndTilingView::Repeating { .. } => {},
                    }
                    assert(self.extendable());
                }
                assert forall|k: int| 0 <= k < self.tilings().len() implies (
                #[trigger] self.tilings()[k]).len() == k + 1 by {
                    assert(self.tilings()[k] == old(self).tilings()[k]);
                    assert(old(self).tilings()[k].len() == k + 1);
                }
            }
        }
    }
}

/// The placement of one zone under the given paddings, exactly as
/// `position_of` describes it.
fn compute_position(z: Zone, mon: Zone, window_padding: i32, edge_padding: i32) -> (p: Position)
    requires
        z.wf(),
        mon.wf(),
        padding_wf(window_padding as int, edge_padding as int),
    ensures
        position_of(p, z, mon, window_padding as int, edge_padding as int),
{
    let mut p = Position {
        x: z.left - crate::geometry::BORDER_COMPENSATION + window_padding,
        y: z.top + window_padding,
        cx: (z.right - z.left) + 2 * crate::geometry::BORDER_COMPENSATION - 2 * window_padding,
        cy: (z.bottom - z.top) + crate::geometry::BORDER_COMPENSATION - 2 * window_padding,
    };
    if z.left == mon.left {
        p.x = p.x - window_padding + edge_padding;
        p.cx = p.cx + window_padding - edge_padding;
    }
    if z.top == mon.top {
        p.y = p.y - window_padding + edge_padding;
        p.cy = p.cy + window_padding - edge_padding;
    }
    if z.right == mon.right {
        p.cx = p.cx + window_padding - edge_padding;
    }
    if z.bottom == mon.bottom {
        p.cy = p.cy + window_padding - edge_padding;
    }
    p
}

/// Placements for every zone of every tiling.
fn compute_positions(zones: &Vec<Vec<Zone>>, mon: Zone, window_padding: i32, edge_padding: i32) -> (r: Vec<
    Vec<Position>,
>)
    requires
        mon.wf(),
        padding_wf(window_padding as int, edge_padding as int),
        forall|i: int|
            0 <= i < zones@.len() ==> crate::geometry::tiling_boxed(
                mon,
                #[trigger] deep_zones(zones@)[i],
            ),
    ensures
        deep_positions(r@).len() == zones@.len(),
        forall|i: int|
            0 <= i < zones@.len() ==> (#[trigger] deep_positions(r@)[i]).len() == deep_zones(
                zones@,
            )[i].len(),
        forall|i: int, j: int|
            0 <= i < zones@.len() && 0 <= j < deep_zones(zones@)[i].len() ==> position_of(
                #[trigger] deep_positions(r@)[i][j],
                deep_zones(zones@)[i][j],
                mon,
                window_padding as int,
                edge_padding as int,
            ),
{
    let mut r: Vec<Vec<Position>> = Vec::new();
    let mut i: usize = 0;
    while i < zones.len()
        invariant
            mon.wf(),
            padding_wf(window_padding as int, edge_padding as int),
            forall|k: int|
                0 <= k < zones@.len() ==> crate::geometry::tiling_boxed(
                    mon,
                    #[trigger] deep_zones(zones@)[k],
                ),
            i <= zones@.len(),
            deep_positions(r@).len() == i,
            forall|k: int|
                0 <= k < i ==> (#[trigger] deep_positions(r@)[k]).len() == deep_zones(
                    zones@,
                )[k].len(),
            forall|k: int, j: int|
                0 <= k < i && 0 <= j < deep_zones(zones@)[k].len() ==> position_of(
                    #[trigger] deep_positions(r@)[k][j],
                    deep_zones(zones@)[k][j],
                    mon,
                    window_padding as int,
                    edge_padding as int,
                ),
        decreases zones@.len() - i,
    {
        let mut row: Vec<Position> = Vec::new();
        let mut j: usize = 0;
        while j < zones[i].len()
            invariant
                mon.wf(),
                padding_wf(window_padding as int, edge_padding as int),
                i < zones@.len(),
                crate::geometry::tiling_boxed(mon, deep_zones(zones@)[i as int]),
                j <= deep_zones(zones@)[i as int].len(),
                row@.len() == j,
                forall|jj: int|
                    0 <= jj < j ==> position_of(
                        #[trigger] row@[jj],
                        deep_zones(zones@)[i as int][jj],
                        mon,
                        window_padding as int,
                        edge_padding as int,
                    ),
            decreases zones@[i as int]@.len() - j,
        {
            proof {
                assert(deep_zones(zones@)[i as int][j as int] == zones@[i as int]@[j as int]);
                assert(deep_zones(zones@)[i as int][j as int].wf());
            }
            let z = zones[i][j];
            let p = compute_position(z, mon, window_padding, edge_padding);
            row.push(p);
            j = j + 1;
        }
        let ghost r0 = r@;
        r.push(row);
        i = i + 1;
        proof {
            assert(r@ == r0.push(row));
            assert(deep_positions(r@).len() == i);
            assert forall|k: int| 0 <= k < i implies (#[trigger] deep_positions(r@)[k]).len()
                == deep_zones(zones@)[k].len() by {
                if k < i - 1 {
                    assert(deep_positions(r@)[k] == r0[k]@);
                    assert(deep_positions(r0)[k] == r0[k]@);
                } else {
                    assert(deep_positions(r@)[k] == row@);
                }
            }
            assert forall|k: int, jj: int|
                0 <= k < i && 0 <= jj < deep_zones(zones@)[k].len() implies position_of(
                #[trigger] deep_positions(r@)[k][jj],
                deep_zones(zones@)[k][jj],
                mon,
                window_padding as int,
                edge_padding as int,
            ) by {
                if k < i - 1 {
                    assert(deep_positions(r@)[k] == r0[k]@);
                    assert(deep_positions(r0)[k] == r0[k]@);
                    assert(position_of(
                        deep_positions(r0)[k][jj],
                        deep_zones(zones@)[k][jj],
                        mon,
                        window_padding as int,
                        edge_padding as int,
                    ));
                } else {
                    assert(deep_positions(r@)[k] == row@);
                    assert(position_of(
                        row@[jj],
                        deep_zones(zones@)[k][jj],
                        mon,
                        window_padding as int,
                        edge_padding as int,
                    ));
                }
            }
        }
    }
    r
}

impl Layout {
    /// Derive one more tiling by the end-tiling rule and append it:
    /// the new tiling holds one more zone than the last one.
    pub fn extend(&mut self)
        requires
            old(self).wf(),
            old(self).sized(),
            old(self).materialized(),
            old(self).extendable(),
            old(self).tilings().len() < COORD_LIMIT as int,
        ensures
            final(self).wf(),
            final(self).sized(),
            final(self).materialized(),
            final(self).extendable(),
            final(self).monitor() == old(self).monitor(),
            final(self).manual() == old(self).manual(),
            final(self).behaviour() == old(self).behaviour(),
            final(self).positions_view() == old(self).positions_view(),
            final(self).tilings().len() == old(self).tilings().len() + 1,
            forall|k: int|
                0 <= k < old(self).tilings().len() ==> final(self).tilings()[k] == old(self).tilings()[k],
    {
        let ghost n0g = old(self).tilings().len() as int;
        let end_zone_idx = self.get_end_zone_idx();
        let mut directional = false;
        let mut dir = Direction::Horizontal;
        let mut sf: usize = 1;
        match &self.end_tiling_behaviour {
            EndTilingBehaviour::Directional { direction, start_from, .. } => {
                directional = true;
                dir = *direction;
                sf = *start_from;
            },
            EndTilingBehaviour::Repeating { .. } => {},
        }
        if directional {
            proof {
                assert(self.behaviour() is Directional);
            }
            let base: Vec<Zone>;
            if sf == 1 {
                base = copy_zone_vec(&self.zones[self.manual_zones_until - 1]);
            } else {
                base = match &self.end_tiling_behaviour {
                    EndTilingBehaviour::Directional { from_zones: Some(fz), .. } => copy_zone_vec(
                        fz,
                    ),
                    _ => vstd::pervasive::unreached(),
                };
            }
            proof {
                assert(tiling_wf(self.monitor_rect, base@));
                assert(base@.len() <= n0g + 1);
                assert(end_zone_idx < base@.len());
            }
            self.zones.push(base);
            let last = self.zones.len() - 1;
            proof {
                assert(self.tilings() =~= old(self).tilings().push(base@));
                assert forall|k: int| 0 <= k < self.tilings().len() implies tiling_wf(
                    self.monitor_rect,
                    #[trigger] self.tilings()[k],
                ) by {
                    if k < n0g {
                        assert(self.tilings()[k] == old(self).tilings()[k]);
                        assert(tiling_wf(old(self).monitor_rect, old(self).tilings()[k]));
                    }
                }
            }
            let base_len = self.zones[last].len();
            let divisor = (self.zones.len() - base_len) + 1;
            let target_zone = self.zones[last][end_zone_idx];
            let span: i32 = match dir {
                Direction::Horizontal => target_zone.h(),
                Direction::Vertical => target_zone.w(),
            };
            let offset: i32 = span / (divisor as i32);
            proof {
                let d = divisor as int;
                assert(offset as int == span as int / d);
                assert(0 <= span as int / d <= span as int) by (nonlinear_arith)
                    requires
                        span >= 0,
                        d >= 1,
                ;
            }
            while self.zones[last].len() < self.zones.len()
                invariant
                    self.wf(),
                    self.monitor() == old(self).monitor(),
                    self.manual() == old(self).manual(),
                    self.positions_view() == old(self).positions_view(),
                    self.behaviour() == old(self).behaviour(),
                    self.tilings().len() == n0g + 1,
                    last as int == n0g,
                    forall|k: int|
                        0 <= k < n0g ==> #[trigger] self.tilings()[k] == old(self).tilings()[k],
                    (end_zone_idx as int) < self.tilings()[last as int].len(),
                    self.tilings()[last as int].len() <= n0g + 1,
                    n0g + 1 < usize::MAX,
                    end_zone_idx as int == view_zone_idx(old(self).behaviour()),
                    offset >= 0,
                    dir matches Direction::Horizontal ==> offset
                        <= self.tilings()[last as int][end_zone_idx as int].spec_h(),
                    dir matches Direction::Vertical ==> offset
                        <= self.tilings()[last as int][end_zone_idx as int].spec_w(),
                decreases n0g + 1 - self.tilings()[last as int].len(),
            {
                let ghost t_pre = self.tilings()[last as int];
                proof {
                    assert(tiling_wf(self.monitor_rect, t_pre));
                    assert(t_pre[end_zone_idx as int].wf());
                }
                match dir {
                    Direction::Horizontal => {
                        let at = self.zones[last][end_zone_idx].top + offset;
                        self.split(last, end_zone_idx, SplitDirection::Horizontal(at));
                    },
                    Direction::Vertical => {
                        let at = self.zones[last][end_zone_idx].left + offset;
                        self.split(last, end_zone_idx, SplitDirection::Vertical(at));
                    },
                }
                self.set_end_zone_idx(end_zone_idx);
                proof {
                    match old(self).behaviour() {
                        EndTilingView::Directional { zone_idx, .. } => {
                            assert(zone_idx == end_zone_idx as int);
                        },
                        EndTilingView::Repeating { zone_idx, .. } => {
                            assert(zone_idx == end_zone_idx as int);
                        },
                    }
                    assert(view_with_zone_idx(
                        view_with_zone_idx(old(self).behaviour(), t_pre.len() as int),
                        end_zone_idx as int,
                    ) == old(self).behaviour());
                }
            }
            let mut ri = self.zones.len() - 1;
            while ri > end_zone_idx + 1
                invariant
                    self.wf(),
                    self.monitor() == old(self).monitor(),
                    self.manual() == old(self).manual(),
                    self.positions_view() == old(self).positions_view(),
                    self.behaviour() == old(self).behaviour(),
                    self.tilings().len() == n0g + 1,
                    last as int == n0g,
                    forall|k: int|
                        0 <= k < n0g ==> #[trigger] self.tilings()[k] == old(self).tilings()[k],
                    (end_zone_idx as int) < self.tilings()[last as int].len(),
                    self.tilings()[last as int].len() == n0g + 1,
                    ri <= n0g,
                    n0g < 0x10_0000,
                decreases ri,
            {
                ri = ri - 1;
                self.swap_zones(last, end_zone_idx, ri);
            }
            proof {
                lemma_extended_shape(*old(self), *self, n0g);
            }
        } else {
            proof {
                assert(self.behaviour() is Repeating);
            }
            let n0 = self.zones.len();
            let m0 = self.manual_zones_until;
            let s_len: usize;
            let row: Vec<RepeatingSplit>;
            let r_idx: usize;
            match &self.end_tiling_behaviour {
                EndTilingBehaviour::Repeating { splits, .. } => {
                    s_len = splits.len();
                    r_idx = (n0 - m0) % s_len;
                    proof {
                        lemma_mod_le(n0 as int - m0 as int, s_len as int);
                        match old(self).behaviour() {
                            EndTilingView::Repeating { splits: sp, .. } => {
                                assert(sp[r_idx as int].len() == r_idx + 1);
                                assert(sp[r_idx as int] == splits@[r_idx as int]@);
                            },
                            _ => {},
                        }
                    }
                    row = copy_splits_row(&splits[r_idx]);
                },
                EndTilingBehaviour::Directional { .. } => {
                    s_len = 0;
                    r_idx = 0;
                    row = vstd::pervasive::unreached();
                },
            }
            let base = copy_zone_vec(&self.zones[n0 - 1 - r_idx]);
            proof {
                assert(base@ == old(self).tilings()[n0 - 1 - r_idx]);
                assert(tiling_wf(self.monitor_rect, base@));
                assert(base@.len() == n0 - r_idx);
            }
            self.zones.push(base);
            let last = n0;
            let first_application = (n0 - m0) / s_len == 0;
            proof {
                lemma_div_zero_iff(n0 as int - m0 as int, s_len as int);
                match old(self).behaviour() {
                    EndTilingView::Repeating { splits, .. } => {
                        assert forall|ii: int| 0 <= ii < row@.len() implies (
                        #[trigger] row@[ii]).split_idx_offset <= (if ii == 0 {
                            s_len as int
                        } else {
                            ii
                        }) by {
                            assert(row@[ii] == splits[r_idx as int][ii]);
                        }
                    },
                    _ => {},
                }
            }
            proof {
                assert(self.tilings() =~= old(self).tilings().push(base@));
                assert forall|k: int| 0 <= k < self.tilings().len() implies tiling_wf(
                    self.monitor_rect,
                    #[trigger] self.tilings()[k],
                ) by {
                    if k < n0g {
                        assert(self.tilings()[k] == old(self).tilings()[k]);
                        assert(tiling_wf(old(self).monitor_rect, old(self).tilings()[k]));
                    }
                }
                vstd::arithmetic::div_mod::lemma_fundamental_div_mod(
                    n0 as int - m0 as int,
                    s_len as int,
                );
                if !first_application {
                    assert((n0 - m0) as int / s_len as int >= 1);
                    assert(s_len as int * ((n0 - m0) as int / s_len as int) >= s_len as int)
                        by (nonlinear_arith)
                        requires
                            s_len as int >= 1,
                            (n0 - m0) as int / s_len as int >= 1,
                    ;
                    assert(n0 as int - r_idx as int >= m0 as int + s_len as int);
                }
            }
            let mut i: usize = 0;
            while i < row.len()
                invariant
                    self.wf(),
                    self.monitor() == old(self).monitor(),
                    self.manual() == old(self).manual(),
                    self.positions_view() == old(self).positions_view(),
                    self.behaviour() == old(self).behaviour(),
                    self.tilings().len() == n0g + 1,
                    last as int == n0g,
                    n0 as int == n0g,
                    m0 as int == old(self).manual(),
                    1 <= m0 <= n0,
                    forall|k: int|
                        0 <= k < n0g ==> #[trigger] self.tilings()[k] == old(self).tilings()[k],
                    old(self).behaviour() matches EndTilingView::Repeating { splits, zone_idx }
                        && splits.len() == s_len as int && 0 <= zone_idx < m0 && row@ == splits[r_idx as int],
                    s_len >= 1,
                    r_idx as int == (n0 as int - m0 as int) % s_len as int,
                    r_idx < s_len,
                    row@.len() == r_idx + 1,
                    i <= row@.len(),
                    forall|ii: int|
                        0 <= ii < row@.len() ==> (#[trigger] row@[ii]).split_idx_offset <= (if ii
                            == 0 {
                            s_len as int
                        } else {
                            ii
                        }),
                    end_zone_idx as int == view_zone_idx(old(self).behaviour()),
                    self.tilings()[last as int].len() == n0 as int - r_idx as int + i as int,
                    first_application <==> ((n0 as int - m0 as int) < (s_len as int)),
                    !first_application ==> n0 as int - r_idx as int >= m0 as int + s_len as int,
                    n0g + 1 < usize::MAX,
                decreases row@.len() - i,
            {
                let ghost t_pre = self.tilings()[last as int];
                proof {
                    assert(self.tilings()[last as int] == self.zones@[last as int]@);
                }
                let cur_len = self.zones[last].len();
                let sp = row[i];
                proof {
                    assert(cur_len as int == t_pre.len());
                    assert(sp == row@[i as int]);
                    assert(sp.split_idx_offset <= (if i == 0 {
                        s_len as int
                    } else {
                        i as int
                    }));
                    match old(self).behaviour() {
                        EndTilingView::Repeating { splits, .. } => {
                            assert(sp == splits[r_idx as int][i as int]);
                            assert(splits[r_idx as int][i as int].wf());
                        },
                        _ => {},
                    }
                }
                proof {
                    lemma_mod_le(n0 as int - m0 as int, s_len as int);
                    if first_application {
                        vstd::arithmetic::div_mod::lemma_small_mod(
                            (n0 - m0) as nat,
                            s_len as nat,
                        );
                    }
                }
                let split_idx: usize;
                if i == 0 {
                    if first_application {
                        split_idx = self.get_end_zone_idx();
                        proof {
                            assert(r_idx as int == n0 as int - m0 as int);
                            assert((cur_len as int) == (m0 as int));
                            assert((split_idx as int) < (cur_len as int));
                        }
                    } else {
                        split_idx = cur_len - 1 - s_len + sp.split_idx_offset;
                    }
                } else {
                    split_idx = cur_len - 1 - i + sp.split_idx_offset;
                }
                proof {
                    assert((split_idx as int) < (cur_len as int));
                    assert(tiling_wf(self.monitor_rect, t_pre));
                    assert(t_pre[split_idx as int].wf());
                }
                let target = self.zones[last][split_idx];
                match sp.direction {
                    Direction::Horizontal => {
                        let at = split_coordinate(
                            target.top,
                            target.h(),
                            sp.ratio_num,
                            sp.ratio_den,
                        );
                        self.split(last, split_idx, SplitDirection::Horizontal(at));
                    },
                    Direction::Vertical => {
                        let at = split_coordinate(
                            target.left,
                            target.w(),
                            sp.ratio_num,
                            sp.ratio_den,
                        );
                        self.split(last, split_idx, SplitDirection::Vertical(at));
                    },
                }
                self.set_end_zone_idx(end_zone_idx);
                proof {
                    assert(view_with_zone_idx(
                        view_with_zone_idx(old(self).behaviour(), t_pre.len() as int),
                        end_zone_idx as int,
                    ) == old(self).behaviour());
                }
                if sp.swap {
                    proof {
                        assert(deep_zones(self.zones@).len() == self.zones@.len());
                        assert(self.zones@.len() == self.tilings().len());
                        assert(self.tilings()[last as int] == self.zones@[last as int]@);
                        assert(self.tilings()[last as int].len() == t_pre.len() + 1);
                    }
                    let ln = self.zones[last].len();
                    self.swap_zones(last, split_idx, ln - 1);
                }
                i = i + 1;
            }
            proof {
                lemma_extended_shape(*old(self), *self, n0g);
            }
        }
    }
}

/// `b` extends `a` by one tiling of the right size: the sized and
/// extendable properties carry over.
proof fn lemma_extended_shape(a: Layout, b: Layout, n0: int)
    requires
        a.wf(),
        a.sized(),
        a.materialized(),
        a.extendable(),
        b.wf(),
        n0 == a.tilings().len(),
        b.tilings().len() == n0 + 1,
        b.tilings()[n0].len() == n0 + 1,
        forall|k: int| 0 <= k < n0 ==> #[trigger] b.tilings()[k] == a.tilings()[k],
        b.manual() == a.manual(),
        b.behaviour() == a.behaviour(),
    ensures
        b.sized(),
        b.materialized(),
        b.extendable(),
{
    assert forall|k: int| 0 <= k < b.tilings().len() implies (#[trigger] b.tilings()[k]).len() == k
        + 1 by {
        if k < n0 {
            assert(b.tilings()[k] == a.tilings()[k]);
            assert(a.tilings()[k].len() == k + 1);
        }
    }
    match a.behaviour() {
        EndTilingView::Directional { start_from, from_zones, zone_idx, .. } => {
            if start_from == 1 {
                assert(b.tilings()[a.manual() - 1] == a.tilings()[a.manual() - 1]);
            }
        },
        EndTilingView::Repeating { .. } => {},
    }
}

/// A non-negative dividend divides to zero exactly when it is below
/// the divisor.
proof fn lemma_div_zero_iff(a: int, b: int)
    requires
        a >= 0,
        b >= 1,
    ensures
        (a / b == 0) <==> (a < b),
{
    vstd::arithmetic::div_mod::lemma_fundamental_div_mod(a, b);
    let q = a / b;
    let r = a % b;
    assert(0 <= r < b);
    assert(a == b * q + r);
    if a < b {
        assert(b * q < b && b * q > -b);
        assert(q == 0) by (nonlinear_arith)
            requires
                b >= 1,
                b * q < b,
                b * q > -b,
        ;
    } else {
        assert(b * q == a - r && a - r > 0);
        assert(q >= 1) by (nonlinear_arith)
            requires
                b >= 1,
                b * q > 0,
        ;
    }
}

/// For a non-negative dividend the remainder is no larger than it.
proof fn lemma_mod_le(a: int, b: int)
    requires
        a >= 0,
        b >= 1,
    ensures
        0 <= a % b <= a,
        a % b < b,
{
    if a < b {
        vstd::arithmetic::div_mod::lemma_small_mod(a as nat, b as nat);
    } else {
        assert(0 <= a % b < b);
    }
}

impl Layout {
    /// A fresh layout holding the same value.
    fn duplicate(&self) -> (r: Layout)
        ensures
            r.monitor() == self.monitor(),
            r.tilings() == self.tilings(),
            r.manual() == self.manual(),
            r.behaviour() == self.behaviour(),
            r.positions_view() == self.positions_view(),
    {
        let r = Layout {
            monitor_rect: self.monitor_rect,
            zones: copy_tilings(&self.zones),
            manual_zones_until: self.manual_zones_until,
            end_tiling_behaviour: duplicate_behaviour(&self.end_tiling_behaviour),
            positions: copy_all_positions(&self.positions),
        };
        r
    }
}

/// A fresh list of tilings holding the same zones.
fn copy_tilings(src: &Vec<Vec<Zone>>) -> (r: Vec<Vec<Zone>>)
    ensures
        deep_zones(r@) == deep_zones(src@),
        r@.len() == src@.len(),
{
    let mut r: Vec<Vec<Zone>> = Vec::new();
    let mut k: usize = 0;
    while k < src.len()
        invariant
            k <= src.len(),
            r@.len() == k,
            forall|i: int| 0 <= i < k ==> #[trigger] r@[i]@ == src@[i]@,
        decreases src.len() - k,
    {
        let t = copy_zone_vec(&src[k]);
        r.push(t);
        k = k + 1;
    }
    proof {
        assert(deep_zones(r@) =~= deep_zones(src@));
    }
    r
}

/// A fresh list of placement rows holding the same placements.
fn copy_all_positions(src: &Vec<Vec<Position>>) -> (r: Vec<Vec<Position>>)
    ensures
        deep_positions(r@) == deep_positions(src@),
{
    let mut r: Vec<Vec<Position>> = Vec::new();
    let mut k: usize = 0;
    while k < src.len()
        invariant
            k <= src.len(),
            r@.len() == k,
            forall|i: int| 0 <= i < k ==> #[trigger] r@[i]@ == src@[i]@,
        decreases src.len() - k,
    {
        let mut row: Vec<Position> = Vec::new();
        let mut j: usize = 0;
        while j < src[k].len()
            invariant
                k < src@.len(),
                j <= src@[k as int]@.len(),
                row@ == src@[k as int]@.subrange(0, j as int),
            decreases src@[k as int]@.len() - j,
        {
            row.push(src[k][j]);
            j = j + 1;
            proof {
                assert(row@ =~= src@[k as int]@.subrange(0, j as int));
            }
        }
        proof {
            assert(row@ =~= src@[k as int]@);
        }
        r.push(row);
        k = k + 1;
    }
    proof {
        assert(deep_positions(r@) =~= deep_positions(src@));
    }
    r
}

/// A fresh behaviour holding the same value.
fn duplicate_behaviour(src: &EndTilingBehaviour) -> (r: EndTilingBehaviour)
    ensures
        etb_view(r) == etb_view(*src),
{
    match src {
        EndTilingBehaviour::Directional { direction, start_from, from_zones, zone_idx } => {
            let fz: Option<Vec<Zone>> = match from_zones {
                Some(v) => Some(copy_zone_vec(v)),
                None => None,
            };
            EndTilingBehaviour::Directional {
                direction: *direction,
                start_from: *start_from,
                from_zones: fz,
                zone_idx: *zone_idx,
            }
        },
        EndTilingBehaviour::Repeating { splits, zone_idx } => {
            let mut sp: Vec<Vec<RepeatingSplit>> = Vec::new();
            let mut k: usize = 0;
            while k < splits.len()
                invariant
                    k <= splits@.len(),
                    sp@.len() == k,
                    forall|i: int| 0 <= i < k ==> #[trigger] sp@[i]@ == splits@[i]@,
                decreases splits@.len() - k,
            {
                let row = copy_splits_row(&splits[k]);
                sp.push(row);
                k = k + 1;
            }
            proof {
                assert(sp@.map_values(|row: Vec<RepeatingSplit>| row@) =~= splits@.map_values(
                    |row: Vec<RepeatingSplit>| row@,
                ));
            }
            EndTilingBehaviour::Repeating { splits: sp, zone_idx: *zone_idx }
        },
    }
}

/// A named bundle of layout variants for one monitor, with a default
/// variant.
#[derive(Debug)]
pub struct LayoutGroup {
    layouts: Vec<Layout>,
    default_idx: usize,
}

impl LayoutGroup {
    /// The layout variants.
    pub closed spec fn variants(self) -> Seq<Layout> {
        self.layouts@
    }

    /// Which variant is the default.
    pub closed spec fn default_view(self) -> int {
        self.default_idx as int
    }

    /// The work-area all variants tile.
    pub open spec fn monitor(self) -> Zone {
        self.variants()[self.default_view()].monitor()
    }

    /// At least one variant, a default in range, every variant
    /// well-formed on the common work-area, which has real extent.
    pub open spec fn wf(self) -> bool {
        &&& self.variants().len() >= 1
        &&& 0 <= self.default_view() < self.variants().len()
        &&& forall|i: int|
            0 <= i < self.variants().len() ==> (#[trigger] self.variants()[i]).wf()
                && self.variants()[i].monitor() == self.monitor()
        &&& self.monitor().spec_w() >= 1
        &&& self.monitor().spec_h() >= 1
    }

    /// A group the manager can adopt: well-formed with every variant
    /// ready.
    pub open spec fn ready(self) -> bool {
        &&& self.wf()
        &&& forall|i: int| 0 <= i < self.variants().len() ==> (#[trigger] self.variants()[i]).ready()
    }

    /// Every variant prepared: base captured and placements current.
    pub open spec fn prepared(self, wp: int, ep: int) -> bool {
        &&& forall|i: int|
            0 <= i < self.variants().len() ==> (#[trigger] self.variants()[i]).prepared(wp, ep)
        &&& forall|i: int|
            0 <= i < self.variants().len() ==> (#[trigger] self.variants()[i]).extendable()
                && self.variants()[i].sized()
    }

    /// A group holding one fresh layout for a `w` by `h` work-area at
    /// the origin.
    pub fn new(w: i32, h: i32) -> (r: Self)
        requires
            1 <= w <= COORD_LIMIT,
            1 <= h <= COORD_LIMIT,
        ensures
            r.ready(),
            r.variants().len() == 1,
            r.default_view() == 0,
            r.monitor() == (Zone { left: 0, top: 0, right: w, bottom: h }),
            r.variants()[0].tilings() =~= seq![
                seq![Zone { left: 0, top: 0, right: w, bottom: h }],
            ],
            r.variants()[0].manual() == 1,
            r.variants()[0].positions_view() =~= Seq::<Seq<Position>>::empty(),
            r.variants()[0].behaviour() == (EndTilingView::Directional {
                direction: Direction::Horizontal,
                start_from: 1int,
                from_zones: None::<Seq<Zone>>,
                zone_idx: 0int,
            }),
    {
        let l = Layout::new(w, h);
        let mut layouts: Vec<Layout> = Vec::new();
        layouts.push(l);
        LayoutGroup { layouts, default_idx: 0 }
    }

    /// Which variant is the default.
    pub fn default_idx(&self) -> (r: usize)
        ensures
            r as int == self.default_view(),
    {
        self.default_idx
    }

    /// Make variant `i` the default.
    pub fn set_default_idx(&mut self, i: usize)
        requires
            i < old(self).variants().len(),
        ensures
            final(self).variants() == old(self).variants(),
            final(self).default_view() == i as int,
    {
        self.default_idx = i;
    }

    /// The variants, for reading.
    pub fn get_layouts(&self) -> (r: &Vec<Layout>)
        ensures
            r@ == self.variants(),
    {
        &self.layouts
    }

    /// The variants, for editing.
    pub fn get_layouts_mut(&mut self) -> (r: &mut Vec<Layout>)
        ensures
            r@ == old(self).variants(),
            final(r)@ == final(self).variants(),
            final(self).default_view() == old(self).default_view(),
    {
        &mut self.layouts
    }

    /// How many variants the group holds.
    pub fn layouts_len(&self) -> (r: usize)
        ensures
            r as int == self.variants().len(),
    {
        self.layouts.len()
    }

    /// Run `update` on every variant.
    pub fn update_all(&mut self, window_padding: i32, edge_padding: i32)
        requires
            padding_wf(window_padding as int, edge_padding as int),
            forall|i: int|
                0 <= i < old(self).variants().len() ==> (#[trigger] old(self).variants()[i]).update_ok(),
        ensures
            final(self).variants().len() == old(self).variants().len(),
            final(self).default_view() == old(self).default_view(),
            forall|i: int|
                0 <= i < final(self).variants().len() ==> (#[trigger] final(self).variants()[i]).wf()
                    && final(self).variants()[i].prepared(
                    window_padding as int,
                    edge_padding as int,
                ) && final(self).variants()[i].monitor() == old(self).variants()[i].monitor(),
            (forall|i: int|
                0 <= i < old(self).variants().len() ==> (#[trigger] old(self).variants()[i]).ready())
                ==> forall|i: int|
                0 <= i < final(self).variants().len() ==> (#[trigger] final(self).variants()[i]).ready()
                    && final(self).variants()[i].extendable() && final(self).variants()[i].sized(),
            old(self).wf() ==> final(self).wf(),
    {
        let mut k: usize = 0;
        while k < self.layouts.len()
            invariant
                padding_wf(window_padding as int, edge_padding as int),
                self.layouts@.len() == old(self).variants().len(),
                self.default_idx == old(self).default_idx,
                k <= self.layouts@.len(),
                forall|i: int|
                    k <= i < self.layouts@.len() ==> #[trigger] self.layouts@[i] == old(self).variants()[i],
                forall|i: int|
                    0 <= i < old(self).variants().len() ==> (#[trigger] old(self).variants()[i]).update_ok(),
                forall|i: int|
                    0 <= i < k ==> (#[trigger] self.layouts@[i]).wf() && self.layouts@[i].prepared(
                        window_padding as int,
                        edge_padding as int,
                    ) && self.layouts@[i].monitor() == old(self).variants()[i].monitor() && (old(self).variants()[i].ready() ==> self.layouts@[i].ready()
                        && self.layouts@[i].extendable() && self.layouts@[i].sized()),
                forall|i: int|
                    0 <= i < k && (#[trigger] old(self).variants()[i]).materialized()
                        ==> self.layouts@[i].tilings() == old(self).variants()[i].tilings()
                        && self.layouts@[i].manual() == old(self).variants()[i].manual()
                        && self.layouts@[i].behaviour() == old(self).variants()[i].behaviour(),
                forall|i: int|
                    0 <= i < k && !(#[trigger] old(self).variants()[i]).materialized()
                        ==> self.layouts@[i].tilings() == old(self).variants()[i].tilings().drop_last()
                        && self.layouts@[i].manual() == old(self).variants()[i].manual() - 1
                        && self.layouts@[i].behaviour() == (match old(self).variants()[i].behaviour() {
                        EndTilingView::Directional { direction, start_from, zone_idx, .. } => EndTilingView::Directional {
                            direction,
                            start_from,
                            from_zones: Some(old(self).variants()[i].tilings().last()),
                            zone_idx,
                        },
                        b => b,
                    }),
            decreases self.layouts@.len() - k,
        {
            let mut l = Layout::new(0, 0);
            vstd::pervasive::VecAdditionalExecFns::set_and_swap(&mut self.layouts, k, &mut l);
            l.update(window_padding, edge_padding);
            vstd::pervasive::VecAdditionalExecFns::set_and_swap(&mut self.layouts, k, &mut l);
            k = k + 1;
        }
        proof {
            if old(self).wf() {
                assert(self.variants()[self.default_view()].monitor() == old(self).monitor());
            }
        }
    }

    /// Append a copy of variant `idx` as a new variant.
    pub fn new_variant_from(&mut self, idx: usize)
        requires
            idx < old(self).variants().len(),
            old(self).variants().len() < usize::MAX,
        ensures
            final(self).variants().len() == old(self).variants().len() + 1,
            final(self).default_view() == old(self).default_view(),
            forall|i: int|
                0 <= i < old(self).variants().len() ==> #[trigger] final(self).variants()[i] == old(self).variants()[i],
            final(self).variants().last().monitor() == old(self).variants()[idx as int].monitor(),
            final(self).variants().last().tilings() == old(self).variants()[idx as int].tilings(),
            final(self).variants().last().manual() == old(self).variants()[idx as int].manual(),
            final(self).variants().last().behaviour() == old(self).variants()[idx as int].behaviour(),
            final(self).variants().last().positions_view() == old(self).variants()[idx as int].positions_view(),
            old(self).wf() ==> final(self).wf(),
            old(self).ready() ==> final(self).ready(),
    {
        let l = self.layouts[idx].duplicate();
        self.layouts.push(l);
        proof {
            if old(self).ready() {
                let a = old(self).variants()[idx as int];
                let b = self.variants().last();
                assert(a.ready());
                lemma_ready_frame(a, b);
            }
        }
    }

    /// Extend variant `v` until it caches placements for at least
    /// `need` windows, refreshing the placements after each step. A
    /// variant that is already long enough is left untouched.
    pub fn extend_variant_until(
        &mut self,
        v: usize,
        need: usize,
        window_padding: i32,
        edge_padding: i32,
    )
        requires
            old(self).wf(),
            (v as int) < old(self).variants().len(),
            old(self).variants()[v as int].prepared(
                window_padding as int,
                edge_padding as int,
            ),
            old(self).variants()[v as int].extendable(),
            old(self).variants()[v as int].sized(),
            padding_wf(window_padding as int, edge_padding as int),
            need <= COORD_LIMIT,
        ensures
            final(self).wf(),
            final(self).default_view() == old(self).default_view(),
            final(self).variants().len() == old(self).variants().len(),
            final(self).monitor() == old(self).monitor(),
            forall|i: int|
                0 <= i < final(self).variants().len() && i != v as int ==> #[trigger] final(self).variants()[i] == old(self).variants()[i],
            final(self).variants()[v as int].prepared(
                window_padding as int,
                edge_padding as int,
            ),
            final(self).variants()[v as int].extendable(),
            final(self).variants()[v as int].sized(),
            final(self).variants()[v as int].monitor() == old(self).variants()[v as int].monitor(),
            final(self).variants()[v as int].positions_view().len() >= need,
            old(self).variants()[v as int].positions_view().len() >= need ==> final(self).variants()
                =~= old(self).variants(),
            old(self).ready() ==> final(self).ready(),
            // the variant only grows: existing tilings and cached rows
            // persist unchanged
            forall|k: int|
                0 <= k < old(self).variants()[v as int].tilings().len() ==> #[trigger] final(self).variants()[v as int].tilings()[k] == old(self).variants()[v as int].tilings()[k],
            forall|k: int|
                0 <= k < old(self).variants()[v as int].positions_view().len() ==> #[trigger] final(self).variants()[v as int].positions_view()[k] == old(self).variants()[v as int].positions_view()[k],
    {
        let ghost o = *old(self);
        let mut l = Layout::new(0, 0);
        vstd::pervasive::VecAdditionalExecFns::set_and_swap(&mut self.layouts, v, &mut l);
        while l.positions_len() < need
            invariant
                l.wf(),
                l.sized(),
                l.materialized(),
                l.extendable(),
                l.prepared(window_padding as int, edge_padding as int),
                l.monitor() == o.variants()[v as int].monitor(),
                padding_wf(window_padding as int, edge_padding as int),
                need <= COORD_LIMIT,
                l.positions_view().len() == l.tilings().len(),
                o.variants()[v as int].positions_view().len() >= need ==> l == o.variants()[v as int],
                forall|k: int|
                    0 <= k < o.variants()[v as int].tilings().len() ==> #[trigger] l.tilings()[k]
                        == o.variants()[v as int].tilings()[k],
                l.tilings().len() >= o.variants()[v as int].tilings().len(),
            decreases need - l.positions_view().len(),
        {
            l.extend();
            l.update(window_padding, edge_padding);
        }
        vstd::pervasive::VecAdditionalExecFns::set_and_swap(&mut self.layouts, v, &mut l);
        proof {
            if o.variants()[v as int].positions_view().len() >= need {
                assert(self.variants() =~= o.variants());
            }
            let ov = o.variants()[v as int];
            let nv = self.variants()[v as int];
            assert forall|k: int| 0 <= k < ov.positions_view().len() implies #[trigger] nv.positions_view()[k] == ov.positions_view()[k] by {
                assert(ov.positions_ok(window_padding as int, edge_padding as int));
                assert(nv.positions_ok(window_padding as int, edge_padding as int));
                assert(ov.positions_view().len() == ov.tilings().len());
                assert(nv.tilings()[k] == ov.tilings()[k]);
                assert(nv.positions_view()[k].len() == nv.tilings()[k].len());
                assert(ov.positions_view()[k].len() == ov.tilings()[k].len());
                assert forall|j: int| 0 <= j < ov.positions_view()[k].len() implies nv.positions_view()[k][j] == ov.positions_view()[k][j] by {
                    assert(position_of(
                        nv.positions_view()[k][j],
                        nv.tilings()[k][j],
                        nv.monitor(),
                        window_padding as int,
                        edge_padding as int,
                    ));
                    assert(position_of(
                        ov.positions_view()[k][j],
                        ov.tilings()[k][j],
                        ov.monitor(),
                        window_padding as int,
                        edge_padding as int,
                    ));
                }
                assert(nv.positions_view()[k] =~= ov.positions_view()[k]);
            }
            assert(self.variants()[o.default_view()].monitor() == o.monitor());
            if o.ready() {
                assert forall|i: int| 0 <= i < self.variants().len() implies (
                #[trigger] self.variants()[i]).ready() by {
                    if i != v as int {
                        assert(self.variants()[i] == o.variants()[i]);
                        assert(o.variants()[i].ready());
                    } else {
                        assert(o.variants()[i].ready());
                    }
                }
            }
            assert forall|i: int| 0 <= i < self.variants().len() implies (
            #[trigger] self.variants()[i]).wf() && self.variants()[i].monitor()
                == self.monitor() by {
                if i != v as int {
                    assert(self.variants()[i] == o.variants()[i]);
                    assert(o.variants()[i].wf());
                    assert(o.variants()[i].monitor() == o.monitor());
                }
            }
        }
    }

    /// Rebuild a group from stored parts: per variant its monitor
    /// work-area, tilings, manual count and end-tiling behaviour. The
    /// placements are recomputed by the next `update_all`.
    pub fn from_parts(
        parts: Vec<(Zone, Vec<Vec<Zone>>, usize, EndTilingBehaviour)>,
        default_idx: usize,
    ) -> (r: LayoutGroup)
        requires
            parts@.len() >= 1,
            default_idx < parts@.len(),
            forall|i: int|
                0 <= i < parts@.len() ==> ({
                    let p = #[trigger] parts@[i];
                    &&& p.0.wf()
                    &&& p.0 == parts@[0].0
                    &&& p.0.spec_w() >= 1
                    &&& p.0.spec_h() >= 1
                    &&& p.2 <= p.1@.len()
                    &&& behaviour_wf(etb_view(p.3), p.0)
                    &&& forall|k: int|
                        0 <= k < p.1@.len() ==> tiling_wf(p.0, #[trigger] deep_zones(p.1@)[k])
                }),
        ensures
            r.wf(),
            r.default_view() == default_idx as int,
            r.variants().len() == parts@.len(),
            forall|i: int|
                0 <= i < parts@.len() ==> ({
                    let p = #[trigger] parts@[i];
                    &&& r.variants()[i].monitor() == p.0
                    &&& r.variants()[i].tilings() == deep_zones(p.1@)
                    &&& r.variants()[i].manual() == p.2
                    &&& r.variants()[i].behaviour() == etb_view(p.3)
                    &&& r.variants()[i].positions_view() =~= Seq::<Seq<Position>>::empty()
                }),
    {
        let mut layouts: Vec<Layout> = Vec::new();
        let mut parts = parts;
        let n = parts.len();
        let ghost parts0 = parts@;
        let mut i: usize = 0;
        while i < n
            invariant
                parts@.len() == parts0.len(),
                forall|k: int| i <= k < parts0.len() ==> #[trigger] parts@[k] == parts0[k],
                n == parts0.len(),
                n >= 1,
                forall|k: int|
                    0 <= k < parts0.len() ==> ({
                        let p = #[trigger] parts0[k];
                        &&& p.0.wf()
                        &&& p.0 == parts0[0].0
                        &&& p.0.spec_w() >= 1
                        &&& p.0.spec_h() >= 1
                        &&& p.2 <= p.1@.len()
                        &&& behaviour_wf(etb_view(p.3), p.0)
                        &&& forall|k2: int|
                            0 <= k2 < p.1@.len() ==> tiling_wf(
                                p.0,
                                #[trigger] deep_zones(p.1@)[k2],
                            )
                    }),
                i <= n,
                layouts@.len() == i,
                forall|k: int|
                    0 <= k < i ==> ({
                        let p = #[trigger] parts0[k];
                        &&& layouts@[k].wf()
                        &&& layouts@[k].monitor() == p.0
                        &&& layouts@[k].tilings() == deep_zones(p.1@)
                        &&& layouts@[k].manual() == p.2
                        &&& layouts@[k].behaviour() == etb_view(p.3)
                        &&& layouts@[k].positions_view() =~= Seq::<Seq<Position>>::empty()
                    }),
            decreases n - i,
        {
            let dummy: (Zone, Vec<Vec<Zone>>, usize, EndTilingBehaviour) = (
                Zone { left: 0, top: 0, right: 0, bottom: 0 },
                Vec::new(),
                0,
                EndTilingBehaviour::default_directional(),
            );
            let mut part = dummy;
            vstd::pervasive::VecAdditionalExecFns::set_and_swap(&mut parts, i, &mut part);
            let (monitor_rect, zones, manual_zones_until, end_tiling_behaviour) = part;
            proof {
                assert(parts0[i as int].1@ == zones@);
            }
            let l = Layout {
                monitor_rect,
                zones,
                manual_zones_until,
                end_tiling_behaviour,
                positions: Vec::new(),
            };
            proof {
                assert(l.tilings() == deep_zones(parts0[i as int].1@));
                assert forall|k2: int| 0 <= k2 < l.tilings().len() implies tiling_wf(
                    l.monitor(),
                    #[trigger] l.tilings()[k2],
                ) by {
                    assert(deep_zones(parts0[i as int].1@)[k2] == l.tilings()[k2]);
                }
            }
            layouts.push(l);
            i = i + 1;
        }
        let r = LayoutGroup { layouts, default_idx };
        proof {
            assert(r.monitor() == parts0[r.default_view()].0);
            assert forall|k: int| 0 <= k < r.variants().len() implies (
            #[trigger] r.variants()[k]).wf() && r.variants()[k].monitor() == r.monitor() by {
                assert(parts0[k].0 == parts0[0].0);
                assert(parts0[r.default_view()].0 == parts0[0].0);
            }
        }
        r
    }

    /// A fresh group holding the same variants and default.
    pub fn duplicate(&self) -> (r: LayoutGroup)
        ensures
            r.default_view() == self.default_view(),
            r.variants().len() == self.variants().len(),
            forall|i: int|
                0 <= i < self.variants().len() ==> (#[trigger] r.variants()[i]).monitor()
                    == self.variants()[i].monitor() && r.variants()[i].tilings()
                    == self.variants()[i].tilings() && r.variants()[i].manual()
                    == self.variants()[i].manual() && r.variants()[i].behaviour()
                    == self.variants()[i].behaviour() && r.variants()[i].positions_view()
                    == self.variants()[i].positions_view(),
            self.wf() ==> r.wf(),
            self.ready() ==> r.ready(),
            forall|wp: int, ep: int|
                #[trigger] self.prepared(wp, ep) ==> r.prepared(wp, ep),
    {
        let mut layouts: Vec<Layout> = Vec::new();
        let mut k: usize = 0;
        while k < self.layouts.len()
            invariant
                k <= self.variants().len(),
                layouts@.len() == k,
                forall|i: int|
                    0 <= i < k ==> (#[trigger] layouts@[i]).monitor()
                        == self.variants()[i].monitor() && layouts@[i].tilings()
                        == self.variants()[i].tilings() && layouts@[i].manual()
                        == self.variants()[i].manual() && layouts@[i].behaviour()
                        == self.variants()[i].behaviour() && layouts@[i].positions_view()
                        == self.variants()[i].positions_view(),
            decreases self.variants().len() - k,
        {
            let l = self.layouts[k].duplicate();
            layouts.push(l);
            k = k + 1;
        }
        let r = LayoutGroup { layouts, default_idx: self.default_idx };
        proof {
            if self.wf() {
                assert forall|i: int| 0 <= i < r.variants().len() implies (
                #[trigger] r.variants()[i]).wf() && r.variants()[i].monitor() == r.monitor() by {
                    assert(self.variants()[i].wf());
                    lemma_wf_frame(self.variants()[i], r.variants()[i]);
                    assert(self.variants()[i].monitor() == self.monitor());
                }
            }
            if self.ready() {
                assert forall|i: int| 0 <= i < r.variants().len() implies (
                #[trigger] r.variants()[i]).ready() by {
                    assert(self.variants()[i].ready());
                    lemma_ready_frame(self.variants()[i], r.variants()[i]);
                }
            }
            assert forall|wp: int, ep: int| #[trigger] self.prepared(wp, ep) implies r.prepared(
                wp,
                ep,
            ) by {
                assert forall|i: int| 0 <= i < r.variants().len() implies (
                #[trigger] r.variants()[i]).prepared(wp, ep) && r.variants()[i].extendable()
                    && r.variants()[i].sized() by {
                    assert(self.variants()[i].prepared(wp, ep));
                    assert(self.variants()[i].extendable() && self.variants()[i].sized());
                    lemma_extendable_frame(self.variants()[i], r.variants()[i]);
                }
            }
        }
        r
    }

    /// Exchange variants `i` and `j`; whichever of the two was the
    /// default stays the default.
    pub fn swap_variants(&mut self, i: usize, j: usize)
        requires
            i < old(self).variants().len(),
            j < old(self).variants().len(),
        ensures
            final(self).variants() == seq_swap(old(self).variants(), i as int, j as int),
            final(self).default_view() == (if old(self).default_view() == i as int {
                j as int
            } else if old(self).default_view() == j as int {
                i as int
            } else {
                old(self).default_view()
            }),
            old(self).wf() ==> final(self).wf(),
            old(self).ready() ==> final(self).ready(),
    {
        if i == j {
            proof {
                assert(seq_swap(old(self).variants(), i as int, j as int) =~= old(self).variants());
            }
            return ;
        }
        if self.default_idx == i {
            self.default_idx = j;
        } else if self.default_idx == j {
            self.default_idx = i;
        }
        let mut tmp = Layout::new(0, 0);
        vstd::pervasive::VecAdditionalExecFns::set_and_swap(&mut self.layouts, i, &mut tmp);
        vstd::pervasive::VecAdditionalExecFns::set_and_swap(&mut self.layouts, j, &mut tmp);
        vstd::pervasive::VecAdditionalExecFns::set_and_swap(&mut self.layouts, i, &mut tmp);
        proof {
            assert(self.variants() =~= seq_swap(old(self).variants(), i as int, j as int));
            if old(self).wf() {
                assert(self.monitor() == old(self).monitor());
                assert forall|k: int| 0 <= k < self.variants().len() implies (
                #[trigger] self.variants()[k]).wf() && self.variants()[k].monitor()
                    == self.monitor() by {
                    let sk = if k == i as int {
                        j as int
                    } else if k == j as int {
                        i as int
                    } else {
                        k
                    };
                    assert(self.variants()[k] == old(self).variants()[sk]);
                }
            }
            if old(self).ready() {
                assert forall|k: int| 0 <= k < self.variants().len() implies (
                #[trigger] self.variants()[k]).ready() by {
                    let sk = if k == i as int {
                        j as int
                    } else if k == j as int {
                        i as int
                    } else {
                        k
                    };
                    assert(self.variants()[k] == old(self).variants()[sk]);
                    assert(old(self).variants()[sk].ready());
                }
            }
        }
    }
}

impl LayoutGroup {
    /// Re-project a group onto another monitor work-area: `None` when
    /// the target equals the work-area the group was designed for;
    /// otherwise a new group whose every zone — captured base tilings
    /// included — is carried over by translation and round-to-nearest
    /// scaling, with no placements cached yet.
    pub fn convert_for_monitor(layout_group: &LayoutGroup, monitor_rect: Zone) -> (r: Option<
        LayoutGroup,
    >)
        requires
            layout_group.wf(),
            monitor_rect.wf(),
            monitor_rect.spec_w() >= 1,
            monitor_rect.spec_h() >= 1,
        ensures
            r is None <==> monitor_rect == layout_group.monitor(),
            r matches Some(g) ==> {
                &&& g.wf()
                &&& g.monitor() == monitor_rect
                &&& g.default_view() == layout_group.default_view()
                &&& g.variants().len() == layout_group.variants().len()
                &&& forall|i: int|
                    0 <= i < g.variants().len() ==> (#[trigger] g.variants()[i]).tilings()
                        == scale_tilings(
                        layout_group.variants()[i].tilings(),
                        layout_group.monitor(),
                        monitor_rect,
                    )
                &&& forall|i: int|
                    0 <= i < g.variants().len() ==> (#[trigger] g.variants()[i]).manual()
                        == layout_group.variants()[i].manual() && g.variants()[i].positions_view()
                        =~= Seq::<Seq<Position>>::empty()
                // each variant's end-tiling rule is carried over, a
                // captured directional base scaled like the tilings
                &&& forall|i: int|
                    0 <= i < g.variants().len() ==> (#[trigger] g.variants()[i]).behaviour()
                        == (match layout_group.variants()[i].behaviour() {
                        EndTilingView::Directional { direction, start_from, from_zones, zone_idx } => EndTilingView::Directional {
                            direction,
                            start_from,
                            from_zones: match from_zones {
                                Some(fz) => Some(
                                    crate::geometry::scale_tiling(
                                        fz,
                                        layout_group.monitor(),
                                        monitor_rect,
                                    ),
                                ),
                                None => None::<Seq<Zone>>,
                            },
                            zone_idx,
                        },
                        b => b,
                    })
                &&& layout_group.ready() ==> forall|i: int|
                    0 <= i < g.variants().len() ==> (#[trigger] g.variants()[i]).ready()
            },
    {
        let src = *layout_group.get_layouts()[layout_group.default_idx()].get_monitor_rect();
        proof {
            assert(src == layout_group.monitor());
        }
        if monitor_rect == src {
            return None;
        }
        let mut layouts: Vec<Layout> = Vec::new();
        let n = layout_group.layouts.len();
        let mut k: usize = 0;
        while k < n
            invariant
                layout_group.wf(),
                monitor_rect.wf(),
                monitor_rect.spec_w() >= 1,
                monitor_rect.spec_h() >= 1,
                src == layout_group.monitor(),
                n == layout_group.variants().len(),
                k <= n,
                layouts@.len() == k,
                forall|i: int|
                    0 <= i < k ==> (#[trigger] layouts@[i]).tilings() == scale_tilings(
                        layout_group.variants()[i].tilings(),
                        layout_group.monitor(),
                        monitor_rect,
                    ),
                forall|i: int|
                    0 <= i < k ==> (#[trigger] layouts@[i]).monitor() == monitor_rect
                        && layouts@[i].wf() && layouts@[i].manual()
                        == layout_group.variants()[i].manual() && layouts@[i].positions_view()
                        =~= Seq::<Seq<Position>>::empty(),
                forall|i: int|
                    0 <= i < k && layout_group.variants()[i].ready() ==> (
                    #[trigger] layouts@[i]).ready(),
                forall|i: int|
                    0 <= i < k ==> (#[trigger] layouts@[i]).behaviour() == (
                    match layout_group.variants()[i].behaviour() {
                        EndTilingView::Directional { direction, start_from, from_zones, zone_idx } => EndTilingView::Directional {
                            direction,
                            start_from,
                            from_zones: match from_zones {
                                Some(fz) => Some(
                                    crate::geometry::scale_tiling(fz, src, monitor_rect),
                                ),
                                None => None::<Seq<Zone>>,
                            },
                            zone_idx,
                        },
                        b => b,
                    }),
            decreases n - k,
        {
            let l = scale_layout(&layout_group.layouts[k], src, monitor_rect);
            layouts.push(l);
            k = k + 1;
        }
        let g = LayoutGroup { layouts, default_idx: layout_group.default_idx };
        proof {
            assert(g.variants()[g.default_view()].monitor() == monitor_rect);
            if layout_group.ready() {
                assert forall|i: int| 0 <= i < g.variants().len() implies (
                #[trigger] g.variants()[i]).ready() by {
                    assert(layout_group.variants()[i].ready());
                }
            }
        }
        Some(g)
    }
}

/// The tilings of a layout carried tiling by tiling to another
/// work-area.
pub open spec fn scale_tilings(ts: Seq<Seq<Zone>>, src: Zone, dst: Zone) -> Seq<Seq<Zone>> {
    ts.map_values(|t: Seq<Zone>| crate::geometry::scale_tiling(t, src, dst))
}

/// One layout carried to another work-area: every zone of every
/// tiling scaled, the captured base tiling scaled too, placements
/// dropped.
fn scale_layout(l: &Layout, src: Zone, dst: Zone) -> (r: Layout)
    requires
        l.wf(),
        l.monitor() == src,
        crate::geometry::scalable(src, dst),
    ensures
        r.wf(),
        r.monitor() == dst,
        r.manual() == l.manual(),
        r.tilings() == scale_tilings(l.tilings(), src, dst),
        r.positions_view() =~= Seq::<Seq<Position>>::empty(),
        l.ready() ==> r.ready(),
        r.behaviour() == (match l.behaviour() {
            EndTilingView::Directional { direction, start_from, from_zones, zone_idx } => EndTilingView::Directional {
                direction,
                start_from,
                from_zones: match from_zones {
                    Some(fz) => Some(crate::geometry::scale_tiling(fz, src, dst)),
                    None => None::<Seq<Zone>>,
                },
                zone_idx,
            },
            b => b,
        }),
    {
    let mut zones: Vec<Vec<Zone>> = Vec::new();
    let n = l.zones.len();
    let mut k: usize = 0;
    while k < n
        invariant
            l.wf(),
            l.monitor() == src,
            crate::geometry::scalable(src, dst),
            n == l.tilings().len(),
            k <= n,
            zones@.len() == k,
            forall|i: int|
                0 <= i < k ==> #[trigger] zones@[i]@ == crate::geometry::scale_tiling(
                    l.tilings()[i],
                    src,
                    dst,
                ),
        decreases n - k,
    {
        proof {
            assert(tiling_wf(src, l.tilings()[k as int]));
        }
        let t = scale_tiling_exec(&l.zones[k], src, dst);
        zones.push(t);
        k = k + 1;
    }
    let behaviour: EndTilingBehaviour = match &l.end_tiling_behaviour {
        EndTilingBehaviour::Directional { direction, start_from, from_zones, zone_idx } => {
            let fz: Option<Vec<Zone>> = match from_zones {
                Some(v) => {
                    proof {
                        assert(tiling_wf(src, v@));
                    }
                    Some(scale_tiling_exec(v, src, dst))
                },
                None => None,
            };
            EndTilingBehaviour::Directional {
                direction: *direction,
                start_from: *start_from,
                from_zones: fz,
                zone_idx: *zone_idx,
            }
        },
        EndTilingBehaviour::Repeating { splits, zone_idx } => {
            let mut sp: Vec<Vec<RepeatingSplit>> = Vec::new();
            let mut q: usize = 0;
            while q < splits.len()
                invariant
                    q <= splits@.len(),
                    sp@.len() == q,
                    forall|i: int| 0 <= i < q ==> #[trigger] sp@[i]@ == splits@[i]@,
                decreases splits@.len() - q,
            {
                let row = copy_splits_row(&splits[q]);
                sp.push(row);
                q = q + 1;
            }
            proof {
                assert(sp@.map_values(|row: Vec<RepeatingSplit>| row@) =~= splits@.map_values(
                    |row: Vec<RepeatingSplit>| row@,
                ));
            }
            EndTilingBehaviour::Repeating { splits: sp, zone_idx: *zone_idx }
        },
    };
    let r = Layout {
        monitor_rect: dst,
        zones,
        manual_zones_until: l.manual_zones_until,
        end_tiling_behaviour: behaviour,
        positions: Vec::new(),
    };
    proof {
        assert(r.tilings() =~= scale_tilings(l.tilings(), src, dst));
        assert forall|i: int| 0 <= i < r.tilings().len() implies tiling_wf(
            dst,
            #[trigger] r.tilings()[i],
        ) by {
            assert(r.tilings()[i] == crate::geometry::scale_tiling(l.tilings()[i], src, dst));
            assert(tiling_wf(src, l.tilings()[i]));
            crate::geometry::lemma_scale_tiling_wf(l.tilings()[i], src, dst);
        }
        match l.behaviour() {
            EndTilingView::Directional { from_zones, .. } => {
                match from_zones {
                    Some(fz) => {
                        assert(tiling_wf(src, fz));
                        crate::geometry::lemma_scale_tiling_wf(fz, src, dst);
                    },
                    None => {},
                }
            },
            EndTilingView::Repeating { splits, .. } => {
                match r.behaviour() {
                    EndTilingView::Repeating { splits: rs, .. } => {
                        assert(rs == splits);
                        assert forall|k: int, i2: int|
                            0 <= k < rs.len() && 0 <= i2 < rs[k].len() implies (
                        #[trigger] rs[k][i2]).wf() by {
                            assert(rs[k] == splits[k]);
                            assert(rs[k][i2] == splits[k][i2]);
                            assert(splits[k][i2].wf());
                        }
                        assert forall|k: int|
                            0 <= k < rs.len() implies (#[trigger] rs[k]).len() == splits[k].len()
                            by {
                            assert(rs[k] == splits[k]);
                        }
                        assert forall|k: int, i2: int|
                            0 <= k < rs.len() && 0 <= i2 < rs[k].len() implies (
                        #[trigger] rs[k][i2]).split_idx_offset == splits[k][i2].split_idx_offset by {
                            assert(rs[k] == splits[k]);
                            assert(rs[k][i2] == splits[k][i2]);
                        }
                    },
                    _ => {},
                }
            },
        }
        if l.ready() {
            assert forall|i: int| 0 <= i < r.tilings().len() implies (
            #[trigger] r.tilings()[i]).len() == i + 1 by {
                assert(r.tilings()[i] == crate::geometry::scale_tiling(l.tilings()[i], src, dst));
                assert(l.tilings()[i].len() == i + 1);
            }
            if l.materialized() {
                match l.behaviour() {
                    EndTilingView::Directional { start_from, from_zones, zone_idx, .. } => {
                        if start_from == 1 {
                            assert(r.tilings()[r.manual() - 1] == crate::geometry::scale_tiling(
                                l.tilings()[l.manual() - 1],
                                src,
                                dst,
                            ));
                        }
                    },
                    EndTilingView::Repeating { .. } => {},
                }
                assert(r.extendable());
            } else {
                assert(r.tilings().last() == crate::geometry::scale_tiling(
                    l.tilings().last(),
                    src,
                    dst,
                ));
            }
        }
    }
    r
}

/// One tiling carried zone by zone to another work-area.
fn scale_tiling_exec(t: &Vec<Zone>, src: Zone, dst: Zone) -> (r: Vec<Zone>)
    requires
        crate::geometry::scalable(src, dst),
        crate::geometry::tiling_boxed(src, t@),
    ensures
        r@ == crate::geometry::scale_tiling(t@, src, dst),
{
    let mut r: Vec<Zone> = Vec::new();
    let mut k: usize = 0;
    while k < t.len()
        invariant
            crate::geometry::scalable(src, dst),
            crate::geometry::tiling_boxed(src, t@),
            k <= t@.len(),
            r@.len() == k,
            forall|i: int|
                0 <= i < k ==> #[trigger] r@[i] == crate::geometry::scale_zone(t@[i], src, dst),
        decreases t@.len() - k,
    {
        let z = scale_zone_exec(t[k], src, dst);
        r.push(z);
        k = k + 1;
    }
    proof {
        assert(r@ =~= crate::geometry::scale_tiling(t@, src, dst));
    }
    r
}

/// One zone carried to another work-area: translated to the origin,
/// scaled with round-to-nearest on each axis whose extent differs,
/// translated to the target corner.
fn scale_zone_exec(z: Zone, src: Zone, dst: Zone) -> (r: Zone)
    requires
        crate::geometry::scalable(src, dst),
        z.wf(),
        zone_in_box(z, src),
    ensures
        r == crate::geometry::scale_zone(z, src, dst),
{
    proof {
        crate::geometry::lemma_scale_zone_coords(z, src, dst);
        crate::geometry::lemma_scale_val_bounds(z.left - src.left, src.spec_w(), dst.spec_w());
        crate::geometry::lemma_scale_val_bounds(z.right - src.left, src.spec_w(), dst.spec_w());
        crate::geometry::lemma_scale_val_bounds(z.top - src.top, src.spec_h(), dst.spec_h());
        crate::geometry::lemma_scale_val_bounds(z.bottom - src.top, src.spec_h(), dst.spec_h());
        crate::geometry::lemma_scale_val_endpoints(z.left - src.left, src.spec_w(), dst.spec_w());
        crate::geometry::lemma_scale_val_endpoints(z.right - src.left, src.spec_w(), dst.spec_w());
        crate::geometry::lemma_scale_val_endpoints(z.top - src.top, src.spec_h(), dst.spec_h());
        crate::geometry::lemma_scale_val_endpoints(z.bottom - src.top, src.spec_h(), dst.spec_h());
    }
    let sw = src.right - src.left;
    let sh = src.bottom - src.top;
    let dw = dst.right - dst.left;
    let dh = dst.bottom - dst.top;
    let left = scale_len(z.left - src.left, sw, dw) + dst.left;
    let right = scale_len(z.right - src.left, sw, dw) + dst.left;
    let top = scale_len(z.top - src.top, sh, dh) + dst.top;
    let bottom = scale_len(z.bottom - src.top, sh, dh) + dst.top;
    Zone { left, top, right, bottom }
}

/// One length carried from a span of `s` to a span of `t`, skipping
/// the arithmetic when the spans agree.
fn scale_len(v: i32, s: i32, t: i32) -> (r: i32)
    requires
        1 <= s <= 2 * COORD_LIMIT,
        1 <= t <= 2 * COORD_LIMIT,
        0 <= v <= s,
    ensures
        r == crate::geometry::scale_val(v as int, s as int, t as int),
        0 <= r <= t,
{
    proof {
        crate::geometry::lemma_scale_val_bounds(v as int, s as int, t as int);
        crate::geometry::lemma_scale_val_endpoints(v as int, s as int, t as int);
    }
    if s == t {
        return v;
    }
    proof {
        assert((v as i64) * (t as i64) >= 0 && (v as i64) * (t as i64) <= 0x20_0000i64
            * 0x20_0000i64) by (nonlinear_arith)
            requires
                0 <= v as i64 <= 0x20_0000,
                0 <= t as i64 <= 0x20_0000,
        ;
    }
    let prod: i64 = (v as i64) * (t as i64);
    let wide: i64 = (2 * prod + (s as i64)) / (2 * (s as i64));
    wide as i32
}

/// Geometric coverage: in a well-formed layout every tiling is made
/// of zones inside the monitor work-area, pairwise disjoint, whose
/// union covers every point of it. Every editing operation and every
/// extension maintains this.
pub proof fn lemma_geometric_coverage(l: Layout, i: int)
    requires
        l.wf(),
        0 <= i < l.tilings().len(),
    ensures
        tiling_wf(l.monitor(), l.tilings()[i]),
        crate::geometry::tiling_covers(l.monitor(), l.tilings()[i]),
        crate::geometry::tiling_disjoint(l.tilings()[i]),
{
}

/// Exchanging two variants twice restores both the order of the
/// variants and which of them is the default.
pub proof fn lemma_swap_variants_involution<A>(s: Seq<A>, d: int, i: int, j: int)
    requires
        0 <= i < s.len(),
        0 <= j < s.len(),
        0 <= d < s.len(),
    ensures
        seq_swap(seq_swap(s, i, j), i, j) == s,
        ({
            let d1 = if d == i {
                j
            } else if d == j {
                i
            } else {
                d
            };
            (if d1 == i {
                j
            } else if d1 == j {
                i
            } else {
                d1
            }) == d
        }),
{
    lemma_seq_swap_involution(s, i, j);
}

/// A zone projected to another work-area and back lands within one
/// pixel of where it started, on every edge, provided each target
/// span is at least half the source span.
pub proof fn lemma_scale_zone_roundtrip(z: Zone, src: Zone, dst: Zone)
    requires
        crate::geometry::scalable(src, dst),
        z.wf(),
        zone_in_box(z, src),
        src.spec_w() <= 2 * dst.spec_w(),
        src.spec_h() <= 2 * dst.spec_h(),
    ensures
        ({
            let back = crate::geometry::scale_zone(
                crate::geometry::scale_zone(z, src, dst),
                dst,
                src,
            );
            &&& -1 <= back.left - z.left <= 1
            &&& -1 <= back.top - z.top <= 1
            &&& -1 <= back.right - z.right <= 1
            &&& -1 <= back.bottom - z.bottom <= 1
        }),
{
    let fwd = crate::geometry::scale_zone(z, src, dst);
    crate::geometry::lemma_scale_zone_coords(z, src, dst);
    crate::geometry::lemma_scale_zone_boxed(z, src, dst);
    crate::geometry::lemma_scale_zone_coords(fwd, dst, src);
    crate::geometry::lemma_scale_val_roundtrip(z.left - src.left, src.spec_w(), dst.spec_w());
    crate::geometry::lemma_scale_val_roundtrip(z.right - src.left, src.spec_w(), dst.spec_w());
    crate::geometry::lemma_scale_val_roundtrip(z.top - src.top, src.spec_h(), dst.spec_h());
    crate::geometry::lemma_scale_val_roundtrip(z.bottom - src.top, src.spec_h(), dst.spec_h());
}

/// Two layouts equal in every view are equally ready.
proof fn lemma_ready_frame(a: Layout, b: Layout)
    requires
        a.ready(),
        b.monitor() == a.monitor(),
        b.tilings() == a.tilings(),
        b.manual() == a.manual(),
        b.behaviour() == a.behaviour(),
    ensures
        b.ready(),
{
    lemma_wf_frame(a, b);
    assert forall|k: int| 0 <= k < b.tilings().len() implies (#[trigger] b.tilings()[k]).len() == k
        + 1 by {
        assert(b.tilings()[k] == a.tilings()[k]);
        assert(a.tilings()[k].len() == k + 1);
    }
    if a.materialized() {
        lemma_extendable_frame(a, b);
    }
}

/// The cut coordinate of a repeating split: `num / den` of the way
/// through a span of length `span` starting at `lo`, rounded to the
/// nearest pixel.
pub open spec fn ratio_offset(num: int, den: int, span: int) -> int {
    (2 * (num * span) + den) / (2 * den)
}

/// The rounded ratio cut stays inside the span.
proof fn lemma_ratio_offset_bounds(num: int, den: int, span: int)
    requires
        0 < num < den,
        0 <= span,
    ensures
        0 <= ratio_offset(num, den, span) <= span,
{
    let a = 2 * (num * span) + den;
    let b = 2 * den;
    vstd::arithmetic::div_mod::lemma_fundamental_div_mod(a, b);
    assert(0 <= a % b < b);
    assert(a >= 0) by (nonlinear_arith)
        requires
            num > 0,
            den > 0,
            span >= 0,
            a == 2 * (num * span) + den,
    ;
    assert(a < b * (span + 1)) by (nonlinear_arith)
        requires
            0 < num < den,
            0 <= span,
            a == 2 * (num * span) + den,
            b == 2 * den,
    ;
    assert(a == b * (a / b) + a % b);
    assert(b * (a / b) >= 0 && b * (a / b) < b * (span + 1));
    assert(a / b >= 0 && a / b < span + 1) by (nonlinear_arith)
        requires
            b > 0,
            b * (a / b) >= 0,
            b * (a / b) < b * (span + 1),
    ;
}

/// The exec computation of the rounded ratio cut.
fn split_coordinate(lo: i32, span: i32, num: u32, den: u32) -> (at: i32)
    requires
        -COORD_LIMIT <= lo,
        0 <= span,
        lo + span <= COORD_LIMIT,
        0 < num < den,
    ensures
        lo <= at <= lo + span,
        at == lo + ratio_offset(num as int, den as int, span as int),
{
    proof {
        lemma_ratio_offset_bounds(num as int, den as int, span as int);
    }
    let nn: i64 = num as i64;
    let ss: i64 = span as i64;
    let dd: i64 = den as i64;
    proof {
        assert(nn * ss >= 0 && nn * ss <= 0x1_0000_0000i64 * 0x20_0000i64) by (nonlinear_arith)
            requires
                0 <= nn <= 0x1_0000_0000,
                0 <= ss <= 0x20_0000,
        ;
    }
    let prod: i64 = nn * ss;
    let off_wide: i64 = (2 * prod + dd) / (2 * dd);
    let off: i32 = off_wide as i32;
    lo + off
}

/// The tiling after merging zones `j` and `k`, cutting the merged
/// zone, and moving the new zone to where the removed one sat.
pub open spec fn merge_split_move(t: Seq<Zone>, j: int, k: int, d: SplitDirection) -> Seq<Zone> {
    let f = if j < k {
        j
    } else {
        k
    };
    let s = if j < k {
        k
    } else {
        j
    };
    let ts = split_tiling(merge_tiling(t, j, k), f, d);
    ts.drop_last().insert(s, ts.last())
}

/// Two layouts with the same tilings, manual count and behaviour are
/// equally extendable.
proof fn lemma_extendable_frame(a: Layout, b: Layout)
    requires
        a.extendable(),
        b.tilings() == a.tilings(),
        b.manual() == a.manual(),
        b.behaviour() == a.behaviour(),
    ensures
        b.extendable(),
{
    match a.behaviour() {
        EndTilingView::Directional { start_from, from_zones, zone_idx, .. } => {
            if start_from == 1 {
                assert(b.tilings()[b.manual() - 1] == a.tilings()[a.manual() - 1]);
            }
        },
        EndTilingView::Repeating { .. } => {},
    }
}

/// A single zone equal to the whole work-area is a tiling of it.
pub proof fn lemma_full_zone_tiling(mon: Zone)
    requires
        mon.wf(),
    ensures
        tiling_wf(mon, seq![mon]),
{
    let t = seq![mon];
    assert forall|x: int, y: int| #[trigger] pt_in(mon, x, y) implies exists|i: int|
        0 <= i < t.len() && pt_in(#[trigger] t[i], x, y) by {
        assert(pt_in(t[0], x, y));
    }
}

/// A fresh vector holding the same cuts.
fn copy_splits_row(src: &Vec<RepeatingSplit>) -> (r: Vec<RepeatingSplit>)
    ensures
        r@ == src@,
{
    let mut r: Vec<RepeatingSplit> = Vec::new();
    let mut k: usize = 0;
    while k < src.len()
        invariant
            k <= src.len(),
            r@ == src@.subrange(0, k as int),
        decreases src.len() - k,
    {
        r.push(src[k]);
        k = k + 1;
        proof {
            assert(r@ =~= src@.subrange(0, k as int));
        }
    }
    proof {
        assert(src@.subrange(0, src@.len() as int) =~= src@);
    }
    r
}

/// A fresh vector holding the same zones.
fn copy_zone_vec(src: &Vec<Zone>) -> (r: Vec<Zone>)
    ensures
        r@ == src@,
{
    let mut r: Vec<Zone> = Vec::new();
    let mut k: usize = 0;
    while k < src.len()
        invariant
            k <= src.len(),
            r@ == src@.subrange(0, k as int),
        decreases src.len() - k,
    {
        r.push(src[k]);
        k = k + 1;
        proof {
            assert(r@ =~= src@.subrange(0, k as int));
        }
    }
    proof {
        assert(src@.subrange(0, src@.len() as int) =~= src@);
    }
    r
}

} // verus!
