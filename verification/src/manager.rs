//! The workspace manager: the reactive state machine that assigns
//! every managed window to exactly one (virtual-desktop, monitor)
//! workspace with a deterministic position, and keeps that assignment
//! consistent under every event.
//!
//! Window handles, virtual-desktop identifiers and monitors are plain
//! values here: a handle is a `u64` compared by identity, a desktop an
//! opaque `u128`, a monitor an index into the enumeration order. The
//! process edge that talks to the OS feeds events in and carries the
//! returned reposition requests out.

use vstd::prelude::*;

use crate::geometry::padding_wf;
use crate::geometry::seq_swap;
use crate::geometry::Position;
use crate::geometry::Zone;
use crate::layout::LayoutGroup;

verus! {

/// The area of a rectangle reported by the OS (negative extents give
/// a garbage value, exactly as the subtraction does).
pub open spec fn rect_area(z: Zone) -> int {
    (z.right - z.left) * (z.bottom - z.top)
}

/// The signed overlap measure between a cached placement and a moved
/// rectangle: the product of the two axis overhangs, exactly the
/// intersection area when the rectangles properly intersect (the
/// product can also be positive when both overhangs are negative,
/// faithfully to the arithmetic the selection rule runs on).
pub open spec fn overlap_area(p: Position, mt: Zone) -> int {
    let left = if mt.left > p.x {
        mt.left as int
    } else {
        p.x as int
    };
    let top = if mt.top > p.y {
        mt.top as int
    } else {
        p.y as int
    };
    let right = if (mt.right as int) < p.x + p.cx {
        mt.right as int
    } else {
        p.x + p.cx
    };
    let bottom = if (mt.bottom as int) < p.y + p.cy {
        mt.bottom as int
    } else {
        p.y + p.cy
    };
    (right - left) * (bottom - top)
}

/// The slot selection rule from position `i` on, carrying the best
/// candidate so far: the first slot whose overlap equals the moved
/// rectangle's full area wins outright; otherwise the first slot of
/// strictly maximal overlap above the running best.
pub open spec fn best_slot_from(
    row: Seq<Position>,
    mt: Zone,
    i: int,
    best: int,
    best_area: int,
) -> int
    decreases row.len() - i,
{
    if i < 0 || i >= row.len() {
        best
    } else {
        let a = overlap_area(row[i], mt);
        if a == rect_area(mt) {
            i
        } else if a > best_area {
            best_slot_from(row, mt, i + 1, i, a)
        } else {
            best_slot_from(row, mt, i + 1, best, best_area)
        }
    }
}

/// The slot a dragged window lands in: the first full-overlap slot,
/// else the first slot of maximal positive overlap, else the row
/// length.
pub open spec fn best_slot(row: Seq<Position>, mt: Zone) -> int {
    best_slot_from(row, mt, 0, row.len() as int, 0)
}

/// A reported rectangle is exactly a cached placement.
pub open spec fn rect_matches_position(mt: Zone, p: Position) -> bool {
    mt.left == p.x && mt.top == p.y && mt.right - mt.left == p.cx && mt.bottom - mt.top == p.cy
}

/// The placement slot a dragged window lands in: the first slot whose
/// overlap with the moved rectangle equals the rectangle's full area,
/// otherwise the first slot of maximal positive overlap; the row
/// length when no slot overlaps at all.
fn best_overlap_slot(row: &Vec<Position>, moved_to: Zone) -> (r: usize)
    ensures
        r <= row@.len(),
        r as int == best_slot(row@, moved_to),
{
    let mw: i128 = (moved_to.right as i128) - (moved_to.left as i128);
    let mh: i128 = (moved_to.bottom as i128) - (moved_to.top as i128);
    proof {
        assert(mw * mh <= 0x2_0000_0000i128 * 0x2_0000_0000i128 && mw * mh >= -(
        0x2_0000_0000i128 * 0x2_0000_0000i128)) by (nonlinear_arith)
            requires
                -0x1_0000_0000i128 <= mw <= 0x1_0000_0000i128,
                -0x1_0000_0000i128 <= mh <= 0x1_0000_0000i128,
        ;
    }
    let moved_area: i128 = mw * mh;
    let mut best: usize = row.len();
    let mut best_area: i128 = 0;
    let mut i: usize = 0;
    proof {
        assert(moved_area as int == rect_area(moved_to));
    }
    while i < row.len()
        invariant
            best <= row@.len(),
            i <= row@.len(),
            moved_area as int == rect_area(moved_to),
            best_slot(row@, moved_to) == best_slot_from(
                row@,
                moved_to,
                i as int,
                best as int,
                best_area as int,
            ),
        decreases row@.len() - i,
    {
        let p = row[i];
        let left: i128 = if (moved_to.left as i128) > (p.x as i128) {
            moved_to.left as i128
        } else {
            p.x as i128
        };
        let top: i128 = if (moved_to.top as i128) > (p.y as i128) {
            moved_to.top as i128
        } else {
            p.y as i128
        };
        let pr: i128 = (p.x as i128) + (p.cx as i128);
        let pb: i128 = (p.y as i128) + (p.cy as i128);
        let right: i128 = if (moved_to.right as i128) < pr {
            moved_to.right as i128
        } else {
            pr
        };
        let bottom: i128 = if (moved_to.bottom as i128) < pb {
            moved_to.bottom as i128
        } else {
            pb
        };
        let aw: i128 = right - left;
        let ah: i128 = bottom - top;
        proof {
            assert(aw * ah <= 0x4_0000_0000i128 * 0x4_0000_0000i128 && aw * ah >= -(
            0x4_0000_0000i128 * 0x4_0000_0000i128)) by (nonlinear_arith)
                requires
                    -0x4_0000_0000i128 <= aw <= 0x4_0000_0000i128,
                    -0x4_0000_0000i128 <= ah <= 0x4_0000_0000i128,
            ;
        }
        let area: i128 = aw * ah;
        proof {
            assert(area as int == overlap_area(row@[i as int], moved_to));
        }
        if area == moved_area {
            return i;
        } else if area > best_area {
            best = i;
            best_area = area;
        }
        i = i + 1;
    }
    best
}

/// The monitor reached after `k` single steps from `start`, wrapping
/// at the ends of the enumeration.
pub open spec fn monitor_step(start: int, k: int, count: int, forward: bool) -> int
    decreases k,
{
    if k <= 0 {
        start
    } else {
        let prev = monitor_step(start, k - 1, count, forward);
        if forward {
            if prev == count - 1 {
                0
            } else {
                prev + 1
            }
        } else {
            if prev == 0 {
                count - 1
            } else {
                prev - 1
            }
        }
    }
}

/// Fewer steps than a full cycle stay on the ring and never return to
/// the start.
pub proof fn lemma_monitor_step_bounds(start: int, k: int, count: int, forward: bool)
    requires
        0 <= start < count,
        0 <= k <= count - 1,
    ensures
        0 <= monitor_step(start, k, count, forward) < count,
        monitor_step(start, k, count, forward) == (if forward {
            if start + k < count {
                start + k
            } else {
                start + k - count
            }
        } else {
            if start - k >= 0 {
                start - k
            } else {
                start - k + count
            }
        }),
        1 <= k ==> monitor_step(start, k, count, forward) != start,
    decreases k,
{
    if k > 0 {
        lemma_monitor_step_bounds(start, k - 1, count, forward);
    }
}

/// After removing the entry at `li` and pushing a fresh entry for the
/// same handle (with the others only re-indexed), exactly the same
/// handles are known.
proof fn lemma_handles_carry_reinsert(
    a: WindowManager,
    b: WindowManager,
    c: WindowManager,
    li: int,
    hwnd: u64,
)
    requires
        0 <= li < a.locs().len(),
        a.locs()[li].hwnd == hwnd,
        b.locs() == a.locs().remove(li),
        c.locs().len() == b.locs().len() + 1,
        forall|k: int| 0 <= k < b.locs().len() ==> (#[trigger] c.locs()[k]).hwnd == b.locs()[k].hwnd,
        c.locs().last().hwnd == hwnd,
    ensures
        forall|h2: u64| a.has_loc(h2) ==> c.has_loc(h2),
        forall|h2: u64| c.has_loc(h2) ==> a.has_loc(h2) || h2 == hwnd,
{
    assert forall|h2: u64| a.has_loc(h2) implies c.has_loc(h2) by {
        let k = choose|k: int| 0 <= k < a.locs().len() && a.locs()[k].hwnd == h2;
        if k == li {
            assert(c.locs()[c.locs().len() - 1].hwnd == h2);
        } else {
            let k2 = if k < li {
                k
            } else {
                k - 1
            };
            assert(b.locs()[k2].hwnd == h2);
            assert(c.locs()[k2].hwnd == h2);
        }
    }
    assert forall|h2: u64| c.has_loc(h2) implies a.has_loc(h2) || h2 == hwnd by {
        let x = choose|x: int| 0 <= x < c.locs().len() && c.locs()[x].hwnd == h2;
        if x < c.locs().len() - 1 {
            assert(b.locs()[x].hwnd == h2);
            let sx = if x < li {
                x
            } else {
                x + 1
            };
            assert(a.locs()[sx].hwnd == h2);
        }
    }
}

/// After appending one fresh entry with the others' handles kept, the
/// known handles grow by exactly that one.
proof fn lemma_handles_carry_append(a: WindowManager, c: WindowManager, hwnd: u64)
    requires
        c.locs().len() == a.locs().len() + 1,
        forall|k: int| 0 <= k < a.locs().len() ==> (#[trigger] c.locs()[k]).hwnd == a.locs()[k].hwnd,
        c.locs().last().hwnd == hwnd,
    ensures
        forall|h2: u64| a.has_loc(h2) ==> c.has_loc(h2),
        forall|h2: u64| c.has_loc(h2) ==> a.has_loc(h2) || h2 == hwnd,
{
    assert forall|h2: u64| a.has_loc(h2) implies c.has_loc(h2) by {
        let k = choose|k: int| 0 <= k < a.locs().len() && a.locs()[k].hwnd == h2;
        assert(c.locs()[k].hwnd == h2);
    }
    assert forall|h2: u64| c.has_loc(h2) implies a.has_loc(h2) || h2 == hwnd by {
        let x = choose|x: int| 0 <= x < c.locs().len() && c.locs()[x].hwnd == h2;
        if x < c.locs().len() - 1 {
            assert(a.locs()[x].hwnd == h2);
        }
    }
}

/// Step `k` of the walk from `start` lands on `target`: the first
/// monitor of desktop `d` in walking order that the user has not
/// toggled off (every earlier step is toggled off).
pub open spec fn first_non_ignored_step(
    m: WindowManager,
    d: u128,
    start: int,
    k: int,
    forward: bool,
    target: int,
) -> bool {
    &&& 1 <= k <= m.monitors_view().len() - 1
    &&& monitor_step(start, k, m.monitors_view().len() as int, forward) == target
    &&& forall|k2: int|
        1 <= k2 < k ==> m.key_ignored(
            d,
            monitor_step(start, k2, m.monitors_view().len() as int, forward) as usize,
        )
}

/// A placeholder workspace cell for swapping values in and out of the
/// workspace list.
fn dummy_cell() -> WorkspaceCell {
    WorkspaceCell {
        desktop: 0,
        monitor: 0,
        workspace: Workspace { layout_idx: 0, variant_idx: 0, managed_window_handles: Vec::new() },
    }
}

/// One location entry with its index raised by one when it belongs to
/// workspace (d, m), sits at or above `from`, and is not the named
/// handle.
pub open spec fn bump_entry(
    e: LocationEntry,
    d: u128,
    m: usize,
    from: int,
    except: u64,
) -> LocationEntry {
    if e.desktop == d && e.monitor == m && e.idx >= from && e.hwnd != except && e.idx
        < usize::MAX {
        LocationEntry { idx: (e.idx + 1) as usize, ..e }
    } else {
        e
    }
}

/// Location entries of workspace (d, m) at or above `from` raised by
/// one, except the named handle.
pub open spec fn raise_from(
    s: Seq<LocationEntry>,
    d: u128,
    m: usize,
    from: int,
    except: u64,
) -> Seq<LocationEntry> {
    s.map_values(|e: LocationEntry| bump_entry(e, d, m, from, except))
}

/// One location entry with its index lowered by one when it belongs
/// to workspace (d, m) and sits above `above`.
pub open spec fn drop_entry(e: LocationEntry, d: u128, m: usize, above: int) -> LocationEntry {
    if e.desktop == d && e.monitor == m && e.idx > above {
        LocationEntry { idx: (e.idx - 1) as usize, ..e }
    } else {
        e
    }
}

/// Location entries of workspace (d, m) above `above` lowered by one.
pub open spec fn lower_above(
    s: Seq<LocationEntry>,
    d: u128,
    m: usize,
    above: int,
) -> Seq<LocationEntry> {
    s.map_values(|e: LocationEntry| drop_entry(e, d, m, above))
}

/// Where a known window lives: its (virtual-desktop, monitor) cell,
/// whether it is suspended (minimized, maximized or snapped, so not
/// tiled), and its position in the cell's handle order. For a
/// suspended window `idx` is only a forward-looking insertion hint.
#[derive(Clone, Copy, Debug, PartialEq, Eq, Structural)]
pub struct LocationEntry {
    pub hwnd: u64,
    pub desktop: u128,
    pub monitor: usize,
    pub suspended: bool,
    pub idx: usize,
}

/// The manager's configuration.
#[derive(Clone, Copy, Debug)]
pub struct Settings {
    pub default_layout_idx: usize,
    pub window_padding: i32,
    pub edge_padding: i32,
    pub disable_rounding: bool,
    pub disable_unfocused_border: bool,
    pub focused_border_colour: u32,
}

/// Border colour value that paints no border.
pub const COLOUR_NONE: u32 = 0xFFFFFFFE;

/// Border colour value that keeps the system default.
pub const COLOUR_DEFAULT: u32 = 0xFFFFFFFF;

impl Default for Settings {
    /// No paddings, rounding and borders left alone, white focus
    /// border.
    fn default() -> (r: Self)
        ensures
            r.default_layout_idx == 0,
            r.window_padding == 0,
            r.edge_padding == 0,
            !r.disable_rounding,
            !r.disable_unfocused_border,
            r.focused_border_colour == 0x00FFFFFF,
    {
        Settings {
            default_layout_idx: 0,
            window_padding: 0,
            edge_padding: 0,
            disable_rounding: false,
            disable_unfocused_border: false,
            focused_border_colour: 0x00FFFFFF,
        }
    }
}

impl Settings {
    /// The border colour an unfocused window gets.
    pub fn get_unfocused_border_colour(&self) -> (r: u32)
        ensures
            r == (if self.disable_unfocused_border {
                COLOUR_NONE
            } else {
                COLOUR_DEFAULT
            }),
    {
        if self.disable_unfocused_border {
            COLOUR_NONE
        } else {
            COLOUR_DEFAULT
        }
    }
}

/// One (virtual-desktop, monitor) cell: the indices selecting the
/// active layout and variant, and the ordered managed window handles.
#[derive(Debug)]
pub struct Workspace {
    layout_idx: usize,
    variant_idx: usize,
    managed_window_handles: Vec<u64>,
}

impl Workspace {
    /// Which layout group of the monitor the cell uses.
    pub closed spec fn layout(self) -> int {
        self.layout_idx as int
    }

    /// Which variant of that layout group the cell uses.
    pub closed spec fn variant(self) -> int {
        self.variant_idx as int
    }

    /// The managed window handles, in tiling order.
    pub closed spec fn handles(self) -> Seq<u64> {
        self.managed_window_handles@
    }

    fn new(hwnd: u64, layout_idx: usize, variant_idx: usize) -> (r: Self)
        ensures
            r.layout() == layout_idx as int,
            r.variant() == variant_idx as int,
            r.handles() =~= seq![hwnd],
    {
        let mut managed_window_handles: Vec<u64> = Vec::new();
        managed_window_handles.push(hwnd);
        Workspace { layout_idx, variant_idx, managed_window_handles }
    }
}

/// One workspace keyed by its (virtual-desktop, monitor) pair.
#[derive(Debug)]
struct WorkspaceCell {
    desktop: u128,
    monitor: usize,
    workspace: Workspace,
}

/// The whole manager state.
#[derive(Debug)]
pub struct WindowManager {
    monitors: Vec<Zone>,
    layouts: Vec<Vec<LayoutGroup>>,
    workspaces: Vec<WorkspaceCell>,
    locations: Vec<LocationEntry>,
    foreground_hwnd: Option<u64>,
    grabbed_window: Option<u64>,
    ignored_combinations: Vec<(u128, usize)>,
    ignored_hwnds: Vec<u64>,
    settings: Settings,
}

impl WindowManager {
    /// The monitors' work-areas, in enumeration order.
    pub closed spec fn monitors_view(self) -> Seq<Zone> {
        self.monitors@
    }

    /// The layout groups of monitor `m`.
    pub closed spec fn groups_at(self, m: int) -> Seq<LayoutGroup> {
        self.layouts@[m]@
    }

    /// How many per-monitor layout lists exist.
    pub closed spec fn layouts_count(self) -> int {
        self.layouts@.len() as int
    }

    /// How many layout groups every monitor carries.
    pub closed spec fn groups_count(self) -> int {
        if self.monitors@.len() == 0 {
            0
        } else {
            self.layouts@[0]@.len() as int
        }
    }

    /// How many workspaces exist.
    pub closed spec fn ws_count(self) -> int {
        self.workspaces@.len() as int
    }

    /// The virtual desktop of workspace `c`.
    pub closed spec fn ws_desktop(self, c: int) -> u128 {
        self.workspaces@[c].desktop
    }

    /// The monitor of workspace `c`.
    pub closed spec fn ws_monitor(self, c: int) -> int {
        self.workspaces@[c].monitor as int
    }

    /// The active layout index of workspace `c`.
    pub closed spec fn ws_layout(self, c: int) -> int {
        self.workspaces@[c].workspace.layout()
    }

    /// The active variant index of workspace `c`.
    pub closed spec fn ws_variant(self, c: int) -> int {
        self.workspaces@[c].workspace.variant()
    }

    /// The managed handles of workspace `c`, in tiling order.
    pub closed spec fn ws_handles(self, c: int) -> Seq<u64> {
        self.workspaces@[c].workspace.handles()
    }

    /// The per-handle location entries.
    pub closed spec fn locs(self) -> Seq<LocationEntry> {
        self.locations@
    }

    /// The handle last reported as foreground, if known.
    pub closed spec fn foreground(self) -> Option<u64> {
        self.foreground_hwnd
    }

    /// The handle grabbed for a later release, if any.
    pub closed spec fn grabbed(self) -> Option<u64> {
        self.grabbed_window
    }

    /// The workspaces the user has toggled off.
    pub closed spec fn ignored_keys(self) -> Seq<(u128, usize)> {
        self.ignored_combinations@
    }

    /// The handles the OS refused to reposition; never touched again.
    pub closed spec fn ignored_handles(self) -> Seq<u64> {
        self.ignored_hwnds@
    }

    /// The configuration.
    pub closed spec fn settings_view(self) -> Settings {
        self.settings
    }

    /// A workspace keyed (d, m) exists.
    pub open spec fn has_cell(self, d: u128, m: int) -> bool {
        exists|c: int|
            0 <= c < self.ws_count() && self.ws_desktop(c) == d && self.ws_monitor(c) == m
    }

    /// The index of the workspace keyed (d, m).
    pub open spec fn cell_of(self, d: u128, m: int) -> int {
        choose|c: int|
            0 <= c < self.ws_count() && self.ws_desktop(c) == d && self.ws_monitor(c) == m
    }

    /// The handle is known.
    pub open spec fn has_loc(self, h: u64) -> bool {
        exists|i: int| 0 <= i < self.locs().len() && self.locs()[i].hwnd == h
    }

    /// The index of the handle's location entry.
    pub open spec fn loc_idx(self, h: u64) -> int {
        choose|i: int| 0 <= i < self.locs().len() && self.locs()[i].hwnd == h
    }

    /// The handle's location entry.
    pub open spec fn loc_of(self, h: u64) -> LocationEntry {
        self.locs()[self.loc_idx(h)]
    }

    /// The user has toggled workspace (d, m) off.
    pub open spec fn key_ignored(self, d: u128, m: usize) -> bool {
        exists|i: int| 0 <= i < self.ignored_keys().len() && self.ignored_keys()[i] == (d, m)
    }

    /// The OS refused this handle once; it is never retiled.
    pub open spec fn hwnd_ignored(self, h: u64) -> bool {
        exists|i: int| 0 <= i < self.ignored_handles().len() && self.ignored_handles()[i] == h
    }

    /// Monitors have well-formed work-areas of real extent.
    pub open spec fn monitors_ok(self) -> bool {
        forall|m: int|
            0 <= m < self.monitors_view().len() ==> (#[trigger] self.monitors_view()[m]).wf()
                && self.monitors_view()[m].spec_w() >= 1 && self.monitors_view()[m].spec_h() >= 1
    }

    /// Every monitor carries the same layout groups, each well-formed
    /// and prepared for the configured paddings, tiling that monitor's
    /// work-area; while any monitor exists, the default layout index
    /// selects one of them.
    pub open spec fn layouts_ok(self) -> bool {
        &&& self.layouts_count() == self.monitors_view().len()
        &&& forall|m: int|
            0 <= m < self.monitors_view().len() ==> (#[trigger] self.groups_at(m)).len()
                == self.groups_count()
        &&& forall|m: int, g: int|
            0 <= m < self.monitors_view().len() && 0 <= g < self.groups_count() ==> (
            #[trigger] self.groups_at(m)[g]).wf() && self.groups_at(m)[g].prepared(
                self.settings_view().window_padding as int,
                self.settings_view().edge_padding as int,
            ) && self.groups_at(m)[g].monitor() == self.monitors_view()[m]
        &&& (self.monitors_view().len() > 0 ==> self.groups_count() >= 1
            && (self.settings_view().default_layout_idx as int) < self.groups_count())
    }

    /// Workspace keys are unique and their indices are in range.
    pub open spec fn cells_ok(self) -> bool {
        &&& forall|c: int|
            0 <= c < self.ws_count() ==> 0 <= #[trigger] self.ws_monitor(c)
                < self.monitors_view().len() && 0 <= self.ws_layout(c) < self.groups_count() && 0
                <= self.ws_variant(c) < self.groups_at(self.ws_monitor(c))[self.ws_layout(
                c,
            )].variants().len()
        &&& forall|c1: int, c2: int|
            0 <= c1 < c2 < self.ws_count() ==> !(#[trigger] self.ws_desktop(c1)
                == #[trigger] self.ws_desktop(c2) && self.ws_monitor(c1) == self.ws_monitor(c2))
    }

    /// The location invariant: handles appear once; every tiled entry
    /// points at the exact slot holding its handle, and every slot of
    /// every workspace is pointed at by exactly that entry.
    pub open spec fn locs_ok(self) -> bool {
        &&& forall|i1: int, i2: int|
            0 <= i1 < i2 < self.locs().len() ==> (#[trigger] self.locs()[i1]).hwnd != (
            #[trigger] self.locs()[i2]).hwnd
        &&& forall|i: int|
            0 <= i < self.locs().len() ==> (#[trigger] self.locs()[i]).monitor
                < self.monitors_view().len()
        &&& forall|i: int|
            0 <= i < self.locs().len() && !(#[trigger] self.locs()[i]).suspended ==> {
                let e = self.locs()[i];
                &&& self.has_cell(e.desktop, e.monitor as int)
                &&& e.idx < self.ws_handles(self.cell_of(e.desktop, e.monitor as int)).len()
                &&& self.ws_handles(self.cell_of(e.desktop, e.monitor as int))[e.idx as int]
                    == e.hwnd
            }
        &&& forall|c: int, k: int|
            0 <= c < self.ws_count() && 0 <= k < self.ws_handles(c).len() ==> self.slot_entry(c, k)
        &&& forall|i: int|
            0 <= i < self.locs().len() && (#[trigger] self.locs()[i]).suspended ==> {
                let e = self.locs()[i];
                if self.has_cell(e.desktop, e.monitor as int) {
                    e.idx <= self.ws_handles(self.cell_of(e.desktop, e.monitor as int)).len()
                } else {
                    e.idx == 0
                }
            }
    }

    /// Some location entry points exactly at slot `k` of workspace
    /// `c`.
    pub open spec fn slot_entry(self, c: int, k: int) -> bool {
        exists|i: int|
            0 <= i < self.locs().len() && (#[trigger] self.locs()[i]).hwnd == self.ws_handles(
                c,
            )[k] && self.locs()[i].desktop == self.ws_desktop(c) && self.locs()[i].monitor as int
                == self.ws_monitor(c) && !self.locs()[i].suspended && self.locs()[i].idx as int == k
    }

    /// Toggled-off keys and refused handles are recorded once each.
    pub open spec fn ignored_ok(self) -> bool {
        &&& forall|i1: int, i2: int|
            0 <= i1 < i2 < self.ignored_keys().len() ==> #[trigger] self.ignored_keys()[i1]
                != #[trigger] self.ignored_keys()[i2]
        &&& forall|i1: int, i2: int|
            0 <= i1 < i2 < self.ignored_handles().len() ==> #[trigger] self.ignored_handles()[i1]
                != #[trigger] self.ignored_handles()[i2]
    }

    /// The manager invariant. Every transition preserves it.
    pub open spec fn wf(self) -> bool {
        &&& self.monitors_ok()
        &&& self.layouts_ok()
        &&& self.cells_ok()
        &&& self.locs_ok()
        &&& self.ignored_ok()
        &&& padding_wf(
            self.settings_view().window_padding as int,
            self.settings_view().edge_padding as int,
        )
    }

    /// Any workspace index with the key of workspace `c` is `c`
    /// itself, and `cell_of` finds it.
    pub proof fn lemma_cell_unique(self, c: int)
        requires
            forall|c1: int, c2: int|
                0 <= c1 < c2 < self.ws_count() ==> !(#[trigger] self.ws_desktop(c1)
                    == #[trigger] self.ws_desktop(c2) && self.ws_monitor(c1) == self.ws_monitor(
                    c2,
                )),
            0 <= c < self.ws_count(),
        ensures
            self.has_cell(self.ws_desktop(c), self.ws_monitor(c)),
            self.cell_of(self.ws_desktop(c), self.ws_monitor(c)) == c,
    {
        let d = self.ws_desktop(c);
        let m = self.ws_monitor(c);
        assert(self.has_cell(d, m));
        let c2 = self.cell_of(d, m);
        if c2 != c {
            if c2 < c {
                assert(!(self.ws_desktop(c2) == self.ws_desktop(c) && self.ws_monitor(c2)
                    == self.ws_monitor(c)));
            } else {
                assert(!(self.ws_desktop(c) == self.ws_desktop(c2) && self.ws_monitor(c)
                    == self.ws_monitor(c2)));
            }
        }
    }

    /// Any location index holding the handle of entry `i` is `i`
    /// itself, and `loc_idx` finds it.
    pub proof fn lemma_loc_unique(self, i: int)
        requires
            forall|i1: int, i2: int|
                0 <= i1 < i2 < self.locs().len() ==> (#[trigger] self.locs()[i1]).hwnd != (
                #[trigger] self.locs()[i2]).hwnd,
            0 <= i < self.locs().len(),
        ensures
            self.has_loc(self.locs()[i].hwnd),
            self.loc_idx(self.locs()[i].hwnd) == i,
            self.loc_of(self.locs()[i].hwnd) == self.locs()[i],
    {
        let h = self.locs()[i].hwnd;
        assert(self.has_loc(h));
        let i2 = self.loc_idx(h);
        if i2 != i {
            if i2 < i {
                assert(self.locs()[i2].hwnd != self.locs()[i].hwnd);
            } else {
                assert(self.locs()[i].hwnd != self.locs()[i2].hwnd);
            }
        }
    }

    /// Uniqueness: a handle sits in at most one workspace, and at most
    /// once there. If two slots hold the same handle, they are the
    /// same slot of the same workspace.
    pub proof fn lemma_window_uniqueness(self, c1: int, k1: int, c2: int, k2: int)
        requires
            self.wf(),
            0 <= c1 < self.ws_count(),
            0 <= k1 < self.ws_handles(c1).len(),
            0 <= c2 < self.ws_count(),
            0 <= k2 < self.ws_handles(c2).len(),
            self.ws_handles(c1)[k1] == self.ws_handles(c2)[k2],
        ensures
            c1 == c2,
            k1 == k2,
    {
        assert(self.slot_entry(c1, k1));
        assert(self.slot_entry(c2, k2));
        let i1 = choose|i: int|
            0 <= i < self.locs().len() && (#[trigger] self.locs()[i]).hwnd == self.ws_handles(
                c1,
            )[k1] && self.locs()[i].desktop == self.ws_desktop(c1) && self.locs()[i].monitor as int
                == self.ws_monitor(c1) && !self.locs()[i].suspended && self.locs()[i].idx as int
                == k1;
        let i2 = choose|i: int|
            0 <= i < self.locs().len() && (#[trigger] self.locs()[i]).hwnd == self.ws_handles(
                c2,
            )[k2] && self.locs()[i].desktop == self.ws_desktop(c2) && self.locs()[i].monitor as int
                == self.ws_monitor(c2) && !self.locs()[i].suspended && self.locs()[i].idx as int
                == k2;
        if i1 != i2 {
            if i1 < i2 {
                assert(self.locs()[i1].hwnd != self.locs()[i2].hwnd);
            } else {
                assert(self.locs()[i2].hwnd != self.locs()[i1].hwnd);
            }
        }
        assert(self.ws_desktop(c1) == self.ws_desktop(c2) && self.ws_monitor(c1) == self.ws_monitor(
            c2,
        ));
        if c1 != c2 {
            if c1 < c2 {
                assert(!(self.ws_desktop(c1) == self.ws_desktop(c2) && self.ws_monitor(c1)
                    == self.ws_monitor(c2)));
            } else {
                assert(!(self.ws_desktop(c2) == self.ws_desktop(c1) && self.ws_monitor(c2)
                    == self.ws_monitor(c1)));
            }
        }
    }

    /// All fields except the location entries unchanged.
    pub closed spec fn same_but_locations(self, a: WindowManager) -> bool {
        &&& self.monitors@ == a.monitors@
        &&& self.layouts@ == a.layouts@
        &&& self.workspaces@ == a.workspaces@
        &&& self.foreground_hwnd == a.foreground_hwnd
        &&& self.grabbed_window == a.grabbed_window
        &&& self.ignored_combinations@ == a.ignored_combinations@
        &&& self.ignored_hwnds@ == a.ignored_hwnds@
        &&& self.settings == a.settings
    }

    /// All fields except workspaces and location entries unchanged.
    pub closed spec fn same_but_cells_locations(self, a: WindowManager) -> bool {
        &&& self.monitors@ == a.monitors@
        &&& self.layouts@ == a.layouts@
        &&& self.foreground_hwnd == a.foreground_hwnd
        &&& self.grabbed_window == a.grabbed_window
        &&& self.ignored_combinations@ == a.ignored_combinations@
        &&& self.ignored_hwnds@ == a.ignored_hwnds@
        &&& self.settings == a.settings
    }

    /// Raise every suspended or tiled entry of workspace (d, m) whose
    /// index is at least `from`, except the named handle.
    fn raise_locations(&mut self, desktop: u128, monitor: usize, from: usize, except: u64)
        ensures
            final(self).locs() == raise_from(
                old(self).locs(),
                desktop,
                monitor,
                from as int,
                except,
            ),
            final(self).same_but_locations(*old(self)),
    {
        let mut i: usize = 0;
        while i < self.locations.len()
            invariant
                self.locations@.len() == old(self).locs().len(),
                i <= self.locations@.len(),
                forall|k: int|
                    0 <= k < i ==> #[trigger] self.locations@[k] == bump_entry(
                        old(self).locs()[k],
                        desktop,
                        monitor,
                        from as int,
                        except,
                    ),
                forall|k: int| i <= k < self.locations@.len() ==> #[trigger] self.locations@[k] == old(self).locs()[k],
                self.same_but_locations(*old(self)),
            decreases self.locations@.len() - i,
        {
            let e = self.locations[i];
            if e.desktop == desktop && e.monitor == monitor && e.idx >= from && e.hwnd != except {
                if e.idx < usize::MAX {
                    let mut e2 = e;
                    e2.idx = e.idx + 1;
                    vstd::pervasive::VecAdditionalExecFns::set(&mut self.locations, i, e2);
                }
            }
            i = i + 1;
        }
        proof {
            assert(self.locs() =~= raise_from(
                old(self).locs(),
                desktop,
                monitor,
                from as int,
                except,
            ));
        }
    }

    /// Lower every entry of workspace (d, m) whose index is above
    /// `above`.
    fn lower_locations(&mut self, desktop: u128, monitor: usize, above: usize)
        ensures
            final(self).locs() == lower_above(old(self).locs(), desktop, monitor, above as int),
            final(self).same_but_locations(*old(self)),
    {
        let mut i: usize = 0;
        while i < self.locations.len()
            invariant
                self.locations@.len() == old(self).locs().len(),
                i <= self.locations@.len(),
                forall|k: int|
                    0 <= k < i ==> #[trigger] self.locations@[k] == drop_entry(
                        old(self).locs()[k],
                        desktop,
                        monitor,
                        above as int,
                    ),
                forall|k: int| i <= k < self.locations@.len() ==> #[trigger] self.locations@[k] == old(self).locs()[k],
                self.same_but_locations(*old(self)),
            decreases self.locations@.len() - i,
        {
            let e = self.locations[i];
            if e.desktop == desktop && e.monitor == monitor && e.idx > above {
                let mut e2 = e;
                e2.idx = e.idx - 1;
                vstd::pervasive::VecAdditionalExecFns::set(&mut self.locations, i, e2);
            }
            i = i + 1;
        }
        proof {
            assert(self.locs() =~= lower_above(old(self).locs(), desktop, monitor, above as int));
        }
    }

    /// Cell keys, layout and variant selections unchanged between two
    /// states.
    pub open spec fn same_cell_frame(self, a: WindowManager) -> bool {
        &&& self.ws_count() == a.ws_count()
        &&& forall|c2: int|
            0 <= c2 < a.ws_count() ==> #[trigger] self.ws_desktop(c2) == a.ws_desktop(c2)
                && self.ws_monitor(c2) == a.ws_monitor(c2) && self.ws_layout(c2) == a.ws_layout(c2)
                && self.ws_variant(c2) == a.ws_variant(c2)
    }

    /// Carry the monitor, layout and ignored-list parts of the
    /// invariant between two states that share those fields.
    proof fn lemma_static_frame(a: WindowManager, b: WindowManager)
        requires
            b.monitors@ == a.monitors@,
            b.layouts@ == a.layouts@,
            b.settings == a.settings,
            b.ignored_combinations@ == a.ignored_combinations@,
            b.ignored_hwnds@ == a.ignored_hwnds@,
            a.monitors_ok(),
            a.layouts_ok(),
            a.ignored_ok(),
        ensures
            b.monitors_ok(),
            b.layouts_ok(),
            b.ignored_ok(),
    {
        assert forall|m: int| 0 <= m < b.monitors_view().len() implies (
        #[trigger] b.monitors_view()[m]).wf() && b.monitors_view()[m].spec_w() >= 1
            && b.monitors_view()[m].spec_h() >= 1 by {
            assert(b.monitors_view()[m] == a.monitors_view()[m]);
        }
        assert(b.layouts_count() == a.layouts_count());
        assert(b.groups_count() == a.groups_count());
        assert forall|m: int| 0 <= m < b.monitors_view().len() implies (
        #[trigger] b.groups_at(m)).len() == b.groups_count() by {
            assert(b.groups_at(m) == a.groups_at(m));
        }
        assert forall|m: int, g: int|
            0 <= m < b.monitors_view().len() && 0 <= g < b.groups_count() implies (
        #[trigger] b.groups_at(m)[g]).wf() && b.groups_at(m)[g].prepared(
            b.settings_view().window_padding as int,
            b.settings_view().edge_padding as int,
        ) && b.groups_at(m)[g].monitor() == b.monitors_view()[m] by {
            assert(b.groups_at(m) == a.groups_at(m));
            assert(b.groups_at(m)[g] == a.groups_at(m)[g]);
            assert(a.groups_at(m)[g].wf());
            assert(b.monitors_view()[m] == a.monitors_view()[m]);
        }
        assert forall|i1: int, i2: int|
            0 <= i1 < i2 < b.ignored_keys().len() implies #[trigger] b.ignored_keys()[i1]
            != #[trigger] b.ignored_keys()[i2] by {
            assert(b.ignored_keys()[i1] == a.ignored_keys()[i1]);
            assert(b.ignored_keys()[i2] == a.ignored_keys()[i2]);
        }
        assert forall|i1: int, i2: int|
            0 <= i1 < i2 < b.ignored_handles().len() implies #[trigger] b.ignored_handles()[i1]
            != #[trigger] b.ignored_handles()[i2] by {
            assert(b.ignored_handles()[i1] == a.ignored_handles()[i1]);
            assert(b.ignored_handles()[i2] == a.ignored_handles()[i2]);
        }
    }

    /// Carry the workspace-index part of the invariant between two
    /// states with the same keys, selections, monitors and layouts.
    proof fn lemma_cells_frame(a: WindowManager, b: WindowManager)
        requires
            b.monitors@ == a.monitors@,
            b.layouts@ == a.layouts@,
            b.same_cell_frame(a),
            a.cells_ok(),
        ensures
            b.cells_ok(),
    {
        assert(b.groups_count() == a.groups_count());
        assert forall|c2: int| 0 <= c2 < b.ws_count() implies 0 <= #[trigger] b.ws_monitor(c2)
            < b.monitors_view().len() && 0 <= b.ws_layout(c2) < b.groups_count() && 0
            <= b.ws_variant(c2) < b.groups_at(b.ws_monitor(c2))[b.ws_layout(
            c2,
        )].variants().len() by {
            assert(b.ws_desktop(c2) == a.ws_desktop(c2));
            assert(b.ws_monitor(c2) == a.ws_monitor(c2) && b.ws_layout(c2) == a.ws_layout(c2)
                && b.ws_variant(c2) == a.ws_variant(c2));
            assert(0 <= a.ws_monitor(c2) < a.monitors_view().len() && 0 <= a.ws_layout(c2)
                < a.groups_count() && 0 <= a.ws_variant(c2) < a.groups_at(a.ws_monitor(
                c2,
            ))[a.ws_layout(c2)].variants().len());
            assert(b.groups_at(b.ws_monitor(c2)) == a.groups_at(a.ws_monitor(c2)));
        }
        assert forall|c1: int, c2: int| 0 <= c1 < c2 < b.ws_count() implies !(
        #[trigger] b.ws_desktop(c1) == #[trigger] b.ws_desktop(c2) && b.ws_monitor(c1)
            == b.ws_monitor(c2)) by {
            assert(b.ws_desktop(c1) == a.ws_desktop(c1) && b.ws_desktop(c2) == a.ws_desktop(c2));
            assert(!(a.ws_desktop(c1) == a.ws_desktop(c2) && a.ws_monitor(c1) == a.ws_monitor(
                c2,
            )));
        }
    }

    /// Carry workspace lookups between two states with the same keys.
    proof fn lemma_same_cells(a: WindowManager, b: WindowManager, d: u128, m: int)
        requires
            b.ws_count() == a.ws_count(),
            forall|c: int|
                0 <= c < a.ws_count() ==> #[trigger] b.ws_desktop(c) == a.ws_desktop(c)
                    && b.ws_monitor(c) == a.ws_monitor(c),
            forall|c1: int, c2: int|
                0 <= c1 < c2 < a.ws_count() ==> !(#[trigger] a.ws_desktop(c1)
                    == #[trigger] a.ws_desktop(c2) && a.ws_monitor(c1) == a.ws_monitor(c2)),
        ensures
            b.has_cell(d, m) <==> a.has_cell(d, m),
            a.has_cell(d, m) ==> b.cell_of(d, m) == a.cell_of(d, m),
    {
        if a.has_cell(d, m) {
            let c = a.cell_of(d, m);
            assert(b.ws_desktop(c) == d && b.ws_monitor(c) == m);
            assert(b.has_cell(d, m));
            let c2 = b.cell_of(d, m);
            assert(a.ws_desktop(c2) == d && a.ws_monitor(c2) == m);
            if c2 != c {
                if c2 < c {
                    assert(!(a.ws_desktop(c2) == a.ws_desktop(c) && a.ws_monitor(c2)
                        == a.ws_monitor(c)));
                } else {
                    assert(!(a.ws_desktop(c) == a.ws_desktop(c2) && a.ws_monitor(c)
                        == a.ws_monitor(c2)));
                }
            }
        }
        if b.has_cell(d, m) {
            let c = b.cell_of(d, m);
            assert(a.ws_desktop(c) == d && a.ws_monitor(c) == m);
            assert(a.has_cell(d, m));
        }
    }

    /// Insert a handle not yet known anywhere at position `pos` of
    /// workspace `c`: entries of that workspace at or after `pos`
    /// shift up by one, and a fresh tiled entry records the slot.
    fn insert_handle(&mut self, c: usize, pos: usize, hwnd: u64)
        requires
            old(self).wf(),
            (c as int) < old(self).ws_count(),
            pos <= old(self).ws_handles(c as int).len(),
            !old(self).has_loc(hwnd),
        ensures
            final(self).wf(),
            final(self).same_but_cells_locations(*old(self)),
            final(self).same_cell_frame(*old(self)),
            forall|c2: int|
                0 <= c2 < final(self).ws_count() && c2 != c as int
                    ==> #[trigger] final(self).ws_handles(c2) == old(self).ws_handles(c2),
            final(self).ws_handles(c as int) == old(self).ws_handles(c as int).insert(
                pos as int,
                hwnd,
            ),
            final(self).locs() == raise_from(
                old(self).locs(),
                old(self).ws_desktop(c as int),
                old(self).ws_monitor(c as int) as usize,
                pos as int,
                hwnd,
            ).push(
                LocationEntry {
                    hwnd,
                    desktop: old(self).ws_desktop(c as int),
                    monitor: old(self).ws_monitor(c as int) as usize,
                    suspended: false,
                    idx: pos,
                },
            ),
    {
        let ghost o = *old(self);
        let d = self.workspaces[c].desktop;
        let m = self.workspaces[c].monitor;
        let cur_len = self.workspaces[c].workspace.managed_window_handles.len();
        let ghost len0 = o.ws_handles(c as int).len();
        proof {
            assert(len0 == cur_len);
        }
        self.raise_locations(d, m, pos, hwnd);
        let mut cell = dummy_cell();
        vstd::pervasive::VecAdditionalExecFns::set_and_swap(&mut self.workspaces, c, &mut cell);
        cell.workspace.managed_window_handles.insert(pos, hwnd);
        vstd::pervasive::VecAdditionalExecFns::set_and_swap(&mut self.workspaces, c, &mut cell);
        self.locations.push(
            LocationEntry { hwnd, desktop: d, monitor: m, suspended: false, idx: pos },
        );
        proof {
            let f = *self;
            let nl = f.locs().len() as int;
            assert(f.locs() =~= raise_from(o.locs(), d, m, pos as int, hwnd).push(
                LocationEntry { hwnd, desktop: d, monitor: m, suspended: false, idx: pos },
            ));
            assert(f.ws_handles(c as int) == o.ws_handles(c as int).insert(pos as int, hwnd));
            assert forall|c2: int|
                0 <= c2 < f.ws_count() && c2 != c as int implies #[trigger] f.ws_handles(c2) == o.ws_handles(
                c2,
            ) by {}
            assert(f.same_cell_frame(o));
            // entries other than the fresh one are bumped old entries
            assert forall|i: int| 0 <= i < nl - 1 implies #[trigger] f.locs()[i] == bump_entry(
                o.locs()[i],
                d,
                m,
                pos as int,
                hwnd,
            ) by {}
            assert(f.locs()[nl - 1] == (LocationEntry {
                hwnd,
                desktop: d,
                monitor: m,
                suspended: false,
                idx: pos,
            }));
            // hwnd uniqueness
            assert forall|i1: int, i2: int| 0 <= i1 < i2 < nl implies (
            #[trigger] f.locs()[i1]).hwnd != (#[trigger] f.locs()[i2]).hwnd by {
                if i2 < nl - 1 {
                    assert(f.locs()[i1].hwnd == o.locs()[i1].hwnd);
                    assert(f.locs()[i2].hwnd == o.locs()[i2].hwnd);
                } else {
                    assert(f.locs()[i1].hwnd == o.locs()[i1].hwnd);
                    assert(o.locs()[i1].hwnd != hwnd);
                }
            }
            // tiled entries stay consistent
            assert forall|i: int| 0 <= i < nl && !(#[trigger] f.locs()[i]).suspended implies {
                let e = f.locs()[i];
                &&& f.has_cell(e.desktop, e.monitor as int)
                &&& e.idx < f.ws_handles(f.cell_of(e.desktop, e.monitor as int)).len()
                &&& f.ws_handles(f.cell_of(e.desktop, e.monitor as int))[e.idx as int] == e.hwnd
            } by {
                let e = f.locs()[i];
                Self::lemma_same_cells(o, f, e.desktop, e.monitor as int);
                if i < nl - 1 {
                    let eo = o.locs()[i];
                    assert(!eo.suspended);
                    let co = o.cell_of(eo.desktop, eo.monitor as int);
                    o.lemma_cell_unique(co);
                    if eo.desktop == d && eo.monitor == m {
                        o.lemma_cell_unique(c as int);
                        assert(co == c as int);
                        assert(eo.idx < len0);
                        if eo.idx >= pos {
                            assert(e.idx == eo.idx + 1);
                            assert(f.ws_handles(c as int)[e.idx as int] == o.ws_handles(
                                c as int,
                            )[eo.idx as int]);
                        } else {
                            assert(e == eo);
                            assert(f.ws_handles(c as int)[e.idx as int] == o.ws_handles(
                                c as int,
                            )[eo.idx as int]);
                        }
                    } else {
                        assert(e == eo);
                        assert(co != c as int);
                        assert(f.ws_handles(co) == o.ws_handles(co));
                    }
                } else {
                    o.lemma_cell_unique(c as int);
                    assert(f.cell_of(d, m as int) == c as int);
                    assert(f.ws_handles(c as int)[pos as int] == hwnd);
                }
            }
            // every slot keeps a pointing entry
            assert forall|c2: int, k: int|
                0 <= c2 < f.ws_count() && 0 <= k < f.ws_handles(c2).len() implies f.slot_entry(
                c2,
                k,
            ) by {
                if c2 == c as int {
                    if k < pos {
                        assert(o.slot_entry(c2, k));
                        let i = choose|i: int|
                            0 <= i < o.locs().len() && (#[trigger] o.locs()[i]).hwnd
                                == o.ws_handles(c2)[k] && o.locs()[i].desktop == o.ws_desktop(c2)
                                && o.locs()[i].monitor as int == o.ws_monitor(c2)
                                && !o.locs()[i].suspended && o.locs()[i].idx as int == k;
                        assert(o.locs()[i].hwnd != hwnd);
                        assert(f.locs()[i] == o.locs()[i]);
                        assert(f.ws_handles(c2)[k] == o.ws_handles(c2)[k]);
                    } else if k == pos {
                        assert(f.locs()[nl - 1].hwnd == f.ws_handles(c2)[k]);
                    } else {
                        assert(o.slot_entry(c2, k - 1));
                        let i = choose|i: int|
                            0 <= i < o.locs().len() && (#[trigger] o.locs()[i]).hwnd
                                == o.ws_handles(c2)[k - 1] && o.locs()[i].desktop == o.ws_desktop(
                                c2,
                            ) && o.locs()[i].monitor as int == o.ws_monitor(c2)
                                && !o.locs()[i].suspended && o.locs()[i].idx as int == k - 1;
                        assert(o.locs()[i].hwnd != hwnd);
                        assert(o.locs()[i].idx < len0);
                        assert(f.locs()[i] == bump_entry(o.locs()[i], d, m, pos as int, hwnd));
                        assert(f.locs()[i].idx as int == k);
                        assert(f.ws_handles(c2)[k] == o.ws_handles(c2)[k - 1]);
                    }
                } else {
                    assert(o.slot_entry(c2, k));
                    let i = choose|i: int|
                        0 <= i < o.locs().len() && (#[trigger] o.locs()[i]).hwnd == o.ws_handles(
                            c2,
                        )[k] && o.locs()[i].desktop == o.ws_desktop(c2) && o.locs()[i].monitor as int
                            == o.ws_monitor(c2) && !o.locs()[i].suspended && o.locs()[i].idx as int
                            == k;
                    assert(!(o.locs()[i].desktop == d && o.locs()[i].monitor == m)) by {
                        if o.locs()[i].desktop == d && o.locs()[i].monitor == m {
                            o.lemma_cell_unique(c as int);
                            o.lemma_cell_unique(c2);
                        }
                    }
                    assert(f.locs()[i] == o.locs()[i]);
                    assert(f.ws_handles(c2) == o.ws_handles(c2));
                }
            }
            Self::lemma_static_frame(o, f);
            Self::lemma_cells_frame(o, f);
            // suspended hints stay in range
            assert forall|i: int| 0 <= i < nl && (#[trigger] f.locs()[i]).suspended implies {
                let e = f.locs()[i];
                if f.has_cell(e.desktop, e.monitor as int) {
                    e.idx <= f.ws_handles(f.cell_of(e.desktop, e.monitor as int)).len()
                } else {
                    e.idx == 0
                }
            } by {
                let e = f.locs()[i];
                assert(i < nl - 1);
                let eo = o.locs()[i];
                Self::lemma_same_cells(o, f, e.desktop, e.monitor as int);
                if o.has_cell(eo.desktop, eo.monitor as int) {
                    let co = o.cell_of(eo.desktop, eo.monitor as int);
                    o.lemma_cell_unique(co);
                    if eo.desktop == d && eo.monitor == m {
                        o.lemma_cell_unique(c as int);
                        assert(co == c as int);
                        assert(f.ws_handles(c as int).len() == len0 + 1);
                    } else {
                        assert(e == eo);
                        assert(f.ws_handles(co) == o.ws_handles(co));
                    }
                } else {
                    assert(e == eo);
                }
            }
        }
    }

    /// Create the workspace (d, m) holding just the given fresh
    /// handle, selecting the default layout and its default variant.
    fn create_cell(&mut self, desktop: u128, monitor: usize, hwnd: u64)
        requires
            old(self).wf(),
            !old(self).has_cell(desktop, monitor as int),
            !old(self).has_loc(hwnd),
            (monitor as int) < old(self).monitors_view().len(),
        ensures
            final(self).wf(),
            final(self).same_but_cells_locations(*old(self)),
            final(self).ws_count() == old(self).ws_count() + 1,
            forall|c2: int|
                0 <= c2 < old(self).ws_count() ==> #[trigger] final(self).ws_desktop(c2) == old(self).ws_desktop(c2) && final(self).ws_monitor(c2) == old(self).ws_monitor(c2) && final(self).ws_layout(c2) == old(self).ws_layout(c2) && final(self).ws_variant(c2) == old(self).ws_variant(c2) && final(self).ws_handles(c2) == old(self).ws_handles(c2),
            final(self).ws_desktop(old(self).ws_count()) == desktop,
            final(self).ws_monitor(old(self).ws_count()) == monitor as int,
            final(self).ws_layout(old(self).ws_count())
                == old(self).settings_view().default_layout_idx as int,
            final(self).ws_variant(old(self).ws_count()) == old(self).groups_at(monitor as int)[old(self).settings_view().default_layout_idx as int].default_view(),
            final(self).ws_handles(old(self).ws_count()) =~= seq![hwnd],
            final(self).locs() == old(self).locs().push(
                LocationEntry { hwnd, desktop, monitor, suspended: false, idx: 0 },
            ),
    {
        let ghost o = *old(self);
        let dli = self.settings.default_layout_idx;
        proof {
            assert(o.layouts_count() == o.monitors_view().len());
            assert(o.monitors_view().len() > 0);
            assert(o.groups_at(monitor as int).len() == o.groups_count());
            assert((dli as int) < o.groups_count());
            assert(o.groups_at(monitor as int)[dli as int].wf());
        }
        let variant_idx = self.layouts[monitor][dli].default_idx();
        let ws = Workspace::new(hwnd, dli, variant_idx);
        self.workspaces.push(WorkspaceCell { desktop, monitor, workspace: ws });
        self.locations.push(
            LocationEntry { hwnd, desktop, monitor, suspended: false, idx: 0 },
        );
        proof {
            let f = *self;
            let nc = o.ws_count();
            let nl = f.locs().len() as int;
            Self::lemma_static_frame(o, f);
            assert(f.ws_handles(nc) =~= seq![hwnd]);
            assert forall|c2: int| 0 <= c2 < nc implies #[trigger] f.ws_desktop(c2)
                == o.ws_desktop(c2) && f.ws_monitor(c2) == o.ws_monitor(c2) && f.ws_layout(c2)
                == o.ws_layout(c2) && f.ws_variant(c2) == o.ws_variant(c2) && f.ws_handles(c2)
                == o.ws_handles(c2) by {}
            // cell indices in range
            assert forall|c2: int| 0 <= c2 < f.ws_count() implies 0 <= #[trigger] f.ws_monitor(c2)
                < f.monitors_view().len() && 0 <= f.ws_layout(c2) < f.groups_count() && 0
                <= f.ws_variant(c2) < f.groups_at(f.ws_monitor(c2))[f.ws_layout(
                c2,
            )].variants().len() by {
                if c2 < nc {
                    assert(f.groups_at(f.ws_monitor(c2)) == o.groups_at(o.ws_monitor(c2)));
                } else {
                    assert(f.groups_at(monitor as int) == o.groups_at(monitor as int));
                    assert(o.groups_at(monitor as int)[dli as int].wf());
                }
            }
            // key uniqueness
            assert forall|c1: int, c2: int| 0 <= c1 < c2 < f.ws_count() implies !(
            #[trigger] f.ws_desktop(c1) == #[trigger] f.ws_desktop(c2) && f.ws_monitor(c1)
                == f.ws_monitor(c2)) by {
                if c2 < nc {
                    assert(!(o.ws_desktop(c1) == o.ws_desktop(c2) && o.ws_monitor(c1)
                        == o.ws_monitor(c2)));
                } else {
                    if o.ws_desktop(c1) == desktop && o.ws_monitor(c1) == monitor as int {
                        assert(o.has_cell(desktop, monitor as int));
                    }
                }
            }
            // location entries
            assert forall|i1: int, i2: int| 0 <= i1 < i2 < nl implies (
            #[trigger] f.locs()[i1]).hwnd != (#[trigger] f.locs()[i2]).hwnd by {
                if i2 < nl - 1 {
                    assert(f.locs()[i1] == o.locs()[i1]);
                    assert(f.locs()[i2] == o.locs()[i2]);
                    assert(o.locs()[i1].hwnd != o.locs()[i2].hwnd);
                } else {
                    assert(f.locs()[i1] == o.locs()[i1]);
                    assert(o.locs()[i1].hwnd != hwnd);
                }
            }
            assert forall|i: int| 0 <= i < nl implies (#[trigger] f.locs()[i]).monitor
                < f.monitors_view().len() by {
                if i < nl - 1 {
                    assert(f.locs()[i] == o.locs()[i]);
                }
            }
            assert forall|i: int| 0 <= i < nl && !(#[trigger] f.locs()[i]).suspended implies {
                let e = f.locs()[i];
                &&& f.has_cell(e.desktop, e.monitor as int)
                &&& e.idx < f.ws_handles(f.cell_of(e.desktop, e.monitor as int)).len()
                &&& f.ws_handles(f.cell_of(e.desktop, e.monitor as int))[e.idx as int] == e.hwnd
            } by {
                let e = f.locs()[i];
                if i < nl - 1 {
                    let eo = o.locs()[i];
                    assert(e == eo);
                    let co = o.cell_of(eo.desktop, eo.monitor as int);
                    o.lemma_cell_unique(co);
                    f.lemma_cell_unique(co);
                    assert(f.ws_handles(co) == o.ws_handles(co));
                } else {
                    assert(f.ws_desktop(nc) == desktop && f.ws_monitor(nc) == monitor as int);
                    f.lemma_cell_unique(nc);
                }
            }
            assert forall|c2: int, k: int|
                0 <= c2 < f.ws_count() && 0 <= k < f.ws_handles(c2).len() implies f.slot_entry(
                c2,
                k,
            ) by {
                if c2 < nc {
                    assert(o.slot_entry(c2, k));
                    let i = choose|i: int|
                        0 <= i < o.locs().len() && (#[trigger] o.locs()[i]).hwnd == o.ws_handles(
                            c2,
                        )[k] && o.locs()[i].desktop == o.ws_desktop(c2) && o.locs()[i].monitor as int
                            == o.ws_monitor(c2) && !o.locs()[i].suspended && o.locs()[i].idx as int
                            == k;
                    assert(f.locs()[i] == o.locs()[i]);
                    assert(f.ws_handles(c2) == o.ws_handles(c2));
                } else {
                    assert(f.locs()[nl - 1].hwnd == f.ws_handles(c2)[k]);
                }
            }
            assert forall|i: int| 0 <= i < nl && (#[trigger] f.locs()[i]).suspended implies {
                let e = f.locs()[i];
                if f.has_cell(e.desktop, e.monitor as int) {
                    e.idx <= f.ws_handles(f.cell_of(e.desktop, e.monitor as int)).len()
                } else {
                    e.idx == 0
                }
            } by {
                let e = f.locs()[i];
                assert(i < nl - 1);
                let eo = o.locs()[i];
                assert(e == eo);
                if e.desktop == desktop && e.monitor == monitor {
                    assert(!o.has_cell(desktop, monitor as int));
                    assert(e.idx == 0);
                    f.lemma_cell_unique(nc);
                    if f.has_cell(e.desktop, e.monitor as int) {
                        assert(f.cell_of(e.desktop, e.monitor as int) == nc);
                    }
                } else {
                    if o.has_cell(eo.desktop, eo.monitor as int) {
                        let co = o.cell_of(eo.desktop, eo.monitor as int);
                        o.lemma_cell_unique(co);
                        f.lemma_cell_unique(co);
                        assert(f.ws_handles(co) == o.ws_handles(co));
                    } else {
                        if f.has_cell(e.desktop, e.monitor as int) {
                            let cf = f.cell_of(e.desktop, e.monitor as int);
                            f.lemma_cell_unique(cf);
                            assert(cf == nc);
                        }
                    }
                }
            }
        }
    }

    /// Remove the location entry at index `li`, which must be
    /// suspended.
    fn remove_suspended_location(&mut self, li: usize)
        requires
            old(self).wf(),
            (li as int) < old(self).locs().len(),
            old(self).locs()[li as int].suspended,
        ensures
            final(self).wf(),
            final(self).same_but_locations(*old(self)),
            final(self).locs() == old(self).locs().remove(li as int),
    {
        let ghost o = *old(self);
        self.locations.remove(li);
        proof {
            let f = *self;
            let nl = f.locs().len() as int;
            Self::lemma_static_frame(o, f);
            Self::lemma_cells_frame(o, f);
            assert forall|i: int| 0 <= i < nl implies #[trigger] f.locs()[i] == o.locs()[if i
                < li as int {
                i
            } else {
                i + 1
            }] by {}
            assert forall|i1: int, i2: int| 0 <= i1 < i2 < nl implies (
            #[trigger] f.locs()[i1]).hwnd != (#[trigger] f.locs()[i2]).hwnd by {
                let s1 = if i1 < li as int { i1 } else { i1 + 1 };
                let s2 = if i2 < li as int { i2 } else { i2 + 1 };
                assert(f.locs()[i1] == o.locs()[s1] && f.locs()[i2] == o.locs()[s2]);
                assert(o.locs()[s1].hwnd != o.locs()[s2].hwnd);
            }
            assert forall|i: int| 0 <= i < nl && !(#[trigger] f.locs()[i]).suspended implies {
                let e = f.locs()[i];
                &&& f.has_cell(e.desktop, e.monitor as int)
                &&& e.idx < f.ws_handles(f.cell_of(e.desktop, e.monitor as int)).len()
                &&& f.ws_handles(f.cell_of(e.desktop, e.monitor as int))[e.idx as int] == e.hwnd
            } by {
                let e = f.locs()[i];
                let si = if i < li as int { i } else { i + 1 };
                assert(e == o.locs()[si]);
                let co = o.cell_of(e.desktop, e.monitor as int);
                o.lemma_cell_unique(co);
                f.lemma_cell_unique(co);
            }
            assert forall|c2: int, k: int|
                0 <= c2 < f.ws_count() && 0 <= k < f.ws_handles(c2).len() implies f.slot_entry(
                c2,
                k,
            ) by {
                assert(o.slot_entry(c2, k));
                let i = choose|i: int|
                    0 <= i < o.locs().len() && (#[trigger] o.locs()[i]).hwnd == o.ws_handles(
                        c2,
                    )[k] && o.locs()[i].desktop == o.ws_desktop(c2) && o.locs()[i].monitor as int
                        == o.ws_monitor(c2) && !o.locs()[i].suspended && o.locs()[i].idx as int
                        == k;
                assert(i != li as int);
                let fi = if i < li as int { i } else { i - 1 };
                assert(f.locs()[fi] == o.locs()[i]);
            }
            assert forall|i: int| 0 <= i < nl && (#[trigger] f.locs()[i]).suspended implies {
                let e = f.locs()[i];
                if f.has_cell(e.desktop, e.monitor as int) {
                    e.idx <= f.ws_handles(f.cell_of(e.desktop, e.monitor as int)).len()
                } else {
                    e.idx == 0
                }
            } by {
                let e = f.locs()[i];
                let si = if i < li as int { i } else { i + 1 };
                assert(e == o.locs()[si]);
                if o.has_cell(e.desktop, e.monitor as int) {
                    let co = o.cell_of(e.desktop, e.monitor as int);
                    o.lemma_cell_unique(co);
                    f.lemma_cell_unique(co);
                } else {
                    if f.has_cell(e.desktop, e.monitor as int) {
                        let cf = f.cell_of(e.desktop, e.monitor as int);
                        assert(o.ws_desktop(cf) == e.desktop && o.ws_monitor(cf)
                            == e.monitor as int);
                    }
                }
            }
        }
    }

    /// Overwrite the fields of a suspended entry: it stays suspended
    /// and only its workspace key and insertion hint change.
    fn set_suspended_entry(&mut self, li: usize, desktop: u128, monitor: usize, idx: usize)
        requires
            old(self).wf(),
            (li as int) < old(self).locs().len(),
            old(self).locs()[li as int].suspended,
            (monitor as int) < old(self).monitors_view().len(),
            if old(self).has_cell(desktop, monitor as int) {
                idx <= old(self).ws_handles(old(self).cell_of(desktop, monitor as int)).len()
            } else {
                idx == 0
            },
        ensures
            final(self).wf(),
            final(self).same_but_locations(*old(self)),
            final(self).locs() == old(self).locs().update(
                li as int,
                LocationEntry {
                    hwnd: old(self).locs()[li as int].hwnd,
                    desktop,
                    monitor,
                    suspended: true,
                    idx,
                },
            ),
    {
        let ghost o = *old(self);
        let h = self.locations[li].hwnd;
        vstd::pervasive::VecAdditionalExecFns::set(
            &mut self.locations,
            li,
            LocationEntry { hwnd: h, desktop, monitor, suspended: true, idx },
        );
        proof {
            let f = *self;
            let nl = f.locs().len() as int;
            Self::lemma_static_frame(o, f);
            Self::lemma_cells_frame(o, f);
            assert forall|i1: int, i2: int| 0 <= i1 < i2 < nl implies (
            #[trigger] f.locs()[i1]).hwnd != (#[trigger] f.locs()[i2]).hwnd by {
                assert(f.locs()[i1].hwnd == o.locs()[i1].hwnd);
                assert(f.locs()[i2].hwnd == o.locs()[i2].hwnd);
            }
            assert forall|i: int| 0 <= i < nl && !(#[trigger] f.locs()[i]).suspended implies {
                let e = f.locs()[i];
                &&& f.has_cell(e.desktop, e.monitor as int)
                &&& e.idx < f.ws_handles(f.cell_of(e.desktop, e.monitor as int)).len()
                &&& f.ws_handles(f.cell_of(e.desktop, e.monitor as int))[e.idx as int] == e.hwnd
            } by {
                let e = f.locs()[i];
                assert(i != li as int);
                assert(e == o.locs()[i]);
                let co = o.cell_of(e.desktop, e.monitor as int);
                o.lemma_cell_unique(co);
                f.lemma_cell_unique(co);
            }
            assert forall|c2: int, k: int|
                0 <= c2 < f.ws_count() && 0 <= k < f.ws_handles(c2).len() implies f.slot_entry(
                c2,
                k,
            ) by {
                assert(o.slot_entry(c2, k));
                let i = choose|i: int|
                    0 <= i < o.locs().len() && (#[trigger] o.locs()[i]).hwnd == o.ws_handles(
                        c2,
                    )[k] && o.locs()[i].desktop == o.ws_desktop(c2) && o.locs()[i].monitor as int
                        == o.ws_monitor(c2) && !o.locs()[i].suspended && o.locs()[i].idx as int
                        == k;
                assert(i != li as int);
                assert(f.locs()[i] == o.locs()[i]);
            }
            assert forall|i: int| 0 <= i < nl && (#[trigger] f.locs()[i]).suspended implies {
                let e = f.locs()[i];
                if f.has_cell(e.desktop, e.monitor as int) {
                    e.idx <= f.ws_handles(f.cell_of(e.desktop, e.monitor as int)).len()
                } else {
                    e.idx == 0
                }
            } by {
                let e = f.locs()[i];
                if i == li as int {
                    if o.has_cell(desktop, monitor as int) {
                        let co = o.cell_of(desktop, monitor as int);
                        o.lemma_cell_unique(co);
                        f.lemma_cell_unique(co);
                    } else {
                        if f.has_cell(desktop, monitor as int) {
                            let cf = f.cell_of(desktop, monitor as int);
                            assert(o.ws_desktop(cf) == desktop && o.ws_monitor(cf)
                                == monitor as int);
                        }
                    }
                } else {
                    assert(e == o.locs()[i]);
                    if o.has_cell(e.desktop, e.monitor as int) {
                        let co = o.cell_of(e.desktop, e.monitor as int);
                        o.lemma_cell_unique(co);
                        f.lemma_cell_unique(co);
                    } else {
                        if f.has_cell(e.desktop, e.monitor as int) {
                            let cf = f.cell_of(e.desktop, e.monitor as int);
                            assert(o.ws_desktop(cf) == e.desktop && o.ws_monitor(cf)
                                == e.monitor as int);
                        }
                    }
                }
            }
        }
    }

    /// Take a tiled window out of its workspace: its slot is removed,
    /// later entries of that workspace shift down, and its own entry
    /// becomes suspended with its old position as the insertion hint.
    fn detach_handle(&mut self, li: usize)
        requires
            old(self).wf(),
            (li as int) < old(self).locs().len(),
            !old(self).locs()[li as int].suspended,
        ensures
            final(self).wf(),
            final(self).same_but_cells_locations(*old(self)),
            final(self).same_cell_frame(*old(self)),
            forall|c2: int|
                0 <= c2 < final(self).ws_count() && c2 != old(self).cell_of(
                    old(self).locs()[li as int].desktop,
                    old(self).locs()[li as int].monitor as int,
                ) ==> #[trigger] final(self).ws_handles(c2) == old(self).ws_handles(c2),
            final(self).ws_handles(
                old(self).cell_of(
                    old(self).locs()[li as int].desktop,
                    old(self).locs()[li as int].monitor as int,
                ),
            ) == old(self).ws_handles(
                old(self).cell_of(
                    old(self).locs()[li as int].desktop,
                    old(self).locs()[li as int].monitor as int,
                ),
            ).remove(old(self).locs()[li as int].idx as int),
            final(self).locs() == lower_above(
                old(self).locs().update(
                    li as int,
                    LocationEntry { suspended: true, ..old(self).locs()[li as int] },
                ),
                old(self).locs()[li as int].desktop,
                old(self).locs()[li as int].monitor,
                old(self).locs()[li as int].idx as int,
            ),
    {
        let ghost o = *old(self);
        let e = self.locations[li];
        vstd::pervasive::VecAdditionalExecFns::set(
            &mut self.locations,
            li,
            LocationEntry { suspended: true, ..e },
        );
        proof {
            assert(o.has_cell(e.desktop, e.monitor as int));
            Self::lemma_same_cells(o, *self, e.desktop, e.monitor as int);
        }
        let c: usize = match self.ws_index(e.desktop, e.monitor) {
            Some(c) => c,
            None => {
                proof {
                    assert(false);
                }
                0
            },
        };
        proof {
            o.lemma_cell_unique(c as int);
        }
        let mut cell = dummy_cell();
        vstd::pervasive::VecAdditionalExecFns::set_and_swap(&mut self.workspaces, c, &mut cell);
        cell.workspace.managed_window_handles.remove(e.idx);
        vstd::pervasive::VecAdditionalExecFns::set_and_swap(&mut self.workspaces, c, &mut cell);
        self.lower_locations(e.desktop, e.monitor, e.idx);
        proof {
            let f = *self;
            let nl = f.locs().len() as int;
            let d = e.desktop;
            let m = e.monitor;
            let pos = e.idx as int;
            let mid = o.locs().update(li as int, LocationEntry { suspended: true, ..e });
            assert(f.locs() =~= lower_above(mid, d, m, pos));
            assert(f.ws_handles(c as int) == o.ws_handles(c as int).remove(pos));
            assert(f.same_cell_frame(o));
            Self::lemma_static_frame(o, f);
            Self::lemma_cells_frame(o, f);
            // any tiled entry of this workspace other than li sits at
            // another index
            assert forall|i: int|
                0 <= i < nl && i != li as int && !(#[trigger] o.locs()[i]).suspended
                    && o.locs()[i].desktop == d && o.locs()[i].monitor == m implies o.locs()[i].idx
                != e.idx by {
                if o.locs()[i].idx == e.idx {
                    o.lemma_cell_unique(c as int);
                    assert(o.ws_handles(c as int)[pos] == o.locs()[i].hwnd);
                    assert(o.ws_handles(c as int)[pos] == e.hwnd);
                    o.lemma_loc_unique(i);
                    o.lemma_loc_unique(li as int);
                }
            }
            assert forall|i1: int, i2: int| 0 <= i1 < i2 < nl implies (
            #[trigger] f.locs()[i1]).hwnd != (#[trigger] f.locs()[i2]).hwnd by {
                assert(f.locs()[i1].hwnd == o.locs()[i1].hwnd);
                assert(f.locs()[i2].hwnd == o.locs()[i2].hwnd);
            }
            assert forall|i: int| 0 <= i < nl implies (#[trigger] f.locs()[i]).monitor
                < f.monitors_view().len() by {
                assert(f.locs()[i].monitor == o.locs()[i].monitor);
            }
            assert forall|i: int| 0 <= i < nl && !(#[trigger] f.locs()[i]).suspended implies {
                let e2 = f.locs()[i];
                &&& f.has_cell(e2.desktop, e2.monitor as int)
                &&& e2.idx < f.ws_handles(f.cell_of(e2.desktop, e2.monitor as int)).len()
                &&& f.ws_handles(f.cell_of(e2.desktop, e2.monitor as int))[e2.idx as int]
                    == e2.hwnd
            } by {
                let e2 = f.locs()[i];
                assert(i != li as int);
                let eo = o.locs()[i];
                assert(!eo.suspended);
                let co = o.cell_of(eo.desktop, eo.monitor as int);
                o.lemma_cell_unique(co);
                f.lemma_cell_unique(co);
                if eo.desktop == d && eo.monitor == m {
                    o.lemma_cell_unique(c as int);
                    assert(co == c as int);
                    assert(eo.idx != e.idx);
                    if eo.idx > e.idx {
                        assert(e2.idx as int == eo.idx - 1);
                        assert(f.ws_handles(c as int)[e2.idx as int] == o.ws_handles(
                            c as int,
                        )[eo.idx as int]);
                    } else {
                        assert(e2 == eo);
                        assert(f.ws_handles(c as int)[e2.idx as int] == o.ws_handles(
                            c as int,
                        )[eo.idx as int]);
                    }
                } else {
                    assert(e2 == eo);
                    assert(co != c as int);
                    assert(f.ws_handles(co) == o.ws_handles(co));
                }
            }
            assert forall|c2: int, k: int|
                0 <= c2 < f.ws_count() && 0 <= k < f.ws_handles(c2).len() implies f.slot_entry(
                c2,
                k,
            ) by {
                if c2 == c as int {
                    let ko = if k < pos {
                        k
                    } else {
                        k + 1
                    };
                    assert(o.slot_entry(c2, ko));
                    let i = choose|i: int|
                        0 <= i < o.locs().len() && (#[trigger] o.locs()[i]).hwnd == o.ws_handles(
                            c2,
                        )[ko] && o.locs()[i].desktop == o.ws_desktop(c2) && o.locs()[i].monitor as int
                            == o.ws_monitor(c2) && !o.locs()[i].suspended && o.locs()[i].idx as int
                            == ko;
                    assert(i != li as int) by {
                        if i == li as int {
                            assert(o.locs()[i].idx as int == pos);
                        }
                    }
                    assert(f.locs()[i] == drop_entry(o.locs()[i], d, m, pos));
                    assert(f.ws_handles(c2)[k] == o.ws_handles(c2)[ko]);
                    if k < pos {
                        assert(f.locs()[i] == o.locs()[i]);
                    } else {
                        assert(f.locs()[i].idx as int == k);
                    }
                } else {
                    assert(o.slot_entry(c2, k));
                    let i = choose|i: int|
                        0 <= i < o.locs().len() && (#[trigger] o.locs()[i]).hwnd == o.ws_handles(
                            c2,
                        )[k] && o.locs()[i].desktop == o.ws_desktop(c2) && o.locs()[i].monitor as int
                            == o.ws_monitor(c2) && !o.locs()[i].suspended && o.locs()[i].idx as int
                            == k;
                    assert(i != li as int) by {
                        if i == li as int {
                            o.lemma_cell_unique(c as int);
                            o.lemma_cell_unique(c2);
                        }
                    }
                    assert(!(o.locs()[i].desktop == d && o.locs()[i].monitor == m)) by {
                        if o.locs()[i].desktop == d && o.locs()[i].monitor == m {
                            o.lemma_cell_unique(c as int);
                            o.lemma_cell_unique(c2);
                        }
                    }
                    assert(f.locs()[i] == o.locs()[i]);
                    assert(f.ws_handles(c2) == o.ws_handles(c2));
                }
            }
            assert forall|i: int| 0 <= i < nl && (#[trigger] f.locs()[i]).suspended implies {
                let e2 = f.locs()[i];
                if f.has_cell(e2.desktop, e2.monitor as int) {
                    e2.idx <= f.ws_handles(f.cell_of(e2.desktop, e2.monitor as int)).len()
                } else {
                    e2.idx == 0
                }
            } by {
                let e2 = f.locs()[i];
                let em = mid[i];
                Self::lemma_same_cells(o, f, e2.desktop, e2.monitor as int);
                if em.desktop == d && em.monitor == m {
                    o.lemma_cell_unique(c as int);
                    f.lemma_cell_unique(c as int);
                    assert(f.ws_handles(c as int).len() == o.ws_handles(c as int).len() - 1);
                    if i == li as int {
                        assert(e2.idx as int == pos);
                        assert(pos < o.ws_handles(c as int).len());
                    } else {
                        assert(o.locs()[i].suspended);
                        assert(o.locs()[i].idx <= o.ws_handles(c as int).len());
                    }
                } else {
                    assert(e2 == o.locs()[i]);
                    if o.has_cell(e2.desktop, e2.monitor as int) {
                        let co = o.cell_of(e2.desktop, e2.monitor as int);
                        o.lemma_cell_unique(co);
                        f.lemma_cell_unique(co);
                        assert(f.ws_handles(co) == o.ws_handles(co));
                    }
                }
            }
        }
    }

    /// Exchange the windows at positions `i` and `j` of workspace
    /// (d, m), updating both windows' location entries in the same
    /// step.
    pub fn swap_windows(&mut self, desktop: u128, monitor: usize, i: usize, j: usize)
        requires
            old(self).wf(),
            old(self).has_cell(desktop, monitor as int),
            (i as int) < old(self).ws_handles(
                old(self).cell_of(desktop, monitor as int),
            ).len(),
            (j as int) < old(self).ws_handles(
                old(self).cell_of(desktop, monitor as int),
            ).len(),
        ensures
            final(self).wf(),
            final(self).same_but_cells_locations(*old(self)),
            final(self).same_cell_frame(*old(self)),
            forall|c2: int|
                0 <= c2 < final(self).ws_count() && c2 != old(self).cell_of(
                    desktop,
                    monitor as int,
                ) ==> #[trigger] final(self).ws_handles(c2) == old(self).ws_handles(c2),
            final(self).ws_handles(old(self).cell_of(desktop, monitor as int)) == seq_swap(
                old(self).ws_handles(old(self).cell_of(desktop, monitor as int)),
                i as int,
                j as int,
            ),
            forall|k: int|
                0 <= k < old(self).locs().len() ==> #[trigger] final(self).locs()[k] == (
                if old(self).locs()[k].hwnd == old(self).ws_handles(
                    old(self).cell_of(desktop, monitor as int),
                )[i as int] && i != j {
                    LocationEntry { idx: j, ..old(self).locs()[k] }
                } else if old(self).locs()[k].hwnd == old(self).ws_handles(
                    old(self).cell_of(desktop, monitor as int),
                )[j as int] && i != j {
                    LocationEntry { idx: i, ..old(self).locs()[k] }
                } else {
                    old(self).locs()[k]
                }),
            final(self).locs().len() == old(self).locs().len(),
    {
        let ghost o = *old(self);
        if i == j {
            proof {
                let c = o.cell_of(desktop, monitor as int);
                assert(seq_swap(o.ws_handles(c), i as int, j as int) =~= o.ws_handles(c));
            }
            return ;
        }
        let c: usize = match self.ws_index(desktop, monitor) {
            Some(c) => c,
            None => {
                proof {
                    assert(false);
                }
                0
            },
        };
        proof {
            o.lemma_cell_unique(c as int);
            assert(c as int == o.cell_of(desktop, monitor as int));
            assert(o.slot_entry(c as int, i as int));
            assert(o.slot_entry(c as int, j as int));
        }
        let hi = self.workspaces[c].workspace.managed_window_handles[i];
        let hj = self.workspaces[c].workspace.managed_window_handles[j];
        let li: usize = match self.loc_index(hi) {
            Some(x) => x,
            None => {
                proof {
                    assert(false);
                }
                0
            },
        };
        let lj: usize = match self.loc_index(hj) {
            Some(x) => x,
            None => {
                proof {
                    assert(false);
                }
                0
            },
        };
        proof {
            o.lemma_loc_unique(li as int);
            o.lemma_loc_unique(lj as int);
            assert(o.locs()[li as int].idx as int == i);
            assert(o.locs()[lj as int].idx as int == j);
            assert(li != lj);
        }
        let eli = self.locations[li];
        let elj = self.locations[lj];
        vstd::pervasive::VecAdditionalExecFns::set(
            &mut self.locations,
            li,
            LocationEntry { idx: j, ..eli },
        );
        vstd::pervasive::VecAdditionalExecFns::set(
            &mut self.locations,
            lj,
            LocationEntry { idx: i, ..elj },
        );
        let mut cell = dummy_cell();
        vstd::pervasive::VecAdditionalExecFns::set_and_swap(&mut self.workspaces, c, &mut cell);
        vstd::pervasive::VecAdditionalExecFns::set(
            &mut cell.workspace.managed_window_handles,
            i,
            hj,
        );
        vstd::pervasive::VecAdditionalExecFns::set(
            &mut cell.workspace.managed_window_handles,
            j,
            hi,
        );
        vstd::pervasive::VecAdditionalExecFns::set_and_swap(&mut self.workspaces, c, &mut cell);
        proof {
            let f = *self;
            let nl = f.locs().len() as int;
            assert(f.ws_handles(c as int) =~= seq_swap(
                o.ws_handles(c as int),
                i as int,
                j as int,
            ));
            assert(f.same_cell_frame(o));
            Self::lemma_static_frame(o, f);
            Self::lemma_cells_frame(o, f);
            assert forall|k: int| 0 <= k < nl implies #[trigger] f.locs()[k] == (if o.locs()[k].hwnd
                == hi {
                LocationEntry { idx: j, ..o.locs()[k] }
            } else if o.locs()[k].hwnd == hj {
                LocationEntry { idx: i, ..o.locs()[k] }
            } else {
                o.locs()[k]
            }) by {
                if k != li as int && k != lj as int {
                    o.lemma_loc_unique(k);
                    assert(o.locs()[k].hwnd != hi && o.locs()[k].hwnd != hj) by {
                        o.lemma_loc_unique(li as int);
                        o.lemma_loc_unique(lj as int);
                    }
                }
            }
            assert forall|i1: int, i2: int| 0 <= i1 < i2 < nl implies (
            #[trigger] f.locs()[i1]).hwnd != (#[trigger] f.locs()[i2]).hwnd by {
                assert(f.locs()[i1].hwnd == o.locs()[i1].hwnd);
                assert(f.locs()[i2].hwnd == o.locs()[i2].hwnd);
            }
            assert forall|k: int| 0 <= k < nl implies (#[trigger] f.locs()[k]).monitor
                < f.monitors_view().len() by {
                assert(f.locs()[k].monitor == o.locs()[k].monitor);
            }
            assert forall|k: int| 0 <= k < nl && !(#[trigger] f.locs()[k]).suspended implies {
                let e2 = f.locs()[k];
                &&& f.has_cell(e2.desktop, e2.monitor as int)
                &&& e2.idx < f.ws_handles(f.cell_of(e2.desktop, e2.monitor as int)).len()
                &&& f.ws_handles(f.cell_of(e2.desktop, e2.monitor as int))[e2.idx as int]
                    == e2.hwnd
            } by {
                let e2 = f.locs()[k];
                let eo = o.locs()[k];
                assert(!eo.suspended);
                let co = o.cell_of(eo.desktop, eo.monitor as int);
                o.lemma_cell_unique(co);
                f.lemma_cell_unique(co);
                if k == li as int {
                    assert(co == c as int);
                    assert(f.ws_handles(c as int)[j as int] == hi);
                } else if k == lj as int {
                    assert(co == c as int);
                    assert(f.ws_handles(c as int)[i as int] == hj);
                } else {
                    assert(e2 == eo);
                    if co == c as int {
                        assert(eo.idx as int != i && eo.idx as int != j) by {
                            o.lemma_loc_unique(k);
                            o.lemma_loc_unique(li as int);
                            o.lemma_loc_unique(lj as int);
                            if eo.idx as int == i {
                                assert(o.ws_handles(c as int)[i as int] == eo.hwnd);
                            }
                            if eo.idx as int == j {
                                assert(o.ws_handles(c as int)[j as int] == eo.hwnd);
                            }
                        }
                        assert(f.ws_handles(c as int)[eo.idx as int] == o.ws_handles(
                            c as int,
                        )[eo.idx as int]);
                    } else {
                        assert(f.ws_handles(co) == o.ws_handles(co));
                    }
                }
            }
            assert forall|c2: int, k: int|
                0 <= c2 < f.ws_count() && 0 <= k < f.ws_handles(c2).len() implies f.slot_entry(
                c2,
                k,
            ) by {
                if c2 == c as int {
                    if k == i as int {
                        assert(f.locs()[lj as int].hwnd == hj);
                        assert(f.ws_handles(c2)[k] == hj);
                    } else if k == j as int {
                        assert(f.locs()[li as int].hwnd == hi);
                        assert(f.ws_handles(c2)[k] == hi);
                    } else {
                        assert(o.slot_entry(c2, k));
                        let x = choose|x: int|
                            0 <= x < o.locs().len() && (#[trigger] o.locs()[x]).hwnd
                                == o.ws_handles(c2)[k] && o.locs()[x].desktop == o.ws_desktop(c2)
                                && o.locs()[x].monitor as int == o.ws_monitor(c2)
                                && !o.locs()[x].suspended && o.locs()[x].idx as int == k;
                        assert(x != li as int && x != lj as int) by {
                            o.lemma_loc_unique(x);
                            o.lemma_loc_unique(li as int);
                            o.lemma_loc_unique(lj as int);
                        }
                        assert(f.locs()[x] == o.locs()[x]) by {
                            o.lemma_loc_unique(x);
                            o.lemma_loc_unique(li as int);
                            o.lemma_loc_unique(lj as int);
                        }
                        assert(f.ws_handles(c2)[k] == o.ws_handles(c2)[k]);
                    }
                } else {
                    assert(o.slot_entry(c2, k));
                    let x = choose|x: int|
                        0 <= x < o.locs().len() && (#[trigger] o.locs()[x]).hwnd == o.ws_handles(
                            c2,
                        )[k] && o.locs()[x].desktop == o.ws_desktop(c2) && o.locs()[x].monitor as int
                            == o.ws_monitor(c2) && !o.locs()[x].suspended && o.locs()[x].idx as int
                            == k;
                    assert(x != li as int && x != lj as int) by {
                        if x == li as int || x == lj as int {
                            o.lemma_cell_unique(c as int);
                            o.lemma_cell_unique(c2);
                        }
                    }
                    assert(f.locs()[x] == o.locs()[x]);
                    assert(f.ws_handles(c2) == o.ws_handles(c2));
                }
            }
            assert forall|k: int| 0 <= k < nl && (#[trigger] f.locs()[k]).suspended implies {
                let e2 = f.locs()[k];
                if f.has_cell(e2.desktop, e2.monitor as int) {
                    e2.idx <= f.ws_handles(f.cell_of(e2.desktop, e2.monitor as int)).len()
                } else {
                    e2.idx == 0
                }
            } by {
                let e2 = f.locs()[k];
                assert(k != li as int && k != lj as int);
                assert(e2 == o.locs()[k]);
                Self::lemma_same_cells(o, f, e2.desktop, e2.monitor as int);
                if o.has_cell(e2.desktop, e2.monitor as int) {
                    let co = o.cell_of(e2.desktop, e2.monitor as int);
                    o.lemma_cell_unique(co);
                    f.lemma_cell_unique(co);
                    if co == c as int {
                        assert(f.ws_handles(co).len() == o.ws_handles(co).len());
                    } else {
                        assert(f.ws_handles(co) == o.ws_handles(co));
                    }
                }
            }
        }
    }

    /// The layout that currently tiles workspace `c`.
    pub open spec fn active_layout(self, c: int) -> crate::layout::Layout {
        self.groups_at(self.ws_monitor(c))[self.ws_layout(c)].variants()[self.ws_variant(c)]
    }

    /// The reposition calls one pass over workspace (d, m) issues: one
    /// per managed handle, in order, using the cached placements for
    /// the workspace's window count. Empty while the workspace is
    /// toggled off, absent, empty, or its placements are not yet long
    /// enough.
    pub open spec fn update_plan(self, d: u128, m: usize) -> Seq<(u64, Position)> {
        if self.key_ignored(d, m) || !self.has_cell(d, m as int) {
            Seq::empty()
        } else {
            let c = self.cell_of(d, m as int);
            let n = self.ws_handles(c).len() as int;
            if n == 0 {
                Seq::empty()
            } else {
                let l = self.active_layout(c);
                if l.positions_view().len() >= n && l.positions_view()[n - 1].len() == n {
                    Seq::new(n as nat, |k: int| (self.ws_handles(c)[k], l.positions_view()[n - 1][k]))
                } else {
                    Seq::empty()
                }
            }
        }
    }

    /// A pass over workspace (d, m) would issue its calls without
    /// first extending the layout.
    pub open spec fn plan_settled(self, d: u128, m: usize) -> bool {
        self.key_ignored(d, m) || !self.has_cell(d, m as int) || {
            let c = self.cell_of(d, m as int);
            let n = self.ws_handles(c).len() as int;
            n == 0 || self.active_layout(c).positions_view().len() >= n || n
                > crate::geometry::COORD_LIMIT as int
        }
    }

    /// All fields except the layouts unchanged.
    pub closed spec fn same_but_layouts(self, a: WindowManager) -> bool {
        &&& self.monitors@ == a.monitors@
        &&& self.workspaces@ == a.workspaces@
        &&& self.locations@ == a.locations@
        &&& self.foreground_hwnd == a.foreground_hwnd
        &&& self.grabbed_window == a.grabbed_window
        &&& self.ignored_combinations@ == a.ignored_combinations@
        &&& self.ignored_hwnds@ == a.ignored_hwnds@
        &&& self.settings == a.settings
    }

    /// Carry the location part of the invariant between two states
    /// with the same workspaces and entries.
    proof fn lemma_locs_frame(a: WindowManager, b: WindowManager)
        requires
            b.workspaces@ == a.workspaces@,
            b.locations@ == a.locations@,
            b.monitors@ == a.monitors@,
            a.locs_ok(),
            a.cells_ok(),
        ensures
            b.locs_ok(),
    {
        assert forall|c1: int, c2: int| 0 <= c1 < c2 < b.ws_count() implies !(
        #[trigger] b.ws_desktop(c1) == #[trigger] b.ws_desktop(c2) && b.ws_monitor(c1)
            == b.ws_monitor(c2)) by {
            assert(b.ws_desktop(c1) == a.ws_desktop(c1) && b.ws_desktop(c2) == a.ws_desktop(c2));
            assert(!(a.ws_desktop(c1) == a.ws_desktop(c2) && a.ws_monitor(c1) == a.ws_monitor(
                c2,
            )));
        }
        let nl = b.locs().len() as int;
        assert forall|i1: int, i2: int| 0 <= i1 < i2 < nl implies (
        #[trigger] b.locs()[i1]).hwnd != (#[trigger] b.locs()[i2]).hwnd by {
            assert(b.locs()[i1] == a.locs()[i1] && b.locs()[i2] == a.locs()[i2]);
        }
        assert forall|i: int| 0 <= i < nl implies (#[trigger] b.locs()[i]).monitor
            < b.monitors_view().len() by {
            assert(b.locs()[i] == a.locs()[i]);
        }
        assert forall|i: int| 0 <= i < nl && !(#[trigger] b.locs()[i]).suspended implies {
            let e = b.locs()[i];
            &&& b.has_cell(e.desktop, e.monitor as int)
            &&& e.idx < b.ws_handles(b.cell_of(e.desktop, e.monitor as int)).len()
            &&& b.ws_handles(b.cell_of(e.desktop, e.monitor as int))[e.idx as int] == e.hwnd
        } by {
            let e = b.locs()[i];
            assert(e == a.locs()[i]);
            let co = a.cell_of(e.desktop, e.monitor as int);
            a.lemma_cell_unique(co);
            b.lemma_cell_unique(co);
        }
        assert forall|c2: int, k: int|
            0 <= c2 < b.ws_count() && 0 <= k < b.ws_handles(c2).len() implies b.slot_entry(
            c2,
            k,
        ) by {
            assert(a.slot_entry(c2, k));
            let i = choose|i: int|
                0 <= i < a.locs().len() && (#[trigger] a.locs()[i]).hwnd == a.ws_handles(c2)[k]
                    && a.locs()[i].desktop == a.ws_desktop(c2) && a.locs()[i].monitor as int
                    == a.ws_monitor(c2) && !a.locs()[i].suspended && a.locs()[i].idx as int == k;
            assert(b.locs()[i] == a.locs()[i]);
        }
        assert forall|i: int| 0 <= i < nl && (#[trigger] b.locs()[i]).suspended implies {
            let e = b.locs()[i];
            if b.has_cell(e.desktop, e.monitor as int) {
                e.idx <= b.ws_handles(b.cell_of(e.desktop, e.monitor as int)).len()
            } else {
                e.idx == 0
            }
        } by {
            let e = b.locs()[i];
            assert(e == a.locs()[i]);
            Self::lemma_same_cells(a, b, e.desktop, e.monitor as int);
            if a.has_cell(e.desktop, e.monitor as int) {
                let co = a.cell_of(e.desktop, e.monitor as int);
                a.lemma_cell_unique(co);
                b.lemma_cell_unique(co);
            }
        }
    }

    /// Carry the whole invariant between two states that differ only
    /// in the foreground and grabbed handles.
    proof fn lemma_wf_frame(a: WindowManager, b: WindowManager)
        requires
            a.wf(),
            b.monitors@ == a.monitors@,
            b.layouts@ == a.layouts@,
            b.workspaces@ == a.workspaces@,
            b.locations@ == a.locations@,
            b.ignored_combinations@ == a.ignored_combinations@,
            b.ignored_hwnds@ == a.ignored_hwnds@,
            b.settings == a.settings,
        ensures
            b.wf(),
    {
        Self::lemma_static_frame(a, b);
        Self::lemma_cells_frame(a, b);
        Self::lemma_locs_frame(a, b);
    }

    /// Raise the insertion hints of workspace (d, m) entries at or
    /// above `from`; no tiled entry may sit there.
    fn raise_hints(&mut self, desktop: u128, monitor: usize, from: usize, except: u64)
        requires
            old(self).wf(),
            forall|i: int|
                0 <= i < old(self).locs().len() && !(#[trigger] old(self).locs()[i]).suspended
                    && old(self).locs()[i].desktop == desktop && old(self).locs()[i].monitor
                    == monitor && old(self).locs()[i].hwnd != except ==> old(self).locs()[i].idx < from,
            old(self).has_cell(desktop, monitor as int) && from <= old(self).ws_handles(
                old(self).cell_of(desktop, monitor as int),
            ).len(),
            forall|i: int|
                0 <= i < old(self).locs().len() && (#[trigger] old(self).locs()[i]).suspended
                    && old(self).locs()[i].desktop == desktop && old(self).locs()[i].monitor
                    == monitor && old(self).locs()[i].hwnd != except && old(self).locs()[i].idx
                    >= from ==> (old(self).locs()[i].idx as int) < old(self).ws_handles(
                    old(self).cell_of(desktop, monitor as int),
                ).len(),
        ensures
            final(self).wf(),
            final(self).same_but_locations(*old(self)),
            final(self).locs() == raise_from(
                old(self).locs(),
                desktop,
                monitor,
                from as int,
                except,
            ),
    {
        let ghost o = *old(self);
        self.raise_locations(desktop, monitor, from, except);
        proof {
            let f = *self;
            let nl = f.locs().len() as int;
            Self::lemma_static_frame(o, f);
            Self::lemma_cells_frame(o, f);
            assert forall|i1: int, i2: int| 0 <= i1 < i2 < nl implies (
            #[trigger] f.locs()[i1]).hwnd != (#[trigger] f.locs()[i2]).hwnd by {
                assert(f.locs()[i1].hwnd == o.locs()[i1].hwnd);
                assert(f.locs()[i2].hwnd == o.locs()[i2].hwnd);
            }
            assert forall|i: int| 0 <= i < nl implies (#[trigger] f.locs()[i]).monitor
                < f.monitors_view().len() by {
                assert(f.locs()[i].monitor == o.locs()[i].monitor);
            }
            assert forall|i: int| 0 <= i < nl && !(#[trigger] f.locs()[i]).suspended implies {
                let e = f.locs()[i];
                &&& f.has_cell(e.desktop, e.monitor as int)
                &&& e.idx < f.ws_handles(f.cell_of(e.desktop, e.monitor as int)).len()
                &&& f.ws_handles(f.cell_of(e.desktop, e.monitor as int))[e.idx as int] == e.hwnd
            } by {
                let e = f.locs()[i];
                let eo = o.locs()[i];
                assert(e == eo);
                let co = o.cell_of(eo.desktop, eo.monitor as int);
                o.lemma_cell_unique(co);
                f.lemma_cell_unique(co);
            }
            assert forall|c2: int, k: int|
                0 <= c2 < f.ws_count() && 0 <= k < f.ws_handles(c2).len() implies f.slot_entry(
                c2,
                k,
            ) by {
                assert(o.slot_entry(c2, k));
                let i = choose|i: int|
                    0 <= i < o.locs().len() && (#[trigger] o.locs()[i]).hwnd == o.ws_handles(
                        c2,
                    )[k] && o.locs()[i].desktop == o.ws_desktop(c2) && o.locs()[i].monitor as int
                        == o.ws_monitor(c2) && !o.locs()[i].suspended && o.locs()[i].idx as int
                        == k;
                assert(f.locs()[i] == o.locs()[i]) by {
                    if o.locs()[i].desktop == desktop && o.locs()[i].monitor == monitor
                        && o.locs()[i].hwnd != except {
                        assert(o.locs()[i].idx < from);
                    }
                }
            }
            assert forall|i: int| 0 <= i < nl && (#[trigger] f.locs()[i]).suspended implies {
                let e = f.locs()[i];
                if f.has_cell(e.desktop, e.monitor as int) {
                    e.idx <= f.ws_handles(f.cell_of(e.desktop, e.monitor as int)).len()
                } else {
                    e.idx == 0
                }
            } by {
                let e = f.locs()[i];
                let eo = o.locs()[i];
                Self::lemma_same_cells(o, f, e.desktop, e.monitor as int);
                if o.has_cell(eo.desktop, eo.monitor as int) {
                    let co = o.cell_of(eo.desktop, eo.monitor as int);
                    o.lemma_cell_unique(co);
                    f.lemma_cell_unique(co);
                    if eo.desktop == desktop && eo.monitor == monitor {
                        o.lemma_cell_unique(o.cell_of(desktop, monitor as int));
                        assert(eo.idx <= o.ws_handles(co).len());
                        assert(from <= o.ws_handles(co).len());
                    }
                } else {
                    assert(eo.idx == 0);
                    assert(e == eo) by {
                        if eo.desktop == desktop && eo.monitor == monitor {
                            assert(o.has_cell(desktop, monitor as int));
                        }
                    }
                }
            }
        }
    }

    /// Record a fresh handle as suspended on workspace (d, m) with the
    /// given insertion hint.
    fn push_suspended_location(&mut self, hwnd: u64, desktop: u128, monitor: usize, idx: usize)
        requires
            old(self).wf(),
            !old(self).has_loc(hwnd),
            (monitor as int) < old(self).monitors_view().len(),
            if old(self).has_cell(desktop, monitor as int) {
                idx <= old(self).ws_handles(old(self).cell_of(desktop, monitor as int)).len()
            } else {
                idx == 0
            },
        ensures
            final(self).wf(),
            final(self).same_but_locations(*old(self)),
            final(self).locs() == old(self).locs().push(
                LocationEntry { hwnd, desktop, monitor, suspended: true, idx },
            ),
    {
        let ghost o = *old(self);
        self.locations.push(
            LocationEntry { hwnd, desktop, monitor, suspended: true, idx },
        );
        proof {
            let f = *self;
            let nl = f.locs().len() as int;
            Self::lemma_static_frame(o, f);
            Self::lemma_cells_frame(o, f);
            assert forall|i1: int, i2: int| 0 <= i1 < i2 < nl implies (
            #[trigger] f.locs()[i1]).hwnd != (#[trigger] f.locs()[i2]).hwnd by {
                if i2 < nl - 1 {
                    assert(f.locs()[i1] == o.locs()[i1] && f.locs()[i2] == o.locs()[i2]);
                } else {
                    assert(f.locs()[i1] == o.locs()[i1]);
                    assert(o.locs()[i1].hwnd != hwnd);
                }
            }
            assert forall|i: int| 0 <= i < nl implies (#[trigger] f.locs()[i]).monitor
                < f.monitors_view().len() by {
                if i < nl - 1 {
                    assert(f.locs()[i] == o.locs()[i]);
                }
            }
            assert forall|i: int| 0 <= i < nl && !(#[trigger] f.locs()[i]).suspended implies {
                let e = f.locs()[i];
                &&& f.has_cell(e.desktop, e.monitor as int)
                &&& e.idx < f.ws_handles(f.cell_of(e.desktop, e.monitor as int)).len()
                &&& f.ws_handles(f.cell_of(e.desktop, e.monitor as int))[e.idx as int] == e.hwnd
            } by {
                let e = f.locs()[i];
                assert(i < nl - 1);
                assert(e == o.locs()[i]);
                let co = o.cell_of(e.desktop, e.monitor as int);
                o.lemma_cell_unique(co);
                f.lemma_cell_unique(co);
            }
            assert forall|c2: int, k: int|
                0 <= c2 < f.ws_count() && 0 <= k < f.ws_handles(c2).len() implies f.slot_entry(
                c2,
                k,
            ) by {
                assert(o.slot_entry(c2, k));
                let i = choose|i: int|
                    0 <= i < o.locs().len() && (#[trigger] o.locs()[i]).hwnd == o.ws_handles(
                        c2,
                    )[k] && o.locs()[i].desktop == o.ws_desktop(c2) && o.locs()[i].monitor as int
                        == o.ws_monitor(c2) && !o.locs()[i].suspended && o.locs()[i].idx as int
                        == k;
                assert(f.locs()[i] == o.locs()[i]);
            }
            assert forall|i: int| 0 <= i < nl && (#[trigger] f.locs()[i]).suspended implies {
                let e = f.locs()[i];
                if f.has_cell(e.desktop, e.monitor as int) {
                    e.idx <= f.ws_handles(f.cell_of(e.desktop, e.monitor as int)).len()
                } else {
                    e.idx == 0
                }
            } by {
                let e = f.locs()[i];
                Self::lemma_same_cells(o, f, e.desktop, e.monitor as int);
                if i < nl - 1 {
                    assert(e == o.locs()[i]);
                }
                if o.has_cell(e.desktop, e.monitor as int) {
                    let co = o.cell_of(e.desktop, e.monitor as int);
                    o.lemma_cell_unique(co);
                    f.lemma_cell_unique(co);
                }
            }
        }
    }

    /// Select another layout and variant for workspace `c`.
    fn set_cell_indices(&mut self, c: usize, layout_idx: usize, variant_idx: usize)
        requires
            old(self).wf(),
            (c as int) < old(self).ws_count(),
            (layout_idx as int) < old(self).groups_count(),
            (variant_idx as int) < old(self).groups_at(old(self).ws_monitor(c as int))[layout_idx as int].variants().len(),
        ensures
            final(self).wf(),
            final(self).same_but_cells_locations(*old(self)),
            final(self).locs() == old(self).locs(),
            final(self).ws_count() == old(self).ws_count(),
            forall|c2: int|
                0 <= c2 < final(self).ws_count() ==> #[trigger] final(self).ws_desktop(c2) == old(self).ws_desktop(c2) && final(self).ws_monitor(c2) == old(self).ws_monitor(c2) && final(self).ws_handles(c2) == old(self).ws_handles(c2),
            forall|c2: int|
                0 <= c2 < final(self).ws_count() && c2 != c as int ==> #[trigger] final(self).ws_layout(c2) == old(self).ws_layout(c2) && final(self).ws_variant(c2) == old(self).ws_variant(c2),
            final(self).ws_layout(c as int) == layout_idx as int,
            final(self).ws_variant(c as int) == variant_idx as int,
    {
        let ghost o = *old(self);
        let mut cell = dummy_cell();
        vstd::pervasive::VecAdditionalExecFns::set_and_swap(&mut self.workspaces, c, &mut cell);
        cell.workspace.layout_idx = layout_idx;
        cell.workspace.variant_idx = variant_idx;
        vstd::pervasive::VecAdditionalExecFns::set_and_swap(&mut self.workspaces, c, &mut cell);
        proof {
            let f = *self;
            Self::lemma_static_frame(o, f);
            assert(f.groups_count() == o.groups_count());
            assert forall|c2: int| 0 <= c2 < f.ws_count() implies 0 <= #[trigger] f.ws_monitor(c2)
                < f.monitors_view().len() && 0 <= f.ws_layout(c2) < f.groups_count() && 0
                <= f.ws_variant(c2) < f.groups_at(f.ws_monitor(c2))[f.ws_layout(
                c2,
            )].variants().len() by {
                assert(f.groups_at(f.ws_monitor(c2)) == o.groups_at(o.ws_monitor(c2)));
                if c2 != c as int {
                    assert(f.ws_monitor(c2) == o.ws_monitor(c2) && f.ws_layout(c2) == o.ws_layout(
                        c2,
                    ) && f.ws_variant(c2) == o.ws_variant(c2));
                }
            }
            assert forall|c1: int, c2: int| 0 <= c1 < c2 < f.ws_count() implies !(
            #[trigger] f.ws_desktop(c1) == #[trigger] f.ws_desktop(c2) && f.ws_monitor(c1)
                == f.ws_monitor(c2)) by {
                assert(f.ws_desktop(c1) == o.ws_desktop(c1) && f.ws_desktop(c2) == o.ws_desktop(
                    c2,
                ));
                assert(!(o.ws_desktop(c1) == o.ws_desktop(c2) && o.ws_monitor(c1) == o.ws_monitor(
                    c2,
                )));
            }
            let nl = f.locs().len() as int;
            assert forall|i: int| 0 <= i < nl && !(#[trigger] f.locs()[i]).suspended implies {
                let e = f.locs()[i];
                &&& f.has_cell(e.desktop, e.monitor as int)
                &&& e.idx < f.ws_handles(f.cell_of(e.desktop, e.monitor as int)).len()
                &&& f.ws_handles(f.cell_of(e.desktop, e.monitor as int))[e.idx as int] == e.hwnd
            } by {
                let e = f.locs()[i];
                assert(e == o.locs()[i]);
                let co = o.cell_of(e.desktop, e.monitor as int);
                o.lemma_cell_unique(co);
                f.lemma_cell_unique(co);
            }
            assert forall|c2: int, k: int|
                0 <= c2 < f.ws_count() && 0 <= k < f.ws_handles(c2).len() implies f.slot_entry(
                c2,
                k,
            ) by {
                assert(o.slot_entry(c2, k));
                let i = choose|i: int|
                    0 <= i < o.locs().len() && (#[trigger] o.locs()[i]).hwnd == o.ws_handles(
                        c2,
                    )[k] && o.locs()[i].desktop == o.ws_desktop(c2) && o.locs()[i].monitor as int
                        == o.ws_monitor(c2) && !o.locs()[i].suspended && o.locs()[i].idx as int
                        == k;
                assert(f.locs()[i] == o.locs()[i]);
            }
            assert forall|i: int| 0 <= i < nl && (#[trigger] f.locs()[i]).suspended implies {
                let e = f.locs()[i];
                if f.has_cell(e.desktop, e.monitor as int) {
                    e.idx <= f.ws_handles(f.cell_of(e.desktop, e.monitor as int)).len()
                } else {
                    e.idx == 0
                }
            } by {
                let e = f.locs()[i];
                assert(e == o.locs()[i]);
                Self::lemma_same_cells(o, f, e.desktop, e.monitor as int);
                if o.has_cell(e.desktop, e.monitor as int) {
                    let co = o.cell_of(e.desktop, e.monitor as int);
                    o.lemma_cell_unique(co);
                    f.lemma_cell_unique(co);
                }
            }
        }
    }

    /// Grow the active layout of workspace `c` until it caches
    /// placements for at least `need` windows.
    fn ensure_positions(&mut self, c: usize, need: usize)
        requires
            old(self).wf(),
            (c as int) < old(self).ws_count(),
            need <= crate::geometry::COORD_LIMIT,
        ensures
            final(self).wf(),
            final(self).same_but_layouts(*old(self)),
            final(self).same_cell_frame(*old(self)),
            forall|c2: int|
                0 <= c2 < final(self).ws_count() ==> #[trigger] final(self).ws_handles(c2) == old(self).ws_handles(c2),
            final(self).active_layout(c as int).positions_view().len() >= need,
            forall|m2: int|
                0 <= m2 < final(self).monitors_view().len() && m2 != old(self).ws_monitor(c as int)
                    ==> #[trigger] final(self).groups_at(m2) == old(self).groups_at(m2),
            final(self).active_layout(c as int).prepared(
                final(self).settings_view().window_padding as int,
                final(self).settings_view().edge_padding as int,
            ),
            // the layout only grows: existing tilings and cached rows
            // of the active layout persist unchanged
            forall|k: int|
                0 <= k < old(self).active_layout(c as int).tilings().len() ==> #[trigger] final(self).active_layout(c as int).tilings()[k] == old(self).active_layout(
                    c as int,
                ).tilings()[k],
            forall|k: int|
                0 <= k < old(self).active_layout(c as int).positions_view().len()
                    ==> #[trigger] final(self).active_layout(c as int).positions_view()[k] == old(self).active_layout(c as int).positions_view()[k],
    {
        let ghost o = *old(self);
        let m = self.workspaces[c].monitor;
        let g = self.workspaces[c].workspace.layout_idx;
        let v = self.workspaces[c].workspace.variant_idx;
        let wp = self.settings.window_padding;
        let ep = self.settings.edge_padding;
        proof {
            assert(m as int == o.ws_monitor(c as int));
            assert(g as int == o.ws_layout(c as int));
            assert(v as int == o.ws_variant(c as int));
            assert(0 <= o.ws_monitor(c as int) < o.monitors_view().len());
            assert(0 <= o.ws_layout(c as int) < o.groups_count());
            assert(o.groups_at(m as int).len() == o.groups_count());
            assert(o.groups_at(m as int)[g as int].wf());
            assert(o.groups_at(m as int)[g as int].prepared(wp as int, ep as int));
        }
        let mut inner: Vec<LayoutGroup> = Vec::new();
        vstd::pervasive::VecAdditionalExecFns::set_and_swap(&mut self.layouts, m, &mut inner);
        let mut grp = LayoutGroup::new(1, 1);
        vstd::pervasive::VecAdditionalExecFns::set_and_swap(&mut inner, g, &mut grp);
        grp.extend_variant_until(v, need, wp, ep);
        vstd::pervasive::VecAdditionalExecFns::set_and_swap(&mut inner, g, &mut grp);
        vstd::pervasive::VecAdditionalExecFns::set_and_swap(&mut self.layouts, m, &mut inner);
        proof {
            let f = *self;
            assert(f.layouts@ =~= o.layouts@.update(m as int, f.layouts@[m as int]));
            assert(f.groups_at(m as int) =~= o.groups_at(m as int).update(
                g as int,
                f.groups_at(m as int)[g as int],
            ));
            assert(f.layouts_count() == o.layouts_count());
            assert(f.monitors_view() == o.monitors_view());
            assert(f.groups_count() == o.groups_count()) by {
                if o.monitors_view().len() > 0 {
                    if m == 0 {
                        assert(f.groups_at(0).len() == o.groups_at(0).len());
                    } else {
                        assert(f.layouts@[0] == o.layouts@[0]);
                    }
                }
            }
            assert forall|m2: int| 0 <= m2 < f.monitors_view().len() implies (
            #[trigger] f.groups_at(m2)).len() == f.groups_count() by {
                if m2 != m as int {
                    assert(f.layouts@[m2] == o.layouts@[m2]);
                    assert(f.groups_at(m2) == o.groups_at(m2));
                } else {
                    assert(f.groups_at(m2).len() == o.groups_at(m2).len());
                }
                assert(o.groups_at(m2).len() == o.groups_count());
            }
            assert forall|m2: int, g2: int|
                0 <= m2 < f.monitors_view().len() && 0 <= g2 < f.groups_count() implies (
            #[trigger] f.groups_at(m2)[g2]).wf() && f.groups_at(m2)[g2].prepared(
                f.settings_view().window_padding as int,
                f.settings_view().edge_padding as int,
            ) && f.groups_at(m2)[g2].monitor() == f.monitors_view()[m2] by {
                if m2 == m as int && g2 == g as int {
                    let ng = f.groups_at(m2)[g2];
                    let og = o.groups_at(m2)[g2];
                    assert(og.wf() && og.prepared(wp as int, ep as int));
                    assert(ng.wf());
                    assert forall|i: int| 0 <= i < ng.variants().len() implies (
                    #[trigger] ng.variants()[i]).prepared(wp as int, ep as int)
                        && ng.variants()[i].extendable() && ng.variants()[i].sized() by {
                        if i != v as int {
                            assert(ng.variants()[i] == og.variants()[i]);
                            assert(og.variants()[i].prepared(wp as int, ep as int));
                        }
                    }
                    assert(ng.monitor() == og.monitor()) by {
                        assert(ng.variants()[ng.default_view()].monitor() == og.variants()[og.default_view()].monitor());
                    }
                } else if m2 == m as int {
                    assert(f.groups_at(m2)[g2] == o.groups_at(m2)[g2]);
                    assert(o.groups_at(m2)[g2].wf());
                } else {
                    assert(f.layouts@[m2] == o.layouts@[m2]);
                    assert(f.groups_at(m2)[g2] == o.groups_at(m2)[g2]);
                    assert(o.groups_at(m2)[g2].wf());
                }
            }
            assert forall|c2: int| 0 <= c2 < f.ws_count() implies 0 <= #[trigger] f.ws_monitor(c2)
                < f.monitors_view().len() && 0 <= f.ws_layout(c2) < f.groups_count() && 0
                <= f.ws_variant(c2) < f.groups_at(f.ws_monitor(c2))[f.ws_layout(
                c2,
            )].variants().len() by {
                assert(f.ws_desktop(c2) == o.ws_desktop(c2));
                assert(f.ws_monitor(c2) == o.ws_monitor(c2) && f.ws_layout(c2) == o.ws_layout(c2)
                    && f.ws_variant(c2) == o.ws_variant(c2));
                if f.ws_monitor(c2) == m as int && f.ws_layout(c2) == g as int {
                    assert(f.groups_at(m as int)[g as int].variants().len() == o.groups_at(
                        m as int,
                    )[g as int].variants().len());
                } else if f.ws_monitor(c2) == m as int {
                    assert(f.groups_at(m as int)[f.ws_layout(c2)] == o.groups_at(
                        m as int,
                    )[o.ws_layout(c2)]);
                } else {
                    assert(f.layouts@[f.ws_monitor(c2)] == o.layouts@[o.ws_monitor(c2)]);
                }
            }
            assert forall|c1: int, c2: int| 0 <= c1 < c2 < f.ws_count() implies !(
            #[trigger] f.ws_desktop(c1) == #[trigger] f.ws_desktop(c2) && f.ws_monitor(c1)
                == f.ws_monitor(c2)) by {
                assert(f.ws_desktop(c1) == o.ws_desktop(c1) && f.ws_desktop(c2) == o.ws_desktop(
                    c2,
                ));
                assert(!(o.ws_desktop(c1) == o.ws_desktop(c2) && o.ws_monitor(c1) == o.ws_monitor(
                    c2,
                )));
            }
            Self::lemma_locs_frame(o, f);
            Self::lemma_static_frame_ignored(o, f);
            assert(f.ws_monitor(c as int) == m as int && f.ws_layout(c as int) == g as int
                && f.ws_variant(c as int) == v as int);
            assert(f.active_layout(c as int) == f.groups_at(m as int)[g as int].variants()[v as int]);
            assert(o.active_layout(c as int) == o.groups_at(m as int)[g as int].variants()[v as int]);
        }
    }

    /// Carry the monitor and layout parts of the invariant between
    /// two states that share those fields.
    proof fn lemma_ml_frame(a: WindowManager, b: WindowManager)
        requires
            b.monitors@ == a.monitors@,
            b.layouts@ == a.layouts@,
            b.settings == a.settings,
            a.monitors_ok(),
            a.layouts_ok(),
        ensures
            b.monitors_ok(),
            b.layouts_ok(),
    {
        assert forall|m: int| 0 <= m < b.monitors_view().len() implies (
        #[trigger] b.monitors_view()[m]).wf() && b.monitors_view()[m].spec_w() >= 1
            && b.monitors_view()[m].spec_h() >= 1 by {
            assert(b.monitors_view()[m] == a.monitors_view()[m]);
        }
        assert(b.layouts_count() == a.layouts_count());
        assert(b.groups_count() == a.groups_count());
        assert forall|m: int| 0 <= m < b.monitors_view().len() implies (
        #[trigger] b.groups_at(m)).len() == b.groups_count() by {
            assert(b.groups_at(m) == a.groups_at(m));
        }
        assert forall|m: int, g: int|
            0 <= m < b.monitors_view().len() && 0 <= g < b.groups_count() implies (
        #[trigger] b.groups_at(m)[g]).wf() && b.groups_at(m)[g].prepared(
            b.settings_view().window_padding as int,
            b.settings_view().edge_padding as int,
        ) && b.groups_at(m)[g].monitor() == b.monitors_view()[m] by {
            assert(b.groups_at(m) == a.groups_at(m));
            assert(b.groups_at(m)[g] == a.groups_at(m)[g]);
            assert(a.groups_at(m)[g].wf());
            assert(b.monitors_view()[m] == a.monitors_view()[m]);
        }
    }

    /// Chain a cell frame across a state whose workspaces are
    /// unchanged.
    proof fn lemma_cell_frame_carry(a: WindowManager, b: WindowManager, c: WindowManager)
        requires
            b.same_cell_frame(a),
            c.workspaces@ == b.workspaces@,
        ensures
            c.same_cell_frame(a),
            forall|c2: int|
                0 <= c2 < c.ws_count() ==> #[trigger] c.ws_handles(c2) == b.ws_handles(c2),
    {
        assert forall|c2: int| 0 <= c2 < a.ws_count() implies #[trigger] c.ws_desktop(c2)
            == a.ws_desktop(c2) && c.ws_monitor(c2) == a.ws_monitor(c2) && c.ws_layout(c2)
            == a.ws_layout(c2) && c.ws_variant(c2) == a.ws_variant(c2) by {
            assert(c.workspaces@[c2] == b.workspaces@[c2]);
            assert(b.ws_desktop(c2) == a.ws_desktop(c2));
        }
        assert forall|c2: int| 0 <= c2 < c.ws_count() implies #[trigger] c.ws_handles(c2)
            == b.ws_handles(c2) by {
            assert(c.workspaces@[c2] == b.workspaces@[c2]);
        }
    }

    /// Chain two cell frames.
    proof fn lemma_cell_frame_trans(a: WindowManager, b: WindowManager, c: WindowManager)
        requires
            b.same_cell_frame(a),
            c.same_cell_frame(b),
        ensures
            c.same_cell_frame(a),
    {
        assert forall|c2: int| 0 <= c2 < a.ws_count() implies #[trigger] c.ws_desktop(c2)
            == a.ws_desktop(c2) && c.ws_monitor(c2) == a.ws_monitor(c2) && c.ws_layout(c2)
            == a.ws_layout(c2) && c.ws_variant(c2) == a.ws_variant(c2) by {
            assert(b.ws_desktop(c2) == a.ws_desktop(c2));
            assert(c.ws_desktop(c2) == b.ws_desktop(c2));
        }
    }

    /// Carry only the ignored-list invariants.
    proof fn lemma_static_frame_ignored(a: WindowManager, b: WindowManager)
        requires
            b.ignored_combinations@ == a.ignored_combinations@,
            b.ignored_hwnds@ == a.ignored_hwnds@,
            a.ignored_ok(),
            a.monitors_ok(),
            b.monitors@ == a.monitors@,
        ensures
            b.ignored_ok(),
            b.monitors_ok(),
    {
        assert forall|i1: int, i2: int|
            0 <= i1 < i2 < b.ignored_keys().len() implies #[trigger] b.ignored_keys()[i1]
            != #[trigger] b.ignored_keys()[i2] by {
            assert(b.ignored_keys()[i1] == a.ignored_keys()[i1]);
            assert(b.ignored_keys()[i2] == a.ignored_keys()[i2]);
        }
        assert forall|i1: int, i2: int|
            0 <= i1 < i2 < b.ignored_handles().len() implies #[trigger] b.ignored_handles()[i1]
            != #[trigger] b.ignored_handles()[i2] by {
            assert(b.ignored_handles()[i1] == a.ignored_handles()[i1]);
            assert(b.ignored_handles()[i2] == a.ignored_handles()[i2]);
        }
        assert forall|m: int| 0 <= m < b.monitors_view().len() implies (
        #[trigger] b.monitors_view()[m]).wf() && b.monitors_view()[m].spec_w() >= 1
            && b.monitors_view()[m].spec_h() >= 1 by {
            assert(b.monitors_view()[m] == a.monitors_view()[m]);
        }
    }

    /// The sole placement primitive: one pass over workspace (d, m).
    /// Nothing is issued while the workspace is toggled off, absent or
    /// empty; otherwise the active layout is extended until it caches
    /// placements for the window count, and the returned plan holds
    /// one reposition call per managed handle, in order.
    pub fn update_workspace(&mut self, desktop: u128, monitor: usize) -> (r: Vec<(u64, Position)>)
        requires
            old(self).wf(),
        ensures
            final(self).wf(),
            final(self).same_but_layouts(*old(self)),
            final(self).same_cell_frame(*old(self)),
            r@ == final(self).update_plan(desktop, monitor),
            final(self).plan_settled(desktop, monitor),
            old(self).plan_settled(desktop, monitor) ==> *final(self) == *old(self),
            // everything but the extended layout survives the pass
            final(self).locs() == old(self).locs(),
            final(self).foreground() == old(self).foreground(),
            final(self).grabbed() == old(self).grabbed(),
            final(self).ignored_keys() == old(self).ignored_keys(),
            final(self).ignored_handles() == old(self).ignored_handles(),
            final(self).monitors_view() == old(self).monitors_view(),
            final(self).settings_view() == old(self).settings_view(),
            forall|c2: int|
                0 <= c2 < final(self).ws_count() ==> #[trigger] final(self).ws_handles(c2) == old(self).ws_handles(c2),
    {
        let ghost o = *old(self);
        if self.is_key_ignored(desktop, monitor) {
            proof {
                assert(o.update_plan(desktop, monitor) =~= Seq::<(u64, Position)>::empty());
            }
            return Vec::new();
        }
        let c: usize = match self.ws_index(desktop, monitor) {
            Some(c) => c,
            None => {
                proof {
                    assert(o.update_plan(desktop, monitor) =~= Seq::<(u64, Position)>::empty());
                }
                return Vec::new();
            },
        };
        proof {
            o.lemma_cell_unique(c as int);
        }
        let n = self.workspaces[c].workspace.managed_window_handles.len();
        if n == 0 {
            proof {
                assert(o.update_plan(desktop, monitor) =~= Seq::<(u64, Position)>::empty());
            }
            return Vec::new();
        }
        let m = self.workspaces[c].monitor;
        let g = self.workspaces[c].workspace.layout_idx;
        let v = self.workspaces[c].workspace.variant_idx;
        proof {
            assert(o.groups_at(m as int)[g as int].wf());
            assert(o.groups_at(m as int)[g as int].prepared(
                o.settings_view().window_padding as int,
                o.settings_view().edge_padding as int,
            ));
            assert(o.active_layout(c as int) == o.groups_at(m as int)[g as int].variants()[v as int]);
            assert(o.active_layout(c as int).sized());
        }
        if n > crate::geometry::COORD_LIMIT as usize {
            // A workspace with more windows than the coordinate bound
            // can hold zones is never repositioned.
            let ready_over = self.layouts[m][g].get_layouts()[v].positions_len() >= n;
            if !ready_over {
                proof {
                    assert(o.update_plan(desktop, monitor) =~= Seq::<(u64, Position)>::empty());
                    assert(self.update_plan(desktop, monitor) =~= Seq::<(u64, Position)>::empty());
                }
                return Vec::new();
            }
        }
        let ready_now = self.layouts[m][g].get_layouts()[v].positions_len() >= n;
        if !ready_now {
            self.ensure_positions(c, n);
        }
        proof {
            let f = *self;
            f.lemma_cell_unique(c as int);
            assert(f.cell_of(desktop, monitor as int) == c as int);
            assert(f.active_layout(c as int).positions_view().len() >= n);
            assert(f.active_layout(c as int).prepared(
                f.settings_view().window_padding as int,
                f.settings_view().edge_padding as int,
            ));
            assert(f.active_layout(c as int).sized()) by {
                assert(f.groups_at(f.ws_monitor(c as int))[f.ws_layout(c as int)].prepared(
                    f.settings_view().window_padding as int,
                    f.settings_view().edge_padding as int,
                ));
            }
            assert(f.active_layout(c as int).positions_view()[n - 1].len() == n) by {
                let l = f.active_layout(c as int);
                assert(l.positions_ok(
                    f.settings_view().window_padding as int,
                    f.settings_view().edge_padding as int,
                ));
                assert(l.positions_view().len() == l.tilings().len());
                assert(l.positions_view()[n - 1].len() == l.tilings()[n - 1].len());
                assert(l.tilings()[n - 1].len() == n);
            }
        }
        let mut r: Vec<(u64, Position)> = Vec::new();
        let mut k: usize = 0;
        while k < n
            invariant
                self.wf(),
                (c as int) < self.ws_count(),
                self.ws_desktop(c as int) == desktop,
                self.ws_monitor(c as int) == monitor as int,
                self.cell_of(desktop, monitor as int) == c as int,
                n as int == self.ws_handles(c as int).len(),
                n >= 1,
                m as int == self.ws_monitor(c as int),
                g as int == self.ws_layout(c as int),
                v as int == self.ws_variant(c as int),
                self.active_layout(c as int).positions_view().len() >= n,
                self.active_layout(c as int).positions_view()[n - 1].len() == n,
                k <= n,
                r@.len() == k,
                forall|k2: int|
                    0 <= k2 < k ==> #[trigger] r@[k2] == (
                    self.ws_handles(c as int)[k2],
                    self.active_layout(c as int).positions_view()[n - 1][k2],
                    ),
            decreases n - k,
        {
            let h = self.workspaces[c].workspace.managed_window_handles[k];
            let p = *&self.layouts[m][g].get_layouts()[v].get_positions_at(n - 1)[k];
            r.push((h, p));
            k = k + 1;
        }
        proof {
            let f = *self;
            assert(!f.key_ignored(desktop, monitor)) by {
                if f.key_ignored(desktop, monitor) {
                    let i = choose|i: int|
                        0 <= i < f.ignored_keys().len() && f.ignored_keys()[i] == (
                        desktop,
                        monitor,
                        );
                    assert(o.ignored_keys()[i] == (desktop, monitor));
                    assert(o.key_ignored(desktop, monitor));
                }
            }
            assert(r@ =~= f.update_plan(desktop, monitor));
        }
        r
    }

    /// Remove a handle from the refused list, if present.
    fn remove_ignored_hwnd(&mut self, hwnd: u64)
        requires
            old(self).wf(),
        ensures
            final(self).wf(),
            !final(self).hwnd_ignored(hwnd),
            final(self).locs() == old(self).locs(),
            final(self).same_cell_frame(*old(self)),
            forall|c2: int|
                0 <= c2 < final(self).ws_count() ==> #[trigger] final(self).ws_handles(c2) == old(self).ws_handles(c2),
            final(self).foreground() == old(self).foreground(),
            final(self).grabbed() == old(self).grabbed(),
            final(self).ignored_keys() == old(self).ignored_keys(),
            forall|h2: u64| h2 != hwnd ==> final(self).hwnd_ignored(h2) == old(self).hwnd_ignored(h2),
    {
        let ghost o = *old(self);
        let mut i: usize = 0;
        while i < self.ignored_hwnds.len()
            invariant
                *self == *old(self),
                o == *old(self),
                o.wf(),
                i <= self.ignored_handles().len(),
                forall|k: int| 0 <= k < i ==> #[trigger] self.ignored_handles()[k] != hwnd,
            decreases self.ignored_handles().len() - i,
        {
            if self.ignored_hwnds[i] == hwnd {
                self.ignored_hwnds.remove(i);
                proof {
                    let f = *self;
                    Self::lemma_ml_frame(o, f);
                    Self::lemma_cells_frame(o, f);
                    Self::lemma_locs_frame(o, f);
                    assert forall|i1: int, i2: int|
                        0 <= i1 < i2 < f.ignored_keys().len() implies #[trigger] f.ignored_keys()[i1] != #[trigger] f.ignored_keys()[i2] by {
                        assert(f.ignored_keys()[i1] == o.ignored_keys()[i1]);
                        assert(f.ignored_keys()[i2] == o.ignored_keys()[i2]);
                    }
                    assert forall|i1: int, i2: int|
                        0 <= i1 < i2 < f.ignored_handles().len() implies #[trigger] f.ignored_handles()[i1] != #[trigger] f.ignored_handles()[i2] by {
                        let s1 = if i1 < i as int { i1 } else { i1 + 1 };
                        let s2 = if i2 < i as int { i2 } else { i2 + 1 };
                        assert(f.ignored_handles()[i1] == o.ignored_handles()[s1]);
                        assert(f.ignored_handles()[i2] == o.ignored_handles()[s2]);
                        assert(o.ignored_handles()[s1] != o.ignored_handles()[s2]);
                    }
                    assert forall|k: int| 0 <= k < f.ignored_handles().len() implies (
                    #[trigger] f.ignored_handles()[k]) != hwnd by {
                        let sk = if k < i as int { k } else { k + 1 };
                        assert(f.ignored_handles()[k] == o.ignored_handles()[sk]);
                        if sk > i as int {
                            assert(o.ignored_handles()[i as int] == hwnd);
                            assert(o.ignored_handles()[sk] != o.ignored_handles()[i as int]);
                        }
                    }
                    assert forall|h2: u64| h2 != hwnd implies f.hwnd_ignored(h2) == o.hwnd_ignored(
                        h2,
                    ) by {
                        if o.hwnd_ignored(h2) {
                            let k = choose|k: int|
                                0 <= k < o.ignored_handles().len() && o.ignored_handles()[k] == h2;
                            assert(k != i as int);
                            let fk = if k < i as int { k } else { k - 1 };
                            assert(f.ignored_handles()[fk] == o.ignored_handles()[k]);
                        }
                        if f.hwnd_ignored(h2) {
                            let k = choose|k: int|
                                0 <= k < f.ignored_handles().len() && f.ignored_handles()[k] == h2;
                            let sk = if k < i as int { k } else { k + 1 };
                            assert(o.ignored_handles()[sk] == f.ignored_handles()[k]);
                        }
                    }
                }
                return ;
            }
            i = i + 1;
        }
    }

    /// The OS reported a window shown. The boundary supplies whether
    /// the window is currently restored and, for an unknown window,
    /// the (virtual desktop, monitor) it was found on — `None` when
    /// the poll for a desktop failed or the monitor was invalid.
    /// Returns the workspace to retile, or `None` when the event is
    /// dropped.
    #[verifier::rlimit(100)]
    #[verifier::spinoff_prover]
    pub fn window_created(&mut self, hwnd: u64, restored: bool, query: Option<(u128, usize)>) -> (r:
        Option<(u128, usize)>)
        requires
            old(self).wf(),
            query matches Some(q) ==> (q.1 as int) < old(self).monitors_view().len(),
        ensures
            final(self).wf(),
            // drops: a refused handle, a handle already tiled, a known
            // suspended handle that is not restored, or an unknown
            // handle without a usable query leave everything unchanged
            old(self).hwnd_ignored(hwnd) ==> *final(self) == *old(self) && r is None,
            !old(self).hwnd_ignored(hwnd) && old(self).has_loc(hwnd) && !old(self).loc_of(
                hwnd,
            ).suspended ==> *final(self) == *old(self) && r is None,
            !old(self).hwnd_ignored(hwnd) && old(self).has_loc(hwnd) && old(self).loc_of(
                hwnd,
            ).suspended && !restored ==> *final(self) == *old(self) && r is None,
            !old(self).hwnd_ignored(hwnd) && !old(self).has_loc(hwnd) && query is None ==> *final(self) == *old(self) && r is None,
            // a known suspended handle that is restored re-enters its
            // workspace at its stored position
            !old(self).hwnd_ignored(hwnd) && old(self).has_loc(hwnd) && old(self).loc_of(
                hwnd,
            ).suspended && restored ==> {
                let e = old(self).loc_of(hwnd);
                &&& r == Some((e.desktop, e.monitor))
                &&& final(self).has_loc(hwnd)
                &&& !final(self).loc_of(hwnd).suspended
                &&& final(self).loc_of(hwnd).desktop == e.desktop
                &&& final(self).loc_of(hwnd).monitor == e.monitor
                &&& final(self).has_cell(e.desktop, e.monitor as int)
                &&& (old(self).has_cell(e.desktop, e.monitor as int) ==> final(self).ws_handles(
                    final(self).cell_of(e.desktop, e.monitor as int),
                ) == old(self).ws_handles(
                    old(self).cell_of(e.desktop, e.monitor as int),
                ).insert(e.idx as int, hwnd))
                &&& (!old(self).has_cell(e.desktop, e.monitor as int) ==> final(self).ws_handles(
                    final(self).cell_of(e.desktop, e.monitor as int),
                ) =~= seq![hwnd])
            },
            // an unknown handle on a found workspace is appended when
            // restored, or recorded suspended when not
            (!old(self).hwnd_ignored(hwnd) && !old(self).has_loc(hwnd) && query is Some) ==> ({
                let q = query->Some_0;
                &&& r == Some(q)
                &&& final(self).has_loc(hwnd)
                &&& final(self).loc_of(hwnd).desktop == q.0
                &&& final(self).loc_of(hwnd).monitor == q.1
                &&& final(self).loc_of(hwnd).suspended == !restored
                &&& (restored && old(self).has_cell(q.0, q.1 as int) ==> final(self).ws_handles(
                    final(self).cell_of(q.0, q.1 as int),
                ) == old(self).ws_handles(old(self).cell_of(q.0, q.1 as int)).push(hwnd))
                &&& (restored && !old(self).has_cell(q.0, q.1 as int) ==> final(self).ws_handles(
                    final(self).cell_of(q.0, q.1 as int),
                ) =~= seq![hwnd])
            }),
            final(self).foreground() == old(self).foreground(),
            final(self).grabbed() == old(self).grabbed(),
            final(self).ignored_keys() == old(self).ignored_keys(),
            final(self).ignored_handles() == old(self).ignored_handles(),
            final(self).monitors_view() == old(self).monitors_view(),
            final(self).groups_count() == old(self).groups_count(),
            final(self).settings_view() == old(self).settings_view(),
            // known handles stay known, and nothing but `hwnd` can
            // become known
            forall|h2: u64| old(self).has_loc(h2) ==> final(self).has_loc(h2),
            forall|h2: u64|
                final(self).has_loc(h2) ==> old(self).has_loc(h2) || h2 == hwnd,
            // at most one workspace is created
            final(self).ws_count() == old(self).ws_count() || final(self).ws_count() == old(self).ws_count() + 1,
    {
        let ghost o = *old(self);
        if self.is_hwnd_ignored(hwnd) {
            return None;
        }
        match self.loc_index(hwnd) {
            Some(li) => {
                let e = self.locations[li];
                proof {
                    o.lemma_loc_unique(li as int);
                }
                if !e.suspended {
                    return None;
                }
                if !restored {
                    return None;
                }
                match self.ws_index(e.desktop, e.monitor) {
                    Some(c) => {
                        proof {
                            o.lemma_cell_unique(c as int);
                        }
                        self.remove_suspended_location(li);
                        proof {
                            Self::lemma_same_cells(
                                o,
                                *self,
                                e.desktop,
                                e.monitor as int,
                            );
                            assert(!self.has_loc(hwnd)) by {
                                if self.has_loc(hwnd) {
                                    let k = choose|k: int|
                                        0 <= k < self.locs().len() && self.locs()[k].hwnd == hwnd;
                                    let sk = if k < li as int {
                                        k
                                    } else {
                                        k + 1
                                    };
                                    assert(o.locs()[sk].hwnd == hwnd);
                                    o.lemma_loc_unique(sk);
                                }
                            }
                        }
                        let ghost s2 = *self;
                        self.insert_handle(c, e.idx, hwnd);
                        proof {
                            let f = *self;
                            f.lemma_cell_unique(c as int);
                            assert(f.locs().last().hwnd == hwnd);
                            f.lemma_loc_unique(f.locs().len() - 1);
                            lemma_handles_carry_reinsert(o, s2, f, li as int, hwnd);
                        }
                        Some((e.desktop, e.monitor))
                    },
                    None => {
                        proof {
                            assert(e.idx == 0);
                        }
                        self.remove_suspended_location(li);
                        proof {
                            Self::lemma_same_cells(o, *self, e.desktop, e.monitor as int);
                            assert(!self.has_loc(hwnd)) by {
                                if self.has_loc(hwnd) {
                                    let k = choose|k: int|
                                        0 <= k < self.locs().len() && self.locs()[k].hwnd == hwnd;
                                    let sk = if k < li as int {
                                        k
                                    } else {
                                        k + 1
                                    };
                                    assert(o.locs()[sk].hwnd == hwnd);
                                    o.lemma_loc_unique(sk);
                                }
                            }
                        }
                        let ghost s2 = *self;
                        self.create_cell(e.desktop, e.monitor, hwnd);
                        proof {
                            let f = *self;
                            assert(f.ws_desktop(f.ws_count() - 1) == e.desktop);
                            f.lemma_cell_unique(f.ws_count() - 1);
                            assert(f.locs().last().hwnd == hwnd);
                            f.lemma_loc_unique(f.locs().len() - 1);
                            lemma_handles_carry_reinsert(o, s2, f, li as int, hwnd);
                        }
                        Some((e.desktop, e.monitor))
                    },
                }
            },
            None => {
                match query {
                    None => None,
                    Some((desktop, monitor)) => {
                        if restored {
                            match self.ws_index(desktop, monitor) {
                                Some(c) => {
                                    proof {
                                        o.lemma_cell_unique(c as int);
                                    }
                                    let len = self.workspaces[c].workspace.managed_window_handles.len();
                                    self.insert_handle(c, len, hwnd);
                                    proof {
                                        let f = *self;
                                        f.lemma_cell_unique(c as int);
                                        assert(f.locs().last().hwnd == hwnd);
                                        f.lemma_loc_unique(f.locs().len() - 1);
                                        assert(f.ws_handles(c as int) =~= o.ws_handles(
                                            c as int,
                                        ).push(hwnd));
                                        lemma_handles_carry_append(o, f, hwnd);
                                    }
                                },
                                None => {
                                    self.create_cell(desktop, monitor, hwnd);
                                    proof {
                                        let f = *self;
                                        f.lemma_cell_unique(f.ws_count() - 1);
                                        assert(f.locs().last().hwnd == hwnd);
                                        f.lemma_loc_unique(f.locs().len() - 1);
                                        lemma_handles_carry_append(o, f, hwnd);
                                    }
                                },
                            }
                        } else {
                            let hint: usize = match self.ws_index(desktop, monitor) {
                                Some(c) => self.workspaces[c].workspace.managed_window_handles.len(),
                                None => 0,
                            };
                            proof {
                                if o.has_cell(desktop, monitor as int) {
                                    o.lemma_cell_unique(o.cell_of(desktop, monitor as int));
                                }
                            }
                            self.push_suspended_location(hwnd, desktop, monitor, hint);
                            proof {
                                let f = *self;
                                assert(f.locs().last().hwnd == hwnd);
                                f.lemma_loc_unique(f.locs().len() - 1);
                                lemma_handles_carry_append(o, f, hwnd);
                            }
                        }
                        Some((desktop, monitor))
                    },
                }
            },
        }
    }

    /// The OS reported a window destroyed: forget it entirely, remove
    /// it from its workspace when it was tiled, and clear the
    /// foreground and grabbed handles if they named it. Returns the
    /// workspace to retile.
    pub fn window_destroyed(&mut self, hwnd: u64) -> (r: Option<(u128, usize)>)
        requires
            old(self).wf(),
        ensures
            final(self).wf(),
            !final(self).has_loc(hwnd),
            !old(self).has_loc(hwnd) ==> r is None && !final(self).hwnd_ignored(hwnd)
                && final(self).locs() == old(self).locs() && final(self).same_cell_frame(
                *old(self),
            ) && (forall|c2: int|
                0 <= c2 < final(self).ws_count() ==> #[trigger] final(self).ws_handles(c2) == old(self).ws_handles(c2))
                && final(self).foreground() == old(self).foreground() && final(self).grabbed()
                == old(self).grabbed() && final(self).ignored_keys() == old(self).ignored_keys()
                && (forall|h2: u64|
                h2 != hwnd ==> final(self).hwnd_ignored(h2) == old(self).hwnd_ignored(h2)),
            old(self).has_loc(hwnd) ==> {
                let e = old(self).loc_of(hwnd);
                &&& r == Some((e.desktop, e.monitor))
                &&& final(self).same_cell_frame(*old(self))
                &&& (!e.suspended ==> final(self).ws_handles(
                    old(self).cell_of(e.desktop, e.monitor as int),
                ) == old(self).ws_handles(
                    old(self).cell_of(e.desktop, e.monitor as int),
                ).remove(e.idx as int))
                &&& (e.suspended ==> forall|c2: int|
                    0 <= c2 < final(self).ws_count() ==> #[trigger] final(self).ws_handles(c2)
                        == old(self).ws_handles(c2))
                &&& final(self).foreground() == (if old(self).foreground() == Some(hwnd) {
                    None::<u64>
                } else {
                    old(self).foreground()
                })
                &&& final(self).grabbed() == (if old(self).grabbed() == Some(hwnd) {
                    None::<u64>
                } else {
                    old(self).grabbed()
                })
            },
    {
        let ghost o = *old(self);
        match self.loc_index(hwnd) {
            None => {
                self.remove_ignored_hwnd(hwnd);
                None
            },
            Some(li) => {
                let e = self.locations[li];
                proof {
                    o.lemma_loc_unique(li as int);
                }
                if !e.suspended {
                    self.detach_handle(li);
                }
                let ghost s1 = *self;
                proof {
                    assert(self.locs()[li as int].suspended);
                    assert(self.locs()[li as int].hwnd == hwnd);
                    if e.suspended {
                        assert(s1.same_cell_frame(o));
                    }
                }
                self.remove_suspended_location(li);
                let ghost s2 = *self;
                proof {
                    Self::lemma_cell_frame_carry(o, s1, s2);
                    assert(!self.has_loc(hwnd)) by {
                        if self.has_loc(hwnd) {
                            let k = choose|k: int|
                                0 <= k < self.locs().len() && self.locs()[k].hwnd == hwnd;
                            let sk = if k < li as int {
                                k
                            } else {
                                k + 1
                            };
                            assert(s1.locs()[sk].hwnd == hwnd);
                            s1.lemma_loc_unique(sk);
                        }
                    }
                }
                if self.foreground_hwnd == Some(hwnd) {
                    self.foreground_hwnd = None;
                }
                if self.grabbed_window == Some(hwnd) {
                    self.grabbed_window = None;
                }
                proof {
                    Self::lemma_wf_frame(s2, *self);
                    Self::lemma_cell_frame_carry(o, s2, *self);
                    if !e.suspended {
                        assert(s1.ws_handles(o.cell_of(e.desktop, e.monitor as int))
                            == o.ws_handles(o.cell_of(e.desktop, e.monitor as int)).remove(
                            e.idx as int,
                        ));
                    }
                }
                Some((e.desktop, e.monitor))
            },
        }
    }

    /// The OS reported a window minimized, maximized or snapped: take
    /// it out of the tiling but remember it, keeping its position as
    /// the hint for a later restore. Returns the workspace to retile.
    pub fn window_minimized_or_maximized(&mut self, hwnd: u64) -> (r: Option<(u128, usize)>)
        requires
            old(self).wf(),
        ensures
            final(self).wf(),
            (!old(self).has_loc(hwnd) || old(self).loc_of(hwnd).suspended) ==> *final(self) == *old(self) && r is None,
            old(self).has_loc(hwnd) && !old(self).loc_of(hwnd).suspended ==> {
                let e = old(self).loc_of(hwnd);
                &&& r == Some((e.desktop, e.monitor))
                &&& final(self).has_loc(hwnd)
                &&& final(self).loc_of(hwnd).suspended
                &&& final(self).loc_of(hwnd).idx == e.idx
                &&& final(self).same_cell_frame(*old(self))
                &&& final(self).ws_handles(old(self).cell_of(e.desktop, e.monitor as int)) == old(self).ws_handles(old(self).cell_of(e.desktop, e.monitor as int)).remove(e.idx as int)
                &&& final(self).grabbed() == (if old(self).grabbed() == Some(hwnd) {
                    None::<u64>
                } else {
                    old(self).grabbed()
                })
                &&& final(self).foreground() == old(self).foreground()
            },
    {
        let ghost o = *old(self);
        match self.loc_index(hwnd) {
            None => None,
            Some(li) => {
                let e = self.locations[li];
                proof {
                    o.lemma_loc_unique(li as int);
                }
                if e.suspended {
                    return None;
                }
                self.detach_handle(li);
                let ghost s1 = *self;
                proof {
                    assert(self.locs()[li as int].hwnd == hwnd && self.locs()[li as int].suspended);
                    self.lemma_loc_unique(li as int);
                }
                if self.grabbed_window == Some(hwnd) {
                    self.grabbed_window = None;
                }
                proof {
                    Self::lemma_wf_frame(s1, *self);
                    Self::lemma_cell_frame_carry(o, s1, *self);
                    assert(self.locs() == s1.locs());
                    self.lemma_loc_unique(li as int);
                }
                Some((e.desktop, e.monitor))
            },
        }
    }

    /// The OS reported a window moved to another virtual desktop. The
    /// boundary supplies the new desktop, `None` on a query error. A
    /// tiled window moves to the end of the workspace of the new
    /// desktop on the same monitor; a suspended one only updates its
    /// entry. Returns the two workspaces to retile.
    #[verifier::rlimit(100)]
    #[verifier::spinoff_prover]
    pub fn window_cloaked(&mut self, hwnd: u64, new_desktop: Option<u128>) -> (r: Option<
        ((u128, usize), (u128, usize)),
    >)
        requires
            old(self).wf(),
        ensures
            final(self).wf(),
            !old(self).has_loc(hwnd) ==> *final(self) == *old(self) && r is None,
            old(self).has_loc(hwnd) && (new_desktop is None || new_desktop == Some(
                old(self).loc_of(hwnd).desktop,
            )) ==> *final(self) == *old(self) && r is None,
            (old(self).has_loc(hwnd) && new_desktop is Some && new_desktop->Some_0 != old(self).loc_of(hwnd).desktop) ==> ({
                let e = old(self).loc_of(hwnd);
                let nd = new_desktop->Some_0;
                &&& r == Some(((e.desktop, e.monitor), (nd, e.monitor)))
                &&& final(self).has_loc(hwnd)
                &&& final(self).loc_of(hwnd).desktop == nd
                &&& final(self).loc_of(hwnd).monitor == e.monitor
                &&& final(self).loc_of(hwnd).suspended == e.suspended
                &&& (!e.suspended ==> final(self).has_cell(nd, e.monitor as int)
                    && final(self).ws_handles(final(self).cell_of(nd, e.monitor as int)).last()
                    == hwnd)
                // a tiled window leaves its old slot, later entries of
                // the old workspace shift down, and it joins the end
                // of the target workspace, created with the defaults
                // when absent
                &&& (!e.suspended ==> ({
                    let c1 = old(self).cell_of(e.desktop, e.monitor as int);
                    &&& final(self).ws_handles(c1) == old(self).ws_handles(c1).remove(
                        e.idx as int,
                    )
                    &&& (old(self).has_cell(nd, e.monitor as int) ==> final(self).ws_handles(
                        old(self).cell_of(nd, e.monitor as int),
                    ) == old(self).ws_handles(old(self).cell_of(nd, e.monitor as int)).push(hwnd))
                    &&& (!old(self).has_cell(nd, e.monitor as int) ==> final(self).ws_handles(
                        final(self).cell_of(nd, e.monitor as int),
                    ) =~= seq![hwnd] && final(self).ws_layout(
                        final(self).cell_of(nd, e.monitor as int),
                    ) == old(self).settings_view().default_layout_idx as int && final(self).ws_variant(final(self).cell_of(nd, e.monitor as int)) == old(self).groups_at(
                        e.monitor as int,
                    )[old(self).settings_view().default_layout_idx as int].default_view())
                    &&& forall|c2: int|
                        0 <= c2 < old(self).ws_count() && c2 != c1 && !(old(self).ws_desktop(c2)
                            == nd && old(self).ws_monitor(c2) == e.monitor as int)
                            ==> #[trigger] final(self).ws_handles(c2) == old(self).ws_handles(c2)
                    // workspace keys are stable: at most the target
                    // cell is appended
                    &&& (old(self).has_cell(nd, e.monitor as int) ==> final(self).ws_count()
                        == old(self).ws_count())
                    &&& (!old(self).has_cell(nd, e.monitor as int) ==> final(self).ws_count()
                        == old(self).ws_count() + 1)
                    &&& forall|c2: int|
                        0 <= c2 < old(self).ws_count() ==> #[trigger] final(self).ws_desktop(c2)
                            == old(self).ws_desktop(c2) && final(self).ws_monitor(c2) == old(
                            self,
                        ).ws_monitor(c2) && final(self).ws_layout(c2) == old(self).ws_layout(c2)
                            && final(self).ws_variant(c2) == old(self).ws_variant(c2)
                }))
                // a suspended window only updates its entry
                &&& (e.suspended ==> ({
                    let hint: int = if old(self).has_cell(nd, e.monitor as int) {
                        old(self).ws_handles(
                            old(self).cell_of(nd, e.monitor as int),
                        ).len() as int
                    } else {
                        0int
                    };
                    &&& final(self).same_cell_frame(*old(self))
                    &&& (forall|c2: int|
                        0 <= c2 < final(self).ws_count() ==> #[trigger] final(self).ws_handles(c2)
                            == old(self).ws_handles(c2))
                    &&& final(self).locs().len() == old(self).locs().len()
                    &&& final(self).locs()[old(self).loc_idx(hwnd)].hwnd == hwnd
                    &&& final(self).locs()[old(self).loc_idx(hwnd)].suspended
                    &&& final(self).locs()[old(self).loc_idx(hwnd)].desktop == nd
                    &&& final(self).locs()[old(self).loc_idx(hwnd)].monitor == e.monitor
                    &&& final(self).locs()[old(self).loc_idx(hwnd)].idx as int == hint
                    &&& forall|k: int|
                        0 <= k < old(self).locs().len() && k != old(self).loc_idx(hwnd)
                            ==> #[trigger] final(self).locs()[k] == old(self).locs()[k]
                }))
                &&& final(self).foreground() == old(self).foreground()
                &&& final(self).grabbed() == old(self).grabbed()
            }),
    {
        let ghost o = *old(self);
        match self.loc_index(hwnd) {
            None => None,
            Some(li) => {
                let e = self.locations[li];
                proof {
                    o.lemma_loc_unique(li as int);
                }
                let nd: u128 = match new_desktop {
                    Some(g) => {
                        if g == e.desktop {
                            return None;
                        }
                        g
                    },
                    None => {
                        return None;
                    },
                };
                if !e.suspended {
                    self.detach_handle(li);
                    proof {
                        assert(self.locs()[li as int].hwnd == hwnd);
                        assert(self.locs()[li as int].suspended);
                    }
                    match self.ws_index(nd, e.monitor) {
                        Some(c) => {
                            proof {
                                self.lemma_cell_unique(c as int);
                            }
                            let ghost mid = *self;
                            self.remove_suspended_location(li);
                            let ghost s2 = *self;
                            proof {
                                Self::lemma_same_cells(mid, *self, nd, e.monitor as int);
                                assert(!self.has_loc(hwnd)) by {
                                    if self.has_loc(hwnd) {
                                        let k = choose|k: int|
                                            0 <= k < self.locs().len() && self.locs()[k].hwnd
                                                == hwnd;
                                        let sk = if k < li as int {
                                            k
                                        } else {
                                            k + 1
                                        };
                                        assert(mid.locs()[sk].hwnd == hwnd);
                                        mid.lemma_loc_unique(sk);
                                    }
                                }
                            }
                            let len = self.workspaces[c].workspace.managed_window_handles.len();
                            self.insert_handle(c, len, hwnd);
                            proof {
                                let f = *self;
                                f.lemma_cell_unique(c as int);
                                assert(f.locs().last().hwnd == hwnd);
                                f.lemma_loc_unique(f.locs().len() - 1);
                                assert(f.ws_handles(c as int) =~= mid.ws_handles(c as int).push(
                                    hwnd,
                                ));
                                let c1 = o.cell_of(e.desktop, e.monitor as int);
                                Self::lemma_same_cells(o, mid, nd, e.monitor as int);
                                assert(c as int == o.cell_of(nd, e.monitor as int));
                                assert(c1 != c as int) by {
                                    o.lemma_cell_unique(c1);
                                }
                                assert(mid.ws_handles(c as int) == o.ws_handles(c as int));
                                assert(f.ws_handles(c as int) == o.ws_handles(c as int).push(
                                    hwnd,
                                ));
                                assert(mid.ws_handles(c1) == o.ws_handles(c1).remove(e.idx as int));
                                assert(f.ws_handles(c1) == mid.ws_handles(c1));
                                assert forall|c2: int|
                                    0 <= c2 < o.ws_count() && c2 != c1 && !(o.ws_desktop(c2) == nd
                                        && o.ws_monitor(c2) == e.monitor as int) implies #[trigger] f.ws_handles(
                                    c2,
                                ) == o.ws_handles(c2) by {
                                    assert(c2 != c as int) by {
                                        if c2 == c as int {
                                            assert(o.ws_desktop(c as int) == nd);
                                        }
                                    }
                                    assert(f.ws_handles(c2) == mid.ws_handles(c2));
                                    assert(mid.ws_handles(c2) == o.ws_handles(c2));
                                }
                                Self::lemma_cell_frame_carry(o, mid, s2);
                                Self::lemma_cell_frame_trans(o, s2, f);
                                assert(f.same_cell_frame(o));
                            }
                        },
                        None => {
                            let ghost mid = *self;
                            self.remove_suspended_location(li);
                            proof {
                                Self::lemma_same_cells(o, mid, nd, e.monitor as int);
                                assert(!o.has_cell(nd, e.monitor as int));
                                Self::lemma_same_cells(mid, *self, nd, e.monitor as int);
                                assert(!self.has_loc(hwnd)) by {
                                    if self.has_loc(hwnd) {
                                        let k = choose|k: int|
                                            0 <= k < self.locs().len() && self.locs()[k].hwnd
                                                == hwnd;
                                        let sk = if k < li as int {
                                            k
                                        } else {
                                            k + 1
                                        };
                                        assert(mid.locs()[sk].hwnd == hwnd);
                                        mid.lemma_loc_unique(sk);
                                    }
                                }
                            }
                            let ghost s2 = *self;
                            self.create_cell(nd, e.monitor, hwnd);
                            proof {
                                let f = *self;
                                assert(f.ws_desktop(f.ws_count() - 1) == nd);
                                f.lemma_cell_unique(f.ws_count() - 1);
                                assert(f.locs().last().hwnd == hwnd);
                                f.lemma_loc_unique(f.locs().len() - 1);
                                Self::lemma_cell_frame_carry(o, mid, s2);
                                assert forall|c2: int| 0 <= c2 < o.ws_count() implies #[trigger] f.ws_desktop(
                                    c2,
                                ) == o.ws_desktop(c2) && f.ws_monitor(c2) == o.ws_monitor(c2)
                                    && f.ws_layout(c2) == o.ws_layout(c2) && f.ws_variant(c2)
                                    == o.ws_variant(c2) by {
                                    assert(s2.ws_count() == o.ws_count());
                                    assert(f.ws_desktop(c2) == s2.ws_desktop(c2) && f.ws_monitor(
                                        c2,
                                    ) == s2.ws_monitor(c2) && f.ws_layout(c2) == s2.ws_layout(c2)
                                        && f.ws_variant(c2) == s2.ws_variant(c2));
                                    assert(s2.ws_desktop(c2) == o.ws_desktop(c2) && s2.ws_monitor(
                                        c2,
                                    ) == o.ws_monitor(c2) && s2.ws_layout(c2) == o.ws_layout(c2)
                                        && s2.ws_variant(c2) == o.ws_variant(c2));
                                }
                                let nc = f.ws_count() - 1;
                                assert(f.cell_of(nd, e.monitor as int) == nc);
                                assert(f.ws_handles(nc) =~= seq![hwnd]);
                                assert(f.ws_layout(nc) == o.settings_view().default_layout_idx as int);
                                assert(f.ws_variant(nc) == o.groups_at(e.monitor as int)[o.settings_view().default_layout_idx as int].default_view())
                                    by {
                                    assert(mid.layouts@ == o.layouts@);
                                    assert(mid.groups_at(e.monitor as int) == o.groups_at(
                                        e.monitor as int,
                                    ));
                                }
                                let c1 = o.cell_of(e.desktop, e.monitor as int);
                                assert(mid.ws_handles(c1) == o.ws_handles(c1).remove(e.idx as int));
                                assert(f.ws_desktop(c1) == mid.ws_desktop(c1));
                                assert(f.ws_handles(c1) == mid.ws_handles(c1));
                                assert forall|c2: int|
                                    0 <= c2 < o.ws_count() && c2 != c1 && !(o.ws_desktop(c2) == nd
                                        && o.ws_monitor(c2) == e.monitor as int) implies #[trigger] f.ws_handles(
                                    c2,
                                ) == o.ws_handles(c2) by {
                                    assert(f.ws_desktop(c2) == mid.ws_desktop(c2));
                                    assert(f.ws_handles(c2) == mid.ws_handles(c2));
                                    assert(mid.ws_handles(c2) == o.ws_handles(c2));
                                }
                            }
                        },
                    }
                } else {
                    let hint: usize = match self.ws_index(nd, e.monitor) {
                        Some(c) => self.workspaces[c].workspace.managed_window_handles.len(),
                        None => 0,
                    };
                    proof {
                        if o.has_cell(nd, e.monitor as int) {
                            o.lemma_cell_unique(o.cell_of(nd, e.monitor as int));
                        }
                    }
                    self.set_suspended_entry(li, nd, e.monitor, hint);
                    proof {
                        assert(self.locs()[li as int].hwnd == hwnd);
                        self.lemma_loc_unique(li as int);
                        assert(o.same_cell_frame(o));
                        Self::lemma_cell_frame_carry(o, o, *self);
                    }
                }
                Some(((e.desktop, e.monitor), (nd, e.monitor)))
            },
        }
    }

    /// The OS reported a new foreground window. A known handle becomes
    /// the remembered foreground; when it is restored, the suspended
    /// windows sharing its workspace are returned so the boundary can
    /// minimize the ghost maximized ones. The boundary also repaints
    /// borders: the new foreground focused, the previous one unfocused.
    pub fn foreground_window_changed(&mut self, hwnd: u64, restored: bool) -> (r: Vec<u64>)
        requires
            old(self).wf(),
        ensures
            final(self).wf(),
            !old(self).has_loc(hwnd) ==> *final(self) == *old(self) && r@ =~= Seq::<u64>::empty(),
            old(self).has_loc(hwnd) ==> final(self).foreground() == Some(hwnd)
                && final(self).same_cell_frame(*old(self)) && final(self).locs() == old(self).locs()
                && final(self).grabbed() == old(self).grabbed() && (forall|c2: int|
                0 <= c2 < final(self).ws_count() ==> #[trigger] final(self).ws_handles(c2) == old(self).ws_handles(c2)),
            old(self).has_loc(hwnd) && restored ==> (forall|k: int|
                0 <= k < r@.len() ==> old(self).has_loc(#[trigger] r@[k]) && old(self).loc_of(
                    r@[k],
                ).suspended && old(self).loc_of(r@[k]).desktop == old(self).loc_of(hwnd).desktop
                    && old(self).loc_of(r@[k]).monitor == old(self).loc_of(hwnd).monitor),
            // ... and the list is complete: every suspended window of
            // the foreground's workspace key is in it
            old(self).has_loc(hwnd) && restored ==> (forall|i: int|
                0 <= i < old(self).locs().len() && (#[trigger] old(self).locs()[i]).suspended
                    && old(self).locs()[i].desktop == old(self).loc_of(hwnd).desktop && old(self).locs()[i].monitor == old(self).loc_of(hwnd).monitor ==> r@.contains(
                    old(self).locs()[i].hwnd,
                )),
            old(self).has_loc(hwnd) && !restored ==> r@ =~= Seq::<u64>::empty(),
    {
        let ghost o = *old(self);
        let li: usize = match self.loc_index(hwnd) {
            Some(li) => li,
            None => {
                return Vec::new();
            },
        };
        proof {
            o.lemma_loc_unique(li as int);
        }
        let e = self.locations[li];
        let ghost pre = *self;
        self.foreground_hwnd = Some(hwnd);
        proof {
            Self::lemma_wf_frame(pre, *self);
        }
        let mut r: Vec<u64> = Vec::new();
        if restored {
            let mut i: usize = 0;
            while i < self.locations.len()
                invariant
                    self.wf(),
                    self.locs() == o.locs(),
                    i <= self.locs().len(),
                    (li as int) < self.locs().len(),
                    self.locs()[li as int].hwnd == hwnd,
                    e == self.locs()[li as int],
                    forall|k: int|
                        0 <= k < r@.len() ==> o.has_loc(#[trigger] r@[k]) && o.loc_of(
                            r@[k],
                        ).suspended && o.loc_of(r@[k]).desktop == e.desktop && o.loc_of(
                            r@[k],
                        ).monitor == e.monitor,
                    forall|k: int|
                        0 <= k < i && (#[trigger] o.locs()[k]).suspended && o.locs()[k].desktop
                            == e.desktop && o.locs()[k].monitor == e.monitor ==> r@.contains(
                            o.locs()[k].hwnd,
                        ),
                decreases self.locs().len() - i,
            {
                let e2 = self.locations[i];
                let ghost r0 = r@;
                if e2.desktop == e.desktop && e2.monitor == e.monitor && e2.suspended {
                    proof {
                        o.lemma_loc_unique(i as int);
                    }
                    r.push(e2.hwnd);
                    proof {
                        assert(r@[r@.len() - 1] == e2.hwnd);
                    }
                }
                i = i + 1;
                proof {
                    assert forall|k: int|
                        0 <= k < i && (#[trigger] o.locs()[k]).suspended && o.locs()[k].desktop
                            == e.desktop && o.locs()[k].monitor == e.monitor implies r@.contains(
                        o.locs()[k].hwnd,
                    ) by {
                        if k < i - 1 {
                            let w = choose|w: int| 0 <= w < r0.len() && r0[w] == o.locs()[k].hwnd;
                            assert(r@[w] == o.locs()[k].hwnd);
                        }
                    }
                }
            }
        }
        r
    }

    /// Record a handle the OS refused with access denied; it is never
    /// retiled.
    fn push_ignored_hwnd(&mut self, hwnd: u64)
        requires
            old(self).wf(),
        ensures
            final(self).wf(),
            final(self).hwnd_ignored(hwnd),
            final(self).locs() == old(self).locs(),
            final(self).same_cell_frame(*old(self)),
            forall|c2: int|
                0 <= c2 < final(self).ws_count() ==> #[trigger] final(self).ws_handles(c2) == old(self).ws_handles(c2),
            final(self).foreground() == old(self).foreground(),
            final(self).grabbed() == old(self).grabbed(),
            final(self).ignored_keys() == old(self).ignored_keys(),
            forall|h2: u64| old(self).hwnd_ignored(h2) ==> final(self).hwnd_ignored(h2),
    {
        let ghost o = *old(self);
        if self.is_hwnd_ignored(hwnd) {
            return ;
        }
        self.ignored_hwnds.push(hwnd);
        proof {
            let f = *self;
            Self::lemma_ml_frame(o, f);
            Self::lemma_cells_frame(o, f);
            Self::lemma_locs_frame(o, f);
            let nl = f.ignored_handles().len() as int;
            assert(f.ignored_handles()[nl - 1] == hwnd);
            assert forall|i1: int, i2: int|
                0 <= i1 < i2 < nl implies #[trigger] f.ignored_handles()[i1]
                != #[trigger] f.ignored_handles()[i2] by {
                assert(f.ignored_handles()[i1] == o.ignored_handles()[i1]);
                if i2 < nl - 1 {
                    assert(f.ignored_handles()[i2] == o.ignored_handles()[i2]);
                } else {
                    assert(!o.hwnd_ignored(hwnd));
                }
            }
            assert forall|i1: int, i2: int|
                0 <= i1 < i2 < f.ignored_keys().len() implies #[trigger] f.ignored_keys()[i1]
                != #[trigger] f.ignored_keys()[i2] by {
                assert(f.ignored_keys()[i1] == o.ignored_keys()[i1]);
                assert(f.ignored_keys()[i2] == o.ignored_keys()[i2]);
            }
            assert forall|h2: u64| o.hwnd_ignored(h2) implies f.hwnd_ignored(h2) by {
                if o.hwnd_ignored(h2) {
                    let k = choose|k: int|
                        0 <= k < o.ignored_handles().len() && o.ignored_handles()[k] == h2;
                    assert(f.ignored_handles()[k] == h2);
                }
            }
        }
    }

    /// Move the window at position `i` of workspace (d, m1) to
    /// workspace (d, m2): it leaves its slot, joins the end of the
    /// target, and is then swapped into position `j` there.
    pub fn move_windows_across_monitors(
        &mut self,
        desktop: u128,
        first_monitor: usize,
        second_monitor: usize,
        i: usize,
        j: usize,
    )
        requires
            old(self).wf(),
            old(self).has_cell(desktop, first_monitor as int),
            old(self).has_cell(desktop, second_monitor as int),
            first_monitor != second_monitor,
            (i as int) < old(self).ws_handles(
                old(self).cell_of(desktop, first_monitor as int),
            ).len(),
            j <= old(self).ws_handles(old(self).cell_of(desktop, second_monitor as int)).len(),
        ensures
            final(self).wf(),
            final(self).same_but_cells_locations(*old(self)),
            final(self).same_cell_frame(*old(self)),
            final(self).ws_handles(old(self).cell_of(desktop, first_monitor as int)) == old(self).ws_handles(old(self).cell_of(desktop, first_monitor as int)).remove(i as int),
            final(self).ws_handles(old(self).cell_of(desktop, second_monitor as int)) == seq_swap(
                old(self).ws_handles(old(self).cell_of(desktop, second_monitor as int)).push(
                    old(self).ws_handles(old(self).cell_of(desktop, first_monitor as int))[i as int],
                ),
                j as int,
                old(self).ws_handles(old(self).cell_of(desktop, second_monitor as int)).len() as int,
            ),
            final(self).has_loc(
                old(self).ws_handles(old(self).cell_of(desktop, first_monitor as int))[i as int],
            ),
            !final(self).loc_of(
                old(self).ws_handles(old(self).cell_of(desktop, first_monitor as int))[i as int],
            ).suspended,
            final(self).loc_of(
                old(self).ws_handles(old(self).cell_of(desktop, first_monitor as int))[i as int],
            ).monitor == second_monitor,
            final(self).loc_of(
                old(self).ws_handles(old(self).cell_of(desktop, first_monitor as int))[i as int],
            ).desktop == desktop,
    {
        let ghost o = *old(self);
        let c1: usize = match self.ws_index(desktop, first_monitor) {
            Some(c) => c,
            None => {
                proof {
                    assert(false);
                }
                0
            },
        };
        proof {
            o.lemma_cell_unique(c1 as int);
            assert(o.slot_entry(c1 as int, i as int));
        }
        let hwnd = self.workspaces[c1].workspace.managed_window_handles[i];
        let li: usize = match self.loc_index(hwnd) {
            Some(x) => x,
            None => {
                proof {
                    assert(false);
                }
                0
            },
        };
        proof {
            o.lemma_loc_unique(li as int);
            assert(o.locs()[li as int].idx as int == i);
            assert(!o.locs()[li as int].suspended);
        }
        self.detach_handle(li);
        let ghost s1 = *self;
        proof {
            assert(self.locs()[li as int].hwnd == hwnd);
            assert(self.locs()[li as int].suspended);
            Self::lemma_same_cells(o, s1, desktop, second_monitor as int);
            s1.lemma_cell_unique(o.cell_of(desktop, second_monitor as int));
        }
        self.remove_suspended_location(li);
        let ghost s2 = *self;
        proof {
            Self::lemma_cell_frame_carry(o, s1, s2);
            Self::lemma_same_cells(s1, s2, desktop, second_monitor as int);
            assert(!self.has_loc(hwnd)) by {
                if self.has_loc(hwnd) {
                    let k = choose|k: int|
                        0 <= k < self.locs().len() && self.locs()[k].hwnd == hwnd;
                    let sk = if k < li as int {
                        k
                    } else {
                        k + 1
                    };
                    assert(s1.locs()[sk].hwnd == hwnd);
                    s1.lemma_loc_unique(sk);
                }
            }
        }
        let c2: usize = match self.ws_index(desktop, second_monitor) {
            Some(c) => c,
            None => {
                proof {
                    assert(false);
                }
                0
            },
        };
        proof {
            s2.lemma_cell_unique(c2 as int);
            assert(c2 as int == o.cell_of(desktop, second_monitor as int));
            assert(s2.ws_handles(c2 as int) == o.ws_handles(c2 as int));
        }
        let len2 = self.workspaces[c2].workspace.managed_window_handles.len();
        self.insert_handle(c2, len2, hwnd);
        let ghost s3 = *self;
        proof {
            Self::lemma_cell_frame_trans(o, s2, s3);
            s3.lemma_cell_unique(c2 as int);
            assert(s3.ws_handles(c2 as int) =~= o.ws_handles(c2 as int).push(hwnd));
            assert(s3.has_cell(desktop, second_monitor as int));
            assert(s3.cell_of(desktop, second_monitor as int) == c2 as int);
        }
        self.swap_windows(desktop, second_monitor, j, len2);
        proof {
            let f = *self;
            Self::lemma_cell_frame_trans(o, s3, f);
            assert(c1 != c2);
            assert(f.ws_handles(c2 as int) == seq_swap(
                s3.ws_handles(c2 as int),
                j as int,
                len2 as int,
            ));
            assert(f.ws_handles(c1 as int) == s3.ws_handles(c1 as int));
            assert(s3.ws_handles(c1 as int) == s1.ws_handles(c1 as int));
            assert(f.ws_handles(c1 as int) == o.ws_handles(c1 as int).remove(i as int));
            assert(s3.locs().last().hwnd == hwnd);
            s3.lemma_loc_unique(s3.locs().len() - 1);
            assert(f.has_loc(hwnd)) by {
                let k = s3.locs().len() - 1;
                assert(f.locs()[k].hwnd == hwnd);
            }
            let fk = f.loc_idx(hwnd);
            f.lemma_loc_unique(fk);
        }
    }

    /// The handle the previous-window command would focus: the tiled
    /// neighbour of the foreground, wrapping at the front. Nothing
    /// when the foreground is unknown or suspended or its workspace
    /// has at most one window.
    pub fn focus_previous(&self) -> (r: Option<u64>)
        requires
            self.wf(),
        ensures
            match r {
                Some(h) => {
                    let e = self.loc_of(self.foreground()->Some_0);
                    let hs = self.ws_handles(self.cell_of(e.desktop, e.monitor as int));
                    &&& self.foreground() is Some
                    &&& self.has_loc(self.foreground()->Some_0)
                    &&& !e.suspended
                    &&& hs.len() > 1
                    &&& h == hs[if e.idx == 0 {
                        hs.len() - 1
                    } else {
                        e.idx - 1
                    }]
                },
                None => self.foreground() is None || !self.has_loc(self.foreground()->Some_0)
                    || self.loc_of(self.foreground()->Some_0).suspended || !self.has_cell(
                    self.loc_of(self.foreground()->Some_0).desktop,
                    self.loc_of(self.foreground()->Some_0).monitor as int,
                ) || self.ws_handles(
                    self.cell_of(
                        self.loc_of(self.foreground()->Some_0).desktop,
                        self.loc_of(self.foreground()->Some_0).monitor as int,
                    ),
                ).len() <= 1,
            },
    {
        let fg: u64 = match self.foreground_hwnd {
            Some(h) => h,
            None => {
                return None;
            },
        };
        let li: usize = match self.loc_index(fg) {
            Some(x) => x,
            None => {
                return None;
            },
        };
        proof {
            self.lemma_loc_unique(li as int);
        }
        let e = self.locations[li];
        if e.suspended {
            return None;
        }
        let c: usize = match self.ws_index(e.desktop, e.monitor) {
            Some(c) => c,
            None => {
                return None;
            },
        };
        proof {
            self.lemma_cell_unique(c as int);
        }
        let n = self.workspaces[c].workspace.managed_window_handles.len();
        if n <= 1 {
            return None;
        }
        let to: usize = if e.idx == 0 {
            n - 1
        } else {
            e.idx - 1
        };
        Some(self.workspaces[c].workspace.managed_window_handles[to])
    }

    /// The handle the next-window command would focus: the tiled
    /// neighbour of the foreground, wrapping at the end. Nothing when
    /// the foreground is unknown or suspended or its workspace has at
    /// most one window.
    pub fn focus_next(&self) -> (r: Option<u64>)
        requires
            self.wf(),
        ensures
            match r {
                Some(h) => {
                    let e = self.loc_of(self.foreground()->Some_0);
                    let hs = self.ws_handles(self.cell_of(e.desktop, e.monitor as int));
                    &&& self.foreground() is Some
                    &&& self.has_loc(self.foreground()->Some_0)
                    &&& !e.suspended
                    &&& hs.len() > 1
                    &&& h == hs[if e.idx as int == hs.len() - 1 {
                        0
                    } else {
                        e.idx + 1
                    }]
                },
                None => self.foreground() is None || !self.has_loc(self.foreground()->Some_0)
                    || self.loc_of(self.foreground()->Some_0).suspended || !self.has_cell(
                    self.loc_of(self.foreground()->Some_0).desktop,
                    self.loc_of(self.foreground()->Some_0).monitor as int,
                ) || self.ws_handles(
                    self.cell_of(
                        self.loc_of(self.foreground()->Some_0).desktop,
                        self.loc_of(self.foreground()->Some_0).monitor as int,
                    ),
                ).len() <= 1,
            },
    {
        let fg: u64 = match self.foreground_hwnd {
            Some(h) => h,
            None => {
                return None;
            },
        };
        let li: usize = match self.loc_index(fg) {
            Some(x) => x,
            None => {
                return None;
            },
        };
        proof {
            self.lemma_loc_unique(li as int);
        }
        let e = self.locations[li];
        if e.suspended {
            return None;
        }
        let c: usize = match self.ws_index(e.desktop, e.monitor) {
            Some(c) => c,
            None => {
                return None;
            },
        };
        proof {
            self.lemma_cell_unique(c as int);
        }
        let n = self.workspaces[c].workspace.managed_window_handles.len();
        if n <= 1 {
            return None;
        }
        let to: usize = if e.idx == n - 1 {
            0
        } else {
            e.idx + 1
        };
        Some(self.workspaces[c].workspace.managed_window_handles[to])
    }

    /// Swap the foreground window with its previous neighbour,
    /// wrapping at the front. A no-op on an unknown or suspended
    /// foreground, a workspace of at most one window, or a toggled-off
    /// workspace. Returns the workspace to retile.
    pub fn swap_previous(&mut self) -> (r: Option<(u128, usize)>)
        requires
            old(self).wf(),
        ensures
            final(self).wf(),
            r is None ==> *final(self) == *old(self),
            r matches Some(key) ==> ({
                let e = old(self).loc_of(old(self).foreground()->Some_0);
                let c = old(self).cell_of(e.desktop, e.monitor as int);
                let hs = old(self).ws_handles(c);
                &&& key == (e.desktop, e.monitor)
                &&& hs.len() > 1
                &&& !old(self).key_ignored(e.desktop, e.monitor)
                &&& final(self).same_cell_frame(*old(self))
                &&& final(self).ws_handles(c) == seq_swap(hs, e.idx as int, if e.idx == 0 {
                    hs.len() - 1
                } else {
                    e.idx - 1
                })
            }),
            // success is owed: a known tiled foreground on a workspace
            // that is not toggled off and holds more than one window
            // is always swapped
            (old(self).foreground() matches Some(fg) && old(self).has_loc(fg) && !old(self).loc_of(
                fg,
            ).suspended && !old(self).key_ignored(
                old(self).loc_of(fg).desktop,
                old(self).loc_of(fg).monitor,
            ) && old(self).ws_handles(
                old(self).cell_of(
                    old(self).loc_of(fg).desktop,
                    old(self).loc_of(fg).monitor as int,
                ),
            ).len() > 1) ==> r is Some,
    {
        let ghost o = *old(self);
        let fg: u64 = match self.foreground_hwnd {
            Some(h) => h,
            None => {
                return None;
            },
        };
        let li: usize = match self.loc_index(fg) {
            Some(x) => x,
            None => {
                return None;
            },
        };
        proof {
            o.lemma_loc_unique(li as int);
        }
        let e = self.locations[li];
        if e.suspended {
            return None;
        }
        if self.is_key_ignored(e.desktop, e.monitor) {
            return None;
        }
        let c: usize = match self.ws_index(e.desktop, e.monitor) {
            Some(c) => c,
            None => {
                proof {
                    assert(false);
                }
                return None;
            },
        };
        proof {
            o.lemma_cell_unique(c as int);
        }
        let n = self.workspaces[c].workspace.managed_window_handles.len();
        if n <= 1 {
            return None;
        }
        let swap_with: usize = if e.idx == 0 {
            n - 1
        } else {
            e.idx - 1
        };
        self.swap_windows(e.desktop, e.monitor, e.idx, swap_with);
        Some((e.desktop, e.monitor))
    }

    /// Swap the foreground window with its next neighbour, wrapping at
    /// the end. A no-op on an unknown or suspended foreground, a
    /// workspace of at most one window, or a toggled-off workspace.
    /// Returns the workspace to retile.
    pub fn swap_next(&mut self) -> (r: Option<(u128, usize)>)
        requires
            old(self).wf(),
        ensures
            final(self).wf(),
            r is None ==> *final(self) == *old(self),
            r matches Some(key) ==> ({
                let e = old(self).loc_of(old(self).foreground()->Some_0);
                let c = old(self).cell_of(e.desktop, e.monitor as int);
                let hs = old(self).ws_handles(c);
                &&& key == (e.desktop, e.monitor)
                &&& hs.len() > 1
                &&& !old(self).key_ignored(e.desktop, e.monitor)
                &&& final(self).same_cell_frame(*old(self))
                &&& final(self).ws_handles(c) == seq_swap(
                    hs,
                    e.idx as int,
                    if e.idx as int == hs.len() - 1 {
                        0
                    } else {
                        e.idx + 1
                    },
                )
            }),
            // success is owed on a known tiled foreground, a workspace
            // not toggled off, and more than one window
            (old(self).foreground() matches Some(fg) && old(self).has_loc(fg) && !old(self).loc_of(
                fg,
            ).suspended && !old(self).key_ignored(
                old(self).loc_of(fg).desktop,
                old(self).loc_of(fg).monitor,
            ) && old(self).ws_handles(
                old(self).cell_of(
                    old(self).loc_of(fg).desktop,
                    old(self).loc_of(fg).monitor as int,
                ),
            ).len() > 1) ==> r is Some,
    {
        let ghost o = *old(self);
        let fg: u64 = match self.foreground_hwnd {
            Some(h) => h,
            None => {
                return None;
            },
        };
        let li: usize = match self.loc_index(fg) {
            Some(x) => x,
            None => {
                return None;
            },
        };
        proof {
            o.lemma_loc_unique(li as int);
        }
        let e = self.locations[li];
        if e.suspended {
            return None;
        }
        let c: usize = match self.ws_index(e.desktop, e.monitor) {
            Some(c) => c,
            None => {
                proof {
                    assert(false);
                }
                return None;
            },
        };
        if self.is_key_ignored(e.desktop, e.monitor) {
            return None;
        }
        proof {
            o.lemma_cell_unique(c as int);
        }
        let n = self.workspaces[c].workspace.managed_window_handles.len();
        if n <= 1 {
            return None;
        }
        let swap_with: usize = if e.idx == n - 1 {
            0
        } else {
            e.idx + 1
        };
        self.swap_windows(e.desktop, e.monitor, e.idx, swap_with);
        Some((e.desktop, e.monitor))
    }

    /// Select the previous variant of the active layout, without
    /// wrapping. Returns the workspace to retile.
    pub fn variant_previous(&mut self) -> (r: Option<(u128, usize)>)
        requires
            old(self).wf(),
        ensures
            final(self).wf(),
            r is None ==> *final(self) == *old(self),
            r matches Some(key) ==> ({
                let e = old(self).loc_of(old(self).foreground()->Some_0);
                let c = old(self).cell_of(e.desktop, e.monitor as int);
                &&& key == (e.desktop, e.monitor)
                &&& final(self).same_but_cells_locations(*old(self))
                &&& final(self).locs() == old(self).locs()
                &&& final(self).ws_variant(c) == old(self).ws_variant(c) - 1
                &&& final(self).ws_layout(c) == old(self).ws_layout(c)
            }),
            // success is owed when a previous variant exists
            (old(self).foreground() matches Some(fg) && old(self).has_loc(fg) && !old(self).loc_of(
                fg,
            ).suspended && !old(self).key_ignored(
                old(self).loc_of(fg).desktop,
                old(self).loc_of(fg).monitor,
            ) && ({
                let c = old(self).cell_of(
                    old(self).loc_of(fg).desktop,
                    old(self).loc_of(fg).monitor as int,
                );
                old(self).ws_variant(c) > 0 && old(self).groups_at(
                    old(self).loc_of(fg).monitor as int,
                )[old(self).ws_layout(c)].variants().len() > 1
            })) ==> r is Some,
    {
        let ghost o = *old(self);
        let fg: u64 = match self.foreground_hwnd {
            Some(h) => h,
            None => {
                return None;
            },
        };
        let li: usize = match self.loc_index(fg) {
            Some(x) => x,
            None => {
                return None;
            },
        };
        proof {
            o.lemma_loc_unique(li as int);
        }
        let e = self.locations[li];
        if e.suspended {
            return None;
        }
        if self.is_key_ignored(e.desktop, e.monitor) {
            return None;
        }
        let c: usize = match self.ws_index(e.desktop, e.monitor) {
            Some(c) => c,
            None => {
                return None;
            },
        };
        proof {
            o.lemma_cell_unique(c as int);
        }
        let v = self.workspaces[c].workspace.variant_idx;
        if v == 0 {
            return None;
        }
        let g = self.workspaces[c].workspace.layout_idx;
        let m = self.workspaces[c].monitor;
        if self.layouts[m][g].layouts_len() == 1 {
            return None;
        }
        self.set_cell_indices(c, g, v - 1);
        Some((e.desktop, e.monitor))
    }

    /// Select the next variant of the active layout, without wrapping.
    /// Returns the workspace to retile.
    pub fn variant_next(&mut self) -> (r: Option<(u128, usize)>)
        requires
            old(self).wf(),
        ensures
            final(self).wf(),
            r is None ==> *final(self) == *old(self),
            r matches Some(key) ==> ({
                let e = old(self).loc_of(old(self).foreground()->Some_0);
                let c = old(self).cell_of(e.desktop, e.monitor as int);
                &&& key == (e.desktop, e.monitor)
                &&& final(self).same_but_cells_locations(*old(self))
                &&& final(self).locs() == old(self).locs()
                &&& final(self).ws_variant(c) == old(self).ws_variant(c) + 1
                &&& final(self).ws_layout(c) == old(self).ws_layout(c)
            }),
            // success is owed when a next variant exists
            (old(self).foreground() matches Some(fg) && old(self).has_loc(fg) && !old(self).loc_of(
                fg,
            ).suspended && !old(self).key_ignored(
                old(self).loc_of(fg).desktop,
                old(self).loc_of(fg).monitor,
            ) && ({
                let c = old(self).cell_of(
                    old(self).loc_of(fg).desktop,
                    old(self).loc_of(fg).monitor as int,
                );
                let len = old(self).groups_at(old(self).loc_of(fg).monitor as int)[old(self).ws_layout(c)].variants().len();
                len > 1 && old(self).ws_variant(c) < len - 1
            })) ==> r is Some,
            // ... and the command drops when none does
            (old(self).foreground() is Some && old(self).has_loc(old(self).foreground()->Some_0)
                && !old(self).loc_of(old(self).foreground()->Some_0).suspended && ({
                let e = old(self).loc_of(old(self).foreground()->Some_0);
                let c = old(self).cell_of(e.desktop, e.monitor as int);
                let len = old(self).groups_at(e.monitor as int)[old(self).ws_layout(
                    c,
                )].variants().len();
                len == 1 || old(self).ws_variant(c) == len - 1
            })) ==> r is None,
    {
        let ghost o = *old(self);
        let fg: u64 = match self.foreground_hwnd {
            Some(h) => h,
            None => {
                return None;
            },
        };
        let li: usize = match self.loc_index(fg) {
            Some(x) => x,
            None => {
                return None;
            },
        };
        proof {
            o.lemma_loc_unique(li as int);
        }
        let e = self.locations[li];
        if e.suspended {
            return None;
        }
        if self.is_key_ignored(e.desktop, e.monitor) {
            return None;
        }
        let c: usize = match self.ws_index(e.desktop, e.monitor) {
            Some(c) => c,
            None => {
                return None;
            },
        };
        proof {
            o.lemma_cell_unique(c as int);
        }
        let v = self.workspaces[c].workspace.variant_idx;
        let g = self.workspaces[c].workspace.layout_idx;
        let m = self.workspaces[c].monitor;
        let layouts_len = self.layouts[m][g].layouts_len();
        if layouts_len == 1 || v == layouts_len - 1 {
            return None;
        }
        self.set_cell_indices(c, g, v + 1);
        Some((e.desktop, e.monitor))
    }

    /// Select the previous layout, wrapping across the monitor's
    /// layout list; the variant resets to that layout's default.
    /// Returns the workspace to retile.
    pub fn layout_previous(&mut self) -> (r: Option<(u128, usize)>)
        requires
            old(self).wf(),
        ensures
            final(self).wf(),
            r is None ==> *final(self) == *old(self),
            r matches Some(key) ==> ({
                let e = old(self).loc_of(old(self).foreground()->Some_0);
                let c = old(self).cell_of(e.desktop, e.monitor as int);
                &&& key == (e.desktop, e.monitor)
                &&& final(self).same_but_cells_locations(*old(self))
                &&& final(self).locs() == old(self).locs()
                &&& final(self).ws_layout(c) == (if old(self).ws_layout(c) == 0 {
                    old(self).groups_count() - 1
                } else {
                    old(self).ws_layout(c) - 1
                })
                &&& final(self).ws_variant(c) == old(self).groups_at(e.monitor as int)[final(self).ws_layout(c)].default_view()
            }),
            // success is owed when the monitor holds more than one
            // layout group
            (old(self).foreground() matches Some(fg) && old(self).has_loc(fg) && !old(self).loc_of(
                fg,
            ).suspended && !old(self).key_ignored(
                old(self).loc_of(fg).desktop,
                old(self).loc_of(fg).monitor,
            ) && old(self).groups_count() > 1) ==> r is Some,
    {
        let ghost o = *old(self);
        let fg: u64 = match self.foreground_hwnd {
            Some(h) => h,
            None => {
                return None;
            },
        };
        let li: usize = match self.loc_index(fg) {
            Some(x) => x,
            None => {
                return None;
            },
        };
        proof {
            o.lemma_loc_unique(li as int);
        }
        let e = self.locations[li];
        if e.suspended {
            return None;
        }
        if self.is_key_ignored(e.desktop, e.monitor) {
            return None;
        }
        let c: usize = match self.ws_index(e.desktop, e.monitor) {
            Some(c) => c,
            None => {
                proof {
                    assert(false);
                }
                return None;
            },
        };
        proof {
            o.lemma_cell_unique(c as int);
        }
        let m = self.workspaces[c].monitor;
        let count = self.layouts[m].len();
        if count == 1 {
            return None;
        }
        let g = self.workspaces[c].workspace.layout_idx;
        let new_g: usize = if g == 0 {
            count - 1
        } else {
            g - 1
        };
        proof {
            assert(o.groups_at(m as int)[new_g as int].wf());
        }
        let new_v = self.layouts[m][new_g].default_idx();
        self.set_cell_indices(c, new_g, new_v);
        Some((e.desktop, e.monitor))
    }

    /// Select the next layout, wrapping across the monitor's layout
    /// list; the variant resets to that layout's default. Returns the
    /// workspace to retile.
    pub fn layout_next(&mut self) -> (r: Option<(u128, usize)>)
        requires
            old(self).wf(),
        ensures
            final(self).wf(),
            r is None ==> *final(self) == *old(self),
            r matches Some(key) ==> ({
                let e = old(self).loc_of(old(self).foreground()->Some_0);
                let c = old(self).cell_of(e.desktop, e.monitor as int);
                &&& key == (e.desktop, e.monitor)
                &&& final(self).same_but_cells_locations(*old(self))
                &&& final(self).locs() == old(self).locs()
                &&& final(self).ws_layout(c) == (if old(self).ws_layout(c) == old(self).groups_count() - 1 {
                    0int
                } else {
                    old(self).ws_layout(c) + 1
                })
                &&& final(self).ws_variant(c) == old(self).groups_at(e.monitor as int)[final(self).ws_layout(c)].default_view()
            }),
            // success is owed when the monitor holds more than one
            // layout group
            (old(self).foreground() matches Some(fg) && old(self).has_loc(fg) && !old(self).loc_of(
                fg,
            ).suspended && !old(self).key_ignored(
                old(self).loc_of(fg).desktop,
                old(self).loc_of(fg).monitor,
            ) && old(self).groups_count() > 1) ==> r is Some,
    {
        let ghost o = *old(self);
        let fg: u64 = match self.foreground_hwnd {
            Some(h) => h,
            None => {
                return None;
            },
        };
        let li: usize = match self.loc_index(fg) {
            Some(x) => x,
            None => {
                return None;
            },
        };
        proof {
            o.lemma_loc_unique(li as int);
        }
        let e = self.locations[li];
        if e.suspended {
            return None;
        }
        if self.is_key_ignored(e.desktop, e.monitor) {
            return None;
        }
        let c: usize = match self.ws_index(e.desktop, e.monitor) {
            Some(c) => c,
            None => {
                proof {
                    assert(false);
                }
                return None;
            },
        };
        proof {
            o.lemma_cell_unique(c as int);
        }
        let m = self.workspaces[c].monitor;
        let count = self.layouts[m].len();
        if count == 1 {
            return None;
        }
        let g = self.workspaces[c].workspace.layout_idx;
        let new_g: usize = if g == count - 1 {
            0
        } else {
            g + 1
        };
        proof {
            assert(o.groups_at(m as int)[new_g as int].wf());
        }
        let new_v = self.layouts[m][new_g].default_idx();
        self.set_cell_indices(c, new_g, new_v);
        Some((e.desktop, e.monitor))
    }

    /// Remember the foreground window for a later release, when it is
    /// known and tiled; otherwise forget any grab.
    pub fn grab_window(&mut self)
        requires
            old(self).wf(),
        ensures
            final(self).wf(),
            final(self).locs() == old(self).locs(),
            final(self).same_cell_frame(*old(self)),
            forall|c2: int|
                0 <= c2 < final(self).ws_count() ==> #[trigger] final(self).ws_handles(c2) == old(self).ws_handles(c2),
            final(self).foreground() == old(self).foreground(),
            final(self).grabbed() == (match old(self).foreground() {
                Some(h) => if old(self).has_loc(h) && !old(self).loc_of(h).suspended {
                    Some(h)
                } else {
                    None
                },
                None => None,
            }),
    {
        let ghost o = *old(self);
        let g: Option<u64> = match self.foreground_hwnd {
            Some(h) => {
                match self.loc_index(h) {
                    Some(li) => {
                        proof {
                            o.lemma_loc_unique(li as int);
                        }
                        if !self.locations[li].suspended {
                            Some(h)
                        } else {
                            None
                        }
                    },
                    None => None,
                }
            },
            None => None,
        };
        let ghost pre = *self;
        self.grabbed_window = g;
        proof {
            Self::lemma_wf_frame(pre, *self);
        }
    }

    /// Toggle whether the foreground's workspace is tiled at all.
    /// Returns the workspace to retile when it was just re-enabled.
    pub fn toggle_workspace(&mut self) -> (r: Option<(u128, usize)>)
        requires
            old(self).wf(),
        ensures
            final(self).wf(),
            final(self).locs() == old(self).locs(),
            final(self).same_cell_frame(*old(self)),
            forall|c2: int|
                0 <= c2 < final(self).ws_count() ==> #[trigger] final(self).ws_handles(c2) == old(self).ws_handles(c2),
            final(self).foreground() == old(self).foreground(),
            final(self).grabbed() == old(self).grabbed(),
            old(self).foreground() is None || !old(self).has_loc(old(self).foreground()->Some_0)
                ==> *final(self) == *old(self) && r is None,
            (old(self).foreground() is Some && old(self).has_loc(old(self).foreground()->Some_0))
                ==> ({
                let e = old(self).loc_of(old(self).foreground()->Some_0);
                &&& (old(self).key_ignored(e.desktop, e.monitor) ==> !final(self).key_ignored(
                    e.desktop,
                    e.monitor,
                ) && r == Some((e.desktop, e.monitor)))
                &&& (!old(self).key_ignored(e.desktop, e.monitor) ==> final(self).key_ignored(
                    e.desktop,
                    e.monitor,
                ) && r is None)
            }),
    {
        let ghost o = *old(self);
        let fg: u64 = match self.foreground_hwnd {
            Some(h) => h,
            None => {
                return None;
            },
        };
        let li: usize = match self.loc_index(fg) {
            Some(x) => x,
            None => {
                return None;
            },
        };
        proof {
            o.lemma_loc_unique(li as int);
        }
        let e = self.locations[li];
        if self.is_key_ignored(e.desktop, e.monitor) {
            let mut i: usize = 0;
            while i < self.ignored_combinations.len()
                invariant
                    *self == *old(self),
                    o == *old(self),
                    o.wf(),
                    o.foreground() == Some(fg),
                    o.has_loc(fg),
                    (li as int) < o.locs().len(),
                    o.locs()[li as int].hwnd == fg,
                    e == o.loc_of(fg),
                    o.key_ignored(e.desktop, e.monitor),
                    i <= self.ignored_keys().len(),
                    forall|k: int|
                        0 <= k < i ==> #[trigger] self.ignored_keys()[k] != (e.desktop, e.monitor),
                decreases self.ignored_keys().len() - i,
            {
                if self.ignored_combinations[i].0 == e.desktop && self.ignored_combinations[i].1
                    == e.monitor {
                    self.ignored_combinations.remove(i);
                    proof {
                        let f = *self;
                        Self::lemma_ml_frame(o, f);
                        Self::lemma_cells_frame(o, f);
                        Self::lemma_locs_frame(o, f);
                        assert forall|i1: int, i2: int|
                            0 <= i1 < i2 < f.ignored_keys().len() implies #[trigger] f.ignored_keys()[i1] != #[trigger] f.ignored_keys()[i2] by {
                            let s1 = if i1 < i as int { i1 } else { i1 + 1 };
                            let s2 = if i2 < i as int { i2 } else { i2 + 1 };
                            assert(f.ignored_keys()[i1] == o.ignored_keys()[s1]);
                            assert(f.ignored_keys()[i2] == o.ignored_keys()[s2]);
                            assert(o.ignored_keys()[s1] != o.ignored_keys()[s2]);
                        }
                        assert forall|i1: int, i2: int|
                            0 <= i1 < i2 < f.ignored_handles().len() implies #[trigger] f.ignored_handles()[i1] != #[trigger] f.ignored_handles()[i2] by {
                            assert(f.ignored_handles()[i1] == o.ignored_handles()[i1]);
                            assert(f.ignored_handles()[i2] == o.ignored_handles()[i2]);
                        }
                        assert(!f.key_ignored(e.desktop, e.monitor)) by {
                            if f.key_ignored(e.desktop, e.monitor) {
                                let k = choose|k: int|
                                    0 <= k < f.ignored_keys().len() && f.ignored_keys()[k] == (
                                    e.desktop,
                                    e.monitor,
                                    );
                                let sk = if k < i as int {
                                    k
                                } else {
                                    k + 1
                                };
                                assert(o.ignored_keys()[sk] == (e.desktop, e.monitor));
                                assert(sk != i as int);
                                assert(o.ignored_keys()[i as int] == (e.desktop, e.monitor));
                            }
                        }
                    }
                    return Some((e.desktop, e.monitor));
                }
                i = i + 1;
            }
            proof {
                assert(!o.key_ignored(e.desktop, e.monitor));
                assert(false);
            }
            None
        } else {
            self.ignored_combinations.push((e.desktop, e.monitor));
            proof {
                let f = *self;
                Self::lemma_ml_frame(o, f);
                Self::lemma_cells_frame(o, f);
                Self::lemma_locs_frame(o, f);
                let nk = f.ignored_keys().len() as int;
                assert(f.ignored_keys()[nk - 1] == (e.desktop, e.monitor));
                assert forall|i1: int, i2: int|
                    0 <= i1 < i2 < nk implies #[trigger] f.ignored_keys()[i1]
                    != #[trigger] f.ignored_keys()[i2] by {
                    assert(f.ignored_keys()[i1] == o.ignored_keys()[i1]);
                    if i2 < nk - 1 {
                        assert(f.ignored_keys()[i2] == o.ignored_keys()[i2]);
                    } else {
                        assert(!o.key_ignored(e.desktop, e.monitor));
                    }
                }
                assert forall|i1: int, i2: int|
                    0 <= i1 < i2 < f.ignored_handles().len() implies #[trigger] f.ignored_handles()[i1] != #[trigger] f.ignored_handles()[i2] by {
                    assert(f.ignored_handles()[i1] == o.ignored_handles()[i1]);
                    assert(f.ignored_handles()[i2] == o.ignored_handles()[i2]);
                }
            }
            None
        }
    }

    /// The handles of the foreground's workspace, for the boundary to
    /// check against the OS and synthesize destroy events for windows
    /// that no longer exist.
    pub fn refresh_workspace(&self) -> (r: Vec<u64>)
        requires
            self.wf(),
        ensures
            (self.foreground() is Some && self.has_loc(self.foreground()->Some_0)
                && self.has_cell(
                self.loc_of(self.foreground()->Some_0).desktop,
                self.loc_of(self.foreground()->Some_0).monitor as int,
            )) ==> r@ == self.ws_handles(
                self.cell_of(
                    self.loc_of(self.foreground()->Some_0).desktop,
                    self.loc_of(self.foreground()->Some_0).monitor as int,
                ),
            ),
    {
        let fg: u64 = match self.foreground_hwnd {
            Some(h) => h,
            None => {
                return Vec::new();
            },
        };
        let li: usize = match self.loc_index(fg) {
            Some(x) => x,
            None => {
                return Vec::new();
            },
        };
        proof {
            self.lemma_loc_unique(li as int);
        }
        let e = self.locations[li];
        let c: usize = match self.ws_index(e.desktop, e.monitor) {
            Some(c) => c,
            None => {
                return Vec::new();
            },
        };
        proof {
            self.lemma_cell_unique(c as int);
        }
        let mut r: Vec<u64> = Vec::new();
        let n = self.workspaces[c].workspace.managed_window_handles.len();
        let mut k: usize = 0;
        while k < n
            invariant
                self.wf(),
                (c as int) < self.ws_count(),
                n as int == self.ws_handles(c as int).len(),
                k <= n,
                r@ == self.ws_handles(c as int).subrange(0, k as int),
            decreases n - k,
        {
            r.push(self.workspaces[c].workspace.managed_window_handles[k]);
            k = k + 1;
            proof {
                assert(r@ =~= self.ws_handles(c as int).subrange(0, k as int));
            }
        }
        proof {
            assert(self.ws_handles(c as int).subrange(0, n as int) =~= self.ws_handles(c as int));
        }
        r
    }

    /// A fresh manager with no monitors, layouts, workspaces or known
    /// windows.
    pub fn new(settings: Settings) -> (r: Self)
        requires
            padding_wf(settings.window_padding as int, settings.edge_padding as int),
        ensures
            r.wf(),
            r.monitors_view() =~= Seq::<Zone>::empty(),
            r.ws_count() == 0,
            r.locs() =~= Seq::<LocationEntry>::empty(),
            r.foreground() is None,
            r.grabbed() is None,
            r.ignored_keys() =~= Seq::<(u128, usize)>::empty(),
            r.ignored_handles() =~= Seq::<u64>::empty(),
            r.settings_view() == settings,
    {
        WindowManager {
            monitors: Vec::new(),
            layouts: Vec::new(),
            workspaces: Vec::new(),
            locations: Vec::new(),
            foreground_hwnd: None,
            grabbed_window: None,
            ignored_combinations: Vec::new(),
            ignored_hwnds: Vec::new(),
            settings,
        }
    }

    /// The configuration.
    pub fn get_settings(&self) -> (r: &Settings)
        ensures
            *r == self.settings_view(),
    {
        &self.settings
    }

    /// The configuration, for editing the border cosmetics; changing a
    /// padding invalidates the invariant until layouts are rebuilt.
    pub fn get_settings_mut(&mut self) -> (r: &mut Settings)
        ensures
            *r == old(self).settings_view(),
            *final(r) == final(self).settings_view(),
            final(self).monitors_view() == old(self).monitors_view(),
            final(self).locs() == old(self).locs(),
            final(self).same_cell_frame(*old(self)),
    {
        &mut self.settings
    }

    /// Whether a handle is enrolled at all.
    pub fn is_known(&self, hwnd: u64) -> (r: bool)
        ensures
            r == self.has_loc(hwnd),
    {
        match self.loc_index(hwnd) {
            Some(_) => true,
            None => false,
        }
    }

    /// The handle last reported as foreground, if known.
    pub fn get_foreground(&self) -> (r: Option<u64>)
        ensures
            r == self.foreground(),
    {
        self.foreground_hwnd
    }

    /// The monitors' work-areas, in enumeration order.
    pub fn get_monitor_vec(&self) -> (r: &Vec<Zone>)
        ensures
            r@ == self.monitors_view(),
    {
        &self.monitors
    }

    /// Adopt the monitors and layout groups and enroll the given
    /// windows: each is a (handle, virtual desktop, monitor, restored)
    /// tuple as the boundary classified it, in enumeration order. The
    /// foreground seed is remembered when it was enrolled.
    pub fn initialize(
        &mut self,
        monitor_rects: Vec<Zone>,
        layout_groups: Vec<LayoutGroup>,
        windows: Vec<(u64, u128, usize, bool)>,
        foreground: Option<u64>,
    )
        requires
            old(self).wf(),
            old(self).monitors_view().len() == 0,
            old(self).ws_count() == 0,
            old(self).locs().len() == 0,
            old(self).foreground() is None,
            old(self).ignored_handles().len() == 0,
            monitor_rects@.len() >= 1,
            forall|m: int|
                0 <= m < monitor_rects@.len() ==> (#[trigger] monitor_rects@[m]).wf()
                    && monitor_rects@[m].spec_w() >= 1 && monitor_rects@[m].spec_h() >= 1,
            layout_groups@.len() >= 1,
            forall|g: int| 0 <= g < layout_groups@.len() ==> (#[trigger] layout_groups@[g]).ready(),
            (old(self).settings_view().default_layout_idx as int) < layout_groups@.len(),
            forall|w: int|
                0 <= w < windows@.len() ==> (#[trigger] windows@[w]).2 < monitor_rects@.len(),
        ensures
            final(self).wf(),
            final(self).monitors_view() == monitor_rects@,
            final(self).groups_count() == layout_groups@.len(),
            final(self).settings_view() == old(self).settings_view(),
            final(self).foreground() matches Some(h) ==> foreground == Some(h) && final(self).has_loc(h),
            // exactly the given windows are enrolled: each is known
            // afterwards, and nothing else is
            forall|w: int| 0 <= w < windows@.len() ==> final(self).has_loc((#[trigger] windows@[w]).0),
            forall|h2: u64|
                final(self).has_loc(h2) ==> exists|w: int|
                    0 <= w < windows@.len() && (#[trigger] windows@[w]).0 == h2,
            final(self).ignored_keys() == old(self).ignored_keys(),
            final(self).ignored_handles() == old(self).ignored_handles(),
            final(self).grabbed() == old(self).grabbed(),
    {
        self.monitors = monitor_rects;
        let mcount = self.monitors.len();
        let wp = self.settings.window_padding;
        let ep = self.settings.edge_padding;
        let mut layouts: Vec<Vec<LayoutGroup>> = Vec::new();
        let mut m: usize = 0;
        while m < mcount
            invariant
                self.monitors@.len() == mcount,
                forall|m2: int|
                    0 <= m2 < mcount ==> (#[trigger] self.monitors@[m2]).wf()
                        && self.monitors@[m2].spec_w() >= 1 && self.monitors@[m2].spec_h() >= 1,
                layout_groups@.len() >= 1,
                forall|g: int|
                    0 <= g < layout_groups@.len() ==> (#[trigger] layout_groups@[g]).ready(),
                padding_wf(wp as int, ep as int),
                wp == self.settings.window_padding,
                ep == self.settings.edge_padding,
                m <= mcount,
                layouts@.len() == m,
                forall|m2: int|
                    0 <= m2 < m ==> (#[trigger] layouts@[m2]@).len() == layout_groups@.len(),
                forall|m2: int, g: int|
                    0 <= m2 < m && 0 <= g < layout_groups@.len() ==> (
                    #[trigger] layouts@[m2]@[g]).wf() && layouts@[m2]@[g].prepared(
                        wp as int,
                        ep as int,
                    ) && layouts@[m2]@[g].monitor() == self.monitors@[m2],
            decreases mcount - m,
        {
            let rect = self.monitors[m];
            let mut row: Vec<LayoutGroup> = Vec::new();
            let mut g: usize = 0;
            while g < layout_groups.len()
                invariant
                    rect.wf(),
                    rect.spec_w() >= 1,
                    rect.spec_h() >= 1,
                    forall|g2: int|
                        0 <= g2 < layout_groups@.len() ==> (#[trigger] layout_groups@[g2]).ready(),
                    padding_wf(wp as int, ep as int),
                    g <= layout_groups@.len(),
                    row@.len() == g,
                    forall|g2: int|
                        0 <= g2 < g ==> (#[trigger] row@[g2]).wf() && row@[g2].prepared(
                            wp as int,
                            ep as int,
                        ) && row@[g2].monitor() == rect,
                decreases layout_groups@.len() - g,
            {
                let mut grp = match LayoutGroup::convert_for_monitor(&layout_groups[g], rect) {
                    Some(converted) => converted,
                    None => layout_groups[g].duplicate(),
                };
                grp.update_all(wp, ep);
                row.push(grp);
                g = g + 1;
            }
            layouts.push(row);
            m = m + 1;
        }
        self.layouts = layouts;
        proof {
            let ghost o2 = *old(self);
            assert(self.groups_count() == layout_groups@.len());
            assert forall|m2: int| 0 <= m2 < self.monitors_view().len() implies (
            #[trigger] self.monitors_view()[m2]).wf() && self.monitors_view()[m2].spec_w() >= 1
                && self.monitors_view()[m2].spec_h() >= 1 by {
                assert(self.monitors_view()[m2] == self.monitors@[m2]);
            }
            assert forall|m2: int| 0 <= m2 < self.monitors_view().len() implies (
            #[trigger] self.groups_at(m2)).len() == self.groups_count() by {
                assert(self.groups_at(m2) == self.layouts@[m2]@);
            }
            assert forall|m2: int, g2: int|
                0 <= m2 < self.monitors_view().len() && 0 <= g2 < self.groups_count() implies (
            #[trigger] self.groups_at(m2)[g2]).wf() && self.groups_at(m2)[g2].prepared(
                self.settings_view().window_padding as int,
                self.settings_view().edge_padding as int,
            ) && self.groups_at(m2)[g2].monitor() == self.monitors_view()[m2] by {
                assert(self.groups_at(m2)[g2] == self.layouts@[m2]@[g2]);
            }
            assert forall|i1: int, i2: int|
                0 <= i1 < i2 < self.ignored_keys().len() implies #[trigger] self.ignored_keys()[i1] != #[trigger] self.ignored_keys()[i2] by {
                assert(self.ignored_keys()[i1] == o2.ignored_keys()[i1]);
                assert(self.ignored_keys()[i2] == o2.ignored_keys()[i2]);
            }
            assert forall|i1: int, i2: int|
                0 <= i1 < i2 < self.ignored_handles().len() implies #[trigger] self.ignored_handles()[i1] != #[trigger] self.ignored_handles()[i2] by {
                assert(self.ignored_handles()[i1] == o2.ignored_handles()[i1]);
                assert(self.ignored_handles()[i2] == o2.ignored_handles()[i2]);
            }
            assert(self.ws_count() == 0);
            assert(self.locs().len() == 0);
            assert(self.wf());
        }
        let mut w: usize = 0;
        while w < windows.len()
            invariant
                self.wf(),
                self.monitors_view().len() == mcount,
                forall|w2: int|
                    0 <= w2 < windows@.len() ==> (#[trigger] windows@[w2]).2 < mcount,
                w <= windows@.len(),
                self.groups_count() == layout_groups@.len(),
                self.settings == old(self).settings,
                self.monitors@ == monitor_rects@,
                self.monitors@.len() == mcount,
                self.foreground_hwnd is None,
                self.ignored_combinations@ == old(self).ignored_combinations@,
                self.ignored_hwnds@ == old(self).ignored_hwnds@,
                self.ignored_hwnds@.len() == 0,
                self.grabbed_window == old(self).grabbed_window,
                forall|w2: int| 0 <= w2 < w ==> self.has_loc((#[trigger] windows@[w2]).0),
                forall|h2: u64|
                    self.has_loc(h2) ==> exists|w2: int|
                        0 <= w2 < w && (#[trigger] windows@[w2]).0 == h2,
            decreases windows@.len() - w,
        {
            let (hwnd, desktop, monitor, restored) = windows[w];
            let ghost pre = *self;
            proof {
                assert(!pre.hwnd_ignored(hwnd)) by {
                    assert(pre.ignored_handles().len() == 0);
                }
            }
            let _ = self.window_created(hwnd, restored, Some((desktop, monitor)));
            proof {
                assert(self.has_loc(hwnd)) by {
                    if !pre.has_loc(hwnd) {
                    } else {
                        // already enrolled by an earlier entry: it
                        // stays known
                    }
                }
                assert forall|w2: int| 0 <= w2 < w + 1 implies self.has_loc(
                    (#[trigger] windows@[w2]).0,
                ) by {
                    if w2 < w {
                        assert(pre.has_loc(windows@[w2].0));
                    }
                }
                assert forall|h2: u64| self.has_loc(h2) implies exists|w2: int|
                    0 <= w2 < w + 1 && (#[trigger] windows@[w2]).0 == h2 by {
                    if h2 != hwnd {
                        assert(pre.has_loc(h2));
                        let w2 = choose|w2: int| 0 <= w2 < w && (#[trigger] windows@[w2]).0 == h2;
                        assert(0 <= w2 < w + 1 && windows@[w2].0 == h2);
                    } else {
                        assert(windows@[w as int].0 == h2);
                    }
                }
            }
            w = w + 1;
        }
        let ghost enrolled = *self;
        match foreground {
            Some(h) => {
                match self.loc_index(h) {
                    Some(_) => {
                        let ghost pre = *self;
                        self.foreground_hwnd = Some(h);
                        proof {
                            Self::lemma_wf_frame(pre, *self);
                            assert(self.locs() == pre.locs());
                            let k = choose|k: int|
                                0 <= k < pre.locs().len() && pre.locs()[k].hwnd == h;
                            assert(self.locs()[k].hwnd == h);
                        }
                    },
                    None => {},
                }
            },
            None => {},
        }
        proof {
            assert(self.locs() == enrolled.locs());
            assert forall|w2: int| 0 <= w2 < windows@.len() implies self.has_loc(
                (#[trigger] windows@[w2]).0,
            ) by {
                assert(enrolled.has_loc(windows@[w2].0));
                let k = choose|k: int|
                    0 <= k < enrolled.locs().len() && enrolled.locs()[k].hwnd == windows@[w2].0;
                assert(self.locs()[k].hwnd == windows@[w2].0);
            }
            assert forall|h2: u64| self.has_loc(h2) implies exists|w2: int|
                0 <= w2 < windows@.len() && (#[trigger] windows@[w2]).0 == h2 by {
                let k = choose|k: int| 0 <= k < self.locs().len() && self.locs()[k].hwnd == h2;
                assert(enrolled.locs()[k].hwnd == h2);
                assert(enrolled.has_loc(h2));
            }
        }
    }

    /// Convert and append one more layout group on every monitor.
    pub fn add_layout_group(&mut self, layout_group: LayoutGroup)
        requires
            old(self).wf(),
            layout_group.ready(),
            old(self).monitors_view().len() >= 1,
        ensures
            final(self).wf(),
            final(self).groups_count() == old(self).groups_count() + 1,
            final(self).monitors_view() == old(self).monitors_view(),
            final(self).locs() == old(self).locs(),
            final(self).same_cell_frame(*old(self)),
            forall|c2: int|
                0 <= c2 < final(self).ws_count() ==> #[trigger] final(self).ws_handles(c2) == old(self).ws_handles(c2),
    {
        let ghost o = *old(self);
        let wp = self.settings.window_padding;
        let ep = self.settings.edge_padding;
        let mcount = self.monitors.len();
        proof {
            assert forall|m2: int| 0 <= m2 < mcount implies (#[trigger] self.layouts@[m2]@).len()
                == o.groups_count() by {
                assert(o.groups_at(m2).len() == o.groups_count());
            }
            assert forall|m2: int, g: int|
                0 <= m2 < mcount && 0 <= g < self.layouts@[m2]@.len() implies (
            #[trigger] self.layouts@[m2]@[g]).wf() && self.layouts@[m2]@[g].prepared(
                wp as int,
                ep as int,
            ) && self.layouts@[m2]@[g].monitor() == self.monitors@[m2] by {
                assert(o.groups_at(m2).len() == o.groups_count());
                assert(o.groups_at(m2)[g].wf());
            }
        }
        let mut m: usize = 0;
        while m < mcount
            invariant
                o.wf(),
                o == *old(self),
                layout_group.ready(),
                self.monitors@ == o.monitors@,
                self.workspaces@ == o.workspaces@,
                self.locations@ == o.locations@,
                self.foreground_hwnd == o.foreground_hwnd,
                self.grabbed_window == o.grabbed_window,
                self.ignored_combinations@ == o.ignored_combinations@,
                self.ignored_hwnds@ == o.ignored_hwnds@,
                self.settings == o.settings,
                wp == self.settings.window_padding,
                ep == self.settings.edge_padding,
                mcount == self.monitors@.len(),
                mcount >= 1,
                self.layouts@.len() == mcount,
                m <= mcount,
                forall|m2: int|
                    0 <= m2 < mcount ==> (#[trigger] self.layouts@[m2]@).len() == (if m2 < m {
                        o.groups_count() + 1
                    } else {
                        o.groups_count()
                    }),
                forall|m2: int, g: int|
                    0 <= m2 < mcount && 0 <= g < self.layouts@[m2]@.len() ==> (
                    #[trigger] self.layouts@[m2]@[g]).wf() && self.layouts@[m2]@[g].prepared(
                        wp as int,
                        ep as int,
                    ) && self.layouts@[m2]@[g].monitor() == self.monitors@[m2],
                forall|m2: int, g: int|
                    0 <= m2 < mcount && 0 <= g < o.groups_count() ==> #[trigger] self.layouts@[m2]@[g] == o.layouts@[m2]@[g],
            decreases mcount - m,
        {
            proof {
                assert(self.monitors@[m as int].wf() && self.monitors@[m as int].spec_w() >= 1
                    && self.monitors@[m as int].spec_h() >= 1) by {
                    assert(o.monitors_view()[m as int].wf());
                }
            }
            let rect = self.monitors[m];
            let mut grp = match LayoutGroup::convert_for_monitor(&layout_group, rect) {
                Some(converted) => converted,
                None => layout_group.duplicate(),
            };
            grp.update_all(wp, ep);
            let mut row: Vec<LayoutGroup> = Vec::new();
            vstd::pervasive::VecAdditionalExecFns::set_and_swap(&mut self.layouts, m, &mut row);
            row.push(grp);
            vstd::pervasive::VecAdditionalExecFns::set_and_swap(&mut self.layouts, m, &mut row);
            proof {
                assert forall|m2: int, g: int|
                    0 <= m2 < mcount && 0 <= g < self.layouts@[m2]@.len() implies (
                #[trigger] self.layouts@[m2]@[g]).wf() && self.layouts@[m2]@[g].prepared(
                    wp as int,
                    ep as int,
                ) && self.layouts@[m2]@[g].monitor() == self.monitors@[m2] by {}
            }
            m = m + 1;
        }
        proof {
            let f = *self;
            assert(f.groups_count() == o.groups_count() + 1);
            assert forall|m2: int| 0 <= m2 < f.monitors_view().len() implies (
            #[trigger] f.groups_at(m2)).len() == f.groups_count() by {
                assert(f.groups_at(m2) == f.layouts@[m2]@);
            }
            assert forall|m2: int, g: int|
                0 <= m2 < f.monitors_view().len() && 0 <= g < f.groups_count() implies (
            #[trigger] f.groups_at(m2)[g]).wf() && f.groups_at(m2)[g].prepared(
                f.settings_view().window_padding as int,
                f.settings_view().edge_padding as int,
            ) && f.groups_at(m2)[g].monitor() == f.monitors_view()[m2] by {
                assert(f.groups_at(m2)[g] == f.layouts@[m2]@[g]);
            }
            assert forall|m2: int| 0 <= m2 < f.monitors_view().len() implies (
            #[trigger] f.monitors_view()[m2]).wf() && f.monitors_view()[m2].spec_w() >= 1
                && f.monitors_view()[m2].spec_h() >= 1 by {
                assert(f.monitors_view()[m2] == o.monitors_view()[m2]);
            }
            assert forall|c2: int| 0 <= c2 < f.ws_count() implies 0 <= #[trigger] f.ws_monitor(c2)
                < f.monitors_view().len() && 0 <= f.ws_layout(c2) < f.groups_count() && 0
                <= f.ws_variant(c2) < f.groups_at(f.ws_monitor(c2))[f.ws_layout(
                c2,
            )].variants().len() by {
                assert(f.ws_desktop(c2) == o.ws_desktop(c2));
                assert(f.ws_monitor(c2) == o.ws_monitor(c2) && f.ws_layout(c2) == o.ws_layout(c2)
                    && f.ws_variant(c2) == o.ws_variant(c2));
                assert(0 <= o.ws_layout(c2) < o.groups_count());
                assert(f.layouts@[f.ws_monitor(c2)]@[f.ws_layout(c2)] == o.layouts@[o.ws_monitor(
                    c2,
                )]@[o.ws_layout(c2)]);
                assert(f.groups_at(f.ws_monitor(c2))[f.ws_layout(c2)] == o.groups_at(
                    o.ws_monitor(c2),
                )[o.ws_layout(c2)]);
            }
            assert forall|c1: int, c2: int| 0 <= c1 < c2 < f.ws_count() implies !(
            #[trigger] f.ws_desktop(c1) == #[trigger] f.ws_desktop(c2) && f.ws_monitor(c1)
                == f.ws_monitor(c2)) by {
                assert(f.ws_desktop(c1) == o.ws_desktop(c1) && f.ws_desktop(c2) == o.ws_desktop(
                    c2,
                ));
                assert(!(o.ws_desktop(c1) == o.ws_desktop(c2) && o.ws_monitor(c1) == o.ws_monitor(
                    c2,
                )));
            }
            Self::lemma_locs_frame(o, f);
            Self::lemma_static_frame_ignored(o, f);
        }
    }

    /// The cached placement for slot `slot` of workspace (d, m) at its
    /// current window count, for the extra reposition after a DPI
    /// change.
    pub fn get_position(&self, desktop: u128, monitor: usize, slot: usize) -> (r: Option<Position>)
        requires
            self.wf(),
        ensures
            r matches Some(p) ==> ({
                let c = self.cell_of(desktop, monitor as int);
                let n = self.ws_handles(c).len() as int;
                &&& self.has_cell(desktop, monitor as int)
                &&& n >= 1
                &&& (slot as int) < n
                &&& self.active_layout(c).positions_view().len() >= n
                &&& p == self.active_layout(c).positions_view()[n - 1][slot as int]
            }),
            // success is owed whenever the slot exists and the
            // placements are cached
            (self.has_cell(desktop, monitor as int) && ({
                let c = self.cell_of(desktop, monitor as int);
                let n = self.ws_handles(c).len() as int;
                (slot as int) < n && self.active_layout(c).positions_view().len() >= n
            })) ==> r is Some,
    {
        let c: usize = match self.ws_index(desktop, monitor) {
            Some(c) => c,
            None => {
                return None;
            },
        };
        proof {
            self.lemma_cell_unique(c as int);
        }
        let n = self.workspaces[c].workspace.managed_window_handles.len();
        if n == 0 || slot >= n {
            return None;
        }
        let m = self.workspaces[c].monitor;
        let g = self.workspaces[c].workspace.layout_idx;
        let v = self.workspaces[c].workspace.variant_idx;
        proof {
            assert(self.groups_at(m as int)[g as int].wf());
            assert(self.groups_at(m as int)[g as int].prepared(
                self.settings_view().window_padding as int,
                self.settings_view().edge_padding as int,
            ));
            assert(self.active_layout(c as int).positions_ok(
                self.settings_view().window_padding as int,
                self.settings_view().edge_padding as int,
            ));
        }
        let l = &self.layouts[m][g].get_layouts()[v];
        if l.positions_len() < n {
            return None;
        }
        proof {
            let al = self.active_layout(c as int);
            assert(al.positions_view().len() == al.tilings().len());
            assert(al.positions_view()[n - 1].len() == al.tilings()[n - 1].len());
            assert(al.tilings()[n - 1].len() == n);
        }
        Some(*&l.get_positions_at(n - 1)[slot])
    }

    /// The user finished dragging or resizing a window. A suspended
    /// window only records its new monitor and an end-of-workspace
    /// hint. A tiled window is reseated at the slot its new rectangle
    /// overlaps most, swapping on the same monitor or moving across
    /// monitors; a drag that leaves the window exactly in its tiled
    /// placement is ignored. Returns the workspaces to retile.
    #[verifier::rlimit(100)]
    #[verifier::spinoff_prover]
    pub fn window_move_finished(&mut self, hwnd: u64, new_monitor: usize, moved_to: Zone) -> (r:
        Vec<(u128, usize)>)
        requires
            old(self).wf(),
            (new_monitor as int) < old(self).monitors_view().len(),
            moved_to.wf(),
        ensures
            final(self).wf(),
            !old(self).has_loc(hwnd) ==> *final(self) == *old(self) && r@ =~= Seq::<
                (u128, usize),
            >::empty(),
            old(self).has_loc(hwnd) ==> final(self).has_loc(hwnd) && final(self).loc_of(
                hwnd,
            ).suspended == old(self).loc_of(hwnd).suspended,
            final(self).foreground() == old(self).foreground(),
            final(self).grabbed() == old(self).grabbed(),
            final(self).ignored_keys() == old(self).ignored_keys(),
            final(self).ignored_handles() == old(self).ignored_handles(),
            final(self).monitors_view() == old(self).monitors_view(),
            final(self).settings_view() == old(self).settings_view(),
            // a dragged suspended window only refreshes its entry: the
            // new monitor, with the target workspace's length (zero
            // when it is absent) as the insertion hint
            (old(self).has_loc(hwnd) && old(self).loc_of(hwnd).suspended) ==> ({
                let e = old(self).loc_of(hwnd);
                let li = old(self).loc_idx(hwnd);
                let hint: int = if old(self).has_cell(e.desktop, new_monitor as int) {
                    old(self).ws_handles(
                        old(self).cell_of(e.desktop, new_monitor as int),
                    ).len() as int
                } else {
                    0int
                };
                &&& r@ =~= Seq::<(u128, usize)>::empty()
                &&& final(self).locs().len() == old(self).locs().len()
                &&& final(self).locs()[li].hwnd == hwnd
                &&& final(self).locs()[li].suspended
                &&& final(self).locs()[li].desktop == e.desktop
                &&& final(self).locs()[li].monitor == new_monitor
                &&& final(self).locs()[li].idx as int == hint
                &&& forall|k: int|
                    0 <= k < old(self).locs().len() && k != li ==> #[trigger] final(self).locs()[k]
                        == old(self).locs()[k]
                &&& final(self).same_cell_frame(*old(self))
                &&& forall|c2: int|
                    0 <= c2 < final(self).ws_count() ==> #[trigger] final(self).ws_handles(c2)
                        == old(self).ws_handles(c2)
            }),
            // a tiled window that produced no retile keys (a pure echo
            // of its own placement, or a workspace beyond the
            // coordinate bound) left every sequence and entry alone
            (old(self).has_loc(hwnd) && !old(self).loc_of(hwnd).suspended && r@.len() == 0) ==> ({
                &&& final(self).locs() == old(self).locs()
                &&& final(self).same_cell_frame(*old(self))
                &&& forall|c2: int|
                    0 <= c2 < final(self).ws_count() ==> #[trigger] final(self).ws_handles(c2)
                        == old(self).ws_handles(c2)
            }),
            // a drag that is the exact echo of the window's own cached
            // placement changes nothing at all
            (old(self).has_loc(hwnd) && !old(self).loc_of(hwnd).suspended && old(self).loc_of(
                hwnd,
            ).monitor == new_monitor && old(self).has_cell(
                old(self).loc_of(hwnd).desktop,
                new_monitor as int,
            ) && ({
                let e = old(self).loc_of(hwnd);
                let c = old(self).cell_of(e.desktop, e.monitor as int);
                let n = old(self).ws_handles(c).len() as int;
                old(self).active_layout(c).positions_view().len() >= n && rect_matches_position(
                    moved_to,
                    old(self).active_layout(c).positions_view()[n - 1][e.idx as int],
                )
            })) ==> *final(self) == *old(self) && r@ =~= Seq::<(u128, usize)>::empty(),
            // on the same monitor the affected layout only grows: its
            // existing tilings and cached rows persist
            (old(self).has_loc(hwnd) && !old(self).loc_of(hwnd).suspended && old(self).loc_of(
                hwnd,
            ).monitor == new_monitor && old(self).has_cell(
                old(self).loc_of(hwnd).desktop,
                new_monitor as int,
            )) ==> ({
                let e = old(self).loc_of(hwnd);
                let c = old(self).cell_of(e.desktop, e.monitor as int);
                &&& forall|k: int|
                    0 <= k < old(self).active_layout(c).tilings().len() ==> #[trigger] final(self).active_layout(c).tilings()[k] == old(self).active_layout(c).tilings()[k]
                &&& forall|k: int|
                    0 <= k < old(self).active_layout(c).positions_view().len()
                        ==> #[trigger] final(self).active_layout(c).positions_view()[k] == old(self).active_layout(c).positions_view()[k]
            }),
            (old(self).has_loc(hwnd) && !old(self).loc_of(hwnd).suspended) ==> ({
                let e = old(self).loc_of(hwnd);
                &&& final(self).loc_of(hwnd).desktop == e.desktop
                &&& (r@.len() >= 1 ==> r@[0] == (e.desktop, e.monitor))
                &&& (e.monitor == new_monitor ==> r@.len() <= 1 && final(self).loc_of(
                    hwnd,
                ).monitor == e.monitor)
                &&& (e.monitor != new_monitor && r@.len() == 2 ==> r@[1] == (
                e.desktop,
                new_monitor,
                ) && final(self).loc_of(hwnd).monitor == new_monitor)
            }),
            // same monitor: the window is swapped into the slot its
            // rectangle overlaps most, read off the refreshed
            // placements for the workspace's window count
            (old(self).has_loc(hwnd) && !old(self).loc_of(hwnd).suspended && old(self).loc_of(
                hwnd,
            ).monitor == new_monitor && r@.len() == 1) ==> ({
                let e = old(self).loc_of(hwnd);
                let c = old(self).cell_of(e.desktop, e.monitor as int);
                let n = old(self).ws_handles(c).len() as int;
                let row = final(self).active_layout(c).positions_view()[n - 1];
                let b = best_slot(row, moved_to);
                let chosen = if 0 <= b < n {
                    b
                } else {
                    e.idx as int
                };
                &&& final(self).active_layout(c).positions_view().len() >= n
                &&& !rect_matches_position(moved_to, row[e.idx as int])
                &&& final(self).ws_handles(c) == seq_swap(
                    old(self).ws_handles(c),
                    e.idx as int,
                    chosen,
                )
                &&& final(self).same_cell_frame(*old(self))
            }),
            // same monitor, no echo, within bounds: a retile is owed
            (old(self).has_loc(hwnd) && !old(self).loc_of(hwnd).suspended && old(self).loc_of(
                hwnd,
            ).monitor == new_monitor && old(self).ws_handles(
                old(self).cell_of(
                    old(self).loc_of(hwnd).desktop,
                    old(self).loc_of(hwnd).monitor as int,
                ),
            ).len() < crate::geometry::COORD_LIMIT as int && r@.len() == 0) ==> ({
                let e = old(self).loc_of(hwnd);
                let c = old(self).cell_of(e.desktop, e.monitor as int);
                let n = old(self).ws_handles(c).len() as int;
                let row = final(self).active_layout(c).positions_view()[n - 1];
                &&& final(self).active_layout(c).positions_view().len() >= n
                &&& rect_matches_position(moved_to, row[e.idx as int])
            }),
            // across monitors: the window leaves its old slot and
            // lands at the best-overlap slot of the target workspace
            (old(self).has_loc(hwnd) && !old(self).loc_of(hwnd).suspended && old(self).loc_of(
                hwnd,
            ).monitor != new_monitor && r@.len() == 2) ==> ({
                let e = old(self).loc_of(hwnd);
                let c1 = old(self).cell_of(e.desktop, e.monitor as int);
                &&& final(self).ws_handles(c1) == old(self).ws_handles(c1).remove(e.idx as int)
                &&& (!old(self).has_cell(e.desktop, new_monitor as int) ==> final(self).has_cell(
                    e.desktop,
                    new_monitor as int,
                ) && final(self).ws_handles(
                    final(self).cell_of(e.desktop, new_monitor as int),
                ) =~= seq![hwnd] && final(self).ws_layout(
                    final(self).cell_of(e.desktop, new_monitor as int),
                ) == old(self).settings_view().default_layout_idx as int && final(self).ws_variant(
                    final(self).cell_of(e.desktop, new_monitor as int),
                ) == old(self).groups_at(new_monitor as int)[old(self).settings_view().default_layout_idx as int].default_view())
                &&& (old(self).has_cell(e.desktop, new_monitor as int) ==> ({
                    let c2 = old(self).cell_of(e.desktop, new_monitor as int);
                    let dn = old(self).ws_handles(c2).len() as int;
                    let row = final(self).active_layout(c2).positions_view()[dn];
                    let b = best_slot(row, moved_to);
                    let chosen = if 0 <= b < dn + 1 {
                        b
                    } else {
                        dn
                    };
                    &&& final(self).active_layout(c2).positions_view().len() >= dn + 1
                    &&& final(self).ws_handles(c2) == seq_swap(
                        old(self).ws_handles(c2).push(hwnd),
                        chosen,
                        dn,
                    )
                }))
            }),
    {
        let ghost o = *old(self);
        let li: usize = match self.loc_index(hwnd) {
            Some(x) => x,
            None => {
                return Vec::new();
            },
        };
        proof {
            o.lemma_loc_unique(li as int);
        }
        let e = self.locations[li];
        if e.suspended {
            let hint: usize = match self.ws_index(e.desktop, new_monitor) {
                Some(c) => self.workspaces[c].workspace.managed_window_handles.len(),
                None => 0,
            };
            proof {
                if o.has_cell(e.desktop, new_monitor as int) {
                    o.lemma_cell_unique(o.cell_of(e.desktop, new_monitor as int));
                }
            }
            self.set_suspended_entry(li, e.desktop, new_monitor, hint);
            proof {
                assert(self.locs()[li as int].hwnd == hwnd);
                self.lemma_loc_unique(li as int);
            }
            return Vec::new();
        }
        let changed = e.monitor != new_monitor;
        let dest_c: usize;
        if changed {
            match self.ws_index(e.desktop, new_monitor) {
                Some(c) => {
                    dest_c = c;
                },
                None => {
                    // The destination workspace does not exist yet:
                    // move the window into a fresh one of its own.
                    self.detach_handle(li);
                    let ghost s1 = *self;
                    proof {
                        assert(self.locs()[li as int].hwnd == hwnd);
                        assert(self.locs()[li as int].suspended);
                        Self::lemma_same_cells(o, s1, e.desktop, new_monitor as int);
                    }
                    self.remove_suspended_location(li);
                    let ghost s2 = *self;
                    proof {
                        Self::lemma_cell_frame_carry(o, s1, s2);
                        Self::lemma_same_cells(s1, s2, e.desktop, new_monitor as int);
                        assert(!self.has_loc(hwnd)) by {
                            if self.has_loc(hwnd) {
                                let k = choose|k: int|
                                    0 <= k < self.locs().len() && self.locs()[k].hwnd == hwnd;
                                let sk = if k < li as int {
                                    k
                                } else {
                                    k + 1
                                };
                                assert(s1.locs()[sk].hwnd == hwnd);
                                s1.lemma_loc_unique(sk);
                            }
                        }
                    }
                    self.create_cell(e.desktop, new_monitor, hwnd);
                    proof {
                        let f = *self;
                        assert(f.locs().last().hwnd == hwnd);
                        f.lemma_loc_unique(f.locs().len() - 1);
                        let nc = f.ws_count() - 1;
                        assert(f.ws_desktop(nc) == e.desktop && f.ws_monitor(nc)
                            == new_monitor as int);
                        f.lemma_cell_unique(nc);
                        assert(f.cell_of(e.desktop, new_monitor as int) == nc);
                        assert(f.ws_handles(nc) =~= seq![hwnd]);
                        assert(f.ws_layout(nc) == o.settings_view().default_layout_idx as int);
                        assert(f.ws_variant(nc) == o.groups_at(new_monitor as int)[o.settings_view().default_layout_idx as int].default_view())
                            by {
                            assert(s2.layouts@ == o.layouts@);
                            assert(s2.groups_at(new_monitor as int) == o.groups_at(
                                new_monitor as int,
                            ));
                        }
                        let c1 = o.cell_of(e.desktop, e.monitor as int);
                        assert(s1.ws_handles(c1) == o.ws_handles(c1).remove(e.idx as int));
                        assert(s2.ws_handles(c1) == s1.ws_handles(c1));
                        assert(f.ws_desktop(c1) == s2.ws_desktop(c1));
                        assert(f.ws_handles(c1) == s2.ws_handles(c1));
                    }
                    let mut r: Vec<(u128, usize)> = Vec::new();
                    r.push((e.desktop, e.monitor));
                    r.push((e.desktop, new_monitor));
                    return r;
                },
            }
        } else {
            match self.ws_index(e.desktop, e.monitor) {
                Some(c) => {
                    dest_c = c;
                },
                None => {
                    proof {
                        assert(false);
                    }
                    return Vec::new();
                },
            }
        }
        proof {
            o.lemma_cell_unique(dest_c as int);
        }
        let dest_len = self.workspaces[dest_c].workspace.managed_window_handles.len();
        if dest_len >= crate::geometry::COORD_LIMIT as usize {
            return Vec::new();
        }
        let target_count = if changed {
            dest_len + 1
        } else {
            dest_len
        };
        if target_count > crate::geometry::COORD_LIMIT as usize || target_count == 0 {
            return Vec::new();
        }
        let dm = self.workspaces[dest_c].monitor;
        let dg = self.workspaces[dest_c].workspace.layout_idx;
        let dv = self.workspaces[dest_c].workspace.variant_idx;
        proof {
            assert(o.ws_monitor(dest_c as int) == dm as int && o.ws_layout(dest_c as int)
                == dg as int && o.ws_variant(dest_c as int) == dv as int);
            assert(o.groups_at(dm as int)[dg as int].wf());
            assert(o.groups_at(dm as int)[dg as int].prepared(
                o.settings_view().window_padding as int,
                o.settings_view().edge_padding as int,
            ));
            assert(o.active_layout(dest_c as int) == o.groups_at(dm as int)[dg as int].variants()[dv as int]);
        }
        let ready_now = self.layouts[dm][dg].get_layouts()[dv].positions_len() >= target_count;
        if !ready_now {
            self.ensure_positions(dest_c, target_count);
        }
        let ghost s1 = *self;
        proof {
            if ready_now {
                assert(s1 == o);
            }
            s1.lemma_cell_unique(dest_c as int);
            let al = s1.active_layout(dest_c as int);
            assert(al.positions_view().len() >= target_count);
            assert(al.positions_ok(
                s1.settings_view().window_padding as int,
                s1.settings_view().edge_padding as int,
            ));
            assert(al.positions_view().len() == al.tilings().len());
            assert(al.positions_view()[target_count - 1].len() == al.tilings()[target_count
                - 1].len());
            assert(al.tilings()[target_count - 1].len() == target_count);
            assert(s1.locs() == o.locs());
            assert(s1.ws_monitor(dest_c as int) == dm as int && s1.ws_layout(dest_c as int)
                == dg as int && s1.ws_variant(dest_c as int) == dv as int);
        }
        if !changed {
            // A drag that left the window exactly in its tiled
            // placement is pure noise.
            let p = *&self.layouts[dm][dg].get_layouts()[dv].get_positions_at(
                target_count - 1,
            )[e.idx];
            proof {
                assert(p == s1.active_layout(dest_c as int).positions_view()[target_count
                    - 1][e.idx as int]);
                if ready_now {
                } else {
                    if (o.active_layout(dest_c as int).positions_view().len() as int)
                        >= target_count as int {
                        assert(false);
                    }
                }
            }
            if moved_to.left == p.x && moved_to.top == p.y && moved_to.right - moved_to.left == p.cx
                && moved_to.bottom - moved_to.top == p.cy {
                let mut r: Vec<(u128, usize)> = Vec::new();
                return r;
            }
        }
        let row = self.layouts[dm][dg].get_layouts()[dv].get_positions_at(target_count - 1);
        let ghost rowg = row@;
        proof {
            assert(rowg == s1.active_layout(dest_c as int).positions_view()[target_count - 1]);
            if !changed {
                // the drag was no echo of the cached placement
                if ready_now {
                    assert(!rect_matches_position(moved_to, rowg[e.idx as int]));
                }
            }
        }
        let best = best_overlap_slot(row, moved_to);
        let mut r: Vec<(u128, usize)> = Vec::new();
        r.push((e.desktop, e.monitor));
        if changed {
            let target: usize = if best < target_count {
                best
            } else {
                dest_len
            };
            proof {
                assert(s1.has_cell(e.desktop, e.monitor as int)) by {
                    assert(s1.locs()[li as int] == o.locs()[li as int]);
                    s1.lemma_loc_unique(li as int);
                }
                assert(s1.cell_of(e.desktop, e.monitor as int) == o.cell_of(
                    e.desktop,
                    e.monitor as int,
                )) by {
                    Self::lemma_same_cells(o, s1, e.desktop, e.monitor as int);
                }
                assert(s1.ws_handles(o.cell_of(e.desktop, e.monitor as int)) == o.ws_handles(
                    o.cell_of(e.desktop, e.monitor as int),
                ));
            }
            self.move_windows_across_monitors(e.desktop, e.monitor, new_monitor, e.idx, target);
            proof {
                let f = *self;
                assert(f.loc_of(hwnd).monitor == new_monitor);
                assert(f.loc_of(hwnd).desktop == e.desktop) by {
                    let fk = f.loc_idx(hwnd);
                    f.lemma_loc_unique(fk);
                }
                Self::lemma_cell_frame_trans(o, s1, f);
                assert(f.layouts@ == s1.layouts@);
                assert(f.active_layout(dest_c as int) == s1.active_layout(dest_c as int));
                assert(f.ws_handles(dest_c as int) == seq_swap(
                    s1.ws_handles(dest_c as int).push(hwnd),
                    target as int,
                    dest_len as int,
                ));
                assert(s1.ws_handles(dest_c as int) == o.ws_handles(dest_c as int));
                assert(f.ws_handles(o.cell_of(e.desktop, e.monitor as int)) == o.ws_handles(
                    o.cell_of(e.desktop, e.monitor as int),
                ).remove(e.idx as int));
            }
            r.push((e.desktop, new_monitor));
        } else {
            let target: usize = if best < target_count {
                best
            } else {
                e.idx
            };
            if e.idx != target {
                proof {
                    assert(s1.ws_handles(dest_c as int) == o.ws_handles(dest_c as int));
                }
                self.swap_windows(e.desktop, e.monitor, e.idx, target);
            }
            proof {
                let f = *self;
                assert(f.has_loc(hwnd) && !f.loc_of(hwnd).suspended && f.loc_of(hwnd).monitor
                    == e.monitor && f.loc_of(hwnd).desktop == e.desktop) by {
                    if e.idx != target {
                        let fk = f.loc_idx(hwnd);
                        assert(f.has_loc(hwnd)) by {
                            assert(f.locs()[li as int].hwnd == hwnd);
                        }
                        f.lemma_loc_unique(li as int);
                    } else {
                        assert(f.locs()[li as int] == o.locs()[li as int]);
                        f.lemma_loc_unique(li as int);
                    }
                }
                if e.idx != target {
                    Self::lemma_cell_frame_trans(o, s1, f);
                } else {
                    assert(f == s1);
                }
                assert(f.layouts@ == s1.layouts@);
                assert(f.active_layout(dest_c as int) == s1.active_layout(dest_c as int));
                assert(s1.ws_handles(dest_c as int) == o.ws_handles(dest_c as int));
                if e.idx == target {
                    assert(f.ws_handles(dest_c as int) =~= seq_swap(
                        o.ws_handles(dest_c as int),
                        e.idx as int,
                        target as int,
                    ));
                } else {
                    assert(f.ws_handles(dest_c as int) == seq_swap(
                        s1.ws_handles(dest_c as int),
                        e.idx as int,
                        target as int,
                    ));
                }
            }
        }
        r
    }

    /// The handle the previous-monitor command would focus: the first
    /// window of the foreground's workspace key on the previous
    /// monitor, wrapping. Nothing with a single monitor, an unknown or
    /// suspended foreground, or an absent or empty target workspace.
    pub fn focus_previous_monitor(&self) -> (r: Option<u64>)
        requires
            self.wf(),
        ensures
            r matches Some(h) ==> ({
                let e = self.loc_of(self.foreground()->Some_0);
                let target = if e.monitor == 0 {
                    self.monitors_view().len() - 1
                } else {
                    e.monitor - 1
                };
                &&& self.monitors_view().len() > 1
                &&& self.has_cell(e.desktop, target as int)
                &&& self.ws_handles(self.cell_of(e.desktop, target as int)).len() > 0
                &&& h == self.ws_handles(self.cell_of(e.desktop, target as int))[0]
            }),
            // the drop conditions, exactly
            r is None ==> (self.monitors_view().len() <= 1 || self.foreground() is None
                || !self.has_loc(self.foreground()->Some_0) || self.loc_of(
                self.foreground()->Some_0,
            ).suspended || ({
                let e = self.loc_of(self.foreground()->Some_0);
                let target = if e.monitor == 0 {
                    self.monitors_view().len() - 1
                } else {
                    e.monitor - 1
                };
                !self.has_cell(e.desktop, target as int) || self.ws_handles(
                    self.cell_of(e.desktop, target as int),
                ).len() == 0
            })),
    {
        if self.monitors.len() <= 1 {
            return None;
        }
        let fg: u64 = match self.foreground_hwnd {
            Some(h) => h,
            None => {
                return None;
            },
        };
        let li: usize = match self.loc_index(fg) {
            Some(x) => x,
            None => {
                return None;
            },
        };
        proof {
            self.lemma_loc_unique(li as int);
        }
        let e = self.locations[li];
        if e.suspended {
            return None;
        }
        let target: usize = if e.monitor == 0 {
            self.monitors.len() - 1
        } else {
            e.monitor - 1
        };
        let c: usize = match self.ws_index(e.desktop, target) {
            Some(c) => c,
            None => {
                return None;
            },
        };
        proof {
            self.lemma_cell_unique(c as int);
        }
        if self.workspaces[c].workspace.managed_window_handles.len() == 0 {
            return None;
        }
        Some(self.workspaces[c].workspace.managed_window_handles[0])
    }

    /// The handle the next-monitor command would focus, as for the
    /// previous-monitor command but wrapping forward.
    pub fn focus_next_monitor(&self) -> (r: Option<u64>)
        requires
            self.wf(),
        ensures
            r matches Some(h) ==> ({
                let e = self.loc_of(self.foreground()->Some_0);
                let target = if e.monitor as int == self.monitors_view().len() - 1 {
                    0int
                } else {
                    e.monitor + 1
                };
                &&& self.monitors_view().len() > 1
                &&& self.has_cell(e.desktop, target)
                &&& self.ws_handles(self.cell_of(e.desktop, target)).len() > 0
                &&& h == self.ws_handles(self.cell_of(e.desktop, target))[0]
            }),
            // the drop conditions, exactly
            r is None ==> (self.monitors_view().len() <= 1 || self.foreground() is None
                || !self.has_loc(self.foreground()->Some_0) || self.loc_of(
                self.foreground()->Some_0,
            ).suspended || ({
                let e = self.loc_of(self.foreground()->Some_0);
                let target = if e.monitor as int == self.monitors_view().len() - 1 {
                    0int
                } else {
                    e.monitor + 1
                };
                !self.has_cell(e.desktop, target) || self.ws_handles(
                    self.cell_of(e.desktop, target),
                ).len() == 0
            })),
    {
        if self.monitors.len() <= 1 {
            return None;
        }
        let fg: u64 = match self.foreground_hwnd {
            Some(h) => h,
            None => {
                return None;
            },
        };
        let li: usize = match self.loc_index(fg) {
            Some(x) => x,
            None => {
                return None;
            },
        };
        proof {
            self.lemma_loc_unique(li as int);
        }
        let e = self.locations[li];
        if e.suspended {
            return None;
        }
        let target: usize = if e.monitor == self.monitors.len() - 1 {
            0
        } else {
            e.monitor + 1
        };
        let c: usize = match self.ws_index(e.desktop, target) {
            Some(c) => c,
            None => {
                return None;
            },
        };
        proof {
            self.lemma_cell_unique(c as int);
        }
        if self.workspaces[c].workspace.managed_window_handles.len() == 0 {
            return None;
        }
        Some(self.workspaces[c].workspace.managed_window_handles[0])
    }

    /// Walk the monitors in the given direction from `start`, skipping
    /// workspaces of desktop `d` the user toggled off; the walk gives
    /// up after visiting every other monitor.
    fn scan_monitor(&self, desktop: u128, start: usize, forward: bool) -> (r: Option<
        (usize, usize),
    >)
        requires
            self.wf(),
            (start as int) < self.monitors_view().len(),
            self.monitors_view().len() > 1,
        ensures
            r matches Some(m) ==> (m.0 as int) < self.monitors_view().len() && !self.key_ignored(
                desktop,
                m.0,
            ) && m.0 != start && 1 <= m.1 as int <= self.monitors_view().len() - 1 && monitor_step(
                start as int,
                m.1 as int,
                self.monitors_view().len() as int,
                forward,
            ) == m.0 as int && (forall|k2: int|
                1 <= k2 < m.1 as int ==> self.key_ignored(
                    desktop,
                    monitor_step(
                        start as int,
                        k2,
                        self.monitors_view().len() as int,
                        forward,
                    ) as usize,
                )),
            r is None ==> forall|k: int|
                1 <= k <= self.monitors_view().len() - 1 ==> self.key_ignored(
                    desktop,
                    monitor_step(
                        start as int,
                        k,
                        self.monitors_view().len() as int,
                        forward,
                    ) as usize,
                ),
    {
        let count = self.monitors.len();
        let mut hm = start;
        let mut i: usize = 0;
        while i < count
            invariant
                self.wf(),
                (start as int) < self.monitors_view().len(),
                (hm as int) < self.monitors_view().len(),
                count == self.monitors_view().len(),
                count > 1,
                i <= count - 1,
                hm as int == monitor_step(start as int, i as int, count as int, forward),
                forall|k: int|
                    1 <= k <= i ==> self.key_ignored(
                        desktop,
                        monitor_step(start as int, k, count as int, forward) as usize,
                    ),
            decreases count - i,
        {
            if i == count - 1 {
                return None;
            }
            proof {
                lemma_monitor_step_bounds(start as int, i as int + 1, count as int, forward);
                lemma_monitor_step_bounds(start as int, i as int, count as int, forward);
            }
            if forward {
                hm = if hm == count - 1 {
                    0
                } else {
                    hm + 1
                };
            } else {
                hm = if hm == 0 {
                    count - 1
                } else {
                    hm - 1
                };
            }
            if !self.is_key_ignored(desktop, hm) {
                return Some((hm, i + 1));
            }
            i = i + 1;
        }
        proof {
            assert(false);
        }
        None
    }

    /// Move the foreground window to the end of the workspace on the
    /// previous non-ignored monitor, creating that workspace when
    /// absent. Returns the two workspaces to retile, the moved handle,
    /// and the slot whose placement compensates a DPI change.
    pub fn swap_previous_monitor(&mut self) -> (r: Option<((u128, usize), (u128, usize), u64, usize)>)
        requires
            old(self).wf(),
        ensures
            final(self).wf(),
            r is None ==> *final(self) == *old(self),
            r matches Some(a) ==> ({
                &&& old(self).foreground() == Some(a.2)
                &&& a.0.0 == a.1.0
                &&& (a.1.1 as int) < final(self).monitors_view().len()
                &&& final(self).has_loc(a.2)
                &&& !final(self).loc_of(a.2).suspended
                &&& final(self).loc_of(a.2).desktop == a.1.0
                &&& final(self).loc_of(a.2).monitor == a.1.1
                &&& final(self).has_cell(a.1.0, a.1.1 as int)
                &&& (a.3 as int) < final(self).ws_handles(
                    final(self).cell_of(a.1.0, a.1.1 as int),
                ).len()
                &&& a.0 == (old(self).loc_of(a.2).desktop, old(self).loc_of(a.2).monitor)
                &&& a.0.1 != a.1.1
                &&& old(self).has_loc(a.2)
                &&& !old(self).loc_of(a.2).suspended
                // the window leaves its old slot ...
                &&& final(self).ws_handles(old(self).cell_of(a.0.0, a.0.1 as int)) == old(self).ws_handles(old(self).cell_of(a.0.0, a.0.1 as int)).remove(
                    old(self).loc_of(a.2).idx as int,
                )
                // ... and joins the end of the target workspace, which
                // is created with the defaults when absent
                &&& (old(self).has_cell(a.1.0, a.1.1 as int) ==> final(self).ws_handles(
                    old(self).cell_of(a.1.0, a.1.1 as int),
                ) == old(self).ws_handles(old(self).cell_of(a.1.0, a.1.1 as int)).push(a.2))
                &&& (!old(self).has_cell(a.1.0, a.1.1 as int) ==> final(self).ws_handles(
                    final(self).cell_of(a.1.0, a.1.1 as int),
                ) =~= seq![a.2] && final(self).ws_layout(final(self).cell_of(a.1.0, a.1.1 as int))
                    == old(self).settings_view().default_layout_idx as int && final(self).ws_variant(final(self).cell_of(a.1.0, a.1.1 as int)) == old(self).groups_at(
                    a.1.1 as int,
                )[old(self).settings_view().default_layout_idx as int].default_view())
                // the landing monitor is the first non-ignored one in
                // walking order
                &&& !old(self).key_ignored(a.1.0, a.1.1)
                &&& (exists|k: int|
                    first_non_ignored_step(
                        *old(self),
                        a.0.0,
                        a.0.1 as int,
                        k,
                        false,
                        a.1.1 as int,
                    ))
            }),
            // success is owed when another monitor of this desktop is
            // not toggled off
            (old(self).monitors_view().len() > 1 && old(self).foreground() is Some && old(self).has_loc(old(self).foreground()->Some_0) && !old(self).loc_of(
                old(self).foreground()->Some_0,
            ).suspended && !old(self).key_ignored(
                old(self).loc_of(old(self).foreground()->Some_0).desktop,
                old(self).loc_of(old(self).foreground()->Some_0).monitor,
            ) && (exists|k: int|
                1 <= k <= old(self).monitors_view().len() - 1 && !old(self).key_ignored(
                    old(self).loc_of(old(self).foreground()->Some_0).desktop,
                    monitor_step(
                        old(self).loc_of(old(self).foreground()->Some_0).monitor as int,
                        k,
                        old(self).monitors_view().len() as int,
                        false,
                    ) as usize,
                ))) ==> r is Some,
    {
        self.swap_monitor_impl(false)
    }

    /// Move the foreground window to the end of the workspace on the
    /// next non-ignored monitor, as for the previous-monitor swap but
    /// walking forward.
    pub fn swap_next_monitor(&mut self) -> (r: Option<((u128, usize), (u128, usize), u64, usize)>)
        requires
            old(self).wf(),
        ensures
            final(self).wf(),
            r is None ==> *final(self) == *old(self),
            r matches Some(a) ==> ({
                &&& old(self).foreground() == Some(a.2)
                &&& a.0.0 == a.1.0
                &&& (a.1.1 as int) < final(self).monitors_view().len()
                &&& final(self).has_loc(a.2)
                &&& !final(self).loc_of(a.2).suspended
                &&& final(self).loc_of(a.2).desktop == a.1.0
                &&& final(self).loc_of(a.2).monitor == a.1.1
                &&& final(self).has_cell(a.1.0, a.1.1 as int)
                &&& (a.3 as int) < final(self).ws_handles(
                    final(self).cell_of(a.1.0, a.1.1 as int),
                ).len()
                &&& a.0 == (old(self).loc_of(a.2).desktop, old(self).loc_of(a.2).monitor)
                &&& a.0.1 != a.1.1
                &&& old(self).has_loc(a.2)
                &&& !old(self).loc_of(a.2).suspended
                // the window leaves its old slot ...
                &&& final(self).ws_handles(old(self).cell_of(a.0.0, a.0.1 as int)) == old(self).ws_handles(old(self).cell_of(a.0.0, a.0.1 as int)).remove(
                    old(self).loc_of(a.2).idx as int,
                )
                // ... and joins the end of the target workspace, which
                // is created with the defaults when absent
                &&& (old(self).has_cell(a.1.0, a.1.1 as int) ==> final(self).ws_handles(
                    old(self).cell_of(a.1.0, a.1.1 as int),
                ) == old(self).ws_handles(old(self).cell_of(a.1.0, a.1.1 as int)).push(a.2))
                &&& (!old(self).has_cell(a.1.0, a.1.1 as int) ==> final(self).ws_handles(
                    final(self).cell_of(a.1.0, a.1.1 as int),
                ) =~= seq![a.2] && final(self).ws_layout(final(self).cell_of(a.1.0, a.1.1 as int))
                    == old(self).settings_view().default_layout_idx as int && final(self).ws_variant(final(self).cell_of(a.1.0, a.1.1 as int)) == old(self).groups_at(
                    a.1.1 as int,
                )[old(self).settings_view().default_layout_idx as int].default_view())
                // the landing monitor is the first non-ignored one in
                // walking order
                &&& !old(self).key_ignored(a.1.0, a.1.1)
                &&& (exists|k: int|
                    first_non_ignored_step(
                        *old(self),
                        a.0.0,
                        a.0.1 as int,
                        k,
                        true,
                        a.1.1 as int,
                    ))
            }),
            // success is owed when another monitor of this desktop is
            // not toggled off
            (old(self).monitors_view().len() > 1 && old(self).foreground() is Some && old(self).has_loc(old(self).foreground()->Some_0) && !old(self).loc_of(
                old(self).foreground()->Some_0,
            ).suspended && !old(self).key_ignored(
                old(self).loc_of(old(self).foreground()->Some_0).desktop,
                old(self).loc_of(old(self).foreground()->Some_0).monitor,
            ) && (exists|k: int|
                1 <= k <= old(self).monitors_view().len() - 1 && !old(self).key_ignored(
                    old(self).loc_of(old(self).foreground()->Some_0).desktop,
                    monitor_step(
                        old(self).loc_of(old(self).foreground()->Some_0).monitor as int,
                        k,
                        old(self).monitors_view().len() as int,
                        true,
                    ) as usize,
                ))) ==> r is Some,
    {
        self.swap_monitor_impl(true)
    }

    /// The shared walk-and-move of the two monitor swap commands.
    #[verifier::rlimit(100)]
    #[verifier::spinoff_prover]
    fn swap_monitor_impl(&mut self, forward: bool) -> (r: Option<
        ((u128, usize), (u128, usize), u64, usize),
    >)
        requires
            old(self).wf(),
        ensures
            final(self).wf(),
            r is None ==> *final(self) == *old(self),
            r matches Some(a) ==> ({
                &&& old(self).foreground() == Some(a.2)
                &&& a.0.0 == a.1.0
                &&& (a.1.1 as int) < final(self).monitors_view().len()
                &&& final(self).has_loc(a.2)
                &&& !final(self).loc_of(a.2).suspended
                &&& final(self).loc_of(a.2).desktop == a.1.0
                &&& final(self).loc_of(a.2).monitor == a.1.1
                &&& final(self).has_cell(a.1.0, a.1.1 as int)
                &&& (a.3 as int) < final(self).ws_handles(
                    final(self).cell_of(a.1.0, a.1.1 as int),
                ).len()
                &&& a.0 == (old(self).loc_of(a.2).desktop, old(self).loc_of(a.2).monitor)
                &&& a.0.1 != a.1.1
                &&& old(self).has_loc(a.2)
                &&& !old(self).loc_of(a.2).suspended
                // the window leaves its old slot ...
                &&& final(self).ws_handles(old(self).cell_of(a.0.0, a.0.1 as int)) == old(self).ws_handles(old(self).cell_of(a.0.0, a.0.1 as int)).remove(
                    old(self).loc_of(a.2).idx as int,
                )
                // ... and joins the end of the target workspace, which
                // is created with the defaults when absent
                &&& (old(self).has_cell(a.1.0, a.1.1 as int) ==> final(self).ws_handles(
                    old(self).cell_of(a.1.0, a.1.1 as int),
                ) == old(self).ws_handles(old(self).cell_of(a.1.0, a.1.1 as int)).push(a.2))
                &&& (!old(self).has_cell(a.1.0, a.1.1 as int) ==> final(self).ws_handles(
                    final(self).cell_of(a.1.0, a.1.1 as int),
                ) =~= seq![a.2] && final(self).ws_layout(final(self).cell_of(a.1.0, a.1.1 as int))
                    == old(self).settings_view().default_layout_idx as int && final(self).ws_variant(final(self).cell_of(a.1.0, a.1.1 as int)) == old(self).groups_at(
                    a.1.1 as int,
                )[old(self).settings_view().default_layout_idx as int].default_view())
                // the landing monitor is the first non-ignored one in
                // walking order
                &&& !old(self).key_ignored(a.1.0, a.1.1)
                &&& (exists|k: int|
                    first_non_ignored_step(
                        *old(self),
                        a.0.0,
                        a.0.1 as int,
                        k,
                        forward,
                        a.1.1 as int,
                    ))
            }),
            (old(self).monitors_view().len() > 1 && old(self).foreground() is Some && old(self).has_loc(old(self).foreground()->Some_0) && !old(self).loc_of(
                old(self).foreground()->Some_0,
            ).suspended && !old(self).key_ignored(
                old(self).loc_of(old(self).foreground()->Some_0).desktop,
                old(self).loc_of(old(self).foreground()->Some_0).monitor,
            ) && (exists|k: int|
                1 <= k <= old(self).monitors_view().len() - 1 && !old(self).key_ignored(
                    old(self).loc_of(old(self).foreground()->Some_0).desktop,
                    monitor_step(
                        old(self).loc_of(old(self).foreground()->Some_0).monitor as int,
                        k,
                        old(self).monitors_view().len() as int,
                        forward,
                    ) as usize,
                ))) ==> r is Some,
    {
        let ghost o = *old(self);
        if self.monitors.len() <= 1 {
            return None;
        }
        let fg: u64 = match self.foreground_hwnd {
            Some(h) => h,
            None => {
                return None;
            },
        };
        let li: usize = match self.loc_index(fg) {
            Some(x) => x,
            None => {
                return None;
            },
        };
        proof {
            o.lemma_loc_unique(li as int);
        }
        let e = self.locations[li];
        if e.suspended {
            return None;
        }
        if self.is_key_ignored(e.desktop, e.monitor) {
            return None;
        }
        let (target, steps): (usize, usize) = match self.scan_monitor(e.desktop, e.monitor, forward)
        {
            Some(m) => m,
            None => {
                return None;
            },
        };
        proof {
            assert(target != e.monitor);
            assert(!o.key_ignored(e.desktop, target));
            let cnt = o.monitors_view().len() as int;
            assert(monitor_step(e.monitor as int, steps as int, cnt, forward) == target as int);
            assert forall|k2: int| 1 <= k2 < steps as int implies o.key_ignored(
                e.desktop,
                monitor_step(e.monitor as int, k2, cnt, forward) as usize,
            ) by {
                assert(self.key_ignored(
                    e.desktop,
                    monitor_step(
                        e.monitor as int,
                        k2,
                        self.monitors_view().len() as int,
                        forward,
                    ) as usize,
                ));
            }
            assert(first_non_ignored_step(
                o,
                e.desktop,
                e.monitor as int,
                steps as int,
                forward,
                target as int,
            ));
        }
        match self.ws_index(e.desktop, target) {
            Some(c) => {
                proof {
                    o.lemma_cell_unique(c as int);
                    assert(o.has_cell(e.desktop, e.monitor as int));
                    o.lemma_cell_unique(o.cell_of(e.desktop, e.monitor as int));
                }
                let dest_len = self.workspaces[c].workspace.managed_window_handles.len();
                self.move_windows_across_monitors(e.desktop, e.monitor, target, e.idx, dest_len);
                proof {
                    let f = *self;
                    let fk = f.loc_idx(fg);
                    f.lemma_loc_unique(fk);
                    f.lemma_cell_unique(f.cell_of(e.desktop, target as int));
                    assert(f.ws_handles(c as int) == seq_swap(
                        o.ws_handles(c as int).push(fg),
                        dest_len as int,
                        dest_len as int,
                    ));
                    assert(f.ws_handles(c as int) =~= o.ws_handles(c as int).push(fg));
                }
                let slot = self.loc_entry_idx(fg);
                Some(((e.desktop, e.monitor), (e.desktop, target), fg, slot))
            },
            None => {
                self.detach_handle(li);
                let ghost s1 = *self;
                proof {
                    assert(self.locs()[li as int].hwnd == fg);
                    assert(self.locs()[li as int].suspended);
                    Self::lemma_same_cells(o, s1, e.desktop, target as int);
                }
                self.remove_suspended_location(li);
                let ghost s2 = *self;
                proof {
                    Self::lemma_cell_frame_carry(o, s1, s2);
                    Self::lemma_same_cells(s1, s2, e.desktop, target as int);
                    assert(!self.has_loc(fg)) by {
                        if self.has_loc(fg) {
                            let k = choose|k: int|
                                0 <= k < self.locs().len() && self.locs()[k].hwnd == fg;
                            let sk = if k < li as int {
                                k
                            } else {
                                k + 1
                            };
                            assert(s1.locs()[sk].hwnd == fg);
                            s1.lemma_loc_unique(sk);
                        }
                    }
                }
                self.create_cell(e.desktop, target, fg);
                proof {
                    let f = *self;
                    assert(f.ws_desktop(f.ws_count() - 1) == e.desktop);
                    f.lemma_cell_unique(f.ws_count() - 1);
                    assert(f.locs().last().hwnd == fg);
                    f.lemma_loc_unique(f.locs().len() - 1);
                    let nc = f.ws_count() - 1;
                    assert(f.cell_of(e.desktop, target as int) == nc);
                    assert(f.ws_handles(nc) =~= seq![fg]);
                    assert(f.ws_layout(nc) == o.settings_view().default_layout_idx as int);
                    assert(f.ws_variant(nc) == o.groups_at(target as int)[o.settings_view().default_layout_idx as int].default_view())
                        by {
                        assert(s2.layouts@ == o.layouts@);
                        assert(s2.groups_at(target as int) == o.groups_at(target as int));
                    }
                    let c1 = o.cell_of(e.desktop, e.monitor as int);
                    assert(s1.ws_handles(c1) == o.ws_handles(c1).remove(e.idx as int));
                    assert(s2.ws_handles(c1) == s1.ws_handles(c1));
                    assert(f.ws_desktop(c1) == s2.ws_desktop(c1));
                    assert(f.ws_handles(c1) == s2.ws_handles(c1));
                }
                Some(((e.desktop, e.monitor), (e.desktop, target), fg, 0))
            },
        }
    }

    /// The tiled slot a handle currently occupies.
    fn loc_entry_idx(&self, hwnd: u64) -> (r: usize)
        requires
            self.wf(),
            self.has_loc(hwnd),
            !self.loc_of(hwnd).suspended,
        ensures
            r == self.loc_of(hwnd).idx,
            (r as int) < self.ws_handles(
                self.cell_of(self.loc_of(hwnd).desktop, self.loc_of(hwnd).monitor as int),
            ).len(),
    {
        let li: usize = match self.loc_index(hwnd) {
            Some(x) => x,
            None => {
                proof {
                    assert(false);
                }
                0
            },
        };
        proof {
            self.lemma_loc_unique(li as int);
        }
        self.locations[li].idx
    }

    /// Drop the grabbed window where the foreground now is: on the
    /// same monitor the two swap places; across monitors the grabbed
    /// window moves into the foreground's slot. A no-op without a
    /// grab, when the foreground is the grabbed window itself, on a
    /// suspended or unknown participant, across desktops, or on a
    /// toggled-off target. On success the grab is cleared and the
    /// grabbed handle is returned for focusing, with the workspaces to
    /// retile and the slot for DPI compensation.
    pub fn release_window(&mut self) -> (r: Option<
        ((u128, usize), Option<(u128, usize)>, u64, usize),
    >)
        requires
            old(self).wf(),
        ensures
            final(self).wf(),
            r is None ==> *final(self) == *old(self),
            old(self).grabbed() is None ==> r is None,
            old(self).grabbed() == old(self).foreground() ==> r is None && *final(self) == *old(self),
            r matches Some(a) ==> ({
                let eg = old(self).loc_of(a.2);
                let ef = old(self).loc_of(old(self).foreground()->Some_0);
                &&& old(self).grabbed() == Some(a.2)
                &&& old(self).foreground() is Some
                &&& final(self).grabbed() is None
                &&& final(self).has_loc(a.2)
                &&& !final(self).loc_of(a.2).suspended
                &&& a.0 == (eg.desktop, eg.monitor)
                // no workspace appears or disappears, and every key
                // and selection is kept
                &&& final(self).ws_count() == old(self).ws_count()
                &&& final(self).same_cell_frame(*old(self))
                // same monitor: the grabbed and foreground windows
                // exchange their slots
                &&& (a.1 is None ==> eg.monitor == ef.monitor && final(self).ws_handles(
                    old(self).cell_of(eg.desktop, eg.monitor as int),
                ) == seq_swap(
                    old(self).ws_handles(old(self).cell_of(eg.desktop, eg.monitor as int)),
                    eg.idx as int,
                    ef.idx as int,
                ))
                // across monitors: the grabbed window leaves its slot
                // and is swapped into the foreground's slot at the end
                // of the target workspace
                &&& (a.1 matches Some(nk) ==> nk == (eg.desktop, ef.monitor) && eg.monitor
                    != ef.monitor && final(self).loc_of(a.2).monitor == nk.1 && final(self).has_cell(nk.0, nk.1 as int) && (a.3 as int) < final(self).ws_handles(
                    final(self).cell_of(nk.0, nk.1 as int),
                ).len() && final(self).ws_handles(
                    old(self).cell_of(eg.desktop, eg.monitor as int),
                ) == old(self).ws_handles(
                    old(self).cell_of(eg.desktop, eg.monitor as int),
                ).remove(eg.idx as int) && final(self).ws_handles(
                    old(self).cell_of(nk.0, nk.1 as int),
                ) == seq_swap(
                    old(self).ws_handles(old(self).cell_of(nk.0, nk.1 as int)).push(a.2),
                    ef.idx as int,
                    old(self).ws_handles(old(self).cell_of(nk.0, nk.1 as int)).len() as int,
                ))
            }),
            // success is owed: a grab and a different tiled foreground
            // on the same desktop, the target not toggled off
            (old(self).grabbed() is Some && old(self).foreground() is Some && old(self).foreground() != old(self).grabbed() && old(self).has_loc(
                old(self).foreground()->Some_0,
            ) && !old(self).loc_of(old(self).foreground()->Some_0).suspended && old(self).has_loc(
                old(self).grabbed()->Some_0,
            ) && !old(self).loc_of(old(self).grabbed()->Some_0).suspended && old(self).loc_of(
                old(self).grabbed()->Some_0,
            ).desktop == old(self).loc_of(old(self).foreground()->Some_0).desktop && !old(self).key_ignored(
                old(self).loc_of(old(self).foreground()->Some_0).desktop,
                old(self).loc_of(old(self).foreground()->Some_0).monitor,
            )) ==> r is Some,
    {
        let ghost o = *old(self);
        let grabbed: u64 = match self.grabbed_window {
            Some(h) => h,
            None => {
                return None;
            },
        };
        let fg: u64 = match self.foreground_hwnd {
            Some(h) => {
                if h == grabbed {
                    return None;
                }
                h
            },
            None => {
                return None;
            },
        };
        let lf: usize = match self.loc_index(fg) {
            Some(x) => x,
            None => {
                return None;
            },
        };
        proof {
            o.lemma_loc_unique(lf as int);
        }
        let ef = self.locations[lf];
        if ef.suspended {
            return None;
        }
        if self.is_key_ignored(ef.desktop, ef.monitor) {
            return None;
        }
        let lg: usize = match self.loc_index(grabbed) {
            Some(x) => x,
            None => {
                return None;
            },
        };
        proof {
            o.lemma_loc_unique(lg as int);
        }
        let eg = self.locations[lg];
        if eg.suspended {
            return None;
        }
        if eg.desktop != ef.desktop {
            return None;
        }
        if eg.monitor == ef.monitor {
            proof {
                o.lemma_cell_unique(o.cell_of(eg.desktop, eg.monitor as int));
            }
            self.swap_windows(eg.desktop, eg.monitor, eg.idx, ef.idx);
            let ghost s1 = *self;
            self.grabbed_window = None;
            proof {
                Self::lemma_wf_frame(s1, *self);
                assert(self.locs() == s1.locs());
                assert(self.has_loc(grabbed) && !self.loc_of(grabbed).suspended) by {
                    assert(s1.locs()[lg as int].hwnd == grabbed);
                    assert(!s1.locs()[lg as int].suspended);
                    assert(self.locs()[lg as int].hwnd == grabbed);
                    self.lemma_loc_unique(lg as int);
                }
                let c = o.cell_of(eg.desktop, eg.monitor as int);
                assert(s1.ws_handles(c) == seq_swap(o.ws_handles(c), eg.idx as int, ef.idx as int));
                assert(self.ws_desktop(c) == s1.ws_desktop(c));
                assert(self.ws_handles(c) == s1.ws_handles(c));
                Self::lemma_cell_frame_carry(o, s1, *self);
            }
            Some(((eg.desktop, eg.monitor), None, grabbed, 0))
        } else {
            proof {
                assert(o.has_cell(eg.desktop, eg.monitor as int));
                assert(o.has_cell(ef.desktop, ef.monitor as int));
                o.lemma_cell_unique(o.cell_of(eg.desktop, eg.monitor as int));
                o.lemma_cell_unique(o.cell_of(ef.desktop, ef.monitor as int));
                assert(ef.idx < o.ws_handles(o.cell_of(ef.desktop, ef.monitor as int)).len());
            }
            self.move_windows_across_monitors(
                eg.desktop,
                eg.monitor,
                ef.monitor,
                eg.idx,
                ef.idx,
            );
            let ghost s1 = *self;
            self.grabbed_window = None;
            proof {
                Self::lemma_wf_frame(s1, *self);
                assert(self.locs() == s1.locs());
                assert(self.has_loc(grabbed) && !self.loc_of(grabbed).suspended && self.loc_of(
                    grabbed,
                ).monitor == ef.monitor && self.loc_of(grabbed).desktop == eg.desktop) by {
                    let k = s1.loc_idx(grabbed);
                    s1.lemma_loc_unique(k);
                    assert(self.locs()[k].hwnd == grabbed);
                    self.lemma_loc_unique(k);
                }
                Self::lemma_same_cells(s1, *self, eg.desktop, ef.monitor as int);
                self.lemma_cell_unique(self.cell_of(eg.desktop, ef.monitor as int));
                let c1 = o.cell_of(eg.desktop, eg.monitor as int);
                let c2 = o.cell_of(eg.desktop, ef.monitor as int);
                assert(s1.ws_handles(c1) == o.ws_handles(c1).remove(eg.idx as int));
                assert(s1.ws_handles(c2) == seq_swap(
                    o.ws_handles(c2).push(grabbed),
                    ef.idx as int,
                    o.ws_handles(c2).len() as int,
                ));
                assert(self.ws_desktop(c1) == s1.ws_desktop(c1));
                assert(self.ws_handles(c1) == s1.ws_handles(c1));
                assert(self.ws_desktop(c2) == s1.ws_desktop(c2));
                assert(self.ws_handles(c2) == s1.ws_handles(c2));
                Self::lemma_cell_frame_carry(o, s1, *self);
            }
            let slot = self.loc_entry_idx(grabbed);
            Some(((eg.desktop, eg.monitor), Some((eg.desktop, ef.monitor)), grabbed, slot))
        }
    }

    /// The OS refused some reposition calls of the last pass over
    /// workspace (d, m): forget each failed handle, remove it from its
    /// workspace, and blacklist the ones refused with access denied.
    /// The caller then runs another pass.
    #[verifier::rlimit(100)]
    pub fn handle_reposition_failures(&mut self, failures: &Vec<(u64, bool)>)
        requires
            old(self).wf(),
        ensures
            final(self).wf(),
            forall|k: int| 0 <= k < failures@.len() ==> !final(self).has_loc((#[trigger] failures@[k]).0),
            forall|k: int|
                0 <= k < failures@.len() && (#[trigger] failures@[k]).1 ==> final(self).hwnd_ignored(failures@[k].0),
    {
        let mut j: usize = 0;
        while j < failures.len()
            invariant
                self.wf(),
                j <= failures@.len(),
                forall|k: int| 0 <= k < j ==> !self.has_loc((#[trigger] failures@[k]).0),
                forall|k: int|
                    0 <= k < j && (#[trigger] failures@[k]).1 ==> self.hwnd_ignored(
                        failures@[k].0,
                    ),
            decreases failures@.len() - j,
        {
            let (hwnd, denied) = failures[j];
            let ghost pre = *self;
            if denied {
                self.push_ignored_hwnd(hwnd);
            }
            let ghost p2 = *self;
            proof {
                assert(p2.locs() == pre.locs());
            }
            match self.loc_index(hwnd) {
                Some(li) => {
                    proof {
                        p2.lemma_loc_unique(li as int);
                    }
                    if !self.locations[li].suspended {
                        self.detach_handle(li);
                    }
                    proof {
                        assert(self.locs()[li as int].hwnd == hwnd);
                        assert(self.locs()[li as int].suspended);
                    }
                    let ghost p3 = *self;
                    self.remove_suspended_location(li);
                    proof {
                        assert(!self.has_loc(hwnd)) by {
                            if self.has_loc(hwnd) {
                                let k = choose|k: int|
                                    0 <= k < self.locs().len() && self.locs()[k].hwnd == hwnd;
                                let sk = if k < li as int {
                                    k
                                } else {
                                    k + 1
                                };
                                assert(p3.locs()[sk].hwnd == hwnd);
                                p3.lemma_loc_unique(sk);
                            }
                        }
                        assert forall|h2: u64| #[trigger] self.has_loc(h2) implies pre.has_loc(
                            h2,
                        ) by {
                            if self.has_loc(h2) {
                                let x = choose|x: int|
                                    0 <= x < self.locs().len() && self.locs()[x].hwnd == h2;
                                let sx = if x < li as int {
                                    x
                                } else {
                                    x + 1
                                };
                                assert(self.locs()[x] == p3.locs()[sx]);
                                assert(p3.locs()[sx].hwnd == p2.locs()[sx].hwnd);
                                assert(pre.locs()[sx].hwnd == h2);
                            }
                        }
                    }
                },
                None => {
                    proof {
                        assert(self.locs() == p2.locs());
                        assert forall|h2: u64| #[trigger] self.has_loc(h2) implies pre.has_loc(
                            h2,
                        ) by {
                            if self.has_loc(h2) {
                                let x = choose|x: int|
                                    0 <= x < self.locs().len() && self.locs()[x].hwnd == h2;
                                assert(pre.locs()[x].hwnd == h2);
                            }
                        }
                    }
                },
            }
            proof {
                assert forall|k: int| 0 <= k < j + 1 implies !self.has_loc(
                    (#[trigger] failures@[k]).0,
                ) by {
                    if k < j {
                        assert(!pre.has_loc(failures@[k].0));
                    }
                }
                assert(self.ignored_handles() == p2.ignored_handles());
                assert forall|k: int| 0 <= k < j + 1 && (#[trigger] failures@[k]).1 implies self.hwnd_ignored(
                    failures@[k].0,
                ) by {
                    if k < j {
                        assert(pre.hwnd_ignored(failures@[k].0));
                        assert(p2.hwnd_ignored(failures@[k].0));
                        let x = choose|x: int|
                            0 <= x < p2.ignored_handles().len() && p2.ignored_handles()[x]
                                == failures@[k].0;
                        assert(self.ignored_handles()[x] == failures@[k].0);
                    } else {
                        if failures@[k].1 {
                            assert(p2.hwnd_ignored(failures@[k].0));
                            let x = choose|x: int|
                                0 <= x < p2.ignored_handles().len() && p2.ignored_handles()[x]
                                    == failures@[k].0;
                            assert(self.ignored_handles()[x] == failures@[k].0);
                        }
                    }
                }
            }
            j = j + 1;
        }
    }

    /// Find the location entry of a handle.
    fn loc_index(&self, hwnd: u64) -> (r: Option<usize>)
        ensures
            match r {
                Some(i) => i < self.locs().len() && self.locs()[i as int].hwnd == hwnd
                    && self.has_loc(hwnd),
                None => !self.has_loc(hwnd),
            },
    {
        let mut i: usize = 0;
        while i < self.locations.len()
            invariant
                i <= self.locs().len(),
                forall|k: int| 0 <= k < i ==> (#[trigger] self.locs()[k]).hwnd != hwnd,
            decreases self.locs().len() - i,
        {
            if self.locations[i].hwnd == hwnd {
                return Some(i);
            }
            i = i + 1;
        }
        None
    }

    /// Find the workspace keyed (d, m).
    fn ws_index(&self, desktop: u128, monitor: usize) -> (r: Option<usize>)
        ensures
            match r {
                Some(c) => c < self.ws_count() && self.ws_desktop(c as int) == desktop
                    && self.ws_monitor(c as int) == monitor as int && self.has_cell(
                    desktop,
                    monitor as int,
                ),
                None => !self.has_cell(desktop, monitor as int),
            },
    {
        let mut c: usize = 0;
        while c < self.workspaces.len()
            invariant
                c <= self.ws_count(),
                forall|k: int|
                    0 <= k < c ==> !(#[trigger] self.ws_desktop(k) == desktop && self.ws_monitor(k)
                        == monitor as int),
            decreases self.ws_count() - c,
        {
            if self.workspaces[c].desktop == desktop && self.workspaces[c].monitor == monitor {
                proof {
                    assert(self.ws_desktop(c as int) == desktop && self.ws_monitor(c as int)
                        == monitor as int);
                }
                return Some(c);
            }
            c = c + 1;
        }
        None
    }

    /// Whether the user has toggled (d, m) off.
    fn is_key_ignored(&self, desktop: u128, monitor: usize) -> (r: bool)
        ensures
            r == self.key_ignored(desktop, monitor),
    {
        let mut i: usize = 0;
        while i < self.ignored_combinations.len()
            invariant
                i <= self.ignored_keys().len(),
                forall|k: int|
                    0 <= k < i ==> #[trigger] self.ignored_keys()[k] != (desktop, monitor),
            decreases self.ignored_keys().len() - i,
        {
            if self.ignored_combinations[i].0 == desktop && self.ignored_combinations[i].1
                == monitor {
                proof {
                    assert(self.ignored_keys()[i as int] == (desktop, monitor));
                }
                return true;
            }
            i = i + 1;
        }
        false
    }

    /// Whether the OS refused this handle once.
    fn is_hwnd_ignored(&self, hwnd: u64) -> (r: bool)
        ensures
            r == self.hwnd_ignored(hwnd),
    {
        let mut i: usize = 0;
        while i < self.ignored_hwnds.len()
            invariant
                i <= self.ignored_handles().len(),
                forall|k: int| 0 <= k < i ==> #[trigger] self.ignored_handles()[k] != hwnd,
            decreases self.ignored_handles().len() - i,
        {
            if self.ignored_hwnds[i] == hwnd {
                return true;
            }
            i = i + 1;
        }
        false
    }
}

} // verus!
