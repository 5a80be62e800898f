use himewm::geometry::Zone;
use himewm::layout::LayoutGroup;
use himewm::manager::Settings;
use himewm::manager::WindowManager;
use himewm::Direction;

fn zone(left: i32, top: i32, right: i32, bottom: i32) -> Zone {
    Zone { left, top, right, bottom }
}

const D1: u128 = 11;
const D2: u128 = 22;

fn one_monitor_manager() -> WindowManager {
    let mut wm = WindowManager::new(Settings::default());
    let group = LayoutGroup::new(1920, 1080);
    wm.initialize(vec![zone(0, 0, 1920, 1080)], vec![group], Vec::new(), None);
    wm
}

#[test]
fn create_two_windows_then_destroy_first() {
    let mut wm = one_monitor_manager();
    let key = wm.window_created(1, true, Some((D1, 0))).unwrap();
    assert_eq!(key, (D1, 0));
    let plan = wm.update_workspace(D1, 0);
    assert_eq!(plan.len(), 1);
    assert_eq!(plan[0].0, 1);
    assert_eq!(plan[0].1.x, -7);
    assert_eq!(plan[0].1.y, 0);
    assert_eq!(plan[0].1.cx, 1934);
    assert_eq!(plan[0].1.cy, 1087);

    wm.window_created(2, true, Some((D1, 0))).unwrap();
    let plan = wm.update_workspace(D1, 0);
    assert_eq!(plan.len(), 2);
    assert_eq!(plan[0].0, 1);
    assert_eq!(plan[0].1.y, 0);
    assert_eq!(plan[0].1.cy, 547);
    assert_eq!(plan[1].0, 2);
    assert_eq!(plan[1].1.y, 540);
    assert_eq!(plan[1].1.cy, 547);

    let key = wm.window_destroyed(1).unwrap();
    assert_eq!(key, (D1, 0));
    let plan = wm.update_workspace(D1, 0);
    assert_eq!(plan.len(), 1);
    assert_eq!(plan[0].0, 2);
    assert_eq!(plan[0].1.y, 0);
    assert_eq!(plan[0].1.cy, 1087);
}

#[test]
fn move_finished_swaps_by_overlap() {
    let mut wm = one_monitor_manager();
    wm.window_created(1, true, Some((D1, 0)));
    wm.window_created(2, true, Some((D1, 0)));
    wm.window_created(3, true, Some((D1, 0)));
    let plan = wm.update_workspace(D1, 0);
    assert_eq!(plan.len(), 3);
    assert_eq!(plan[1].0, 2);
    assert_eq!(plan[1].1.y, 360);
    // the user drags the middle window onto the bottom slot
    let keys = wm.window_move_finished(2, 0, zone(0, 720, 1920, 1080));
    assert_eq!(keys, vec![(D1, 0)]);
    let plan = wm.update_workspace(D1, 0);
    assert_eq!(plan[0].0, 1);
    assert_eq!(plan[1].0, 3);
    assert_eq!(plan[2].0, 2);
    assert_eq!(plan[2].1.y, 720);
}

#[test]
fn move_finished_in_place_is_noise() {
    let mut wm = one_monitor_manager();
    wm.window_created(1, true, Some((D1, 0)));
    wm.window_created(2, true, Some((D1, 0)));
    let plan = wm.update_workspace(D1, 0);
    let p = plan[0].1;
    let keys = wm.window_move_finished(
        1,
        0,
        zone(p.x, p.y, p.x + p.cx, p.y + p.cy),
    );
    assert!(keys.is_empty());
}

#[test]
fn maximize_then_restore() {
    let mut wm = WindowManager::new(Settings::default());
    let mut group = LayoutGroup::new(1920, 1080);
    group.get_layouts_mut()[0].set_end_tiling_direction(Direction::Vertical);
    wm.initialize(vec![zone(0, 0, 1920, 1080)], vec![group], Vec::new(), None);
    wm.window_created(1, true, Some((D1, 0)));
    wm.window_created(2, true, Some((D1, 0)));
    let plan = wm.update_workspace(D1, 0);
    assert_eq!(plan[0].1.x, -7);
    assert_eq!(plan[1].1.x, 953);

    let key = wm.window_minimized_or_maximized(1).unwrap();
    assert_eq!(key, (D1, 0));
    let plan = wm.update_workspace(D1, 0);
    assert_eq!(plan.len(), 1);
    assert_eq!(plan[0].0, 2);
    assert_eq!(plan[0].1.cx, 1934);

    // the restore arrives as another show event for the known handle
    let key = wm.window_created(1, true, None).unwrap();
    assert_eq!(key, (D1, 0));
    let plan = wm.update_workspace(D1, 0);
    assert_eq!(plan.len(), 2);
    assert_eq!(plan[0].0, 1);
    assert_eq!(plan[1].0, 2);
    assert_eq!(plan[1].1.x, 953);
}

#[test]
fn cloak_moves_window_to_other_desktop() {
    let mut wm = one_monitor_manager();
    wm.window_created(1, true, Some((D1, 0)));
    wm.window_created(2, true, Some((D1, 0)));
    let keys = wm.window_cloaked(1, Some(D2)).unwrap();
    assert_eq!(keys, ((D1, 0), (D2, 0)));
    let plan = wm.update_workspace(D1, 0);
    assert_eq!(plan.len(), 1);
    assert_eq!(plan[0].0, 2);
    assert_eq!(plan[0].1.cy, 1087);
    let plan = wm.update_workspace(D2, 0);
    assert_eq!(plan.len(), 1);
    assert_eq!(plan[0].0, 1);
    assert_eq!(plan[0].1.cy, 1087);
}

#[test]
fn cloak_to_same_desktop_is_dropped() {
    let mut wm = one_monitor_manager();
    wm.window_created(1, true, Some((D1, 0)));
    assert!(wm.window_cloaked(1, Some(D1)).is_none());
    assert!(wm.window_cloaked(1, None).is_none());
}

#[test]
fn cross_monitor_grab_release() {
    let mut wm = WindowManager::new(Settings::default());
    let group = LayoutGroup::new(1920, 1080);
    wm.initialize(
        vec![zone(0, 0, 1920, 1080), zone(0, 0, 2560, 1440)],
        vec![group],
        Vec::new(),
        None,
    );
    wm.window_created(1, true, Some((D1, 0)));
    wm.window_created(2, true, Some((D1, 0)));
    wm.window_created(3, true, Some((D1, 1)));
    wm.update_workspace(D1, 0);
    wm.update_workspace(D1, 1);

    wm.foreground_window_changed(1, true);
    wm.grab_window();
    wm.foreground_window_changed(3, true);
    let (old_key, new_key, focus, slot) = wm.release_window().unwrap();
    assert_eq!(old_key, (D1, 0));
    assert_eq!(new_key, Some((D1, 1)));
    assert_eq!(focus, 1);
    assert_eq!(slot, 0);

    let plan = wm.update_workspace(D1, 0);
    assert_eq!(plan.len(), 1);
    assert_eq!(plan[0].0, 2);
    let plan = wm.update_workspace(D1, 1);
    assert_eq!(plan.len(), 2);
    assert_eq!(plan[0].0, 1);
    assert_eq!(plan[1].0, 3);
    // the DPI compensation call repositions the released window into
    // the scaled monitor's top slot
    let p = wm.get_position(D1, 1, slot).unwrap();
    assert_eq!(p.x, -7);
    assert_eq!(p.y, 0);
    assert_eq!(p.cx, 2560 + 14);
    assert_eq!(p.cy, 720 + 7);
    assert_eq!(plan[0].1, p);
}

#[test]
fn release_with_same_foreground_is_noop() {
    let mut wm = one_monitor_manager();
    wm.window_created(1, true, Some((D1, 0)));
    wm.window_created(2, true, Some((D1, 0)));
    wm.foreground_window_changed(1, true);
    wm.grab_window();
    // the foreground did not change before the release
    assert!(wm.release_window().is_none());
    let plan = wm.update_workspace(D1, 0);
    assert_eq!(plan[0].0, 1);
    assert_eq!(plan[1].0, 2);
}

#[test]
fn ignored_workspace_drops_commands() {
    let mut wm = one_monitor_manager();
    wm.window_created(1, true, Some((D1, 0)));
    wm.window_created(2, true, Some((D1, 0)));
    wm.foreground_window_changed(1, true);
    assert!(wm.toggle_workspace().is_none());
    assert!(wm.swap_next().is_none());
    assert!(wm.variant_next().is_none());
    assert!(wm.layout_next().is_none());
    assert!(wm.update_workspace(D1, 0).is_empty());
    // the second toggle re-enables and asks for one full retile
    let key = wm.toggle_workspace().unwrap();
    assert_eq!(key, (D1, 0));
    assert_eq!(wm.update_workspace(D1, 0).len(), 2);
}

#[test]
fn empty_workspace_commands_are_noops() {
    let mut wm = one_monitor_manager();
    assert!(wm.update_workspace(D1, 0).is_empty());
    assert!(wm.focus_next().is_none());
    assert!(wm.swap_next().is_none());
    wm.window_created(1, true, Some((D1, 0)));
    wm.window_destroyed(1);
    // the workspace persists empty; tiling it issues nothing
    assert!(wm.update_workspace(D1, 0).is_empty());
}

#[test]
fn single_window_focus_and_swap_are_noops() {
    let mut wm = one_monitor_manager();
    wm.window_created(1, true, Some((D1, 0)));
    wm.foreground_window_changed(1, true);
    assert!(wm.focus_previous().is_none());
    assert!(wm.focus_next().is_none());
    assert!(wm.swap_previous().is_none());
    assert!(wm.swap_next().is_none());
}

#[test]
fn focus_and_swap_wrap_around() {
    let mut wm = one_monitor_manager();
    wm.window_created(1, true, Some((D1, 0)));
    wm.window_created(2, true, Some((D1, 0)));
    wm.window_created(3, true, Some((D1, 0)));
    wm.foreground_window_changed(1, true);
    assert_eq!(wm.focus_previous(), Some(3));
    assert_eq!(wm.focus_next(), Some(2));
    let key = wm.swap_previous().unwrap();
    assert_eq!(key, (D1, 0));
    let plan = wm.update_workspace(D1, 0);
    assert_eq!(plan[0].0, 3);
    assert_eq!(plan[2].0, 1);
    // swapping twice restores the order
    wm.swap_next();
    let plan = wm.update_workspace(D1, 0);
    assert_eq!(plan[0].0, 1);
    assert_eq!(plan[2].0, 3);
}

#[test]
fn swap_windows_twice_is_identity() {
    let mut wm = one_monitor_manager();
    wm.window_created(1, true, Some((D1, 0)));
    wm.window_created(2, true, Some((D1, 0)));
    wm.window_created(3, true, Some((D1, 0)));
    let before = wm.update_workspace(D1, 0);
    wm.swap_windows(D1, 0, 0, 2);
    wm.swap_windows(D1, 0, 0, 2);
    let after = wm.update_workspace(D1, 0);
    assert_eq!(before, after);
}

#[test]
fn update_workspace_twice_issues_identical_calls() {
    let mut wm = one_monitor_manager();
    wm.window_created(1, true, Some((D1, 0)));
    wm.window_created(2, true, Some((D1, 0)));
    let first = wm.update_workspace(D1, 0);
    let second = wm.update_workspace(D1, 0);
    assert_eq!(first, second);
}

#[test]
fn denied_reposition_blacklists_handle() {
    let mut wm = one_monitor_manager();
    wm.window_created(1, true, Some((D1, 0)));
    wm.window_created(2, true, Some((D1, 0)));
    wm.update_workspace(D1, 0);
    // the OS refused to move the first window with access denied
    wm.handle_reposition_failures(&vec![(1, true)]);
    let plan = wm.update_workspace(D1, 0);
    assert_eq!(plan.len(), 1);
    assert_eq!(plan[0].0, 2);
    assert_eq!(plan[0].1.cy, 1087);
    // the handle is never enrolled again
    assert!(wm.window_created(1, true, Some((D1, 0))).is_none());
    assert_eq!(wm.update_workspace(D1, 0).len(), 1);
    // destroying it clears the blacklist entry
    assert!(wm.window_destroyed(1).is_none());
    assert!(wm.window_created(1, true, Some((D1, 0))).is_some());
    assert_eq!(wm.update_workspace(D1, 0).len(), 2);
}

#[test]
fn suspended_creation_uses_hint_on_restore() {
    let mut wm = one_monitor_manager();
    wm.window_created(1, true, Some((D1, 0)));
    // a maximized window is recorded but not tiled
    let key = wm.window_created(2, false, Some((D1, 0))).unwrap();
    assert_eq!(key, (D1, 0));
    assert_eq!(wm.update_workspace(D1, 0).len(), 1);
    // a later restore inserts it at the remembered position
    wm.window_created(2, true, None);
    let plan = wm.update_workspace(D1, 0);
    assert_eq!(plan.len(), 2);
    assert_eq!(plan[0].0, 1);
    assert_eq!(plan[1].0, 2);
}

#[test]
fn foreground_change_reports_suspended_windows() {
    let mut wm = one_monitor_manager();
    wm.window_created(1, true, Some((D1, 0)));
    wm.window_created(2, false, Some((D1, 0)));
    let ghosts = wm.foreground_window_changed(1, true);
    assert_eq!(ghosts, vec![2]);
}

#[test]
fn refresh_workspace_lists_foreground_handles() {
    let mut wm = one_monitor_manager();
    wm.window_created(1, true, Some((D1, 0)));
    wm.window_created(2, true, Some((D1, 0)));
    wm.foreground_window_changed(1, true);
    assert_eq!(wm.refresh_workspace(), vec![1, 2]);
    // the boundary found the second window gone and reports it
    wm.window_destroyed(2);
    assert_eq!(wm.refresh_workspace(), vec![1]);
}

#[test]
fn focus_monitor_cycles() {
    let mut wm = WindowManager::new(Settings::default());
    let group = LayoutGroup::new(1920, 1080);
    wm.initialize(
        vec![zone(0, 0, 1920, 1080), zone(0, 0, 2560, 1440)],
        vec![group],
        Vec::new(),
        None,
    );
    wm.window_created(1, true, Some((D1, 0)));
    wm.window_created(2, true, Some((D1, 1)));
    wm.foreground_window_changed(1, true);
    assert_eq!(wm.focus_next_monitor(), Some(2));
    assert_eq!(wm.focus_previous_monitor(), Some(2));
}

#[test]
fn swap_monitor_moves_foreground() {
    let mut wm = WindowManager::new(Settings::default());
    let group = LayoutGroup::new(1920, 1080);
    wm.initialize(
        vec![zone(0, 0, 1920, 1080), zone(0, 0, 2560, 1440)],
        vec![group],
        Vec::new(),
        None,
    );
    wm.window_created(1, true, Some((D1, 0)));
    wm.window_created(2, true, Some((D1, 1)));
    wm.foreground_window_changed(1, true);
    let (old_key, new_key, moved, slot) = wm.swap_next_monitor().unwrap();
    assert_eq!(old_key, (D1, 0));
    assert_eq!(new_key, (D1, 1));
    assert_eq!(moved, 1);
    assert_eq!(slot, 1);
    assert!(wm.update_workspace(D1, 0).is_empty());
    let plan = wm.update_workspace(D1, 1);
    assert_eq!(plan.len(), 2);
    assert_eq!(plan[0].0, 2);
    assert_eq!(plan[1].0, 1);
    assert_eq!(wm.get_position(D1, 1, slot).unwrap(), plan[1].1);
}

#[test]
fn variant_and_layout_commands_select_indices() {
    let mut wm = WindowManager::new(Settings::default());
    let mut group = LayoutGroup::new(1920, 1080);
    group.new_variant_from(0);
    group.get_layouts_mut()[1].set_end_tiling_direction(Direction::Vertical);
    let mut second = LayoutGroup::new(1920, 1080);
    second.get_layouts_mut()[0].set_end_tiling_direction(Direction::Vertical);
    wm.initialize(
        vec![zone(0, 0, 1920, 1080)],
        vec![group, second],
        Vec::new(),
        None,
    );
    wm.window_created(1, true, Some((D1, 0)));
    wm.window_created(2, true, Some((D1, 0)));
    wm.foreground_window_changed(1, true);
    // the first layout group stacks horizontally in its default variant
    let plan = wm.update_workspace(D1, 0);
    assert_eq!(plan[1].1.y, 540);
    // its second variant stacks vertically
    assert!(wm.variant_next().is_some());
    let plan = wm.update_workspace(D1, 0);
    assert_eq!(plan[1].1.x, 953);
    assert!(wm.variant_next().is_none());
    assert!(wm.variant_previous().is_some());
    // the second layout group tiles vertically from its default
    assert!(wm.layout_next().is_some());
    let plan = wm.update_workspace(D1, 0);
    assert_eq!(plan[1].1.x, 953);
    assert!(wm.layout_previous().is_some());
    let plan = wm.update_workspace(D1, 0);
    assert_eq!(plan[1].1.y, 540);
}

#[test]
fn move_finished_across_monitors() {
    let mut wm = WindowManager::new(Settings::default());
    let group = LayoutGroup::new(1920, 1080);
    wm.initialize(
        vec![zone(0, 0, 1920, 1080), zone(2000, 0, 3920, 1080)],
        vec![group],
        Vec::new(),
        None,
    );
    wm.window_created(1, true, Some((D1, 0)));
    wm.window_created(2, true, Some((D1, 0)));
    wm.update_workspace(D1, 0);
    // the user drags the first window wholly onto the second monitor
    let keys = wm.window_move_finished(1, 1, zone(2000, 0, 3920, 1080));
    assert_eq!(keys, vec![(D1, 0), (D1, 1)]);
    let plan = wm.update_workspace(D1, 0);
    assert_eq!(plan.len(), 1);
    assert_eq!(plan[0].0, 2);
    let plan = wm.update_workspace(D1, 1);
    assert_eq!(plan.len(), 1);
    assert_eq!(plan[0].0, 1);
    assert_eq!(plan[0].1.x, 2000 - 7);
}
