use himewm::geometry::Zone;
use himewm::layout::EndTilingBehaviour;
use himewm::layout::LayoutGroup;
use himewm::Direction;
use himewm::SplitDirection;

fn zone(left: i32, top: i32, right: i32, bottom: i32) -> Zone {
    Zone { left, top, right, bottom }
}

fn assert_tiling_covers(mon: Zone, tiling: &Vec<Zone>) {
    let mon_area = (mon.right - mon.left) as i64 * (mon.bottom - mon.top) as i64;
    let mut sum: i64 = 0;
    for z in tiling {
        assert!(z.left >= mon.left && z.right <= mon.right);
        assert!(z.top >= mon.top && z.bottom <= mon.bottom);
        assert!(z.left <= z.right && z.top <= z.bottom);
        sum += (z.right - z.left) as i64 * (z.bottom - z.top) as i64;
    }
    for i in 0..tiling.len() {
        for j in 0..tiling.len() {
            if i != j {
                let a = &tiling[i];
                let b = &tiling[j];
                let overlap = a.left < b.right && b.left < a.right && a.top < b.bottom
                    && b.top < a.bottom;
                assert!(!overlap, "zones {} and {} overlap", i, j);
            }
        }
    }
    assert_eq!(sum, mon_area, "zone areas do not sum to the monitor area");
}

#[test]
fn create_vertical_stack() {
    let mut layout_group = LayoutGroup::new(1920, 1200);
    let mut idx = 0;
    layout_group.get_layouts_mut()[idx].new_zone_vec();
    for n in 1..=5 {
        layout_group.get_layouts_mut()[idx]
            .split(1, 0, SplitDirection::Vertical((1920 as f64 * (n as f64 / 6 as f64)) as i32));
        if n < 3 {
            layout_group.get_layouts_mut()[idx].swap_zones(1, 0, 1);
        }
        if n != 5 {
            layout_group.new_variant_from(idx);
            idx += 1;
            layout_group.get_layouts_mut()[idx].merge_zones(1, 0, 1);
        }
    }
    layout_group.set_default_idx(2);
    assert_eq!(layout_group.layouts_len(), 5);
    assert_eq!(layout_group.default_idx(), 2);
    for v in 0..5 {
        let l = &layout_group.get_layouts()[v];
        let mon = *l.get_monitor_rect();
        for t in l.get_zones() {
            assert_tiling_covers(mon, t);
        }
    }
}

#[test]
fn zero_padding_position_is_zone_with_border() {
    // With both paddings zero the placement is the zone plus the fixed
    // border compensation.
    let mut group = LayoutGroup::new(1920, 1080);
    group.get_layouts_mut()[0].update(0, 0);
    let l = &group.get_layouts()[0];
    assert_eq!(l.positions_len(), 1);
    let p = &l.get_positions_at(0)[0];
    assert_eq!(p.x, -7);
    assert_eq!(p.y, 0);
    assert_eq!(p.cx, 1920 + 14);
    assert_eq!(p.cy, 1080 + 7);
}

#[test]
fn padding_monotonicity_on_inner_edges() {
    // A larger window padding strictly shrinks extents except on edges
    // the monitor overrides.
    let mut group = LayoutGroup::new(1920, 1080);
    group.get_layouts_mut()[0].split(0, 0, SplitDirection::Vertical(960));
    group.get_layouts_mut()[0].update(5, 0);
    let narrow = group.get_layouts()[0].get_positions_at(0)[0].clone();
    group.get_layouts_mut()[0].update(10, 0);
    let narrower = group.get_layouts()[0].get_positions_at(0)[0].clone();
    // the zone touches the monitor's left, top and bottom edges but
    // not the right edge: cx shrinks, cy does not
    assert!(narrower.cx < narrow.cx);
    assert_eq!(narrower.cy, narrow.cy);
}

#[test]
fn split_then_merge_restores_tiling() {
    let mut group = LayoutGroup::new(1920, 1080);
    let before = group.get_layouts()[0].get_zones().clone();
    group.get_layouts_mut()[0].split(0, 0, SplitDirection::Horizontal(400));
    assert_eq!(group.get_layouts()[0].get_zones()[0].len(), 2);
    assert!(group.get_layouts()[0].can_merge_zones(0, 0, 1));
    group.get_layouts_mut()[0].merge_zones(0, 0, 1);
    assert_eq!(group.get_layouts()[0].get_zones(), &before);
}

#[test]
fn swap_zones_twice_is_identity() {
    let mut group = LayoutGroup::new(1920, 1080);
    group.get_layouts_mut()[0].split(0, 0, SplitDirection::Vertical(500));
    let before = group.get_layouts()[0].get_zones().clone();
    group.get_layouts_mut()[0].swap_zones(0, 0, 1);
    assert_ne!(group.get_layouts()[0].get_zones(), &before);
    group.get_layouts_mut()[0].swap_zones(0, 0, 1);
    assert_eq!(group.get_layouts()[0].get_zones(), &before);
}

#[test]
fn swap_zone_vectors_twice_is_identity() {
    let mut group = LayoutGroup::new(1920, 1080);
    group.get_layouts_mut()[0].new_zone_vec();
    group.get_layouts_mut()[0].split(1, 0, SplitDirection::Vertical(500));
    let before = group.get_layouts()[0].get_zones().clone();
    group.get_layouts_mut()[0].swap_zone_vectors(0, 1);
    group.get_layouts_mut()[0].swap_zone_vectors(0, 1);
    assert_eq!(group.get_layouts()[0].get_zones(), &before);
}

#[test]
fn swap_variants_twice_is_identity() {
    let mut group = LayoutGroup::new(1920, 1080);
    group.new_variant_from(0);
    group.get_layouts_mut()[1].split(0, 0, SplitDirection::Vertical(500));
    group.set_default_idx(1);
    let zones0 = group.get_layouts()[0].get_zones().clone();
    let zones1 = group.get_layouts()[1].get_zones().clone();
    group.swap_variants(0, 1);
    assert_eq!(group.default_idx(), 0);
    assert_eq!(group.get_layouts()[0].get_zones(), &zones1);
    group.swap_variants(0, 1);
    assert_eq!(group.default_idx(), 1);
    assert_eq!(group.get_layouts()[0].get_zones(), &zones0);
    assert_eq!(group.get_layouts()[1].get_zones(), &zones1);
}

#[test]
fn convert_for_own_monitor_is_none() {
    let group = LayoutGroup::new(1920, 1080);
    let target = zone(0, 0, 1920, 1080);
    assert!(LayoutGroup::convert_for_monitor(&group, target).is_none());
}

#[test]
fn convert_round_trip_within_one_pixel() {
    let mut group = LayoutGroup::new(1920, 1080);
    group.get_layouts_mut()[0].split(0, 0, SplitDirection::Vertical(633));
    group.get_layouts_mut()[0].split(0, 1, SplitDirection::Horizontal(471));
    let source_rect = zone(0, 0, 1920, 1080);
    let target_rect = zone(100, 50, 2660, 1490);
    let converted = LayoutGroup::convert_for_monitor(&group, target_rect).unwrap();
    // the projected tiling still covers the target work-area
    for t in converted.get_layouts()[0].get_zones() {
        assert_tiling_covers(target_rect, t);
    }
    let back = LayoutGroup::convert_for_monitor(&converted, source_rect).unwrap();
    for (tb, ta) in back.get_layouts()[0].get_zones().iter().zip(
        group.get_layouts()[0].get_zones().iter(),
    ) {
        for (zb, za) in tb.iter().zip(ta.iter()) {
            assert!((zb.left - za.left).abs() <= 1);
            assert!((zb.top - za.top).abs() <= 1);
            assert!((zb.right - za.right).abs() <= 1);
            assert!((zb.bottom - za.bottom).abs() <= 1);
        }
    }
}

#[test]
fn directional_extension_covers_each_count() {
    // A one-tiling layout with the directional rule: extending n times
    // yields tilings of sizes 1..n+1, each covering the monitor.
    let mut group = LayoutGroup::new(1920, 1080);
    group.get_layouts_mut()[0].update(0, 0);
    for _ in 0..5 {
        group.get_layouts_mut()[0].extend();
        group.get_layouts_mut()[0].update(0, 0);
    }
    let l = &group.get_layouts()[0];
    assert_eq!(l.get_zones().len(), 6);
    let mon = *l.get_monitor_rect();
    for (i, t) in l.get_zones().iter().enumerate() {
        assert_eq!(t.len(), i + 1);
        assert_tiling_covers(mon, t);
    }
}

#[test]
fn first_extension_splits_in_half() {
    let mut group = LayoutGroup::new(1920, 1080);
    group.get_layouts_mut()[0].update(0, 0);
    group.get_layouts_mut()[0].extend();
    let zones = &group.get_layouts()[0].get_zones()[1];
    assert_eq!(zones[0], zone(0, 0, 1920, 540));
    assert_eq!(zones[1], zone(0, 540, 1920, 1080));
}

#[test]
fn repeating_extension_follows_ratios() {
    let mut group = LayoutGroup::new(1000, 1000);
    let behaviour = EndTilingBehaviour::default_repeating();
    group.get_layouts_mut()[0].set_end_tiling_behaviour(behaviour);
    group.get_layouts_mut()[0].add_repeating_split(Direction::Vertical, 1, 2, 0, false);
    group.get_layouts_mut()[0].update(0, 0);
    group.get_layouts_mut()[0].extend();
    group.get_layouts_mut()[0].update(0, 0);
    let l = &group.get_layouts()[0];
    let t = &l.get_zones()[1];
    assert_eq!(t.len(), 2);
    assert_tiling_covers(zone(0, 0, 1000, 1000), t);
    // a vertical cut at half the width
    assert!(t.iter().any(|z| z.left == 0 && z.right == 500));
    assert!(t.iter().any(|z| z.left == 500 && z.right == 1000));
}

#[test]
fn merge_and_split_keeps_display_order() {
    let mut group = LayoutGroup::new(1200, 900);
    group.get_layouts_mut()[0].split(0, 0, SplitDirection::Vertical(600));
    // merge the two halves back and split horizontally instead
    group.get_layouts_mut()[0].merge_and_split_zones(0, 0, 1, SplitDirection::Horizontal(450));
    let t = &group.get_layouts()[0].get_zones()[0];
    assert_eq!(t.len(), 2);
    assert_tiling_covers(zone(0, 0, 1200, 900), t);
    assert!(t[0].bottom == 450 || t[0].top == 450);
}
