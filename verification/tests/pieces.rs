use stickymd::arrange::{arranged_positions, positions_after_changed_note};
use stickymd::error::GroupError;
use stickymd::geometry::{
    GeometryIndex, LogicalPosition, LogicalSize, NoteGeometry, PhysicalPosition, PhysicalSize,
    WindowRect,
};
use stickymd::groups::{
    active_group_members, group_for_member, group_of, is_in_group, open_timer_ids,
    persist_group_detachment,
};
use stickymd::member::{
    get_focused_window, note_id_from_label, GroupMemberKind, StoredGroupMember,
};
use stickymd::member_set::MemberSet;
use stickymd::ordering::{is_text_before, stable_order, SortKey};
use stickymd::placement::{members_on_anchor_monitor_side, visual_order};
use stickymd::relink::durable_relink_order;
use stickymd::reset::{reset_positions_in_work_area, ResetError};
use stickymd::runtime::{drag_start, run_window_drag, DragError, GroupRuntimeState};
use stickymd::settings::{
    clamp_font_size, MenuSettings, DEFAULT_FONT_SIZE, FONT_SIZE_STEP, MAX_FONT_SIZE, MIN_FONT_SIZE,
};
use stickymd::settle::{
    distances_fit, drag_exceeds_threshold, positions_within_rounding_tolerance,
};
use stickymd::store::{
    replace_notes, replace_timers, split_surfaces, stored_surface, stored_surfaces, NoteStore,
    StoredGroup,
};
use stickymd::surface::{StoredNote, StoredSurface, StoredTimer};
use stickymd::table::Table;
use stickymd::text_checking::text_checking_defaults;

fn note(id: &str) -> StoredNote {
    StoredNote {
        id: id.to_string(),
        document: String::new(),
        color: "#fff9b1".to_string(),
        x: 20,
        y: 30,
        expanded_width: 300,
        expanded_height: 250,
        collapsed: false,
        pinned: false,
        font_size: 16,
        closed_at: None,
    }
}

fn timer(id: &str) -> StoredTimer {
    StoredTimer {
        id: id.to_string(),
        countdown: "00:25:00".to_string(),
        x: 5,
        y: 6,
        collapsed: false,
        pinned: true,
    }
}

fn members(ids: &[&str]) -> Vec<StoredGroupMember> {
    ids.iter().map(|id| StoredGroupMember::note(id)).collect()
}

fn group(id: &str, ids: &[&str]) -> StoredGroup {
    StoredGroup { id: id.to_string(), members: members(ids) }
}

fn texts(all: &[&str]) -> Vec<String> {
    all.iter().map(|text| text.to_string()).collect()
}

#[test]
fn font_sizes_are_clamped_to_their_limits() {
    assert_eq!(clamp_font_size(i64::MIN), 12);
    assert_eq!(clamp_font_size(11), 12);
    assert_eq!(clamp_font_size(12), 12);
    assert_eq!(clamp_font_size(17), 17);
    assert_eq!(clamp_font_size(32), 32);
    assert_eq!(clamp_font_size(33), 32);
    assert_eq!(clamp_font_size(i64::MAX), 32);
    assert_eq!((DEFAULT_FONT_SIZE, FONT_SIZE_STEP), (16, 2));
    assert_eq!((MIN_FONT_SIZE, MAX_FONT_SIZE), (12, 32));
}

#[test]
fn clamping_twice_is_clamping_once() {
    for size in [-5, 11, 12, 20, 32, 40, 255] {
        let once = clamp_font_size(size);
        assert_eq!(clamp_font_size(i64::from(once)), once);
    }
}

#[test]
fn settings_hand_back_the_font_size_they_replace() {
    let mut settings = MenuSettings::new(4);
    assert_eq!(settings.default_font_size(), 12);
    assert_eq!(settings.set_default_font_size(200), 12);
    assert_eq!(settings.default_font_size(), 32);
    assert_eq!(settings.set_default_font_size(18), 32);
    assert_eq!(settings.default_font_size(), 18);
}

#[test]
fn rectangles_include_their_left_and_top_edges_only() {
    let rect = WindowRect::from_physical(PhysicalPosition::new(-10, 20), PhysicalSize::new(30, 40));
    assert_eq!((rect.right(), rect.bottom()), (20, 60));
    assert_eq!(rect.center_twice(), (10, 80));
    assert!(rect.contains_center_twice((-20, 40)));
    assert!(!rect.contains_center_twice((-21, 40)));
    assert!(rect.contains_center_twice((39, 119)));
    assert!(!rect.contains_center_twice((40, 119)));
    assert!(!rect.contains_center_twice((39, 120)));
    assert!(!rect.contains_center_twice((0, 39)));
}

#[test]
fn largest_reported_rectangles_have_centers() {
    let rect = WindowRect::from_physical(
        PhysicalPosition::new(i32::MAX, i32::MIN),
        PhysicalSize::new(u32::MAX, u32::MAX),
    );
    assert_eq!(rect.center_twice(), (8589934589, -1));
    assert!(rect.contains_center_twice(rect.center_twice()));
}

#[test]
fn geometry_cache_knows_only_what_was_inserted() {
    let mut geometries = GeometryIndex::default();
    assert_eq!(geometries.get("a").unwrap_err().id, "a");
    assert_eq!(
        geometries.set_position("a", PhysicalPosition::new(1, 2)).unwrap_err().id,
        "a"
    );
    assert_eq!(geometries.set_size("a", PhysicalSize::new(1, 2)).unwrap_err().id, "a");
    let geometry = NoteGeometry {
        position: PhysicalPosition::new(1, 2),
        size: PhysicalSize::new(3, 4),
    };
    geometries.insert("a".to_string(), geometry);
    assert_eq!(geometries.get("a").unwrap(), geometry);
    geometries.set_position("a", PhysicalPosition::new(9, 8)).unwrap();
    geometries.set_size("a", PhysicalSize::new(7, 6)).unwrap();
    assert_eq!(
        geometries.get("a").unwrap(),
        NoteGeometry { position: PhysicalPosition::new(9, 8), size: PhysicalSize::new(7, 6) }
    );
}

#[test]
fn labels_name_their_window() {
    for member in [
        StoredGroupMember::note("a"),
        StoredGroupMember::timer("a"),
        StoredGroupMember::note("timer_a"),
        StoredGroupMember::timer(""),
    ] {
        let label = member.window_label();
        assert_eq!(StoredGroupMember::from_window_label(&label).unwrap(), member);
        assert_eq!(member.runtime_key(), label);
    }
    assert_eq!(StoredGroupMember::note("a").window_label(), "sticky_a");
    assert_eq!(StoredGroupMember::timer("a").window_label(), "timer_a");
    assert_eq!(StoredGroupMember::from_window_label("settings").unwrap_err().label, "settings");
    assert_eq!(StoredGroupMember::from_window_label("sticky").unwrap_err().label, "sticky");
    assert_eq!(note_id_from_label("sticky_x").unwrap(), "x");
    assert_eq!(note_id_from_label("timer_x").unwrap_err().label, "timer_x");
}

#[test]
fn only_notes_and_timers_can_be_the_focused_window() {
    let windows = vec![
        ("settings".to_string(), true),
        ("sticky_a".to_string(), false),
        ("timer_b".to_string(), true),
        ("sticky_c".to_string(), true),
    ];
    assert_eq!(get_focused_window(&windows), Some(2));
    assert_eq!(get_focused_window(&windows[..2].to_vec()), None);
}

#[test]
fn visual_order_reads_down_then_right_then_by_window() {
    let mut geometries = GeometryIndex::default();
    for (id, x, y) in [("a", 10, 10), ("b", 0, 10), ("c", 50, 0), ("d", 0, 10)] {
        geometries.insert(
            id.to_string(),
            NoteGeometry {
                position: PhysicalPosition::new(x, y),
                size: PhysicalSize::new(1, 1),
            },
        );
    }
    let mut set = MemberSet::new();
    for id in ["a", "b", "c", "d", "b"] {
        set.insert(StoredGroupMember::note(id));
    }
    assert_eq!(visual_order(&set, &geometries).unwrap(), members(&["c", "b", "d", "a"]));
    set.insert(StoredGroupMember::note("unknown"));
    assert_eq!(
        visual_order(&set, &geometries),
        Err(GroupError::MissingGeometry("unknown".to_string()))
    );
}

#[test]
fn notes_come_before_timers_at_the_same_place() {
    let mut geometries = GeometryIndex::default();
    for id in ["z", "a"] {
        geometries.insert(
            id.to_string(),
            NoteGeometry {
                position: PhysicalPosition::new(0, 0),
                size: PhysicalSize::new(1, 1),
            },
        );
    }
    let set = MemberSet::from_members(&vec![
        StoredGroupMember::timer("a"),
        StoredGroupMember::note("z"),
    ]);
    assert_eq!(
        visual_order(&set, &geometries).unwrap(),
        vec![StoredGroupMember::note("z"), StoredGroupMember::timer("a")]
    );
}

#[test]
fn selecting_a_side_needs_the_parent_on_its_display() {
    let mut geometries = GeometryIndex::default();
    geometries.insert(
        "parent".to_string(),
        NoteGeometry {
            position: PhysicalPosition::new(2000, 0),
            size: PhysicalSize::new(10, 10),
        },
    );
    let monitor = WindowRect { x: 0, y: 0, width: 1000, height: 800 };
    let parent = StoredGroupMember::note("parent");
    assert_eq!(
        members_on_anchor_monitor_side(&parent, &vec![], &geometries, monitor, monitor),
        Err(GroupError::ParentOutsideMonitor)
    );
    assert_eq!(
        members_on_anchor_monitor_side(
            &StoredGroupMember::note("gone"),
            &vec![],
            &geometries,
            monitor,
            monitor
        ),
        Err(GroupError::MissingGeometry("gone".to_string()))
    );
    let far = WindowRect { x: 1500, y: 0, width: 1000, height: 800 };
    assert_eq!(
        members_on_anchor_monitor_side(
            &parent,
            &members(&["gone"]),
            &geometries,
            far,
            far
        ),
        Err(GroupError::MissingGeometry("gone".to_string()))
    );
}

#[test]
fn windows_in_the_middle_count_as_right() {
    let mut geometries = GeometryIndex::default();
    for (id, x) in [("left", 489), ("middle", 490), ("right", 900)] {
        geometries.insert(
            id.to_string(),
            NoteGeometry {
                position: PhysicalPosition::new(x, 0),
                size: PhysicalSize::new(20, 10),
            },
        );
    }
    let monitor = WindowRect { x: 0, y: 0, width: 1000, height: 800 };
    assert_eq!(
        members_on_anchor_monitor_side(
            &StoredGroupMember::note("right"),
            &members(&["left", "middle"]),
            &geometries,
            monitor,
            monitor
        )
        .unwrap(),
        members(&["middle"])
    );
}

#[test]
fn stacked_windows_leave_one_gap_and_never_overlap() {
    let heights = vec![100, 24, 80, 0];
    let positions = arranged_positions(LogicalPosition::new(-3, -50), &heights).unwrap();
    for i in 0..heights.len() - 1 {
        assert_eq!(positions[i + 1].y, positions[i].y + heights[i] as i32 + 12);
        assert_eq!(positions[i].x, -3);
    }
    assert_eq!(arranged_positions(LogicalPosition::new(1, 1), &vec![]).unwrap(), vec![]);
}

#[test]
fn stacks_that_leave_the_coordinate_range_are_refused() {
    assert_eq!(
        arranged_positions(LogicalPosition::new(0, i32::MAX - 111), &vec![100, 5]),
        Err(GroupError::PositionOutOfRange)
    );
    assert_eq!(
        arranged_positions(LogicalPosition::new(0, i32::MAX - 112), &vec![100, u32::MAX]).unwrap(),
        vec![
            LogicalPosition::new(0, i32::MAX - 112),
            LogicalPosition::new(0, i32::MAX)
        ]
    );
    assert_eq!(
        positions_after_changed_note(LogicalPosition::new(0, 0), u32::MAX, &vec![1]),
        Err(GroupError::PositionOutOfRange)
    );
    assert_eq!(
        positions_after_changed_note(LogicalPosition::new(0, 0), u32::MAX, &vec![]).unwrap(),
        vec![]
    );
}

#[test]
fn only_later_windows_move_when_one_changes_height() {
    let before = arranged_positions(LogicalPosition::new(7, 7), &vec![50, 60, 70, 80]).unwrap();
    let after = arranged_positions(LogicalPosition::new(7, 7), &vec![50, 24, 70, 80]).unwrap();
    assert_eq!(before[..2], after[..2]);
    assert_eq!(
        positions_after_changed_note(after[1], 24, &vec![70, 80]).unwrap(),
        after[2..].to_vec()
    );
}

#[test]
fn closed_notes_that_led_their_group_follow_the_parent() {
    let order = durable_relink_order(
        &StoredGroupMember::note("b"),
        &members(&["b", "d"]),
        &vec![group("one", &["a", "b", "c"]), group("two", &["x", "d", "y", "z"])],
    );
    assert_eq!(order, members(&["b", "a", "c", "x", "d", "y", "z"]));
}

#[test]
fn relinking_keeps_the_active_order_and_loses_and_repeats_nothing() {
    let active = members(&["p", "c", "a"]);
    let groups = vec![group("one", &["a", "b", "c"]), group("two", &["gone", "lost"])];
    let order = durable_relink_order(&StoredGroupMember::note("p"), &active, &groups);
    assert_eq!(order, members(&["p", "c", "a", "b"]));
    let kept: Vec<_> = order.iter().filter(|m| active.contains(m)).cloned().collect();
    assert_eq!(kept, active);
    for (i, member) in order.iter().enumerate() {
        assert!(!order[i + 1..].contains(member));
    }
}

#[test]
fn detaching_from_a_pair_dissolves_the_group() {
    let mut store = NoteStore { notes: Table::new(), groups: Table::new() };
    store.groups.insert("g".to_string(), group("g", &["a", "b"]));
    store.groups.insert("h".to_string(), group("h", &["c", "d", "e"]));
    persist_group_detachment(&mut store, "g", &StoredGroupMember::note("a")).unwrap();
    assert!(!store.groups.contains_key("g"));
    persist_group_detachment(&mut store, "h", &StoredGroupMember::note("d")).unwrap();
    assert_eq!(store.groups.get("h").unwrap(), &group("h", &["c", "e"]));
    persist_group_detachment(&mut store, "h", &StoredGroupMember::timer("c")).unwrap();
    assert_eq!(store.groups.get("h").unwrap(), &group("h", &["c", "e"]));
    assert_eq!(
        persist_group_detachment(&mut store, "g", &StoredGroupMember::note("a")),
        Err(GroupError::MissingGroup("g".to_string()))
    );
}

#[test]
fn unlinking_frees_every_member() {
    let groups = vec![group("g", &["a", "b"]), group("h", &["c", "d"])];
    let left = vec![group("h", &["c", "d"])];
    assert_eq!(group_for_member(&groups, &StoredGroupMember::note("d")), Some(1));
    assert_eq!(group_of(&groups, &StoredGroupMember::note("b")), Some(group("g", &["a", "b"])));
    assert!(is_in_group(&groups, &StoredGroupMember::note("a")));
    assert!(!is_in_group(&groups, &StoredGroupMember::timer("a")));
    for id in ["a", "b"] {
        assert!(!is_in_group(&left, &StoredGroupMember::note(id)));
    }
    assert_eq!(group_of(&left, &StoredGroupMember::note("a")), None);
}

#[test]
fn active_members_are_open_and_not_excluded() {
    let mixed = StoredGroup {
        id: "g".to_string(),
        members: vec![
            StoredGroupMember::note("a"),
            StoredGroupMember::timer("t"),
            StoredGroupMember::note("closed"),
            StoredGroupMember::timer("gone"),
            StoredGroupMember::note("b"),
        ],
    };
    let open = open_timer_ids(&texts(&["t", "u"]), &texts(&["sticky_a", "timer_t", "sticky_u"]));
    assert_eq!(open, texts(&["t"]));
    let mut excluded = MemberSet::new();
    excluded.insert(StoredGroupMember::note("b"));
    assert_eq!(
        active_group_members(&texts(&["b", "a", "t"]), &open, &mixed, &MemberSet::new()),
        vec![
            StoredGroupMember::note("a"),
            StoredGroupMember::timer("t"),
            StoredGroupMember::note("b")
        ]
    );
    assert_eq!(
        active_group_members(&texts(&["b", "a", "t"]), &open, &mixed, &excluded),
        vec![StoredGroupMember::note("a"), StoredGroupMember::timer("t")]
    );
}

#[test]
fn surfaces_are_never_smaller_than_their_least_size() {
    let mut small = note("a");
    small.expanded_width = 10;
    small.expanded_height = 20;
    let surface = StoredSurface::Note(small);
    assert_eq!((surface.width(), surface.expanded_height()), (150, 80));
    assert_eq!(surface.durable_height(), 80);
    let clock = StoredSurface::Timer(timer("t"));
    assert_eq!((clock.width(), clock.expanded_height(), clock.durable_height()), (300, 176, 176));
    assert_eq!((clock.x(), clock.y(), clock.pinned(), clock.collapsed()), (5, 6, true, false));
    assert_eq!(clock.member(), StoredGroupMember::timer("t"));
}

#[test]
fn folding_keeps_the_height_and_unfolding_brings_it_back() {
    let mut surface = StoredSurface::Note(note("a"));
    surface.set_collapsed_and_size(true, LogicalSize::new(100, 24));
    assert!(surface.collapsed());
    assert_eq!((surface.width(), surface.durable_height()), (150, 24));
    assert_eq!(surface.expanded_height(), 250);
    surface.set_collapsed_and_size(false, LogicalSize::new(400, 24));
    assert_eq!((surface.width(), surface.durable_height()), (150, 250));
    surface.set_collapsed_and_size(false, LogicalSize::new(400, 24));
    assert_eq!((surface.width(), surface.durable_height()), (400, 80));

    let mut clock = StoredSurface::Timer(timer("t"));
    clock.set_collapsed_and_size(true, LogicalSize::new(1, 1));
    assert_eq!((clock.width(), clock.durable_height()), (300, 24));
}

#[test]
fn moving_a_surface_changes_only_its_place() {
    let mut surface = StoredSurface::Note(note("a"));
    surface.set_position(-7, 8);
    assert_eq!(surface.position(), LogicalPosition::new(-7, 8));
    assert_eq!(surface.durable_size(), LogicalSize::new(300, 250));
    surface.set_position(20, 30);
    assert_eq!(surface, StoredSurface::Note(note("a")));
}

#[test]
fn folded_notes_and_timers_do_not_adopt_a_size() {
    let mut folded = note("a");
    folded.collapsed = true;
    let mut surface = StoredSurface::Note(folded.clone());
    surface.adopt_size(LogicalSize::new(999, 999));
    assert_eq!(surface, StoredSurface::Note(folded));
    let mut clock = StoredSurface::Timer(timer("t"));
    clock.adopt_size(LogicalSize::new(999, 999));
    assert_eq!(clock, StoredSurface::Timer(timer("t")));
    let mut open = StoredSurface::Note(note("b"));
    open.adopt_size(LogicalSize::new(1, 999));
    assert_eq!((open.width(), open.expanded_height()), (150, 999));
}

#[test]
fn replacing_names_the_first_missing_surface() {
    let mut store = NoteStore { notes: Table::new(), groups: Table::new() };
    store.notes.insert("a".to_string(), note("a"));
    let mut moved = note("a");
    moved.x = 99;
    replace_notes(&mut store, &vec![moved.clone()]).unwrap();
    assert_eq!(store.notes.get("a"), Some(&moved));
    assert_eq!(
        replace_notes(&mut store, &vec![note("a"), note("b"), note("c")]),
        Err(GroupError::MissingNote("b".to_string()))
    );
    let mut timers = Table::new();
    timers.insert("t".to_string(), timer("t"));
    replace_timers(&mut timers, &vec![timer("t")]).unwrap();
    assert_eq!(
        replace_timers(&mut timers, &vec![timer("u")]),
        Err(GroupError::MissingTimer("u".to_string()))
    );
}

#[test]
fn stored_surfaces_are_found_by_kind() {
    let mut notes = Table::new();
    notes.insert("a".to_string(), note("a"));
    let mut timers = Table::new();
    timers.insert("a".to_string(), timer("a"));
    assert_eq!(
        stored_surface(&notes, &timers, &StoredGroupMember::timer("a")).unwrap(),
        StoredSurface::Timer(timer("a"))
    );
    assert_eq!(
        stored_surface(&notes, &timers, &StoredGroupMember::timer("b")),
        Err(GroupError::MissingTimer("b".to_string()))
    );
    let wanted = vec![StoredGroupMember::note("a"), StoredGroupMember::note("b")];
    assert_eq!(
        stored_surfaces(&notes, &timers, &wanted),
        Err(GroupError::MissingNote("b".to_string()))
    );
    let (clocks, pages) = split_surfaces(&vec![
        StoredSurface::Note(note("x")),
        StoredSurface::Timer(timer("y")),
        StoredSurface::Note(note("z")),
    ]);
    assert_eq!((clocks, pages), (vec![timer("y")], vec![note("x"), note("z")]));
}

#[test]
fn tables_keep_one_value_for_each_key() {
    let mut table = Table::new();
    assert!(table.is_empty());
    table.insert("a".to_string(), PhysicalPosition::new(1, 1));
    table.insert("b".to_string(), PhysicalPosition::new(2, 2));
    table.insert("a".to_string(), PhysicalPosition::new(3, 3));
    assert_eq!(table.get("a"), Some(&PhysicalPosition::new(3, 3)));
    assert_eq!(table.remove("a"), Some(PhysicalPosition::new(3, 3)));
    assert_eq!(table.remove("a"), None);
    assert!(table.contains_key("b"));
    table.clear();
    assert!(table.is_empty());
}

#[test]
fn text_is_ordered_by_code_point() {
    assert!(is_text_before("", "a"));
    assert!(is_text_before("a", "ab"));
    assert!(is_text_before("Z", "a"));
    assert!(is_text_before("a\u{10000}", "a\u{10001}"));
    assert!(!is_text_before("b", "ab"));
    assert!(!is_text_before("a", "a"));
}

#[test]
fn equal_keys_stay_in_order() {
    let keys = vec![
        StoredGroupMember::timer("a"),
        StoredGroupMember::note("b"),
        StoredGroupMember::note("a"),
        StoredGroupMember::note("b"),
    ];
    assert_eq!(stable_order(&keys), vec![2, 1, 3, 0]);
    assert!(keys[2].is_before(&keys[1]));
    assert_eq!(keys[0].kind, GroupMemberKind::Timer);
}

#[test]
fn packing_needs_room_inside_the_margins() {
    let area = WindowRect { x: 0, y: 0, width: 1, height: 100 };
    let one = vec![vec![PhysicalSize::new(1, 1)]];
    assert_eq!(
        reset_positions_in_work_area(
            WindowRect { x: 0, y: 0, width: 0, height: 100 },
            &one,
            12,
            0,
            0,
            0
        ),
        Err(ResetError::AreaTooSmall)
    );
    assert_eq!(reset_positions_in_work_area(area, &vec![], 12, 20, 64, 64), Ok(vec![]));
    assert_eq!(
        reset_positions_in_work_area(area, &one, 12, 20, 64, 64),
        Ok(vec![PhysicalPosition::new(0, 64)])
    );
    assert_eq!(
        reset_positions_in_work_area(area, &vec![vec![]], 12, 0, 0, 0),
        Err(ResetError::EmptyGroup)
    );
    assert_eq!(
        reset_positions_in_work_area(area, &vec![vec![PhysicalSize::new(2, 1)]], 12, 0, 0, 0),
        Err(ResetError::GroupTooLarge)
    );
}

#[test]
fn packing_refuses_what_does_not_fit_side_by_side() {
    let area = WindowRect { x: 0, y: 0, width: 100, height: 100 };
    let blocks = vec![vec![PhysicalSize::new(60, 100)], vec![PhysicalSize::new(60, 100)]];
    assert_eq!(
        reset_positions_in_work_area(area, &blocks, 0, 0, 0, 0),
        Err(ResetError::DoesNotFit)
    );
    let blocks = vec![vec![PhysicalSize::new(50, 100)], vec![PhysicalSize::new(50, 100)]];
    assert_eq!(
        reset_positions_in_work_area(area, &blocks, 0, 0, 0, 0),
        Ok(vec![PhysicalPosition::new(50, 0), PhysicalPosition::new(0, 0)])
    );
}

#[test]
fn packing_keeps_the_windows_of_a_block_together() {
    let area = WindowRect { x: 0, y: 0, width: 500, height: 200 };
    let blocks = vec![
        vec![PhysicalSize::new(100, 120)],
        vec![PhysicalSize::new(80, 50), PhysicalSize::new(90, 40)],
    ];
    assert_eq!(
        reset_positions_in_work_area(area, &blocks, 10, 0, 0, 0),
        Ok(vec![
            PhysicalPosition::new(400, 0),
            PhysicalPosition::new(310, 0),
            PhysicalPosition::new(300, 60),
        ])
    );
}

#[test]
fn packing_reports_positions_that_do_not_exist() {
    let one = vec![vec![PhysicalSize::new(10, 10)]];
    assert_eq!(
        reset_positions_in_work_area(
            WindowRect { x: 5_000_000_000, y: 0, width: 100, height: 100 },
            &one,
            0,
            0,
            0,
            0
        ),
        Err(ResetError::XOutOfRange)
    );
    assert_eq!(
        reset_positions_in_work_area(
            WindowRect { x: 0, y: 5_000_000_000, width: 100, height: 100 },
            &one,
            0,
            0,
            0,
            0
        ),
        Err(ResetError::YOutOfRange)
    );
    let low = WindowRect { x: 0, y: i64::MAX - 100, width: 100, height: 100 };
    let full = vec![vec![PhysicalSize::new(10, 100)], vec![PhysicalSize::new(10, 10)]];
    assert_eq!(
        reset_positions_in_work_area(low, &full, 0, 0, 0, 0),
        Err(ResetError::LayoutHeightOverflow)
    );
    assert_eq!(
        reset_positions_in_work_area(low, &full, 12, 0, 0, 0),
        Err(ResetError::LinkedPositionOverflow)
    );
}

#[test]
fn first_packed_window_is_in_the_upper_right_corner() {
    let area = WindowRect { x: 100, y: 50, width: 1000, height: 700 };
    let positions = reset_positions_in_work_area(
        area,
        &vec![vec![PhysicalSize::new(0, 0)], vec![PhysicalSize::new(200, 30)]],
        12,
        20,
        64,
        64,
    )
    .unwrap();
    assert_eq!(positions[0], PhysicalPosition::new(1100 - 64 - 1, 50 + 64));
    assert_eq!(positions[1], PhysicalPosition::new(1100 - 64 - 200, 50 + 64 + 1 + 12));
}

#[test]
fn a_drag_hands_out_its_origin_once() {
    let mut runtime = GroupRuntimeState::default();
    let mut geometries = GeometryIndex::default();
    geometries.insert(
        "a".to_string(),
        NoteGeometry { position: PhysicalPosition::new(3, 4), size: PhysicalSize::new(5, 6) },
    );
    runtime.record_programmatic_position("sticky_a".to_string(), PhysicalPosition::new(0, 0));
    runtime.record_programmatic_position("timer_a".to_string(), PhysicalPosition::new(1, 1));
    let start = drag_start(&geometries, "sticky_a").unwrap();
    assert_eq!((start.key.as_str(), start.origin), ("sticky_a", PhysicalPosition::new(3, 4)));
    assert!(run_window_drag(&mut runtime, start, || Ok::<(), String>(())).is_ok());
    assert!(!runtime.is_dragging("sticky_a"));
    assert!(!runtime.programmatic_positions.contains_key("sticky_a"));
    assert!(runtime.programmatic_positions.contains_key("timer_a"));
    assert_eq!(runtime.take_completed_drag("sticky_a"), Some(PhysicalPosition::new(3, 4)));
    assert_eq!(runtime.take_completed_drag("sticky_a"), None);
}

#[test]
fn a_failed_drag_leaves_nothing_behind() {
    let mut runtime = GroupRuntimeState::default();
    let mut geometries = GeometryIndex::default();
    geometries.insert(
        "a".to_string(),
        NoteGeometry { position: PhysicalPosition::new(3, 4), size: PhysicalSize::new(5, 6) },
    );
    let start = drag_start(&geometries, "timer_a").unwrap();
    match run_window_drag(&mut runtime, start, || Err("no mouse")) {
        Err(DragError::Native(error)) => assert_eq!(error, "no mouse"),
        _ => panic!("the drag failed"),
    }
    assert!(!runtime.is_dragging("timer_a"));
    assert_eq!(runtime.take_completed_drag("timer_a"), None);
    assert!(matches!(
        drag_start(&geometries, "menu"),
        Err(GroupError::UnknownWindow(label)) if label == "menu"
    ));
    assert!(matches!(
        drag_start(&geometries, "sticky_b"),
        Err(GroupError::MissingGeometry(id)) if id == "b"
    ));
}

#[test]
fn a_programmatic_move_replaces_an_ended_drag() {
    let mut runtime = GroupRuntimeState::default();
    assert_eq!(
        runtime.complete_user_drag("k"),
        Err(GroupError::MissingDrag("k".to_string()))
    );
    runtime.begin_user_drag("k".to_string(), PhysicalPosition::new(1, 1));
    runtime.complete_user_drag("k").unwrap();
    runtime.record_programmatic_position("k".to_string(), PhysicalPosition::new(2, 2));
    assert_eq!(runtime.take_completed_drag("k"), None);
    assert!(runtime.programmatic_positions.contains_key("k"));
    runtime.forget("k");
    assert!(!runtime.programmatic_positions.contains_key("k"));
}

#[test]
fn distances_are_measured_along_the_longer_axis() {
    let start = LogicalPosition::new(0, 0);
    assert!(!drag_exceeds_threshold(start, LogicalPosition::new(-4, 4)));
    assert!(drag_exceeds_threshold(start, LogicalPosition::new(0, -5)));
    let asked = PhysicalPosition::new(10, 10);
    assert!(positions_within_rounding_tolerance(asked, PhysicalPosition::new(8, 12)));
    assert!(!positions_within_rounding_tolerance(asked, PhysicalPosition::new(10, 13)));
    assert!(distances_fit(0, 0, i32::MAX, -i32::MAX));
    assert!(!distances_fit(0, 0, i32::MIN, 0));
    assert!(!distances_fit(0, -2, 0, i32::MAX));
}

#[test]
fn only_shortcuts_and_links_may_rewrite_text() {
    let defaults = text_checking_defaults();
    let listed: Vec<_> = defaults.iter().map(|entry| (entry.key, entry.enabled)).collect();
    assert_eq!(
        listed,
        vec![
            ("WebAutomaticTextReplacementEnabled", true),
            ("WebAutomaticLinkDetectionEnabled", true),
            ("WebAutomaticSpellingCorrectionEnabled", false),
            ("WebAutomaticQuoteSubstitutionEnabled", false),
            ("WebAutomaticDashSubstitutionEnabled", false),
            ("WebContinuousSpellCheckingEnabled", false),
            ("WebGrammarCheckingEnabled", false),
        ]
    );
}
