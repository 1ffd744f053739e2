use stickymd::arrange::{arranged_positions, positions_after_changed_note};
use stickymd::geometry::{
    GeometryIndex, LogicalPosition, NoteGeometry, PhysicalPosition, PhysicalSize, WindowRect,
};
use stickymd::groups::{persist_group_detachment, persist_relinked_group};
use stickymd::member::StoredGroupMember;
use stickymd::placement::members_on_anchor_monitor_side;
use stickymd::relink::durable_relink_order;
use stickymd::reset::reset_positions_in_work_area;
use stickymd::runtime::GroupRuntimeState;
use stickymd::settle::{drag_exceeds_threshold, position_settlement, PositionSettlement};
use stickymd::store::{NoteStore, StoredGroup};
use stickymd::surface::StoredNote;
use stickymd::table::Table;

fn geometry(x: i32, y: i32, width: u32, height: u32) -> NoteGeometry {
    NoteGeometry {
        position: PhysicalPosition::new(x, y),
        size: PhysicalSize::new(width, height),
    }
}

fn note(id: &str, x: i32, y: i32, collapsed: bool, closed_at: Option<u64>) -> StoredNote {
    StoredNote {
        id: id.to_string(),
        document: "{\"type\":\"doc\",\"content\":[]}".to_string(),
        color: "#fff9b1".to_string(),
        x,
        y,
        expanded_width: 300,
        expanded_height: 250,
        collapsed,
        pinned: false,
        font_size: 16,
        closed_at,
    }
}

fn store(notes: Vec<StoredNote>, groups: Vec<StoredGroup>) -> NoteStore {
    let mut store = NoteStore { notes: Table::new(), groups: Table::new() };
    for note in notes {
        store.notes.insert(note.id.clone(), note);
    }
    for group in groups {
        store.groups.insert(group.id.clone(), group);
    }
    store
}

#[test]
fn one_click_linking_selects_typed_windows_only_on_the_parent_side() {
    let mut geometries = GeometryIndex::default();
    for (id, note_geometry) in [
        ("parent", geometry(100, 100, 280, 100)),
        ("top-right", geometry(300, 20, 220, 100)),
        ("bottom", geometry(200, 80, 360, 100)),
        ("top-left", geometry(100, 20, 180, 100)),
        ("other-side", geometry(700, 10, 300, 100)),
        ("other-monitor", geometry(1100, 0, 300, 100)),
        ("timer", geometry(160, 180, 300, 176)),
    ] {
        geometries.insert(id.into(), note_geometry);
    }
    let monitor = WindowRect { x: 0, y: 0, width: 1000, height: 800 };
    let members = vec![
        StoredGroupMember::note("top-right"),
        StoredGroupMember::note("bottom"),
        StoredGroupMember::note("top-left"),
        StoredGroupMember::note("other-side"),
        StoredGroupMember::note("other-monitor"),
        StoredGroupMember::timer("timer"),
    ];

    assert_eq!(
        members_on_anchor_monitor_side(
            &StoredGroupMember::note("parent"),
            &members,
            &geometries,
            monitor,
            monitor,
        )
        .unwrap(),
        vec![
            StoredGroupMember::note("top-left"),
            StoredGroupMember::note("top-right"),
            StoredGroupMember::note("bottom"),
            StoredGroupMember::timer("timer"),
        ]
    );
}

#[test]
fn relinking_from_an_independent_parent_absorbs_a_mixed_group_and_preserves_slots() {
    let parent = StoredGroupMember::note("parent");
    let dump = StoredGroupMember::note("dump");
    let archived = StoredGroupMember::note("archived");
    let timer = StoredGroupMember::timer("timer");
    let absorbed_group = StoredGroup {
        id: "lower".into(),
        members: vec![dump.clone(), archived.clone(), timer.clone()],
    };
    let durable_order = durable_relink_order(
        &parent,
        &vec![parent.clone(), dump.clone(), timer.clone()],
        &vec![absorbed_group.clone()],
    );
    let mut store = store(
        vec![
            note("parent", 20, 20, false, None),
            note("dump", 20, 282, false, None),
            note("archived", 20, 544, true, Some(1)),
            note("other", 900, 20, false, None),
        ],
        vec![
            StoredGroup {
                id: "lower".into(),
                members: vec![dump.clone(), archived.clone(), timer.clone()],
            },
            StoredGroup {
                id: "other-side".into(),
                members: vec![
                    StoredGroupMember::note("other"),
                    StoredGroupMember::timer("other-timer"),
                ],
            },
        ],
    );

    persist_relinked_group(
        &mut store,
        &vec![absorbed_group.id],
        "relinked",
        &durable_order,
    );

    assert_eq!(
        store.groups.get("relinked").unwrap().members,
        [parent, dump, archived, timer]
    );
    assert!(!store.groups.contains_key("lower"));
    assert_eq!(
        store.groups.get("other-side").unwrap().members,
        [
            StoredGroupMember::note("other"),
            StoredGroupMember::timer("other-timer"),
        ]
    );
}

#[test]
fn restored_mixed_group_uses_durable_heights_and_twelve_pixel_gaps() {
    assert_eq!(
        arranged_positions(LogicalPosition::new(40, 20), &vec![24, 24, 24, 250, 250, 250]).unwrap(),
        vec![
            LogicalPosition::new(40, 20),
            LogicalPosition::new(40, 56),
            LogicalPosition::new(40, 92),
            LogicalPosition::new(40, 128),
            LogicalPosition::new(40, 390),
            LogicalPosition::new(40, 652),
        ]
    );
}

#[test]
fn height_transition_repositions_only_later_members_from_durable_heights() {
    assert_eq!(
        positions_after_changed_note(LogicalPosition::new(40, 282), 24, &vec![250, 24]).unwrap(),
        vec![LogicalPosition::new(40, 318), LogicalPosition::new(40, 580)]
    );
}

#[test]
fn folding_a_timer_reflows_only_later_mixed_members() {
    assert_eq!(
        positions_after_changed_note(LogicalPosition::new(40, 282), 24, &vec![250, 176]).unwrap(),
        vec![LogicalPosition::new(40, 318), LogicalPosition::new(40, 580)]
    );
}

#[test]
fn deleting_a_timer_compacts_remaining_windows_without_changing_order() {
    let members = [
        (StoredGroupMember::note("first"), 250),
        (StoredGroupMember::timer("deleted"), 176),
        (StoredGroupMember::note("last"), 250),
    ];
    let remaining_heights = members
        .iter()
        .filter(|(member, _)| member != &StoredGroupMember::timer("deleted"))
        .map(|(_, height)| *height)
        .collect::<Vec<u32>>();

    assert_eq!(
        arranged_positions(LogicalPosition::new(40, 20), &remaining_heights).unwrap(),
        vec![LogicalPosition::new(40, 20), LogicalPosition::new(40, 282)]
    );
}

#[test]
fn delayed_programmatic_move_adopts_native_rounding_instead_of_stale_coordinates() {
    let mut pending = Table::new();
    pending.insert("note".to_string(), PhysicalPosition::new(100, 200));
    let rounded_native_position = PhysicalPosition::new(101, 201);

    assert_eq!(
        position_settlement(
            &mut pending,
            "note",
            rounded_native_position,
            LogicalPosition::new(101, 201),
            LogicalPosition::new(20, 20),
        ),
        PositionSettlement::AdoptProgrammatic(rounded_native_position)
    );
    assert!(pending.is_empty());
}

#[test]
fn external_move_does_not_consume_the_pending_programmatic_target() {
    let requested = PhysicalPosition::new(100, 200);
    let mut pending = Table::new();
    pending.insert("note".to_string(), requested);

    assert_eq!(
        position_settlement(
            &mut pending,
            "note",
            PhysicalPosition::new(3439, 1354),
            LogicalPosition::new(3439, 1354),
            LogicalPosition::new(20, 20),
        ),
        PositionSettlement::ExternalMove
    );
    assert_eq!(pending.get("note"), Some(&requested));
}

#[test]
fn completed_user_drag_waits_for_settled_geometry_before_detachment() {
    let mut runtime = GroupRuntimeState::default();
    let origin = PhysicalPosition::new(100, 100);
    runtime.record_programmatic_position("note".into(), PhysicalPosition::new(90, 90));

    runtime.begin_user_drag("note".into(), origin);
    assert!(!runtime.programmatic_positions.contains_key("note"));
    runtime.complete_user_drag("note").unwrap();

    assert!(!runtime.drag_origins.contains_key("note"));
    let recorded_origin = runtime.take_completed_drag("note").unwrap();
    assert_eq!(recorded_origin, origin);
    assert!(drag_exceeds_threshold(
        LogicalPosition::new(recorded_origin.x, recorded_origin.y),
        LogicalPosition::new(250, 220),
    ));
}

#[test]
fn drag_detachment_uses_a_strict_four_pixel_threshold() {
    let start = LogicalPosition::new(100, 100);
    assert!(!drag_exceeds_threshold(start, LogicalPosition::new(104, 96)));
    assert!(drag_exceeds_threshold(start, LogicalPosition::new(105, 100)));
}

#[test]
fn dragging_a_typed_group_member_removes_only_that_membership() {
    let mut store = store(
        vec![
            note("first", 20, 20, false, None),
            note("dragged", 20, 282, false, None),
            note("last", 20, 544, false, None),
        ],
        vec![StoredGroup {
            id: "group".into(),
            members: vec![
                StoredGroupMember::note("first"),
                StoredGroupMember::timer("dragged"),
                StoredGroupMember::note("last"),
            ],
        }],
    );

    persist_group_detachment(&mut store, "group", &StoredGroupMember::timer("dragged")).unwrap();

    let first = store.notes.get("first").unwrap();
    assert_eq!((first.x, first.y), (20, 20));
    let last = store.notes.get("last").unwrap();
    assert_eq!((last.x, last.y), (20, 544));
    assert_eq!(
        store.groups.get("group").unwrap().members,
        [
            StoredGroupMember::note("first"),
            StoredGroupMember::note("last"),
        ]
    );
}

#[test]
fn reset_positions_pack_ordered_windows_from_upper_right_with_reserved_gap() {
    let work_area = WindowRect { x: -1200, y: 24, width: 900, height: 600 };
    let size_blocks = vec![
        vec![PhysicalSize::new(300, 250)],
        vec![PhysicalSize::new(280, 24)],
        vec![PhysicalSize::new(300, 250)],
        vec![PhysicalSize::new(300, 176)],
    ];
    let positions = reset_positions_in_work_area(work_area, &size_blocks, 12, 20, 64, 64).unwrap();

    assert_eq!(positions[0], PhysicalPosition::new(-664, 88));
    assert_eq!(positions[1], PhysicalPosition::new(-644, 350));
    assert_eq!(positions[2], PhysicalPosition::new(-976, 88));
    assert_eq!(positions[3], PhysicalPosition::new(-976, 350));
    let sizes = size_blocks.into_iter().flatten().collect::<Vec<_>>();
    let rectangles = positions
        .iter()
        .zip(sizes)
        .map(|(position, size)| WindowRect::from_physical(*position, size))
        .collect::<Vec<_>>();
    for (index, rectangle) in rectangles.iter().enumerate() {
        assert!(rectangles[index + 1..].iter().all(|other| {
            rectangle.right() + 12 <= other.x
                || other.right() + 12 <= rectangle.x
                || rectangle.bottom() + 12 <= other.y
                || other.bottom() + 12 <= rectangle.y
        }));
    }
}
