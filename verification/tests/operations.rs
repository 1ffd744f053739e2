use std::collections::BTreeMap;

use stickymd::close::{
    close_group_member, close_grouped_timer, close_window, closing_note, closing_timer, CloseRoute,
};
use stickymd::effect::{
    perform_on_cache, perform_on_notes, perform_on_timers, CacheAction, Effect, NoteAction,
    TimerAction, WindowAction,
};
use stickymd::error::GroupError;
use stickymd::geometry::{
    GeometryIndex, LogicalPosition, LogicalSize, NoteGeometry, PhysicalPosition, PhysicalSize,
};
use stickymd::groups::open_timer_ids;
use stickymd::layout::{
    layout_for_members_at_origin, snapshots_for_members, stack_members, GroupLayout,
};
use stickymd::link::{
    active_windows, link_selection, link_transaction, link_windows_on_this_side_below,
    link_windows_on_this_side_below_focused, unlink_group_for_focused, LinkSelection, Monitor,
};
use stickymd::member::StoredGroupMember;
use stickymd::rearrange::{reset_order, reset_sizes, reset_targets, reset_window_positions};
use stickymd::reset::ResetError;
use stickymd::resize::{
    fold_target, note_to_resize, resize_group_member, resize_note_height, resize_transaction,
    set_group_member_collapsed, set_window_collapsed, FoldRoute, NoteResize, Resizing,
};
use stickymd::restore::{
    open_groups, restore_all_notes, restore_archived_note, restore_group_layouts,
    restore_last_closed, restored_members, reveal_windows,
};
use stickymd::runtime::GroupRuntimeState;
use stickymd::settle::{
    can_settle, detach_member, ended_drag_origin, settle_window_geometry, window_to_settle,
    FollowUp, Settling,
};
use stickymd::store::{NoteStore, StoredGroup, TimerStore};
use stickymd::surface::{StoredNote, StoredSurface, StoredTimer};
use stickymd::table::Table;
use stickymd::transaction::{Event, Transaction, Verdict};

/// A window of the simulated desktop.
#[derive(Debug, Clone, PartialEq)]
struct Window {
    position: PhysicalPosition,
    size: PhysicalSize,
    resizable: bool,
    shown: bool,
}

/// A simulated desktop at twice the logical resolution.
struct Desk {
    windows: BTreeMap<String, Window>,
    focused: Option<String>,
    geometries: GeometryIndex,
    runtime: GroupRuntimeState,
    store: NoteStore,
    timers: TimerStore,
    linked: Option<StoredGroup>,
    performed: Vec<String>,
}

fn to_physical(position: LogicalPosition) -> PhysicalPosition {
    PhysicalPosition::new(position.x * 2, position.y * 2)
}

fn to_logical(position: PhysicalPosition) -> LogicalPosition {
    LogicalPosition::new(position.x / 2, position.y / 2)
}

fn size_to_physical(size: LogicalSize) -> PhysicalSize {
    PhysicalSize::new(size.width * 2, size.height * 2)
}

fn size_to_logical(size: PhysicalSize) -> LogicalSize {
    LogicalSize::new(size.width / 2, size.height / 2)
}

fn note(id: &str, x: i32, y: i32) -> StoredNote {
    StoredNote {
        id: id.to_string(),
        document: format!("text of {id}"),
        color: "#fff9b1".to_string(),
        x,
        y,
        expanded_width: 300,
        expanded_height: 100,
        collapsed: false,
        pinned: false,
        font_size: 16,
        closed_at: None,
    }
}

fn timer(id: &str, x: i32, y: i32) -> StoredTimer {
    StoredTimer {
        id: id.to_string(),
        countdown: "00:10:00".to_string(),
        x,
        y,
        collapsed: false,
        pinned: false,
    }
}

fn texts(all: &[&str]) -> Vec<String> {
    all.iter().map(|text| text.to_string()).collect()
}

fn sticky(id: &str) -> StoredGroupMember {
    StoredGroupMember::note(id)
}

impl Desk {
    fn new() -> Desk {
        Desk {
            windows: BTreeMap::new(),
            focused: None,
            geometries: GeometryIndex::default(),
            runtime: GroupRuntimeState::default(),
            store: NoteStore { notes: Table::new(), groups: Table::new() },
            timers: Table::new(),
            linked: None,
            performed: Vec::new(),
        }
    }

    fn open(&mut self, member: &StoredGroupMember, position: LogicalPosition, size: LogicalSize) {
        let window = Window {
            position: to_physical(position),
            size: size_to_physical(size),
            resizable: true,
            shown: false,
        };
        self.geometries.insert(
            member.id.clone(),
            NoteGeometry { position: window.position, size: window.size },
        );
        self.windows.insert(member.window_label(), window);
    }

    fn add_note(&mut self, note: StoredNote) {
        let position = LogicalPosition::new(note.x, note.y);
        let height = if note.collapsed { 24 } else { note.expanded_height };
        let size = LogicalSize::new(note.expanded_width, height);
        if note.closed_at.is_none() {
            self.open(&sticky(&note.id), position, size);
        }
        self.store.notes.insert(note.id.clone(), note);
    }

    fn add_timer(&mut self, timer: StoredTimer) {
        let position = LogicalPosition::new(timer.x, timer.y);
        self.open(&StoredGroupMember::timer(&timer.id), position, LogicalSize::new(300, 176));
        self.timers.insert(timer.id.clone(), timer);
    }

    fn add_group(&mut self, id: &str, members: Vec<StoredGroupMember>) {
        self.store.groups.insert(id.to_string(), StoredGroup { id: id.to_string(), members });
    }

    fn groups(&self, ids: &[&str]) -> Vec<StoredGroup> {
        ids.iter().map(|id| self.store.groups.get(id).unwrap().clone()).collect()
    }

    fn labels(&self) -> Vec<String> {
        self.windows.keys().cloned().collect()
    }

    /// Everything but what is remembered of drags and moves.
    fn state(&self, ids: &[&str]) -> String {
        let mut all = format!("{:?}", self.windows);
        for id in ids {
            all += &format!(
                "\n{id}: {:?} {:?} {:?} {:?}",
                self.store.notes.get(id),
                self.store.groups.get(id),
                self.timers.get(id),
                self.geometries.get(id).ok(),
            );
        }
        all
    }

    /// What is stored.
    fn records(&self, ids: &[&str]) -> String {
        let mut all = String::new();
        for id in ids {
            all += &format!(
                "\n{id}: {:?} {:?} {:?}",
                self.store.notes.get(id),
                self.store.groups.get(id),
                self.timers.get(id),
            );
        }
        all
    }

    fn perform(&mut self, effect: &Effect) -> Event {
        match effect {
            Effect::Window(member, action) => {
                let label = member.window_label();
                if let WindowAction::Close = action {
                    return match self.windows.remove(&label) {
                        Some(_) => Event::Done,
                        None => Event::Failed,
                    };
                }
                let window = match self.windows.get_mut(&label) {
                    Some(window) => window,
                    None => return Event::Failed,
                };
                match action {
                    WindowAction::ReadScale { position, target } => {
                        return Event::Scale {
                            current: to_logical(*position),
                            requested: to_physical(*target),
                        };
                    }
                    WindowAction::MoveTo(target) => window.position = to_physical(*target),
                    WindowAction::MoveToPhysical(target) => window.position = *target,
                    WindowAction::Resize(size) => window.size = size_to_physical(*size),
                    WindowAction::ResizePhysical(size) => window.size = *size,
                    WindowAction::SetResizable(resizable) => window.resizable = *resizable,
                    WindowAction::Reveal => window.shown = true,
                    WindowAction::Focus => self.focused = Some(label),
                    WindowAction::MeasureSize => return Event::Measured(window.size),
                    WindowAction::ConvertSize(size) => {
                        return Event::Converted(size_to_logical(*size));
                    }
                    WindowAction::LeaveMaximized
                    | WindowAction::Close
                    | WindowAction::ConvertMeasured => {}
                }
                Event::Done
            }
            Effect::Cache(member, action) => {
                match perform_on_cache(member, *action, &mut self.geometries, &mut self.runtime) {
                    Ok(()) => Event::Done,
                    Err(_) => Event::Failed,
                }
            }
            Effect::ReadClock => Event::Clock(777),
            Effect::Notes(action) => {
                if let NoteAction::Relink { group, .. } = action {
                    self.linked = Some(group.clone());
                }
                match perform_on_notes(&mut self.store, action) {
                    Ok(()) => Event::Done,
                    Err(_) => Event::Failed,
                }
            }
            Effect::Timers(action) => match perform_on_timers(&mut self.timers, action) {
                Ok(()) => Event::Done,
                Err(_) => Event::Failed,
            },
        }
    }

    /// Carries out a transaction, letting the effects with the given numbers fail.
    fn run(&mut self, transaction: &mut Transaction, failing: &[usize]) -> Verdict {
        let mut number = 0;
        while let Some(effect) = transaction.next_effect() {
            self.performed.push(name(&effect));
            let event = if failing.contains(&number) {
                Event::Failed
            } else {
                self.perform(&effect)
            };
            transaction.advance(event);
            number += 1;
        }
        transaction.verdict().unwrap()
    }
}

/// A short name of an effect.
fn name(effect: &Effect) -> String {
    match effect {
        Effect::Window(member, action) => match action {
            WindowAction::ReadScale { .. } => format!("scale {}", member.id),
            WindowAction::MoveTo(_) => format!("move {}", member.id),
            WindowAction::MoveToPhysical(_) => format!("place {}", member.id),
            WindowAction::Resize(_) => format!("resize {}", member.id),
            WindowAction::ResizePhysical(_) => format!("size {}", member.id),
            WindowAction::SetResizable(_) => format!("resizable {}", member.id),
            WindowAction::LeaveMaximized => format!("unmaximize {}", member.id),
            WindowAction::Reveal => format!("reveal {}", member.id),
            WindowAction::Focus => format!("focus {}", member.id),
            WindowAction::Close => format!("close {}", member.id),
            WindowAction::MeasureSize => format!("measure {}", member.id),
            WindowAction::ConvertSize(_) => format!("convert {}", member.id),
            WindowAction::ConvertMeasured => unreachable!("readings are put in"),
        },
        Effect::Cache(member, action) => match action {
            CacheAction::RecordPosition(_) => format!("record {}", member.id),
            CacheAction::Forget => format!("forget {}", member.id),
            _ => format!("cache {}", member.id),
        },
        Effect::ReadClock => "clock".to_string(),
        Effect::Notes(action) => match action {
            NoteAction::Write(_) => "write notes".to_string(),
            NoteAction::Archive { .. } => "archive".to_string(),
            NoteAction::Reopen(_) => "reopen".to_string(),
            NoteAction::Restore { .. } => "restore note".to_string(),
            NoteAction::SetSize { .. } => "set size".to_string(),
            NoteAction::Relink { .. } => "relink".to_string(),
            NoteAction::Detach { .. } => "detach".to_string(),
            NoteAction::InsertGroup(_) => "insert group".to_string(),
            NoteAction::RemoveGroup(_) => "remove group".to_string(),
            NoteAction::ClearGroups => "clear groups".to_string(),
            NoteAction::ArchiveNow(_) | NoteAction::SetMeasuredSize(_) => {
                unreachable!("readings are put in")
            }
        },
        Effect::Timers(action) => match action {
            TimerAction::Write(_) => "write timers".to_string(),
            TimerAction::Remove(_) => "remove timer".to_string(),
            TimerAction::Restore(_) => "restore timer".to_string(),
        },
    }
}

const IDS: [&str; 8] = ["p", "a", "b", "c", "t", "g", "h", "z"];

/// A parent, two notes, a timer and a closed note; `a` and `z` are linked.
fn link_desk() -> Desk {
    let mut desk = Desk::new();
    desk.add_note(note("p", 10, 10));
    desk.add_note(note("a", 30, 200));
    desk.add_note(note("b", 700, 20));
    desk.add_timer(timer("t", 20, 150));
    let mut closed = note("z", 0, 0);
    closed.closed_at = Some(5);
    desk.add_note(closed);
    desk.add_group("g", vec![sticky("a"), sticky("z")]);
    desk
}

fn monitor() -> Monitor {
    let bounds = NoteGeometry {
        position: PhysicalPosition::new(0, 0),
        size: PhysicalSize::new(2000, 1600),
    };
    Monitor { bounds, work_area: bounds }
}

fn selection(desk: &Desk) -> LinkSelection {
    let active = active_windows(&texts(&["p", "a", "b"]), &texts(&["t"]));
    link_selection(&sticky("p"), &desk.groups(&["g"]), &active, &desk.geometries, monitor()).unwrap()
}

fn link(desk: &Desk) -> Transaction {
    link_windows_on_this_side_below(
        &selection(desk),
        &desk.labels(),
        &desk.geometries,
        LogicalPosition::new(10, 10),
        &desk.store.notes,
        &desk.timers,
    )
    .unwrap()
}

#[test]
fn linking_stacks_and_stores_the_windows_of_one_side() {
    let mut desk = link_desk();
    let chosen = selection(&desk);
    assert_eq!(chosen.order, vec![sticky("p"), StoredGroupMember::timer("t"), sticky("a")]);
    assert_eq!(chosen.absorbed, desk.groups(&["g"]));
    assert_eq!(chosen.existing, None);
    let mut transaction = link(&desk);
    assert_eq!(desk.run(&mut transaction, &[]), Verdict::Committed);
    assert_eq!(
        desk.performed,
        [
            "scale p", "cache p", "scale t", "move t", "cache t", "record t", "scale a", "move a",
            "cache a", "record a", "write timers", "write notes", "relink"
        ]
    );
    let stored = desk.timers.get("t").unwrap();
    assert_eq!((stored.x, stored.y), (10, 122));
    let stored = desk.store.notes.get("a").unwrap();
    assert_eq!((stored.x, stored.y), (10, 310));
    assert_eq!(desk.windows["sticky_p"], link_desk().windows["sticky_p"]);
    assert_eq!(desk.windows["timer_t"].position, PhysicalPosition::new(20, 244));
    assert_eq!(desk.windows["sticky_a"].position, PhysicalPosition::new(20, 620));
    assert_eq!(desk.geometries.get("a").unwrap().position, PhysicalPosition::new(20, 620));
    assert!(desk.runtime.programmatic_positions.contains_key("sticky_a"));
    assert!(!desk.runtime.programmatic_positions.contains_key("sticky_p"));
    assert!(!desk.store.groups.contains_key("g"));
}

#[test]
fn a_new_group_gets_a_random_identifier() {
    let mut desk = link_desk();
    let mut seen = Vec::new();
    for _ in 0..2 {
        let mut transaction = link(&link_desk());
        assert_eq!(desk.run(&mut transaction, &[]), Verdict::Committed);
        let group = desk.linked.clone().unwrap();
        assert_eq!(
            group.members,
            vec![sticky("p"), StoredGroupMember::timer("t"), sticky("a"), sticky("z")]
        );
        assert_eq!(desk.store.groups.get(&group.id), Some(&group));
        let id: Vec<char> = group.id.chars().collect();
        assert_eq!(id.len(), 36);
        for (i, c) in id.iter().enumerate() {
            match i {
                8 | 13 | 18 | 23 => assert_eq!(*c, '-'),
                14 => assert_eq!(*c, '4'),
                19 => assert!("89ab".contains(*c)),
                _ => assert!(c.is_ascii_digit() || ('a'..='f').contains(c)),
            }
        }
        seen.push(group.id);
    }
    assert_ne!(seen[0], seen[1]);
}

#[test]
fn a_parent_in_a_group_keeps_its_identifier() {
    let mut desk = link_desk();
    desk.store.groups.clear();
    desk.add_group("h", vec![sticky("z"), sticky("p")]);
    let active = active_windows(&texts(&["p", "a"]), &texts(&[]));
    let chosen =
        link_selection(&sticky("p"), &desk.groups(&["h"]), &active, &desk.geometries, monitor())
            .unwrap();
    assert_eq!(chosen.existing, Some("h".to_string()));
    let mut transaction = link_windows_on_this_side_below(
        &chosen,
        &desk.labels(),
        &desk.geometries,
        LogicalPosition::new(10, 10),
        &desk.store.notes,
        &desk.timers,
    )
    .unwrap();
    assert_eq!(desk.run(&mut transaction, &[]), Verdict::Committed);
    assert_eq!(
        desk.store.groups.get("h").unwrap().members,
        vec![sticky("p"), sticky("z"), sticky("a")]
    );
}

#[test]
fn a_failed_linking_is_taken_back() {
    let before = link_desk().state(&IDS);
    let records = link_desk().records(&IDS);
    let steps = 13;
    for failing in 0..steps {
        let mut desk = link_desk();
        let mut transaction = link(&desk);
        assert_eq!(desk.run(&mut transaction, &[failing]), Verdict::RolledBack);
        assert_eq!(desk.records(&IDS), records);
        if !desk.performed[failing].starts_with("scale") {
            assert_eq!(desk.state(&IDS), before, "failing at {failing}");
        }
    }
}

#[test]
fn an_unreadable_scale_factor_leaves_the_moved_windows() {
    let mut desk = link_desk();
    let mut transaction = link(&desk);
    assert_eq!(desk.run(&mut transaction, &[6]), Verdict::RolledBack);
    assert_eq!(desk.performed.last().unwrap(), "scale a");
    assert_eq!(desk.windows["timer_t"].position, PhysicalPosition::new(20, 244));
}

#[test]
fn a_window_that_cannot_be_brought_back_is_not_awaited() {
    let mut desk = link_desk();
    let mut transaction = link(&desk);
    // Moving `a` fails; so does bringing `t` back.
    assert_eq!(desk.run(&mut transaction, &[7, 13]), Verdict::RolledBack);
    assert_eq!(
        desk.performed[7..],
        [
            "move a", "size p", "place p", "record p", "cache p", "size t", "place t", "cache t"
        ]
    );
    assert_eq!(desk.geometries.get("t").unwrap().position, PhysicalPosition::new(40, 300));
}

#[test]
fn timers_that_cannot_be_rolled_back_leave_the_notes_alone() {
    let mut desk = link_desk();
    let mut transaction = link(&desk);
    assert_eq!(desk.run(&mut transaction, &[12, 13]), Verdict::RolledBack);
    assert_eq!(desk.performed[12..15], ["relink", "write timers", "size p"]);
    assert_eq!(desk.store.notes.get("a").unwrap().x, 10);
}

#[test]
fn linking_refuses_what_it_cannot_stack() {
    let desk = link_desk();
    let chosen = selection(&desk);
    let refused = |labels: &Vec<String>, y: i32, timers: &TimerStore| {
        link_windows_on_this_side_below(
            &chosen,
            labels,
            &desk.geometries,
            LogicalPosition::new(0, y),
            &desk.store.notes,
            timers,
        )
        .err()
    };
    assert_eq!(
        refused(&texts(&["sticky_p", "sticky_a"]), 0, &desk.timers),
        Some(GroupError::MissingWindow(StoredGroupMember::timer("t")))
    );
    assert_eq!(
        refused(&desk.labels(), 0, &Table::new()),
        Some(GroupError::MissingTimer("t".to_string()))
    );
    assert_eq!(
        refused(&desk.labels(), i32::MAX - 10, &desk.timers),
        Some(GroupError::PositionOutOfRange)
    );
    assert_eq!(refused(&desk.labels(), 0, &desk.timers), None);
}

#[test]
fn linking_needs_another_window() {
    let desk = link_desk();
    let active = active_windows(&texts(&["p"]), &texts(&[]));
    assert!(matches!(
        link_selection(&sticky("p"), &vec![], &active, &desk.geometries, monitor()),
        Err(GroupError::NothingToLink)
    ));
    assert!(matches!(
        link_selection(&sticky("x"), &vec![], &active, &desk.geometries, monitor()),
        Err(GroupError::MissingGeometry(id)) if id == "x"
    ));
}

#[test]
fn an_empty_selection_links_nothing_but_the_group() {
    let desk = link_desk();
    let chosen = LinkSelection {
        parent: sticky("p"),
        order: vec![],
        absorbed: vec![],
        existing: None,
    };
    let mut transaction = link_transaction(
        &chosen,
        &GroupLayout::none(),
        &desk.store.notes,
        &desk.timers,
        "new".to_string(),
    )
    .unwrap();
    let mut desk = desk;
    assert_eq!(desk.run(&mut transaction, &[]), Verdict::Committed);
    assert_eq!(desk.performed, ["relink"]);
    assert!(desk.store.groups.contains_key("new"));
    assert!(desk.store.groups.contains_key("g"));
}

#[test]
fn the_focused_window_is_the_parent_and_the_one_to_unlink() {
    let mut desk = link_desk();
    let windows = vec![("sticky_b".to_string(), false), ("sticky_a".to_string(), true)];
    assert_eq!(link_windows_on_this_side_below_focused(&windows), Ok(sticky("a")));
    assert_eq!(
        link_windows_on_this_side_below_focused(&vec![]),
        Err(GroupError::NothingFocused)
    );
    let groups = desk.groups(&["g"]);
    let mut transaction = unlink_group_for_focused(&windows, &groups).unwrap();
    assert_eq!(desk.run(&mut transaction, &[]), Verdict::Committed);
    assert!(!desk.store.groups.contains_key("g"));
    assert_eq!(
        unlink_group_for_focused(&vec![("sticky_b".to_string(), true)], &groups).err(),
        Some(GroupError::NotLinked)
    );
    assert_eq!(
        unlink_group_for_focused(&vec![], &groups).err(),
        Some(GroupError::NothingFocused)
    );
}

/// Three linked windows below each other, the middle one a timer.
fn group_desk() -> Desk {
    let mut desk = Desk::new();
    desk.add_note(note("a", 10, 10));
    desk.add_timer(timer("t", 10, 122));
    desk.add_note(note("b", 10, 310));
    desk.add_group(
        "g",
        vec![sticky("a"), StoredGroupMember::timer("t"), sticky("z"), sticky("b")],
    );
    desk
}

fn close_note(desk: &Desk, label: &str) -> Transaction {
    let closing = closing_note(
        label,
        &desk.store.notes,
        &desk.groups(&["g"]),
        &texts(&["a", "b"]),
        &texts(&["t"]),
    )
    .unwrap();
    let first = to_logical(desk.geometries.get(&closing.remaining[0].id).unwrap().position);
    close_group_member(
        &closing,
        &desk.labels(),
        &desk.geometries,
        first,
        &desk.store.notes,
        &desk.timers,
    )
    .unwrap()
}

#[test]
fn closing_the_topmost_note_moves_the_rest_up() {
    let mut desk = group_desk();
    desk.runtime.record_programmatic_position("sticky_a".to_string(), PhysicalPosition::new(0, 0));
    let mut transaction = close_note(&desk, "sticky_a");
    assert_eq!(desk.run(&mut transaction, &[]), Verdict::Committed);
    assert_eq!(desk.store.notes.get("a").unwrap().closed_at, Some(777));
    assert_eq!(desk.timers.get("t").unwrap().y, 10);
    assert_eq!(desk.store.notes.get("b").unwrap().y, 198);
    assert!(!desk.windows.contains_key("sticky_a"));
    assert!(!desk.runtime.programmatic_positions.contains_key("sticky_a"));
    assert_eq!(desk.windows["sticky_b"].position, PhysicalPosition::new(20, 396));
    assert_eq!(desk.store.groups.get("g").unwrap().members.len(), 4);
}

#[test]
fn closing_the_last_note_moves_nothing() {
    let mut desk = group_desk();
    let mut transaction = close_note(&desk, "sticky_b");
    assert_eq!(desk.run(&mut transaction, &[]), Verdict::Committed);
    assert_eq!(
        desk.performed,
        [
            "scale a", "cache a", "scale t", "cache t", "write timers", "write notes", "clock",
            "archive", "close b", "forget b"
        ]
    );
    assert_eq!(desk.timers.get("t").unwrap().y, 122);
}

#[test]
fn closing_the_only_open_window_of_a_group_archives_it() {
    let mut desk = Desk::new();
    desk.add_note(note("a", 10, 10));
    desk.add_group("g", vec![sticky("a"), sticky("z")]);
    let closing = closing_note(
        "sticky_a",
        &desk.store.notes,
        &desk.groups(&["g"]),
        &texts(&["a"]),
        &texts(&[]),
    )
    .unwrap();
    assert!(closing.remaining.is_empty() && closing.removed_top);
    let mut transaction = close_group_member(
        &closing,
        &desk.labels(),
        &desk.geometries,
        LogicalPosition::new(0, 0),
        &desk.store.notes,
        &desk.timers,
    )
    .unwrap();
    assert_eq!(desk.run(&mut transaction, &[]), Verdict::Committed);
    assert_eq!(desk.performed, ["clock", "archive", "close a", "forget a"]);
}

#[test]
fn a_failed_closing_of_a_note_is_taken_back() {
    let before = group_desk().state(&IDS);
    let records = group_desk().records(&IDS);
    let steps = {
        let mut desk = group_desk();
        let mut transaction = close_note(&desk, "sticky_a");
        desk.run(&mut transaction, &[]);
        desk.performed
    };
    for (failing, step) in steps.iter().enumerate() {
        if step.starts_with("forget") {
            continue;
        }
        let mut desk = group_desk();
        let mut transaction = close_note(&desk, "sticky_a");
        assert_eq!(desk.run(&mut transaction, &[failing]), Verdict::RolledBack);
        if step == "clock" {
            assert_eq!(desk.timers.get("t").unwrap().y, 10);
            assert_eq!(desk.store.notes.get("a").unwrap().closed_at, None);
        } else {
            assert_eq!(desk.records(&IDS), records);
            if !step.starts_with("scale") {
                assert_eq!(desk.state(&IDS), before, "failing at {step}");
            }
        }
    }
}

#[test]
fn a_note_that_cannot_be_reopened_is_reported() {
    let mut desk = group_desk();
    let mut transaction = close_note(&desk, "sticky_b");
    // The window does not close, and the note cannot be taken out of the archive.
    assert_eq!(desk.run(&mut transaction, &[8, 9]), Verdict::RollbackFailed);
    assert_eq!(desk.performed[8..12], ["close b", "restore note", "write timers", "write notes"]);
    assert_eq!(desk.store.notes.get("b").unwrap().closed_at, Some(777));
}

fn close_timer(desk: &Desk) -> Transaction {
    let closing = closing_timer(
        "timer_t",
        &desk.store.notes,
        &desk.timers,
        &desk.groups(&["g"]),
        &texts(&["a", "b"]),
        &texts(&["t"]),
    )
    .unwrap();
    assert!(!closing.removed_top);
    assert_eq!(closing.remaining, vec![sticky("a"), sticky("b")]);
    close_grouped_timer(
        &closing,
        &desk.labels(),
        &desk.geometries,
        LogicalPosition::new(10, 10),
        &desk.store.notes,
        &desk.timers,
    )
    .unwrap()
}

#[test]
fn closing_a_timer_deletes_it_and_closes_the_gap() {
    let mut desk = group_desk();
    let mut transaction = close_timer(&desk);
    assert_eq!(desk.run(&mut transaction, &[]), Verdict::Committed);
    assert!(!desk.timers.contains_key("t"));
    assert_eq!(
        desk.store.groups.get("g").unwrap().members,
        vec![sticky("a"), sticky("z"), sticky("b")]
    );
    assert_eq!(desk.store.notes.get("b").unwrap().y, 122);
    assert!(!desk.windows.contains_key("timer_t"));
}

#[test]
fn a_failed_closing_of_a_timer_is_taken_back() {
    let before = group_desk().state(&IDS);
    let records = group_desk().records(&IDS);
    let steps = {
        let mut desk = group_desk();
        let mut transaction = close_timer(&desk);
        desk.run(&mut transaction, &[]);
        desk.performed
    };
    assert_eq!(
        steps[6..],
        ["write notes", "detach", "remove timer", "close t", "forget t"]
    );
    for (failing, step) in steps.iter().enumerate() {
        if step.starts_with("forget") {
            continue;
        }
        let mut desk = group_desk();
        let mut transaction = close_timer(&desk);
        assert_eq!(desk.run(&mut transaction, &[failing]), Verdict::RolledBack);
        assert_eq!(desk.records(&IDS), records);
        if !step.starts_with("scale") && !step.starts_with("write") {
            assert_eq!(desk.state(&IDS), before, "failing at {step}");
        }
    }
}

#[test]
fn a_timer_that_cannot_be_revived_stops_the_undoing() {
    let mut desk = group_desk();
    let mut transaction = close_timer(&desk);
    assert_eq!(desk.run(&mut transaction, &[9, 10]), Verdict::RollbackFailed);
    assert_eq!(desk.performed[9..], ["close t", "restore timer"]);
    assert!(!desk.timers.contains_key("t"));
}

#[test]
fn closing_takes_one_of_four_routes() {
    let desk = group_desk();
    let groups = desk.groups(&["g"]);
    assert_eq!(close_window("sticky_a", &groups), Ok(CloseRoute::GroupedNote));
    assert_eq!(close_window("sticky_t", &groups), Ok(CloseRoute::Note));
    assert_eq!(close_window("timer_t", &groups), Ok(CloseRoute::GroupedTimer));
    assert_eq!(close_window("timer_a", &groups), Ok(CloseRoute::Timer));
    assert_eq!(
        close_window("menu", &groups),
        Err(GroupError::UnknownWindow("menu".to_string()))
    );
}

#[test]
fn closing_says_what_is_missing() {
    let desk = group_desk();
    let groups = desk.groups(&["g"]);
    let none = texts(&[]);
    let refused = |label: &str, groups: &Vec<StoredGroup>| {
        closing_note(label, &desk.store.notes, groups, &none, &none).err()
    };
    assert_eq!(
        refused("timer_t", &groups),
        Some(GroupError::UnknownWindow("timer_t".to_string()))
    );
    assert_eq!(refused("sticky_x", &groups), Some(GroupError::MissingNote("x".to_string())));
    assert_eq!(refused("sticky_a", &vec![]), Some(GroupError::NotLinked));
    let refused = |label: &str, groups: &Vec<StoredGroup>| {
        closing_timer(label, &desk.store.notes, &Table::new(), groups, &none, &none).err()
    };
    assert_eq!(refused("menu", &groups), Some(GroupError::UnknownWindow("menu".to_string())));
    assert_eq!(refused("timer_t", &vec![]), Some(GroupError::NotLinked));
    assert_eq!(refused("timer_t", &groups), Some(GroupError::MissingTimer("t".to_string())));
}

/// The windows of `group_desk`, with `z` just opened again.
fn reopened_desk() -> Desk {
    let mut desk = group_desk();
    let mut closed = note("z", 500, 500);
    closed.closed_at = Some(5);
    desk.open(&sticky("z"), LogicalPosition::new(500, 500), LogicalSize::new(300, 100));
    desk.store.notes.insert("z".to_string(), closed);
    desk
}

fn reopen(desk: &Desk) -> Transaction {
    let members = restored_members(
        &"z".to_string(),
        &desk.groups(&["g"]),
        &texts(&["a", "b"]),
        &texts(&["t"]),
    );
    assert_eq!(
        members,
        vec![sticky("a"), StoredGroupMember::timer("t"), sticky("z"), sticky("b")]
    );
    restore_archived_note(
        &"z".to_string(),
        &members,
        &desk.labels(),
        &desk.geometries,
        LogicalPosition::new(10, 10),
        &desk.store.notes,
        &desk.timers,
    )
    .unwrap()
}

#[test]
fn a_restored_note_takes_its_slot() {
    let mut desk = reopened_desk();
    let mut transaction = reopen(&desk);
    assert_eq!(desk.run(&mut transaction, &[]), Verdict::Committed);
    let restored = desk.store.notes.get("z").unwrap();
    assert_eq!((restored.closed_at, restored.x, restored.y), (None, 10, 310));
    assert_eq!(desk.store.notes.get("b").unwrap().y, 422);
}

#[test]
fn a_note_that_cannot_be_restored_is_closed_again() {
    let mut expected = reopened_desk();
    expected.windows.remove("sticky_z");
    let before = expected.state(&IDS);
    let records = expected.records(&IDS);
    let steps = {
        let mut desk = reopened_desk();
        let mut transaction = reopen(&desk);
        desk.run(&mut transaction, &[]);
        desk.performed
    };
    assert_eq!(steps.last().unwrap(), "reopen");
    for (failing, step) in steps.iter().enumerate() {
        let mut desk = reopened_desk();
        let mut transaction = reopen(&desk);
        assert_eq!(desk.run(&mut transaction, &[failing]), Verdict::RolledBack);
        assert_eq!(desk.performed.last().unwrap(), "close z");
        assert_eq!(desk.records(&IDS), records);
        if !step.starts_with("scale") && !step.starts_with("write") {
            assert_eq!(desk.state(&IDS), before, "failing at {step}");
        }
    }
}

#[test]
fn a_note_in_no_group_is_restored_by_itself() {
    let mut desk = reopened_desk();
    let id = "z".to_string();
    assert_eq!(restored_members(&id, &vec![], &texts(&["a"]), &texts(&[])), vec![]);
    let mut transaction = restore_archived_note(
        &id,
        &vec![],
        &desk.labels(),
        &desk.geometries,
        LogicalPosition::new(0, 0),
        &desk.store.notes,
        &desk.timers,
    )
    .unwrap();
    assert_eq!(desk.run(&mut transaction, &[]), Verdict::Committed);
    assert_eq!(desk.performed, ["reopen"]);
}

#[test]
fn archived_notes_are_restored_in_the_order_they_were_closed() {
    let closed = |id: &str, at: Option<u64>| StoredNote { closed_at: at, ..note(id, 0, 0) };
    let archived = vec![
        closed("late", Some(9)),
        closed("early", Some(1)),
        closed("never", None),
        closed("also early", Some(1)),
    ];
    let ids: Vec<String> = restore_all_notes(&archived).into_iter().map(|note| note.id).collect();
    assert_eq!(ids, ["never", "early", "also early", "late"]);
    assert_eq!(restore_last_closed(Some(note("x", 0, 0))), Ok(note("x", 0, 0)));
    assert_eq!(restore_last_closed(None), Err(GroupError::NothingToRestore));
}

#[test]
fn restored_windows_are_revealed_and_the_first_gets_the_focus() {
    let mut desk = group_desk();
    let mut transaction = reveal_windows(&vec![sticky("b"), sticky("a")]).unwrap();
    assert_eq!(desk.run(&mut transaction, &[]), Verdict::Committed);
    assert_eq!(desk.performed, ["reveal b", "reveal a", "focus b"]);
    assert_eq!(desk.focused, Some("sticky_b".to_string()));
    assert_eq!(reveal_windows(&vec![]).err(), Some(GroupError::NothingToRestore));
}

/// Two groups whose windows are out of place.
fn scattered_desk() -> Desk {
    let mut desk = Desk::new();
    desk.add_note(note("a", 10, 10));
    desk.add_note(note("b", 99, 99));
    desk.add_timer(timer("t", 400, 20));
    desk.add_note(note("c", 1, 2));
    desk.add_group("g", vec![sticky("a"), sticky("b")]);
    desk.add_group("h", vec![StoredGroupMember::timer("t"), sticky("c")]);
    desk
}

fn put_in_place(desk: &Desk) -> Transaction {
    let lists = open_groups(
        &desk.groups(&["g", "h"]),
        &texts(&["a", "b", "c"]),
        &texts(&["t"]),
    );
    assert_eq!(lists.len(), 2);
    let layouts: Vec<GroupLayout> = lists
        .iter()
        .map(|members| {
            let snapshots =
                snapshots_for_members(&desk.labels(), &desk.geometries, members).unwrap();
            let origin = to_logical(snapshots[0].position);
            layout_for_members_at_origin(snapshots, origin, &desk.store.notes, &desk.timers)
                .unwrap()
        })
        .collect();
    restore_group_layouts(&layouts, &desk.store.notes, &desk.timers).unwrap()
}

#[test]
fn linked_windows_are_put_in_place() {
    let mut desk = scattered_desk();
    let mut transaction = put_in_place(&desk);
    assert_eq!(desk.run(&mut transaction, &[]), Verdict::Committed);
    let b = desk.store.notes.get("b").unwrap();
    assert_eq!((b.x, b.y), (10, 122));
    let c = desk.store.notes.get("c").unwrap();
    assert_eq!((c.x, c.y), (400, 208));
    assert_eq!(desk.windows["sticky_c"].position, PhysicalPosition::new(800, 416));
}

#[test]
fn a_failed_placing_of_groups_is_taken_back() {
    let before = scattered_desk().state(&IDS);
    let steps = {
        let mut desk = scattered_desk();
        let mut transaction = put_in_place(&desk);
        desk.run(&mut transaction, &[]);
        desk.performed
    };
    for (failing, step) in steps.iter().enumerate() {
        let mut desk = scattered_desk();
        let mut transaction = put_in_place(&desk);
        assert_eq!(desk.run(&mut transaction, &[failing]), Verdict::RolledBack);
        assert_eq!(desk.records(&IDS), scattered_desk().records(&IDS));
        if !step.starts_with("scale") {
            assert_eq!(desk.state(&IDS), before, "failing at {step}");
        }
    }
}

#[test]
fn no_groups_need_no_steps() {
    let desk = scattered_desk();
    let transaction = restore_group_layouts(&vec![], &desk.store.notes, &desk.timers).unwrap();
    assert_eq!(transaction.verdict(), Some(Verdict::Committed));
    assert!(!transaction.is_unwinding());
    let layout = stack_members(
        &vec![sticky("a")],
        &desk.labels(),
        &desk.geometries,
        LogicalPosition::new(1, 1),
        &desk.store.notes,
        &desk.timers,
    )
    .unwrap();
    assert_eq!(
        restore_group_layouts(&vec![layout], &Table::new(), &desk.timers).err(),
        Some(GroupError::MissingNote("a".to_string()))
    );
    assert_eq!(
        layout_for_members_at_origin(
            vec![],
            LogicalPosition::new(0, 0),
            &desk.store.notes,
            &desk.timers
        )
        .err(),
        Some(GroupError::NoActiveMembers)
    );
}

fn folding(desk: &Desk, label: &str, collapsed: bool) -> Resizing {
    let found = set_group_member_collapsed(
        label,
        collapsed,
        &desk.store.notes,
        &desk.timers,
        &desk.groups(&["g"]),
    )
    .unwrap()
    .unwrap();
    let size = size_to_logical(desk.geometries.get(&found.member.id).unwrap().size);
    let target = fold_target(&found.current, size, collapsed);
    Resizing {
        target_physical: size_to_physical(target),
        previous_physical: size_to_physical(found.current.durable_size()),
        member: found.member,
        group: found.group,
        old: found.current,
        target,
        collapsed: Some(collapsed),
    }
}

fn resize(desk: &Desk, request: &Resizing) -> Transaction {
    let steps = resize_group_member(
        request,
        &texts(&["a", "b"]),
        &texts(&["t"]),
        &desk.labels(),
        &desk.geometries,
        &desk.store.notes,
        &desk.timers,
    )
    .unwrap();
    resize_transaction(request, steps)
}

#[test]
fn folding_a_note_moves_up_the_windows_below() {
    let mut desk = group_desk();
    let request = folding(&desk, "sticky_a", true);
    assert_eq!(request.target, LogicalSize::new(300, 24));
    let mut transaction = resize(&desk, &request);
    assert_eq!(desk.run(&mut transaction, &[]), Verdict::Committed);
    assert_eq!(
        desk.performed[..4],
        ["unmaximize a", "resizable a", "resize a", "cache a"]
    );
    let folded = desk.store.notes.get("a").unwrap();
    assert!(folded.collapsed && folded.expanded_height == 100);
    assert!(!desk.windows["sticky_a"].resizable);
    assert_eq!(desk.timers.get("t").unwrap().y, 46);
    assert_eq!(desk.store.notes.get("b").unwrap().y, 234);

    let request = folding(&desk, "sticky_a", false);
    assert_eq!(request.target, LogicalSize::new(300, 100));
    let mut transaction = resize(&desk, &request);
    assert_eq!(desk.run(&mut transaction, &[]), Verdict::Committed);
    assert_eq!(desk.focused, Some("sticky_a".to_string()));
    assert_eq!(desk.state(&IDS), group_desk().state(&IDS));
}

#[test]
fn a_failed_folding_is_taken_back() {
    let mut expected = group_desk();
    let steps = {
        let mut desk = group_desk();
        let mut transaction = resize(&desk, &folding(&desk, "timer_t", true));
        desk.run(&mut transaction, &[]);
        desk.performed
    };
    // The user may not resize a timer, folded or not.
    expected.windows.get_mut("timer_t").unwrap().resizable = false;
    for (failing, step) in steps.iter().enumerate() {
        let mut desk = group_desk();
        let mut transaction = resize(&desk, &folding(&desk, "timer_t", true));
        assert_eq!(desk.run(&mut transaction, &[failing]), Verdict::RolledBack);
        assert_eq!(desk.state(&IDS), expected.state(&IDS), "failing at {step}");
        assert_eq!(desk.performed.last().unwrap(), "resizable t");
    }
}

#[test]
fn a_failed_folding_keeps_the_geometry_of_the_folded_window_cached() {
    // A note and a timer below it share an identifier, and so one cached geometry.
    let build = || {
        let mut desk = Desk::new();
        desk.add_note(note("a", 10, 10));
        desk.add_timer(timer("a", 10, 122));
        desk.add_group("g", vec![sticky("a"), StoredGroupMember::timer("a")]);
        desk
    };
    let fold = |desk: &Desk, request: &Resizing| {
        let steps = resize_group_member(
            request,
            &texts(&["a"]),
            &texts(&["a"]),
            &desk.labels(),
            &desk.geometries,
            &desk.store.notes,
            &desk.timers,
        )
        .unwrap();
        resize_transaction(request, steps)
    };
    let mut desk = build();
    let request = folding(&desk, "sticky_a", true);
    let mut transaction = fold(&desk, &request);
    assert_eq!(desk.run(&mut transaction, &[]), Verdict::Committed);
    assert_eq!(desk.timers.get("a").unwrap().y, 46);
    let last = desk.performed.len() - 1;
    assert_eq!(desk.performed[last], "write notes");

    let mut desk = build();
    let mut transaction = fold(&desk, &request);
    assert_eq!(desk.run(&mut transaction, &[last]), Verdict::RolledBack);
    assert_eq!(desk.records(&["a", "g"]), build().records(&["a", "g"]));
    assert_eq!(desk.windows["timer_a"], build().windows["timer_a"]);
    assert_eq!(
        desk.geometries.get("a").unwrap(),
        NoteGeometry {
            position: PhysicalPosition::new(20, 244),
            size: PhysicalSize::new(600, 200),
        }
    );
    assert_eq!(desk.windows["sticky_a"].size, PhysicalSize::new(600, 200));
}

#[test]
fn folding_takes_one_of_three_routes() {
    let desk = group_desk();
    let groups = desk.groups(&["g"]);
    assert_eq!(set_window_collapsed("timer_t", &groups), Ok(FoldRoute::Grouped));
    assert_eq!(set_window_collapsed("sticky_x", &groups), Ok(FoldRoute::Note));
    assert_eq!(set_window_collapsed("timer_x", &groups), Ok(FoldRoute::Timer));
    assert_eq!(
        set_window_collapsed("x", &groups),
        Err(GroupError::UnknownWindow("x".to_string()))
    );
    let fold = |label: &str, collapsed: bool, groups: &Vec<StoredGroup>| {
        set_group_member_collapsed(label, collapsed, &desk.store.notes, &desk.timers, groups)
    };
    assert!(fold("sticky_a", false, &groups).unwrap().is_none());
    assert_eq!(fold("sticky_a", true, &vec![]).err(), Some(GroupError::NotLinked));
    assert_eq!(
        fold("sticky_x", true, &groups).err(),
        Some(GroupError::MissingNote("x".to_string()))
    );
    assert_eq!(
        fold("x", true, &groups).err(),
        Some(GroupError::UnknownWindow("x".to_string()))
    );
}

#[test]
fn resizing_needs_an_active_window_that_is_placed() {
    let desk = group_desk();
    let request = folding(&desk, "sticky_a", true);
    let refused = |notes: &[&str], labels: &Vec<String>, geometries: &GeometryIndex| {
        resize_group_member(
            &request,
            &texts(notes),
            &texts(&["t"]),
            labels,
            geometries,
            &desk.store.notes,
            &desk.timers,
        )
        .err()
    };
    assert_eq!(refused(&["b"], &desk.labels(), &desk.geometries), Some(GroupError::NotActive));
    assert_eq!(
        refused(&["a"], &desk.labels(), &GeometryIndex::default()),
        Some(GroupError::MissingGeometry("a".to_string()))
    );
    assert_eq!(
        refused(&["a"], &texts(&["sticky_a"]), &desk.geometries),
        Some(GroupError::MissingWindow(StoredGroupMember::timer("t")))
    );
}

#[test]
fn a_note_of_a_group_gets_a_new_height_with_its_group() {
    let desk = group_desk();
    let found = note_to_resize("sticky_a", &desk.store.notes).unwrap().unwrap();
    assert_eq!(found.id, "a");
    match resize_note_height(
        "a",
        40,
        LogicalSize::new(100, 100),
        desk.geometries.get("a").unwrap(),
        &desk.groups(&["g"]),
    ) {
        NoteResize::Grouped { group, target } => {
            assert_eq!((group.id.as_str(), target), ("g", LogicalSize::new(150, 80)));
        }
        NoteResize::Alone(_) => panic!("the note is in a group"),
    }
    assert_eq!(
        note_to_resize("timer_t", &desk.store.notes),
        Err(GroupError::UnknownWindow("timer_t".to_string()))
    );
    assert_eq!(
        note_to_resize("sticky_x", &desk.store.notes),
        Err(GroupError::MissingNote("x".to_string()))
    );
}

#[test]
fn a_note_by_itself_is_stored_as_it_was_measured() {
    let mut desk = group_desk();
    let geometry = desk.geometries.get("a").unwrap();
    let alone = || match resize_note_height("a", 333, LogicalSize::new(300, 100), geometry, &vec![])
    {
        NoteResize::Alone(transaction) => transaction,
        NoteResize::Grouped { .. } => panic!("the note is in no group"),
    };
    assert_eq!(desk.run(&mut alone(), &[]), Verdict::Committed);
    assert_eq!(
        desk.performed,
        ["resize a", "measure a", "cache a", "convert a", "set size"]
    );
    assert_eq!(desk.store.notes.get("a").unwrap().expanded_height, 333);
    assert_eq!(desk.geometries.get("a").unwrap().size, PhysicalSize::new(600, 666));

    let mut desk = group_desk();
    assert_eq!(desk.run(&mut alone(), &[4]), Verdict::RolledBack);
    assert_eq!(desk.state(&IDS), group_desk().state(&IDS));

    let mut folded = note("a", 0, 0);
    folded.collapsed = true;
    let mut notes = Table::new();
    notes.insert("a".to_string(), folded);
    assert_eq!(note_to_resize("sticky_a", &notes), Ok(None));
}

/// A window of `desk` that was found at `position` with `size`.
fn settling(
    desk: &Desk,
    member: StoredGroupMember,
    grouped: bool,
    position: LogicalPosition,
    size: LogicalSize,
) -> Settling {
    let current = match member.kind {
        stickymd::member::GroupMemberKind::Note => {
            StoredSurface::Note(desk.store.notes.get(&member.id).unwrap().clone())
        }
        stickymd::member::GroupMemberKind::Timer => {
            StoredSurface::Timer(desk.timers.get(&member.id).unwrap().clone())
        }
    };
    let drag_start = match ended_drag_origin(&desk.runtime, &member) {
        Some(origin) => to_logical(origin),
        None => LogicalPosition::new(0, 0),
    };
    Settling {
        home: to_physical(current.position()),
        member,
        current,
        grouped,
        geometry: NoteGeometry { position: to_physical(position), size: size_to_physical(size) },
        position,
        size,
        drag_start,
    }
}

fn settle(desk: &mut Desk, request: &Settling) -> FollowUp {
    assert!(can_settle(&desk.runtime, request));
    let settlement = settle_window_geometry(&mut desk.runtime, request);
    let mut transaction = Transaction::begin(settlement.steps);
    assert_eq!(desk.run(&mut transaction, &[]), Verdict::Committed);
    settlement.follow_up
}

#[test]
fn windows_are_not_settled_while_they_are_dragged() {
    let mut desk = group_desk();
    assert_eq!(window_to_settle("sticky_a", &desk.runtime), Ok(Some(sticky("a"))));
    desk.runtime.begin_user_drag("sticky_a".to_string(), PhysicalPosition::new(20, 20));
    assert_eq!(window_to_settle("sticky_a", &desk.runtime), Ok(None));
    assert_eq!(
        window_to_settle("a", &desk.runtime),
        Err(GroupError::UnknownWindow("a".to_string()))
    );
}

#[test]
fn a_short_drag_in_a_group_is_reverted() {
    let mut desk = group_desk();
    desk.runtime.begin_user_drag("sticky_a".to_string(), PhysicalPosition::new(20, 20));
    desk.runtime.complete_user_drag("sticky_a").unwrap();
    let request = settling(
        &desk,
        sticky("a"),
        true,
        LogicalPosition::new(14, 6),
        LogicalSize::new(300, 100),
    );
    assert_eq!(settle(&mut desk, &request), FollowUp::Nothing);
    assert_eq!(desk.performed, ["place a", "cache a", "record a"]);
    assert_eq!(desk.windows["sticky_a"].position, PhysicalPosition::new(20, 20));
    assert_eq!(desk.runtime.take_completed_drag("sticky_a"), None);
}

#[test]
fn a_long_drag_takes_a_window_out_of_its_group() {
    let mut desk = group_desk();
    desk.runtime.begin_user_drag("timer_t".to_string(), PhysicalPosition::new(20, 244));
    desk.runtime.complete_user_drag("timer_t").unwrap();
    let request = settling(
        &desk,
        StoredGroupMember::timer("t"),
        true,
        LogicalPosition::new(15, 122),
        LogicalSize::new(300, 176),
    );
    assert_eq!(settle(&mut desk, &request), FollowUp::Detach);
    assert!(desk.performed.is_empty());

    let home = NoteGeometry {
        position: to_physical(request.current.position()),
        size: size_to_physical(request.current.durable_size()),
    };
    let detach = || {
        detach_member(
            &request.member,
            "g",
            &request.current,
            request.position,
            request.size,
            home,
        )
    };
    assert_eq!(desk.run(&mut detach(), &[]), Verdict::Committed);
    assert_eq!(desk.performed, ["write timers", "detach"]);
    assert_eq!(desk.timers.get("t").unwrap().x, 15);
    assert_eq!(
        desk.store.groups.get("g").unwrap().members,
        vec![sticky("a"), sticky("z"), sticky("b")]
    );

    let mut desk = group_desk();
    desk.windows.get_mut("timer_t").unwrap().position = PhysicalPosition::new(30, 244);
    assert_eq!(desk.run(&mut detach(), &[1]), Verdict::RolledBack);
    assert_eq!(desk.state(&IDS), group_desk().state(&IDS));
    let mut desk = group_desk();
    assert_eq!(desk.run(&mut detach(), &[1, 4]), Verdict::RolledBack);
    assert_eq!(
        desk.performed,
        ["write timers", "detach", "write timers", "resize t", "move t"]
    );
}

#[test]
fn a_drag_of_a_window_in_no_group_is_stored() {
    let mut desk = group_desk();
    desk.runtime.begin_user_drag("sticky_a".to_string(), PhysicalPosition::new(20, 20));
    desk.runtime.complete_user_drag("sticky_a").unwrap();
    let request = settling(
        &desk,
        sticky("a"),
        false,
        LogicalPosition::new(500, 600),
        LogicalSize::new(140, 222),
    );
    assert_eq!(settle(&mut desk, &request), FollowUp::Nothing);
    let stored = desk.store.notes.get("a").unwrap();
    assert_eq!((stored.x, stored.y), (500, 600));
    assert_eq!((stored.expanded_width, stored.expanded_height), (150, 222));
}

#[test]
fn an_awaited_move_is_adopted_and_one_from_elsewhere_is_not() {
    let mut desk = group_desk();
    desk.runtime.record_programmatic_position("sticky_a".to_string(), PhysicalPosition::new(60, 80));
    let request = settling(
        &desk,
        sticky("a"),
        true,
        LogicalPosition::new(31, 41),
        LogicalSize::new(300, 100),
    );
    assert_eq!(settle(&mut desk, &request), FollowUp::Nothing);
    assert_eq!(desk.performed, ["write notes", "cache a"]);
    let stored = desk.store.notes.get("a").unwrap();
    assert_eq!((stored.x, stored.y), (31, 41));
    assert!(!desk.runtime.programmatic_positions.contains_key("sticky_a"));

    let mut desk = group_desk();
    desk.runtime.record_programmatic_position("sticky_a".to_string(), PhysicalPosition::new(60, 80));
    let request = settling(
        &desk,
        sticky("a"),
        true,
        LogicalPosition::new(300, 41),
        LogicalSize::new(300, 100),
    );
    assert_eq!(settle(&mut desk, &request), FollowUp::Nothing);
    assert!(desk.performed.is_empty());
    assert!(desk.runtime.programmatic_positions.contains_key("sticky_a"));
}

#[test]
fn a_pinned_window_is_put_back() {
    let mut desk = group_desk();
    let mut pinned = note("a", 10, 10);
    pinned.pinned = true;
    desk.store.notes.insert("a".to_string(), pinned);
    let request = settling(
        &desk,
        sticky("a"),
        false,
        LogicalPosition::new(300, 41),
        LogicalSize::new(300, 100),
    );
    assert_eq!(settle(&mut desk, &request), FollowUp::Nothing);
    assert_eq!(desk.performed, ["move a", "cache a", "record a"]);
    assert_eq!(desk.windows["sticky_a"].position, PhysicalPosition::new(20, 20));
}

#[test]
fn a_resized_window_is_stored_or_resizes_its_group() {
    let mut desk = group_desk();
    let place = LogicalPosition::new(10, 10);
    let request = settling(&desk, sticky("a"), false, place, LogicalSize::new(140, 300));
    assert_eq!(settle(&mut desk, &request), FollowUp::Nothing);
    assert_eq!(desk.performed, ["write notes"]);
    let stored = desk.store.notes.get("a").unwrap();
    assert_eq!((stored.expanded_width, stored.expanded_height), (150, 300));

    let mut desk = group_desk();
    let request = settling(&desk, sticky("a"), true, place, LogicalSize::new(140, 300));
    assert_eq!(settle(&mut desk, &request), FollowUp::Resize(LogicalSize::new(150, 300)));
    assert!(desk.performed.is_empty());
    let request = settling(&desk, sticky("a"), true, place, LogicalSize::new(300, 100));
    assert_eq!(settle(&mut desk, &request), FollowUp::Nothing);
    assert!(desk.performed.is_empty());
}

#[test]
fn distances_that_do_not_fit_are_told_apart() {
    let mut desk = group_desk();
    desk.runtime.record_programmatic_position(
        "sticky_a".to_string(),
        PhysicalPosition::new(i32::MIN, 0),
    );
    let request = settling(
        &desk,
        sticky("a"),
        true,
        LogicalPosition::new(10, 10),
        LogicalSize::new(300, 100),
    );
    assert!(!can_settle(&desk.runtime, &request));
    desk.runtime.forget("sticky_a");
    assert!(can_settle(&desk.runtime, &request));
}

/// The windows of two groups and one that is in none.
fn packing_desk() -> Desk {
    let mut desk = scattered_desk();
    desk.add_note(note("p", 50, 0));
    desk
}

fn packed(desk: &Desk) -> (Vec<StoredGroupMember>, Transaction) {
    let ordered = reset_order(
        &desk.groups(&["g", "h"]),
        &texts(&["a", "b", "c", "p"]),
        &open_timer_ids(&texts(&["t", "u"]), &desk.labels()),
        &desk.geometries,
    )
    .unwrap();
    let sizes = reset_sizes(&ordered, &desk.store.notes, &desk.timers).unwrap();
    assert_eq!(sizes[0], LogicalSize::new(300, 100));
    let targets: Vec<PhysicalPosition> =
        (0..ordered.len() as i32).map(|i| PhysicalPosition::new(1000, i * 400)).collect();
    let logical: Vec<LogicalPosition> = targets.iter().map(|target| to_logical(*target)).collect();
    let transaction = reset_window_positions(
        &ordered,
        &desk.labels(),
        &desk.geometries,
        &targets,
        &logical,
        &desk.store.notes,
        &desk.timers,
    )
    .unwrap();
    (ordered, transaction)
}

#[test]
fn packing_takes_every_active_window_in_reading_order_and_unlinks_all() {
    let mut desk = packing_desk();
    let (ordered, mut transaction) = packed(&desk);
    assert_eq!(
        ordered,
        vec![
            sticky("p"),
            sticky("a"),
            sticky("b"),
            StoredGroupMember::timer("t"),
            sticky("c")
        ]
    );
    assert_eq!(desk.run(&mut transaction, &[]), Verdict::Committed);
    assert!(!desk.store.groups.contains_key("g") && !desk.store.groups.contains_key("h"));
    let b = desk.store.notes.get("b").unwrap();
    assert_eq!((b.x, b.y), (500, 400));
    assert_eq!(desk.windows["sticky_b"].position, PhysicalPosition::new(1000, 800));
    assert!(desk.windows.values().all(|window| window.shown));
    assert_eq!(desk.focused, Some("sticky_p".to_string()));
}

#[test]
fn a_failed_packing_is_taken_back() {
    let steps = {
        let mut desk = packing_desk();
        let (_, mut transaction) = packed(&desk);
        desk.run(&mut transaction, &[]);
        desk.performed
    };
    for (failing, step) in steps.iter().enumerate() {
        let mut desk = packing_desk();
        let (_, mut transaction) = packed(&desk);
        assert_eq!(desk.run(&mut transaction, &[failing]), Verdict::RolledBack);
        if step.starts_with("focus") {
            assert!(!desk.store.groups.contains_key("g"));
            continue;
        }
        assert_eq!(desk.records(&IDS), packing_desk().records(&IDS), "failing at {step}");
        for window in desk.windows.values_mut() {
            window.shown = false;
        }
        assert_eq!(desk.state(&IDS), packing_desk().state(&IDS), "failing at {step}");
    }
}

#[test]
fn packing_without_a_window_does_nothing() {
    let mut desk = packing_desk();
    let before = desk.state(&IDS);
    let none = texts(&[]);
    let ordered =
        reset_order(&desk.groups(&["g", "h"]), &none, &none, &GeometryIndex::default()).unwrap();
    assert_eq!(ordered, vec![]);
    let mut transaction = reset_window_positions(
        &ordered,
        &desk.labels(),
        &desk.geometries,
        &vec![],
        &vec![],
        &desk.store.notes,
        &desk.timers,
    )
    .unwrap();
    assert!(transaction.next_effect().is_none());
    assert_eq!(desk.run(&mut transaction, &[]), Verdict::Committed);
    assert!(desk.performed.is_empty());
    assert_eq!(desk.state(&IDS), before);
}

#[test]
fn windows_are_packed_one_by_one_from_the_upper_right() {
    let area = NoteGeometry {
        position: PhysicalPosition::new(0, 50),
        size: PhysicalSize::new(2000, 900),
    };
    let targets = |sizes: &[(u32, u32)]| {
        let sizes = sizes.iter().map(|(width, height)| PhysicalSize::new(*width, *height)).collect();
        reset_targets(area, &sizes, 24, 40, 128, 128)
    };
    assert_eq!(
        targets(&[(600, 200), (400, 352), (600, 300)]),
        Ok(vec![
            PhysicalPosition::new(1272, 178),
            PhysicalPosition::new(1472, 402),
            PhysicalPosition::new(648, 178),
        ])
    );
    assert_eq!(targets(&[]), Ok(vec![]));
    assert_eq!(
        targets(&[(600, 200), (600, 900)]),
        Err(GroupError::Reset(ResetError::GroupTooLarge))
    );
    assert_eq!(
        targets(&[(900, 700), (900, 700), (900, 700)]),
        Err(GroupError::Reset(ResetError::DoesNotFit))
    );
}

#[test]
fn packing_says_what_is_missing() {
    let desk = packing_desk();
    assert_eq!(
        reset_order(&vec![], &texts(&["a", "x"]), &texts(&[]), &desk.geometries),
        Err(GroupError::MissingGeometry("x".to_string()))
    );
    assert_eq!(
        reset_sizes(&vec![sticky("x")], &desk.store.notes, &desk.timers),
        Err(GroupError::MissingNote("x".to_string()))
    );
    let refused = reset_window_positions(
        &vec![sticky("a")],
        &texts(&[]),
        &desk.geometries,
        &vec![PhysicalPosition::new(0, 0)],
        &vec![LogicalPosition::new(0, 0)],
        &desk.store.notes,
        &desk.timers,
    );
    assert_eq!(refused.err(), Some(GroupError::MissingWindow(sticky("a"))));
}

#[test]
fn every_transaction_ends() {
    let mut desk = link_desk();
    let mut transaction = link(&desk);
    let mut events = 0;
    while let Some(effect) = transaction.next_effect() {
        assert_eq!(transaction.verdict(), None);
        let event = if events == 9 { Event::Failed } else { desk.perform(&effect) };
        transaction.advance(event);
        events += 1;
        assert!(events < 100);
    }
    assert_eq!(transaction.verdict(), Some(Verdict::RolledBack));
    transaction.advance(Event::Done);
    assert_eq!(transaction.verdict(), Some(Verdict::RolledBack));
}
