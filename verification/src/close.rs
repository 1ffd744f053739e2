//! Closing windows: archiving a note, deleting a timer, and moving up the
//! windows that are left of its group.
use vstd::prelude::*;

use crate::effect::{
    CacheAction, Effect, EffectView, NoteAction, NoteActionView, TimerAction, TimerActionView,
    WindowAction,
};
use crate::error::GroupError;
use crate::geometry::{GeometryIndex, LogicalPosition};
use crate::groups::{
    active_and_kept, active_group_members, active_members, first_group_of, group_of,
    groups_detached, is_in_group, is_linked, other_than, without,
};
use crate::in_place::{ends_in_place, lemma_first_layout_ends_in_place, spares};
use crate::layout::{
    applying, can_stack, differs_only_at, is_id_of, is_label_of, is_reading, is_stack_of,
    join_undos, layout_events, layout_replacements, lemma_restored, lemma_stack_members, members_of,
    restore_snapshots, restoring, same_desktop, same_records, says_why_not_stacked, shows,
    stack_members, windows_are_distinct, LayoutView, ScaleReading, SnapshotView,
};
use crate::member::{
    label_member, law_labels_name_their_window, note_id_from_label, GroupMemberKind, MemberView,
    StoredGroupMember,
};
use crate::member_set::MemberSet;
use crate::persist::{
    are_stored, is_keyed, is_placeable, is_write, layout_originals, lemma_layout_replacements,
    lemma_placing_keeps, lemma_replaced_elsewhere, lemma_rolled_back, names_missing_surface,
    place_windows, placing, rollback, written,
};
use crate::store::{
    is_missing_surface, stored_surface, surface_of, GroupView, StoredGroup, TimerStore,
};
use crate::surface::{NoteView, StoredNote, StoredSurface, SurfaceView, TimerView};
use crate::table::Table;
use crate::transaction::{
    begun, resolved, Event, OnFailure, Registers, Step, StepView, Transaction, Undo, UndoView,
};
use crate::views::{group_views, views};
use crate::world::{
    keeps, lemma_keeps_add, lemma_undone_add, lemma_undone_one, performed, played, undone, Promise,
    World,
};

verus! {

/// How a window is closed.
#[derive(Debug, Clone, Copy, PartialEq, Eq, Structural)]
pub enum CloseRoute {
    /// The window is a note in a group: archive it and close the gap.
    GroupedNote,
    /// The window is a note in no group: archive it.
    Note,
    /// The window is a timer in a group: delete it and close the gap.
    GroupedTimer,
    /// The window is a timer in no group: delete it.
    Timer,
}

/// Decides how the window with the given label is closed.
pub fn close_window(label: &str, groups: &Vec<StoredGroup>) -> (route: Result<
    CloseRoute,
    GroupError,
>)
    ensures
        match label_member(label@) {
            Some(member) => route == Ok::<CloseRoute, GroupError>(
                match (member.kind, is_linked(views(groups@), member)) {
                    (GroupMemberKind::Note, true) => CloseRoute::GroupedNote,
                    (GroupMemberKind::Note, false) => CloseRoute::Note,
                    (GroupMemberKind::Timer, true) => CloseRoute::GroupedTimer,
                    (GroupMemberKind::Timer, false) => CloseRoute::Timer,
                },
            ),
            None => route matches Err(GroupError::UnknownWindow(unknown)) && unknown@ == label@,
        },
{
    let member = match StoredGroupMember::from_window_label(label) {
        Ok(member) => member,
        Err(unknown) => {
            return Err(GroupError::UnknownWindow(unknown.label));
        },
    };
    let linked = is_in_group(groups, &member);
    Ok(
        match (member.kind, linked) {
            (GroupMemberKind::Note, true) => CloseRoute::GroupedNote,
            (GroupMemberKind::Note, false) => CloseRoute::Note,
            (GroupMemberKind::Timer, true) => CloseRoute::GroupedTimer,
            (GroupMemberKind::Timer, false) => CloseRoute::Timer,
        },
    )
}

/// A window of a group that is about to be closed.
pub struct Closing {
    pub member: StoredGroupMember,
    /// What is stored of the window.
    pub surface: StoredSurface,
    pub group: StoredGroup,
    /// The active windows of the group that are left, in order.
    pub remaining: Vec<StoredGroupMember>,
    /// Whether the window is the topmost active one of its group.
    pub removed_top: bool,
}

/// A window of a group that is about to be closed, as contracts speak of it.
pub struct ClosingView {
    pub member: MemberView,
    pub surface: SurfaceView,
    pub group: GroupView,
    pub remaining: Seq<MemberView>,
    pub removed_top: bool,
}

impl View for Closing {
    type V = ClosingView;

    open spec fn view(&self) -> ClosingView {
        ClosingView {
            member: self.member@,
            surface: self.surface@,
            group: self.group@,
            remaining: views(self.remaining@),
            removed_top: self.removed_top,
        }
    }
}

/// What closing a window of a group concerns.
pub open spec fn closing_of(
    member: MemberView,
    surface: SurfaceView,
    group: GroupView,
    active_notes: Seq<Seq<char>>,
    open_timers: Seq<Seq<char>>,
) -> ClosingView {
    let active = active_members(active_notes, open_timers, group.members, Set::empty());
    ClosingView {
        member,
        surface,
        group,
        remaining: active_members(active_notes, open_timers, group.members, set![member]),
        removed_top: active.len() > 0 && active[0] == member,
    }
}

/// Gathers what closing a window of a group concerns.
fn gather(
    member: StoredGroupMember,
    surface: StoredSurface,
    group: StoredGroup,
    active_notes: &Vec<String>,
    open_timers: &Vec<String>,
) -> (closing: Closing)
    ensures
        closing@ == closing_of(
            member@,
            surface@,
            group@,
            views(active_notes@),
            views(open_timers@),
        ),
{
    let active_before = active_group_members(active_notes, open_timers, &group, &MemberSet::new());
    let removed_top = active_before.len() > 0 && active_before[0].same_window(&member);
    let mut excluded = MemberSet::new();
    excluded.insert(member.clone());
    proof {
        assert(excluded@ =~= set![member@]);
        assert(views(active_before@).len() == active_before@.len());
    }
    let remaining = active_group_members(active_notes, open_timers, &group, &excluded);
    Closing { member, surface, group, remaining, removed_top }
}

/// Gathers what closing the note with the given window label concerns.
pub fn closing_note(
    label: &str,
    notes: &Table<StoredNote>,
    groups: &Vec<StoredGroup>,
    active_notes: &Vec<String>,
    open_timers: &Vec<String>,
) -> (closing: Result<Closing, GroupError>)
    ensures
        match closing {
            Ok(closing) => {
                &&& label_member(label@) matches Some(member)
                &&& member.kind == GroupMemberKind::Note
                &&& notes@.contains_key(member.id)
                &&& first_group_of(views(groups@), member) matches Some(group)
                &&& closing@ == closing_of(
                    member,
                    SurfaceView::Note(notes@[member.id]),
                    group,
                    views(active_notes@),
                    views(open_timers@),
                )
            },
            Err(GroupError::UnknownWindow(unknown)) => {
                &&& unknown@ == label@
                &&& match label_member(label@) {
                    Some(member) => member.kind != GroupMemberKind::Note,
                    None => true,
                }
            },
            Err(GroupError::MissingNote(id)) => {
                &&& label_member(label@) matches Some(member)
                &&& member.kind == GroupMemberKind::Note
                &&& member.id == id@
                &&& !notes@.contains_key(id@)
            },
            Err(GroupError::NotLinked) => {
                &&& label_member(label@) matches Some(member)
                &&& member.kind == GroupMemberKind::Note
                &&& notes@.contains_key(member.id)
                &&& first_group_of(views(groups@), member) is None
            },
            Err(_) => false,
        },
{
    let id = match note_id_from_label(label) {
        Ok(id) => id,
        Err(unknown) => {
            return Err(GroupError::UnknownWindow(unknown.label));
        },
    };
    let previous = match notes.get(id.as_str()) {
        Some(note) => note.clone(),
        None => {
            return Err(GroupError::MissingNote(id));
        },
    };
    let member = StoredGroupMember::note(id.as_str());
    match group_of(groups, &member) {
        Some(group) => Ok(
            gather(member, StoredSurface::Note(previous), group, active_notes, open_timers),
        ),
        None => Err(GroupError::NotLinked),
    }
}

/// Gathers what closing the timer with the given window label concerns.
pub fn closing_timer(
    label: &str,
    notes: &Table<StoredNote>,
    timers: &TimerStore,
    groups: &Vec<StoredGroup>,
    active_notes: &Vec<String>,
    open_timers: &Vec<String>,
) -> (closing: Result<Closing, GroupError>)
    ensures
        match label_member(label@) {
            Some(member) => match closing {
                Ok(closing) => {
                    &&& surface_of(notes@, timers@, member) matches Some(surface)
                    &&& first_group_of(views(groups@), member) matches Some(group)
                    &&& closing@ == closing_of(
                        member,
                        surface,
                        group,
                        views(active_notes@),
                        views(open_timers@),
                    )
                },
                Err(GroupError::NotLinked) => first_group_of(views(groups@), member) is None,
                Err(error) => {
                    &&& first_group_of(views(groups@), member) is Some
                    &&& surface_of(notes@, timers@, member) is None
                    &&& is_missing_surface(error, member)
                },
            },
            None => closing matches Err(GroupError::UnknownWindow(unknown)) && unknown@ == label@,
        },
{
    let member = match StoredGroupMember::from_window_label(label) {
        Ok(member) => member,
        Err(unknown) => {
            return Err(GroupError::UnknownWindow(unknown.label));
        },
    };
    let group = match group_of(groups, &member) {
        Some(group) => group,
        None => {
            return Err(GroupError::NotLinked);
        },
    };
    match stored_surface(notes, timers, &member) {
        Ok(surface) => Ok(gather(member, surface, group, active_notes, open_timers)),
        Err(error) => Err(error),
    }
}

/// Where the windows that are left are stacked from: where the closed window
/// was, if it was the topmost, else where the first of them is.
pub open spec fn compaction_origin(
    closing: ClosingView,
    first_origin: LogicalPosition,
) -> LogicalPosition {
    if closing.removed_top {
        closing.surface.position()
    } else {
        first_origin
    }
}

/// The steps that archive a note and close its window, where `back` undoes what
/// was done before.
pub open spec fn close_note_tail(
    closing: ClosingView,
    note: NoteView,
    back: Seq<UndoView>,
) -> Seq<StepView> {
    seq![
        StepView { effect: EffectView::ReadClock, only_if_moving: false, unwind: Seq::empty() },
        StepView {
            effect: EffectView::Notes(NoteActionView::ArchiveNow(closing.member.id)),
            only_if_moving: false,
            unwind: back,
        },
        StepView {
            effect: EffectView::Window(closing.member, WindowAction::Close),
            only_if_moving: false,
            unwind: seq![
                UndoView {
                    effect: EffectView::Notes(
                        NoteActionView::Restore { id: closing.member.id, note },
                    ),
                    on_failure: OnFailure::Report,
                },
            ] + back,
        },
        StepView {
            effect: EffectView::Cache(closing.member, CacheAction::Forget),
            only_if_moving: false,
            unwind: Seq::empty(),
        },
    ]
}

/// The steps that close a note of a group: move up the windows that are left,
/// store where they are, archive the note, and close its window.
pub open spec fn close_note_plan(
    closing: ClosingView,
    note: NoteView,
    layout: LayoutView,
    notes: Map<Seq<char>, NoteView>,
    timers: Map<Seq<char>, TimerView>,
) -> Seq<StepView> {
    let restore = restoring(layout.snapshots);
    let back = rollback(layout_originals(layout, notes, timers)) + restore;
    placing(layout, notes, timers, Seq::empty(), restore) + close_note_tail(closing, note, back)
}

/// Closes a note of a group. `first_origin` is where the first of the windows
/// that are left is; of no meaning if none is left.
pub fn close_group_member(
    closing: &Closing,
    open_labels: &Vec<String>,
    geometries: &GeometryIndex,
    first_origin: LogicalPosition,
    notes: &Table<StoredNote>,
    timers: &TimerStore,
) -> (transaction: Result<Transaction, GroupError>)
    requires
        closing@.surface is Note,
    ensures
        ({
            let origin = compaction_origin(closing@, first_origin);
            match transaction {
                Ok(transaction) => {
                    &&& can_stack(
                        closing@.remaining,
                        views(open_labels@),
                        geometries@,
                        origin,
                        notes@,
                        timers@,
                    )
                    &&& are_stored(closing@.remaining, notes@, timers@)
                    &&& exists|layout: LayoutView|
                        {
                            &&& is_stack_of(
                                layout,
                                closing@.remaining,
                                geometries@,
                                origin,
                                notes@,
                                timers@,
                            )
                            &&& transaction@ == begun(
                                #[trigger] close_note_plan(
                                    closing@,
                                    closing@.surface->Note_0,
                                    layout,
                                    notes@,
                                    timers@,
                                ),
                            )
                        }
                },
                Err(error) => {
                    ||| says_why_not_stacked(
                            error,
                            closing@.remaining,
                            views(open_labels@),
                            geometries@,
                            origin,
                            notes@,
                            timers@,
                        )
                    ||| !are_stored(closing@.remaining, notes@, timers@) && names_missing_surface(
                            error,
                            notes@,
                            timers@,
                        )
                },
            }
        }),
{
    broadcast use group_views;

    let note = match &closing.surface {
        StoredSurface::Note(note) => note.clone(),
        StoredSurface::Timer(timer) => {
            proof {
                assert(false);
            }
            return Err(GroupError::MissingNote(timer.id.clone()));
        },
    };
    let origin = if closing.removed_top {
        closing.surface.position()
    } else {
        first_origin
    };
    let layout = match stack_members(
        &closing.remaining,
        open_labels,
        geometries,
        origin,
        notes,
        timers,
    ) {
        Ok(layout) => layout,
        Err(error) => {
            return Err(error);
        },
    };
    proof {
        lemma_stack_members(layout@, closing@.remaining, geometries@, origin, notes@, timers@);
    }
    let placed = layout.snapshots();
    let restore = restore_snapshots(placed, placed.len());
    proof {
        assert(layout@.snapshots.take(placed@.len() as int) =~= layout@.snapshots);
    }
    let nothing: Vec<Undo> = Vec::new();
    let compaction = match place_windows(&layout, notes, timers, &nothing, &restore) {
        Ok(compaction) => compaction,
        Err(error) => {
            return Err(error);
        },
    };
    let back = join_undos(compaction.rollback, &restore);
    let mut reopen: Vec<Undo> = Vec::new();
    reopen.push(
        Undo {
            effect: Effect::Notes(NoteAction::Restore { id: closing.member.id.clone(), note }),
            on_failure: OnFailure::Report,
        },
    );
    let after_close = join_undos(reopen, &back);
    let mut steps = compaction.steps;
    let ghost first = views(steps@);
    steps.push(
        Step { effect: Effect::ReadClock, only_if_moving: false, unwind: Vec::new() },
    );
    steps.push(
        Step {
            effect: Effect::Notes(NoteAction::ArchiveNow(closing.member.id.clone())),
            only_if_moving: false,
            unwind: back,
        },
    );
    steps.push(
        Step {
            effect: Effect::Window(closing.member.clone(), WindowAction::Close),
            only_if_moving: false,
            unwind: after_close,
        },
    );
    steps.push(
        Step {
            effect: Effect::Cache(closing.member.clone(), CacheAction::Forget),
            only_if_moving: false,
            unwind: Vec::new(),
        },
    );
    proof {
        let note_view = closing@.surface->Note_0;
        assert(views(after_close@) =~= seq![
            UndoView {
                effect: EffectView::Notes(
                    NoteActionView::Restore { id: closing@.member.id, note: note_view },
                ),
                on_failure: OnFailure::Report,
            },
        ] + views(back@));
        assert(views(steps@) =~= close_note_plan(
            closing@,
            note_view,
            layout@,
            notes@,
            timers@,
        ));
    }
    Ok(Transaction::begin(steps))
}

/// The steps that take a timer out of its group, delete it and close its window,
/// where `back` undoes what was done before.
pub open spec fn close_timer_tail(
    closing: ClosingView,
    timer: TimerView,
    back: Seq<UndoView>,
) -> Seq<StepView> {
    seq![
        StepView {
            effect: EffectView::Notes(
                NoteActionView::Detach { group_id: closing.group.id, member: closing.member },
            ),
            only_if_moving: false,
            unwind: back,
        },
        StepView {
            effect: EffectView::Timers(TimerActionView::Remove(closing.member.id)),
            only_if_moving: false,
            unwind: seq![
                UndoView {
                    effect: EffectView::Notes(NoteActionView::InsertGroup(closing.group)),
                    on_failure: OnFailure::Skip(0),
                },
            ] + back,
        },
        StepView {
            effect: EffectView::Window(closing.member, WindowAction::Close),
            only_if_moving: false,
            unwind: seq![
                UndoView {
                    effect: EffectView::Timers(TimerActionView::Restore(timer)),
                    on_failure: OnFailure::Stop,
                },
                UndoView {
                    effect: EffectView::Notes(NoteActionView::InsertGroup(closing.group)),
                    on_failure: OnFailure::Stop,
                },
            ] + back,
        },
        StepView {
            effect: EffectView::Cache(closing.member, CacheAction::Forget),
            only_if_moving: false,
            unwind: Seq::empty(),
        },
    ]
}

/// The steps that close a timer of a group: move up the windows that are left,
/// store where they are, take the timer out of the group, delete it, and close
/// its window.
pub open spec fn close_timer_plan(
    closing: ClosingView,
    timer: TimerView,
    layout: LayoutView,
    notes: Map<Seq<char>, NoteView>,
    timers: Map<Seq<char>, TimerView>,
) -> Seq<StepView> {
    let back = rollback(layout_originals(layout, notes, timers)) + restoring(layout.snapshots);
    placing(layout, notes, timers, Seq::empty(), Seq::empty()) + close_timer_tail(
        closing,
        timer,
        back,
    )
}

/// Closes a timer of a group. `first_origin` is where the first of the windows
/// that are left is; of no meaning if none is left.
pub fn close_grouped_timer(
    closing: &Closing,
    open_labels: &Vec<String>,
    geometries: &GeometryIndex,
    first_origin: LogicalPosition,
    notes: &Table<StoredNote>,
    timers: &TimerStore,
) -> (transaction: Result<Transaction, GroupError>)
    requires
        closing@.surface is Timer,
    ensures
        ({
            let origin = compaction_origin(closing@, first_origin);
            match transaction {
                Ok(transaction) => {
                    &&& can_stack(
                        closing@.remaining,
                        views(open_labels@),
                        geometries@,
                        origin,
                        notes@,
                        timers@,
                    )
                    &&& are_stored(closing@.remaining, notes@, timers@)
                    &&& exists|layout: LayoutView|
                        {
                            &&& is_stack_of(
                                layout,
                                closing@.remaining,
                                geometries@,
                                origin,
                                notes@,
                                timers@,
                            )
                            &&& transaction@ == begun(
                                #[trigger] close_timer_plan(
                                    closing@,
                                    closing@.surface->Timer_0,
                                    layout,
                                    notes@,
                                    timers@,
                                ),
                            )
                        }
                },
                Err(error) => {
                    ||| says_why_not_stacked(
                            error,
                            closing@.remaining,
                            views(open_labels@),
                            geometries@,
                            origin,
                            notes@,
                            timers@,
                        )
                    ||| !are_stored(closing@.remaining, notes@, timers@) && names_missing_surface(
                            error,
                            notes@,
                            timers@,
                        )
                },
            }
        }),
{
    broadcast use group_views;

    let timer = match &closing.surface {
        StoredSurface::Timer(timer) => timer.clone(),
        StoredSurface::Note(note) => {
            proof {
                assert(false);
            }
            return Err(GroupError::MissingTimer(note.id.clone()));
        },
    };
    let origin = if closing.removed_top {
        closing.surface.position()
    } else {
        first_origin
    };
    let layout = match stack_members(
        &closing.remaining,
        open_labels,
        geometries,
        origin,
        notes,
        timers,
    ) {
        Ok(layout) => layout,
        Err(error) => {
            return Err(error);
        },
    };
    proof {
        lemma_stack_members(layout@, closing@.remaining, geometries@, origin, notes@, timers@);
    }
    let placed = layout.snapshots();
    let restore = restore_snapshots(placed, placed.len());
    proof {
        assert(layout@.snapshots.take(placed@.len() as int) =~= layout@.snapshots);
    }
    let nothing: Vec<Undo> = Vec::new();
    let compaction = match place_windows(&layout, notes, timers, &nothing, &nothing) {
        Ok(compaction) => compaction,
        Err(error) => {
            return Err(error);
        },
    };
    let back = join_undos(compaction.rollback, &restore);
    let mut relink: Vec<Undo> = Vec::new();
    relink.push(
        Undo {
            effect: Effect::Notes(NoteAction::InsertGroup(closing.group.clone())),
            on_failure: OnFailure::Skip(0),
        },
    );
    let after_removal = join_undos(relink, &back);
    let mut revive: Vec<Undo> = Vec::new();
    revive.push(
        Undo {
            effect: Effect::Timers(TimerAction::Restore(timer)),
            on_failure: OnFailure::Stop,
        },
    );
    revive.push(
        Undo {
            effect: Effect::Notes(NoteAction::InsertGroup(closing.group.clone())),
            on_failure: OnFailure::Stop,
        },
    );
    let after_close = join_undos(revive, &back);
    let mut steps = compaction.steps;
    steps.push(
        Step {
            effect: Effect::Notes(
                NoteAction::Detach {
                    group_id: closing.group.id.clone(),
                    member: closing.member.clone(),
                },
            ),
            only_if_moving: false,
            unwind: back,
        },
    );
    steps.push(
        Step {
            effect: Effect::Timers(TimerAction::Remove(closing.member.id.clone())),
            only_if_moving: false,
            unwind: after_removal,
        },
    );
    steps.push(
        Step {
            effect: Effect::Window(closing.member.clone(), WindowAction::Close),
            only_if_moving: false,
            unwind: after_close,
        },
    );
    steps.push(
        Step {
            effect: Effect::Cache(closing.member.clone(), CacheAction::Forget),
            only_if_moving: false,
            unwind: Vec::new(),
        },
    );
    proof {
        let timer_view = closing@.surface->Timer_0;
        assert(views(after_removal@) =~= seq![
            UndoView {
                effect: EffectView::Notes(NoteActionView::InsertGroup(closing@.group)),
                on_failure: OnFailure::Skip(0),
            },
        ] + views(back@));
        assert(views(after_close@) =~= seq![
            UndoView {
                effect: EffectView::Timers(TimerActionView::Restore(timer_view)),
                on_failure: OnFailure::Stop,
            },
            UndoView {
                effect: EffectView::Notes(NoteActionView::InsertGroup(closing@.group)),
                on_failure: OnFailure::Stop,
            },
        ] + views(back@));
        assert(views(steps@) =~= close_timer_plan(
            closing@,
            timer_view,
            layout@,
            notes@,
            timers@,
        ));
    }
    Ok(Transaction::begin(steps))
}

/// Whether an effect is one that cannot fail: forgetting a window.
pub open spec fn is_forgetting(effect: EffectView) -> bool {
    match effect {
        EffectView::Cache(_, CacheAction::Forget) => true,
        _ => false,
    }
}

/// Whether a window is gone, and of all other windows and cached geometries only
/// those of the given windows differ.
pub open spec fn is_gone(
    now: World,
    before: World,
    label: Seq<char>,
    snapshots: Seq<SnapshotView>,
) -> bool {
    &&& now.windows.dom() == before.windows.dom().remove(label)
    &&& now.geometries.dom() == before.geometries.dom()
    &&& forall|other: Seq<char>|
        other != label && !is_label_of(snapshots, other) ==> #[trigger] now.windows[other]
            == before.windows[other]
    &&& forall|id: Seq<char>|
        !is_id_of(snapshots, id) ==> #[trigger] now.geometries[id] == before.geometries[id]
}

/// What closing a note of a group promises: the windows that are left are stored
/// where they were placed, the note is archived and its window gone; or, after a
/// failure, what is stored is as before, and, if `whole`, the windows are too. A
/// scale factor that cannot be read does not bring the windows back, and a clock
/// that cannot be read leaves the gap closed.
pub open spec fn close_note_promise(
    closing: ClosingView,
    note: NoteView,
    layout: LayoutView,
    before: World,
    whole: bool,
) -> Promise {
    Promise {
        done: |w: World|
            {
                let stored = written(
                    before,
                    layout_replacements(layout, before.store.notes, before.timers),
                );
                let label = closing.member.window_label();
                &&& is_gone(w, before, label, layout.snapshots)
                &&& w.runtime == w.runtime.forgotten(label)
                &&& w.timers == stored.timers
                &&& w.store.groups == before.store.groups
                &&& exists|at: u64|
                    w.store.notes == #[trigger] stored.store.notes.insert(
                        closing.member.id,
                        NoteView { closed_at: Some(at), ..note },
                    )
            },
        home: |w: World| same_records(w, before) && (whole ==> same_desktop(w, before)),
        exempt: |effect: EffectView|
            (whole && is_reading(effect)) || effect == EffectView::ReadClock || is_forgetting(
                effect,
            ),
    }
}

/// Closing a window after others were moved leaves only those changed.
proof fn lemma_gone(
    moved: World,
    before: World,
    now: World,
    label: Seq<char>,
    snapshots: Seq<SnapshotView>,
)
    requires
        differs_only_at(moved, before, snapshots),
        now.windows == moved.windows.remove(label),
        now.geometries == moved.geometries,
    ensures
        is_gone(now, before, label, snapshots),
{
    assert(now.windows.dom() =~= before.windows.dom().remove(label));
    assert forall|other: Seq<char>| other != label && !is_label_of(snapshots, other) implies
        #[trigger] now.windows[other] == before.windows[other] by {
        let window = moved.windows[other];
    }
}

/// Archiving a note and closing its window keeps the promise, once the windows
/// that are left are placed and stored.
proof fn lemma_close_note_tail(
    closing: ClosingView,
    note: NoteView,
    layout: LayoutView,
    before: World,
    moved: World,
    whole: bool,
)
    requires
        shows(before, layout.snapshots),
        is_keyed(before.store.notes, before.timers),
        is_placeable(layout, before.store.notes, before.timers),
        closing.member.kind == GroupMemberKind::Note,
        before.store.notes.contains_key(closing.member.id),
        before.store.notes[closing.member.id] == note,
        !members_of(layout.snapshots).contains(closing.member),
        same_records(moved, before),
        differs_only_at(moved, before, layout.snapshots),
    ensures
        keeps(
            close_note_tail(
                closing,
                note,
                rollback(layout_originals(layout, before.store.notes, before.timers)) + restoring(
                    layout.snapshots,
                ),
            ),
            0,
            written(
                moved,
                layout_replacements(layout, before.store.notes, before.timers),
            ),
            close_note_promise(closing, note, layout, before, whole),
        ),
{
    let notes = before.store.notes;
    let timers = before.timers;
    let promise = close_note_promise(closing, note, layout, before, whole);
    let replacements = layout_replacements(layout, notes, timers);
    let restore = restoring(layout.snapshots);
    let unwrite = rollback(layout_originals(layout, notes, timers));
    let back = unwrite + restore;
    let tail = close_note_tail(closing, note, back);
    let w = written(moved, replacements);
    let label = closing.member.window_label();
    lemma_layout_replacements(layout, notes, timers);
    lemma_replaced_elsewhere(moved, replacements, closing.member);
    lemma_rolled_back(moved, replacements, true, true);
    lemma_undone_add(w, unwrite, restore);
    lemma_restored(moved, before, layout.snapshots);
    assert((promise.home)(undone(w, back)));
    assert forall|registers: Registers|
        keeps(tail, 2, performed(w, #[trigger] resolved(tail[1].effect, registers)), promise) by {
        let archived = performed(w, resolved(tail[1].effect, registers));
        let reopen = UndoView {
            effect: EffectView::Notes(NoteActionView::Restore { id: closing.member.id, note }),
            on_failure: OnFailure::Report,
        };
        lemma_undone_add(archived, seq![reopen], back);
        lemma_undone_one(archived, reopen);
        assert(performed(archived, reopen.effect).store.notes =~= w.store.notes);
        assert(performed(archived, reopen.effect) =~= w);
        let closed = performed(archived, tail[2].effect);
        let end = performed(closed, tail[3].effect);
        assert(end.runtime =~= end.runtime.forgotten(label));
        lemma_gone(moved, before, end, label, layout.snapshots);
        let stored = written(before, replacements);
        assert(end.store.notes == stored.store.notes.insert(
            closing.member.id,
            NoteView { closed_at: Some(registers.now), ..note },
        ));
        assert(end.timers == stored.timers);
        assert(end.store.groups == before.store.groups);
        assert((promise.done)(end));
        assert forall|more: Registers|
            keeps(tail, 4, performed(closed, #[trigger] resolved(tail[3].effect, more)), promise) by {}
        assert(is_forgetting(tail[3].effect));
        assert(keeps(tail, 3, closed, promise));
        assert forall|more: Registers|
            keeps(
                tail,
                3,
                performed(archived, #[trigger] resolved(tail[2].effect, more)),
                promise,
            ) by {}
    }
    assert(keeps(tail, 1, w, promise));
    assert forall|registers: Registers|
        keeps(tail, 1, performed(w, #[trigger] resolved(tail[0].effect, registers)), promise) by {}
}

/// Closing a note of a group is done as a whole or not at all: see
/// `close_note_promise`.
pub proof fn law_closing_a_note_is_all_or_nothing(
    closing: ClosingView,
    note: NoteView,
    layout: LayoutView,
    before: World,
    whole: bool,
)
    requires
        layout.snapshots.len() == layout.targets.len(),
        shows(before, layout.snapshots),
        is_keyed(before.store.notes, before.timers),
        is_placeable(layout, before.store.notes, before.timers),
        closing.member.kind == GroupMemberKind::Note,
        before.store.notes.contains_key(closing.member.id),
        before.store.notes[closing.member.id] == note,
        !members_of(layout.snapshots).contains(closing.member),
    ensures
        keeps(
            close_note_plan(closing, note, layout, before.store.notes, before.timers),
            0,
            before,
            close_note_promise(closing, note, layout, before, whole),
        ),
{
    let notes = before.store.notes;
    let timers = before.timers;
    let promise = close_note_promise(closing, note, layout, before, whole);
    let replacements = layout_replacements(layout, notes, timers);
    let restore = restoring(layout.snapshots);
    let unwrite = rollback(layout_originals(layout, notes, timers));
    let back = unwrite + restore;
    let first = placing(layout, notes, timers, Seq::empty(), restore);
    let plan = close_note_plan(closing, note, layout, notes, timers);
    let tail = plan.skip(first.len() as int);
    assert(plan =~= first + tail);
    let placed = Promise {
        done: |w: World|
            exists|v: World|
                {
                    &&& same_records(v, before)
                    &&& differs_only_at(v, before, layout.snapshots)
                    &&& w == #[trigger] written(v, replacements)
                },
        ..promise
    };
    assert forall|w: World| #[trigger] undone(w, Seq::empty()) == w by {}
    assert forall|w: World|
        same_records(w, before) && differs_only_at(w, before, layout.snapshots) implies {
        &&& (promise.home)(#[trigger] undone(w, restore))
        &&& (placed.done)(written(w, replacements))
    } by {
        lemma_restored(w, before, layout.snapshots);
        assert(same_records(undone(w, restore), w));
    }
    lemma_placing_keeps(layout, Seq::empty(), restore, before, placed);
    assert forall|w: World| #[trigger] (placed.done)(w) implies keeps(tail, 0, w, promise) by {
        let v = choose|v: World|
            {
                &&& same_records(v, before)
                &&& differs_only_at(v, before, layout.snapshots)
                &&& w == #[trigger] written(v, replacements)
            };
        assert(tail =~= close_note_tail(closing, note, back));
        lemma_close_note_tail(closing, note, layout, before, v, whole);
    }
    lemma_keeps_add(first, tail, 0, before, placed, promise);
}

/// What closing a timer of a group promises: the windows that are left are
/// stored where they were placed, the timer is out of its group and deleted, and
/// its window gone; or, after a failure, what is stored is as before, and, if
/// `whole`, the windows are too. Neither a scale factor that cannot be read nor
/// a place that cannot be stored brings the windows back.
pub open spec fn close_timer_promise(
    closing: ClosingView,
    layout: LayoutView,
    before: World,
    whole: bool,
) -> Promise {
    Promise {
        done: |w: World|
            {
                let stored = written(
                    before,
                    layout_replacements(layout, before.store.notes, before.timers),
                );
                let label = closing.member.window_label();
                &&& is_gone(w, before, label, layout.snapshots)
                &&& w.runtime == w.runtime.forgotten(label)
                &&& w.timers == stored.timers.remove(closing.member.id)
                &&& w.store.notes == stored.store.notes
                &&& w.store.groups == groups_detached(
                    before.store.groups,
                    closing.group.id,
                    closing.member,
                )
            },
        home: |w: World| same_records(w, before) && (whole ==> same_desktop(w, before)),
        exempt: |effect: EffectView|
            (whole && (is_reading(effect) || is_write(effect))) || is_forgetting(effect),
    }
}

/// Deleting a timer and closing its window keeps the promise, once the windows
/// that are left are placed and stored.
proof fn lemma_close_timer_tail(
    closing: ClosingView,
    timer: TimerView,
    layout: LayoutView,
    before: World,
    moved: World,
    whole: bool,
)
    requires
        shows(before, layout.snapshots),
        is_keyed(before.store.notes, before.timers),
        is_placeable(layout, before.store.notes, before.timers),
        closing.member.kind == GroupMemberKind::Timer,
        before.timers.contains_key(closing.member.id),
        before.timers[closing.member.id] == timer,
        before.store.groups.contains_key(closing.group.id),
        before.store.groups[closing.group.id] == closing.group,
        !members_of(layout.snapshots).contains(closing.member),
        same_records(moved, before),
        differs_only_at(moved, before, layout.snapshots),
    ensures
        keeps(
            close_timer_tail(
                closing,
                timer,
                rollback(layout_originals(layout, before.store.notes, before.timers)) + restoring(
                    layout.snapshots,
                ),
            ),
            0,
            written(
                moved,
                layout_replacements(layout, before.store.notes, before.timers),
            ),
            close_timer_promise(closing, layout, before, whole),
        ),
{
    let notes = before.store.notes;
    let timers = before.timers;
    let promise = close_timer_promise(closing, layout, before, whole);
    let replacements = layout_replacements(layout, notes, timers);
    let restore = restoring(layout.snapshots);
    let unwrite = rollback(layout_originals(layout, notes, timers));
    let back = unwrite + restore;
    let tail = close_timer_tail(closing, timer, back);
    let w = written(moved, replacements);
    let label = closing.member.window_label();
    lemma_layout_replacements(layout, notes, timers);
    lemma_replaced_elsewhere(moved, replacements, closing.member);
    lemma_rolled_back(moved, replacements, true, true);
    lemma_undone_add(w, unwrite, restore);
    lemma_restored(moved, before, layout.snapshots);
    assert((promise.home)(undone(w, back)));
    let detached = performed(w, tail[0].effect);
    let removed = performed(detached, tail[1].effect);
    let closed = performed(removed, tail[2].effect);
    let end = performed(closed, tail[3].effect);
    assert(end.runtime =~= end.runtime.forgotten(label));
    lemma_gone(moved, before, end, label, layout.snapshots);
    assert((promise.done)(end));
    assert forall|registers: Registers|
        keeps(tail, 4, performed(closed, #[trigger] resolved(tail[3].effect, registers)), promise) by {}
    assert(is_forgetting(tail[3].effect));
    assert(keeps(tail, 3, closed, promise));
    let revive = UndoView {
        effect: EffectView::Timers(TimerActionView::Restore(timer)),
        on_failure: OnFailure::Stop,
    };
    let relink = UndoView {
        effect: EffectView::Notes(NoteActionView::InsertGroup(closing.group)),
        on_failure: OnFailure::Stop,
    };
    let relink_quietly = UndoView { on_failure: OnFailure::Skip(0), ..relink };
    assert(performed(detached, relink.effect) =~= w) by {
        assert(performed(detached, relink.effect).store.groups =~= w.store.groups);
    }
    assert(performed(removed, revive.effect) =~= detached) by {
        assert(w.timers.contains_key(closing.member.id));
        assert(performed(removed, revive.effect).timers =~= w.timers);
    }
    assert(seq![revive, relink] =~= seq![revive] + seq![relink]);
    lemma_undone_add(removed, seq![revive, relink], back);
    lemma_undone_add(removed, seq![revive], seq![relink]);
    lemma_undone_one(removed, revive);
    lemma_undone_one(detached, relink);
    lemma_undone_add(detached, seq![relink_quietly], back);
    lemma_undone_one(detached, relink_quietly);
    assert forall|registers: Registers|
        keeps(tail, 3, performed(removed, #[trigger] resolved(tail[2].effect, registers)), promise) by {}
    assert(keeps(tail, 2, removed, promise));
    assert forall|registers: Registers|
        keeps(
            tail,
            2,
            performed(detached, #[trigger] resolved(tail[1].effect, registers)),
            promise,
        ) by {}
    assert(keeps(tail, 1, detached, promise));
    assert forall|registers: Registers|
        keeps(tail, 1, performed(w, #[trigger] resolved(tail[0].effect, registers)), promise) by {}
}

/// Closing a timer of a group is done as a whole or not at all: see
/// `close_timer_promise`.
pub proof fn law_closing_a_timer_is_all_or_nothing(
    closing: ClosingView,
    timer: TimerView,
    layout: LayoutView,
    before: World,
    whole: bool,
)
    requires
        layout.snapshots.len() == layout.targets.len(),
        shows(before, layout.snapshots),
        is_keyed(before.store.notes, before.timers),
        is_placeable(layout, before.store.notes, before.timers),
        closing.member.kind == GroupMemberKind::Timer,
        before.timers.contains_key(closing.member.id),
        before.timers[closing.member.id] == timer,
        before.store.groups.contains_key(closing.group.id),
        before.store.groups[closing.group.id] == closing.group,
        !members_of(layout.snapshots).contains(closing.member),
    ensures
        keeps(
            close_timer_plan(closing, timer, layout, before.store.notes, before.timers),
            0,
            before,
            close_timer_promise(closing, layout, before, whole),
        ),
{
    let notes = before.store.notes;
    let timers = before.timers;
    let promise = close_timer_promise(closing, layout, before, whole);
    let replacements = layout_replacements(layout, notes, timers);
    let restore = restoring(layout.snapshots);
    let unwrite = rollback(layout_originals(layout, notes, timers));
    let back = unwrite + restore;
    let first = placing(layout, notes, timers, Seq::empty(), Seq::empty());
    let plan = close_timer_plan(closing, timer, layout, notes, timers);
    let tail = plan.skip(first.len() as int);
    assert(plan =~= first + tail);
    let placed = Promise {
        done: |w: World|
            exists|v: World|
                {
                    &&& same_records(v, before)
                    &&& differs_only_at(v, before, layout.snapshots)
                    &&& w == #[trigger] written(v, replacements)
                },
        ..promise
    };
    assert forall|w: World| #[trigger] undone(w, Seq::empty()) == w by {}
    assert forall|w: World|
        same_records(w, before) && differs_only_at(w, before, layout.snapshots) implies
        #[trigger] (placed.done)(written(w, replacements)) by {}
    lemma_placing_keeps(layout, Seq::empty(), Seq::empty(), before, placed);
    assert forall|w: World| #[trigger] (placed.done)(w) implies keeps(tail, 0, w, promise) by {
        let v = choose|v: World|
            {
                &&& same_records(v, before)
                &&& differs_only_at(v, before, layout.snapshots)
                &&& w == #[trigger] written(v, replacements)
            };
        assert(tail =~= close_timer_tail(closing, timer, back));
        lemma_close_timer_tail(closing, timer, layout, before, v, whole);
    }
    lemma_keeps_add(first, tail, 0, before, placed, promise);
}

/// Closing a window takes it out of the order of the active windows of its
/// group and leaves the order of the others.
pub proof fn law_closing_keeps_the_order_of_the_rest(
    member: MemberView,
    surface: SurfaceView,
    group: GroupView,
    active_notes: Seq<Seq<char>>,
    open_timers: Seq<Seq<char>>,
)
    ensures
        closing_of(member, surface, group, active_notes, open_timers).remaining == without(
            active_members(active_notes, open_timers, group.members, Set::empty()),
            member,
        ),
{
    let active = active_and_kept(active_notes, open_timers, Set::empty());
    let kept = active_and_kept(active_notes, open_timers, set![member]);
    lemma_filtered_twice(group.members, active, other_than(member), kept);
}

proof fn lemma_filtered_twice(
    members: Seq<MemberView>,
    first: spec_fn(MemberView) -> bool,
    second: spec_fn(MemberView) -> bool,
    both: spec_fn(MemberView) -> bool,
)
    requires
        forall|m: MemberView| #[trigger] both(m) == (first(m) && second(m)),
    ensures
        members.filter(both) == members.filter(first).filter(second),
    decreases members.len(),
{
    reveal(Seq::filter);
    if members.len() > 0 {
        lemma_filtered_twice(members.drop_last(), first, second, both);
        let last = members.last();
        let rest = members.drop_last().filter(first);
        if first(last) {
            assert(rest.push(last).drop_last() =~= rest);
        }
        assert(both(last) == (first(last) && second(last)));
    }
}

/// While nothing fails, closing a note leaves each window that is left where its
/// layout puts it: moved to its target, or found there and not touched.
pub proof fn law_windows_left_by_a_closed_note_end_in_place(
    closing: ClosingView,
    note: NoteView,
    layout: LayoutView,
    before: World,
    readings: Seq<ScaleReading>,
    more: Seq<Event>,
)
    requires
        layout.snapshots.len() == layout.targets.len(),
        layout.snapshots.len() == readings.len(),
        windows_are_distinct(layout.snapshots),
        shows(before, layout.snapshots),
        forall|i: int| 0 <= i < more.len() ==> #[trigger] more[i] != Event::Failed,
        !members_of(layout.snapshots).contains(closing.member),
        close_note_plan(closing, note, layout, before.store.notes, before.timers).len()
            <= usize::MAX,
    ensures
        ends_in_place(
            layout,
            readings,
            before,
            played(
                begun(close_note_plan(closing, note, layout, before.store.notes, before.timers)),
                before,
                layout_events(layout, readings, layout.snapshots.len() as int) + more,
            ).1,
        ),
{
    let notes = before.store.notes;
    let timers = before.timers;
    let plan = close_note_plan(closing, note, layout, notes, timers);
    let first = applying(layout, Seq::empty());
    let rest = plan.skip(first.len() as int);
    assert(plan =~= first + rest);
    lemma_closed_is_not_placed(closing.member, layout.snapshots);
    assert forall|k: int| 0 <= k < rest.len() implies spares(
        (#[trigger] rest[k]).effect,
        layout.snapshots,
    ) by {
        assert(rest[k] == plan[first.len() + k]);
    }
    lemma_first_layout_ends_in_place(layout, Seq::empty(), rest, before, readings, more);
}

/// While nothing fails, closing a timer leaves each window that is left where its
/// layout puts it: moved to its target, or found there and not touched.
pub proof fn law_windows_left_by_a_closed_timer_end_in_place(
    closing: ClosingView,
    timer: TimerView,
    layout: LayoutView,
    before: World,
    readings: Seq<ScaleReading>,
    more: Seq<Event>,
)
    requires
        layout.snapshots.len() == layout.targets.len(),
        layout.snapshots.len() == readings.len(),
        windows_are_distinct(layout.snapshots),
        shows(before, layout.snapshots),
        forall|i: int| 0 <= i < more.len() ==> #[trigger] more[i] != Event::Failed,
        !members_of(layout.snapshots).contains(closing.member),
        close_timer_plan(closing, timer, layout, before.store.notes, before.timers).len()
            <= usize::MAX,
    ensures
        ends_in_place(
            layout,
            readings,
            before,
            played(
                begun(close_timer_plan(closing, timer, layout, before.store.notes, before.timers)),
                before,
                layout_events(layout, readings, layout.snapshots.len() as int) + more,
            ).1,
        ),
{
    let notes = before.store.notes;
    let timers = before.timers;
    let plan = close_timer_plan(closing, timer, layout, notes, timers);
    let first = applying(layout, Seq::empty());
    let rest = plan.skip(first.len() as int);
    assert(plan =~= first + rest);
    lemma_closed_is_not_placed(closing.member, layout.snapshots);
    assert forall|k: int| 0 <= k < rest.len() implies spares(
        (#[trigger] rest[k]).effect,
        layout.snapshots,
    ) by {
        assert(rest[k] == plan[first.len() + k]);
    }
    lemma_first_layout_ends_in_place(layout, Seq::empty(), rest, before, readings, more);
}

/// The label of a window that is not in a layout is none of the labels in it.
proof fn lemma_closed_is_not_placed(member: MemberView, snapshots: Seq<SnapshotView>)
    requires
        !members_of(snapshots).contains(member),
    ensures
        !is_label_of(snapshots, member.window_label()),
{
    if is_label_of(snapshots, member.window_label()) {
        let i = choose|i: int|
            0 <= i < snapshots.len() && (#[trigger] snapshots[i]).member.window_label()
                == member.window_label();
        law_labels_name_their_window(snapshots[i].member, member);
        assert(members_of(snapshots)[i] == member);
    }
}

} // verus!
