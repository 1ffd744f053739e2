//! Opening archived notes again, and putting linked windows back in place.
use vstd::prelude::*;

use crate::effect::{copy_texts, Effect, EffectView, NoteAction, NoteActionView, WindowAction};
use crate::error::GroupError;
use crate::geometry::{GeometryIndex, LogicalPosition};
use crate::groups::{
    active_and_kept, active_group_members, active_members, first_group_of, group_of,
};
use crate::in_place::{
    ends_in_place, law_placed_windows_stay_in_place, lemma_first_layout_ends_in_place, spares,
};
use crate::layout::{
    apply_layout, applying, can_stack, differs_only_at, holds_layout, is_label_of, is_reading,
    is_stack_of, join_undos, layout_events, layout_replacements, layout_surface_replacements,
    lemma_applying_keeps, lemma_differs_at_more, lemma_differs_nowhere, lemma_restored,
    lemma_restored_one, lemma_restored_some, lemma_stack_members, members_of, placing_step,
    restore_snapshots, restoring, restoring_one, same_desktop, same_records, says_why_not_stacked,
    shows, stack_members, windows_are_distinct, GroupLayout, LayoutView, ScaleReading, SnapshotView,
};
use crate::member::{GroupMemberKind, MemberView, StoredGroupMember};
use crate::member_set::MemberSet;
use crate::ordering::{
    is_stable_order, lemma_stable_order_is_permutation, stable_order, stands_before, SortKey,
};
use crate::persist::{
    are_stored, is_keyed, is_placeable, is_write, layout_originals, lemma_placing_keeps,
    lemma_rolled_back, lemma_writing_keeps, names_missing_surface, originals_of,
    persist_surface_changes, place_windows, placing, rollback, stored_originals, surface_members,
    writing, written,
};
use crate::store::{surfaces_known, GroupView, StoredGroup, TimerStore};
use crate::surface::{NoteView, StoredNote, StoredSurface, SurfaceView, TimerView};
use crate::table::Table;
use crate::transaction::{
    begun, resolved, Event, OnFailure, Registers, Stage, Step, StepView, Transaction, Undo,
    UndoView,
};
use crate::views::{group_views, views};
use crate::world::{
    keeps, lemma_keeps_add, lemma_undone_add, lemma_undone_one, performed, played, undone, Promise,
    World,
};

verus! {

/// The windows that a note is put in place with when it is opened again: the
/// active ones of its group and itself, in the order of the group.
pub open spec fn restored_windows(
    id: Seq<char>,
    groups: Seq<GroupView>,
    active_notes: Seq<Seq<char>>,
    open_timers: Seq<Seq<char>>,
) -> Seq<MemberView> {
    match first_group_of(groups, MemberView { kind: GroupMemberKind::Note, id }) {
        Some(group) => active_members(
            active_notes.push(id),
            open_timers,
            group.members,
            Set::empty(),
        ),
        None => Seq::empty(),
    }
}

/// The windows that a note is put in place with when it is opened again.
pub fn restored_members(
    id: &String,
    groups: &Vec<StoredGroup>,
    active_notes: &Vec<String>,
    open_timers: &Vec<String>,
) -> (members: Vec<StoredGroupMember>)
    ensures
        views(members@) == restored_windows(
            id@,
            views(groups@),
            views(active_notes@),
            views(open_timers@),
        ),
{
    broadcast use group_views;

    match group_of(groups, &StoredGroupMember::note(id.as_str())) {
        Some(group) => {
            let mut with_note = copy_texts(active_notes);
            with_note.push(id.clone());
            active_group_members(&with_note, open_timers, &group, &MemberSet::new())
        },
        None => Vec::new(),
    }
}

/// A note that is opened again takes the slot that it had before it was closed:
/// the windows of its group are in the order in which they were when it was open.
pub proof fn law_restored_note_takes_its_slot(
    id: Seq<char>,
    groups: Seq<GroupView>,
    active_notes: Seq<Seq<char>>,
    remaining_notes: Seq<Seq<char>>,
    open_timers: Seq<Seq<char>>,
)
    requires
        active_notes.contains(id),
        forall|other: Seq<char>| #[trigger]
            remaining_notes.contains(other) <==> active_notes.contains(other) && other != id,
    ensures
        match first_group_of(groups, MemberView { kind: GroupMemberKind::Note, id }) {
            Some(group) => restored_windows(id, groups, remaining_notes, open_timers)
                == active_members(active_notes, open_timers, group.members, Set::empty()),
            None => restored_windows(id, groups, remaining_notes, open_timers).len() == 0,
        },
{
    let with_note = remaining_notes.push(id);
    assert forall|other: Seq<char>| #[trigger] with_note.contains(other) <==> active_notes.contains(
        other,
    ) by {
        if remaining_notes.contains(other) {
            let i = remaining_notes.index_of(other);
            assert(with_note[i] == other);
        }
        assert(with_note[remaining_notes.len() as int] == id);
        if with_note.contains(other) && other != id {
            let i = with_note.index_of(other);
            assert(remaining_notes[i] == other);
        }
    }
    let before = active_and_kept(active_notes, open_timers, Set::empty());
    let after = active_and_kept(with_note, open_timers, Set::empty());
    assert forall|m: MemberView| #[trigger] before(m) == after(m) by {}
    assert(before =~= after);
}

/// The effect that closes the window of a note that could not be restored.
pub open spec fn closing_again(member: MemberView) -> Seq<UndoView> {
    seq![
        UndoView {
            effect: EffectView::Window(member, WindowAction::Close),
            on_failure: OnFailure::Skip(0),
        },
    ]
}

/// The steps that restore a note whose window has just been opened: place the
/// windows of its group, store where they are, and take the note out of the
/// archive.
pub open spec fn restore_note_plan(
    member: MemberView,
    layout: LayoutView,
    notes: Map<Seq<char>, NoteView>,
    timers: Map<Seq<char>, TimerView>,
) -> Seq<StepView> {
    let close = closing_again(member);
    placing(layout, notes, timers, close, close).push(
        StepView {
            effect: EffectView::Notes(NoteActionView::Reopen(member.id)),
            only_if_moving: false,
            unwind: rollback(layout_originals(layout, notes, timers)) + restoring(
                layout.snapshots,
            ) + close,
        },
    )
}

/// Restores an archived note whose window has just been opened. `members` are
/// the windows of its group, and `origin` is where the first of them is. If this
/// fails, the window is to be closed again.
pub fn restore_archived_note(
    id: &String,
    members: &Vec<StoredGroupMember>,
    open_labels: &Vec<String>,
    geometries: &GeometryIndex,
    origin: LogicalPosition,
    notes: &Table<StoredNote>,
    timers: &TimerStore,
) -> (transaction: Result<Transaction, GroupError>)
    ensures
        match transaction {
            Ok(transaction) => {
                &&& can_stack(
                    views(members@),
                    views(open_labels@),
                    geometries@,
                    origin,
                    notes@,
                    timers@,
                )
                &&& are_stored(views(members@), notes@, timers@)
                &&& exists|layout: LayoutView|
                    {
                        &&& is_stack_of(
                            layout,
                            views(members@),
                            geometries@,
                            origin,
                            notes@,
                            timers@,
                        )
                        &&& transaction@ == begun(
                            #[trigger] restore_note_plan(
                                MemberView { kind: GroupMemberKind::Note, id: id@ },
                                layout,
                                notes@,
                                timers@,
                            ),
                        )
                    }
            },
            Err(error) => {
                ||| says_why_not_stacked(
                        error,
                        views(members@),
                        views(open_labels@),
                        geometries@,
                        origin,
                        notes@,
                        timers@,
                    )
                ||| !are_stored(views(members@), notes@, timers@) && names_missing_surface(
                        error,
                        notes@,
                        timers@,
                    )
            },
        },
{
    broadcast use group_views;

    let layout = match stack_members(members, open_labels, geometries, origin, notes, timers) {
        Ok(layout) => layout,
        Err(error) => {
            return Err(error);
        },
    };
    proof {
        lemma_stack_members(layout@, views(members@), geometries@, origin, notes@, timers@);
    }
    let member = StoredGroupMember::note(id.as_str());
    let mut close: Vec<Undo> = Vec::new();
    close.push(
        Undo {
            effect: Effect::Window(member, WindowAction::Close),
            on_failure: OnFailure::Skip(0),
        },
    );
    let ghost viewed = MemberView { kind: GroupMemberKind::Note, id: id@ };
    proof {
        assert(views(close@) =~= closing_again(viewed));
    }
    let compaction = match place_windows(&layout, notes, timers, &close, &close) {
        Ok(compaction) => compaction,
        Err(error) => {
            return Err(error);
        },
    };
    let placed = layout.snapshots();
    let restore = restore_snapshots(placed, placed.len());
    proof {
        assert(layout@.snapshots.take(placed@.len() as int) =~= layout@.snapshots);
    }
    let back = join_undos(compaction.rollback, &restore);
    let mut steps = compaction.steps;
    steps.push(
        Step {
            effect: Effect::Notes(NoteAction::Reopen(id.clone())),
            only_if_moving: false,
            unwind: join_undos(back, &close),
        },
    );
    proof {
        assert(views(steps@) =~= restore_note_plan(viewed, layout@, notes@, timers@));
    }
    Ok(Transaction::begin(steps))
}

/// What restoring a note promises: the windows of its group are stored where
/// they were placed and the note is out of the archive; or, after a failure, its
/// window is closed and what is stored is as before, and, if `whole`, the other
/// windows are too. Neither a scale factor that cannot be read nor a place that
/// cannot be stored brings those back.
pub open spec fn restore_note_promise(
    member: MemberView,
    layout: LayoutView,
    before: World,
    whole: bool,
) -> Promise {
    Promise {
        done: |w: World|
            {
                let stored = written(
                    before,
                    layout_replacements(layout, before.store.notes, before.timers),
                );
                let notes = stored.store.notes;
                &&& differs_only_at(w, before, layout.snapshots)
                &&& w.timers == stored.timers
                &&& w.store.groups == before.store.groups
                &&& w.store.notes == notes.insert(
                    member.id,
                    NoteView { closed_at: None, ..notes[member.id] },
                )
            },
        home: |w: World|
            {
                &&& same_records(w, before)
                &&& !w.windows.contains_key(member.window_label())
                &&& whole ==> w.windows == before.windows.remove(member.window_label())
                    && w.geometries == before.geometries
            },
        exempt: |effect: EffectView| whole && (is_reading(effect) || is_write(effect)),
    }
}

/// Restoring a note is done as a whole or not at all: see `restore_note_promise`.
pub proof fn law_restoring_a_note_is_all_or_nothing(
    member: MemberView,
    layout: LayoutView,
    before: World,
    whole: bool,
)
    requires
        layout.snapshots.len() == layout.targets.len(),
        shows(before, layout.snapshots),
        is_keyed(before.store.notes, before.timers),
        is_placeable(layout, before.store.notes, before.timers),
    ensures
        keeps(
            restore_note_plan(member, layout, before.store.notes, before.timers),
            0,
            before,
            restore_note_promise(member, layout, before, whole),
        ),
{
    let notes = before.store.notes;
    let timers = before.timers;
    let promise = restore_note_promise(member, layout, before, whole);
    let replacements = layout_replacements(layout, notes, timers);
    let restore = restoring(layout.snapshots);
    let unwrite = rollback(layout_originals(layout, notes, timers));
    let close = closing_again(member);
    let first = placing(layout, notes, timers, close, close);
    let last = StepView {
        effect: EffectView::Notes(NoteActionView::Reopen(member.id)),
        only_if_moving: false,
        unwind: unwrite + restore + close,
    };
    let placed = Promise {
        done: |w: World|
            exists|v: World|
                {
                    &&& same_records(v, before)
                    &&& differs_only_at(v, before, layout.snapshots)
                    &&& w == #[trigger] written(v, replacements)
                },
        ..promise
    };
    assert forall|w: World| #[trigger] undone(w, close) == performed(w, close[0].effect) by {
        lemma_undone_one(w, close[0]);
        assert(close =~= seq![close[0]]);
    }
    assert forall|w: World|
        same_records(w, before) && differs_only_at(w, before, layout.snapshots) implies
        #[trigger] (placed.done)(written(w, replacements)) by {}
    lemma_placing_keeps(layout, close, close, before, placed);
    assert forall|w: World| #[trigger] (placed.done)(w) implies keeps(seq![last], 0, w, promise) by {
        let v = choose|v: World|
            {
                &&& same_records(v, before)
                &&& differs_only_at(v, before, layout.snapshots)
                &&& w == #[trigger] written(v, replacements)
            };
        lemma_rolled_back(v, replacements, true, true);
        lemma_undone_add(w, unwrite, restore);
        lemma_undone_add(w, unwrite + restore, close);
        lemma_restored(v, before, layout.snapshots);
        assert((promise.home)(undone(w, last.unwind)));
        let end = performed(w, last.effect);
        assert(differs_only_at(end, before, layout.snapshots));
        assert forall|registers: Registers|
            keeps(
                seq![last],
                1,
                performed(w, #[trigger] resolved(last.effect, registers)),
                promise,
            ) by {}
    }
    lemma_keeps_add(first, seq![last], 0, before, placed, promise);
    assert(first + seq![last] =~= first.push(last));
}

/// The note that was closed last, if there is one.
pub fn restore_last_closed(last_closed: Option<StoredNote>) -> (note: Result<
    StoredNote,
    GroupError,
>)
    ensures
        match note {
            Ok(note) => last_closed == Some(note),
            Err(error) => last_closed is None && error == GroupError::NothingToRestore,
        },
{
    match last_closed {
        Some(note) => Ok(note),
        None => Err(GroupError::NothingToRestore),
    }
}

/// The time when a note was closed, as a sort key: notes that have none come first.
pub struct ClosedKey {
    pub closed_at: Option<u64>,
}

impl SortKey for ClosedKey {
    open spec fn before(self, other: Self) -> bool {
        match (self.closed_at, other.closed_at) {
            (None, Some(_)) => true,
            (Some(a), Some(b)) => a < b,
            _ => false,
        }
    }

    proof fn before_is_asymmetric(a: Self, b: Self) {
    }

    proof fn before_splits(a: Self, b: Self, c: Self) {
    }

    fn is_before(&self, other: &Self) -> (before: bool) {
        match (self.closed_at, other.closed_at) {
            (None, Some(_)) => true,
            (Some(a), Some(b)) => a < b,
            _ => false,
        }
    }
}

/// The times when notes were closed.
pub open spec fn closed_keys(notes: Seq<NoteView>) -> Seq<ClosedKey> {
    Seq::new(notes.len(), |i: int| ClosedKey { closed_at: notes[i].closed_at })
}

/// Whether `restored` has the archived notes in the order in which they were
/// closed; those closed at the same time stay in order.
pub open spec fn is_closing_order(archived: Seq<NoteView>, restored: Seq<NoteView>) -> bool {
    exists|order: Seq<usize>|
        {
            &&& #[trigger] is_stable_order(closed_keys(archived), order)
            &&& restored == Seq::new(order.len(), |i: int| archived[order[i] as int])
        }
}

/// The archived notes in the order in which they are restored: the one that was
/// closed first comes first.
pub fn restore_all_notes(archived: &Vec<StoredNote>) -> (restored: Vec<StoredNote>)
    ensures
        is_closing_order(views(archived@), views(restored@)),
{
    let mut keys: Vec<ClosedKey> = Vec::new();
    let mut i: usize = 0;
    while i < archived.len()
        invariant
            i <= archived@.len(),
            keys@.len() == i,
            forall|j: int|
                0 <= j < i ==> (#[trigger] keys@[j]).closed_at == views(archived@)[j].closed_at,
        decreases archived.len() - i,
    {
        keys.push(ClosedKey { closed_at: archived[i].closed_at });
        i += 1;
    }
    let order = stable_order(&keys);
    let mut restored: Vec<StoredNote> = Vec::new();
    let mut i: usize = 0;
    while i < order.len()
        invariant
            keys@.len() == archived@.len(),
            is_stable_order(keys@, order@),
            i <= order@.len(),
            restored@.len() == i,
            forall|j: int|
                0 <= j < i ==> (#[trigger] restored@[j])@ == archived@[order@[j] as int]@,
        decreases order.len() - i,
    {
        restored.push(archived[order[i]].clone());
        i += 1;
    }
    proof {
        assert(keys@ =~= closed_keys(views(archived@)));
        assert(views(restored@) =~= Seq::new(
            order@.len(),
            |i: int| views(archived@)[order@[i] as int],
        ));
    }
    restored
}

/// The steps that show windows and give the first of them the focus. Nothing of
/// that is taken back.
pub open spec fn reveal_plan(windows: Seq<MemberView>) -> Seq<StepView> {
    Seq::new(
        windows.len(),
        |i: int|
            StepView {
                effect: EffectView::Window(windows[i], WindowAction::Reveal),
                only_if_moving: false,
                unwind: Seq::empty(),
            },
    ).push(
        StepView {
            effect: EffectView::Window(windows[0], WindowAction::Focus),
            only_if_moving: false,
            unwind: Seq::empty(),
        },
    )
}

/// Shows all windows and gives the first of them the focus.
pub fn reveal_windows(windows: &Vec<StoredGroupMember>) -> (transaction: Result<
    Transaction,
    GroupError,
>)
    ensures
        match transaction {
            Ok(transaction) => windows@.len() > 0 && transaction@ == begun(
                reveal_plan(views(windows@)),
            ),
            Err(error) => windows@.len() == 0 && error == GroupError::NothingToRestore,
        },
{
    broadcast use group_views;

    if windows.len() == 0 {
        return Err(GroupError::NothingToRestore);
    }
    let mut steps: Vec<Step> = Vec::new();
    let mut i: usize = 0;
    while i < windows.len()
        invariant
            i <= windows@.len(),
            steps@.len() == i,
            forall|j: int|
                0 <= j < i ==> (#[trigger] steps@[j])@ == (StepView {
                    effect: EffectView::Window(views(windows@)[j], WindowAction::Reveal),
                    only_if_moving: false,
                    unwind: Seq::empty(),
                }),
        decreases windows.len() - i,
    {
        broadcast use group_views;

        steps.push(
            Step {
                effect: Effect::Window(windows[i].clone(), WindowAction::Reveal),
                only_if_moving: false,
                unwind: Vec::new(),
            },
        );
        i += 1;
    }
    steps.push(
        Step {
            effect: Effect::Window(windows[0].clone(), WindowAction::Focus),
            only_if_moving: false,
            unwind: Vec::new(),
        },
    );
    proof {
        assert(views(steps@) =~= reveal_plan(views(windows@)));
    }
    Ok(Transaction::begin(steps))
}

/// The active windows of every group that has one, group by group.
pub open spec fn open_groups_of(
    groups: Seq<GroupView>,
    active_notes: Seq<Seq<char>>,
    open_timers: Seq<Seq<char>>,
) -> Seq<Seq<MemberView>>
    decreases groups.len(),
{
    if groups.len() == 0 {
        Seq::empty()
    } else {
        let rest = open_groups_of(groups.drop_last(), active_notes, open_timers);
        let active = active_members(
            active_notes,
            open_timers,
            groups.last().members,
            Set::empty(),
        );
        if active.len() > 0 {
            rest.push(active)
        } else {
            rest
        }
    }
}

/// Lists of windows, as contracts speak of them.
pub open spec fn member_lists(lists: Seq<Vec<StoredGroupMember>>) -> Seq<Seq<MemberView>> {
    Seq::new(lists.len(), |i: int| views(lists[i]@))
}

/// The active windows of every group that has one, group by group.
pub fn open_groups(
    groups: &Vec<StoredGroup>,
    active_notes: &Vec<String>,
    open_timers: &Vec<String>,
) -> (lists: Vec<Vec<StoredGroupMember>>)
    ensures
        member_lists(lists@) == open_groups_of(
            views(groups@),
            views(active_notes@),
            views(open_timers@),
        ),
{
    let ghost viewed = views(groups@);
    let mut lists: Vec<Vec<StoredGroupMember>> = Vec::new();
    let mut i: usize = 0;
    proof {
        assert(viewed.take(0) =~= Seq::empty());
        assert(member_lists(lists@) =~= Seq::empty());
    }
    while i < groups.len()
        invariant
            viewed == views(groups@),
            i <= groups@.len(),
            member_lists(lists@) == open_groups_of(
                viewed.take(i as int),
                views(active_notes@),
                views(open_timers@),
            ),
        decreases groups.len() - i,
    {
        let ghost before = member_lists(lists@);
        let members = active_group_members(
            active_notes,
            open_timers,
            &groups[i],
            &MemberSet::new(),
        );
        proof {
            assert(viewed.take(i + 1).drop_last() =~= viewed.take(i as int));
            assert(viewed.take(i + 1).last() == groups@[i as int]@);
            assert(views(members@).len() == members@.len());
        }
        if members.len() > 0 {
            let ghost added = views(members@);
            lists.push(members);
            proof {
                assert(member_lists(lists@) =~= before.push(added));
            }
        }
        i += 1;
    }
    proof {
        assert(viewed.take(groups@.len() as int) =~= viewed);
    }
    lists
}

/// The windows of the first `n` layouts.
pub open spec fn snapshots_of_layouts(layouts: Seq<LayoutView>, n: int) -> Seq<SnapshotView>
    decreases n,
{
    if n <= 0 {
        Seq::empty()
    } else {
        snapshots_of_layouts(layouts, n - 1) + layouts[n - 1].snapshots
    }
}

/// The effects that bring the windows of the first `n` layouts back.
pub open spec fn restoring_layouts(layouts: Seq<LayoutView>, n: int) -> Seq<UndoView>
    decreases n,
{
    if n <= 0 {
        Seq::empty()
    } else {
        restoring_layouts(layouts, n - 1) + restoring(layouts[n - 1].snapshots)
    }
}

/// The steps that take the windows of the first `n` layouts to their targets.
/// If one fails, the windows of its own layout are brought back first.
pub open spec fn applying_layouts(layouts: Seq<LayoutView>, n: int) -> Seq<StepView>
    decreases n,
{
    if n <= 0 {
        Seq::empty()
    } else {
        applying_layouts(layouts, n - 1) + applying(
            layouts[n - 1],
            restoring_layouts(layouts, n - 1),
        )
    }
}

/// What is stored of the windows of the first `n` layouts once they are in place.
pub open spec fn replacements_of_layouts(
    layouts: Seq<LayoutView>,
    notes: Map<Seq<char>, NoteView>,
    timers: Map<Seq<char>, TimerView>,
    n: int,
) -> Seq<SurfaceView>
    decreases n,
{
    if n <= 0 {
        Seq::empty()
    } else {
        replacements_of_layouts(layouts, notes, timers, n - 1) + layout_replacements(
            layouts[n - 1],
            notes,
            timers,
        )
    }
}

/// The steps that put linked windows in place, layout by layout, and store
/// where they are.
pub open spec fn restore_layouts_plan(
    layouts: Seq<LayoutView>,
    notes: Map<Seq<char>, NoteView>,
    timers: Map<Seq<char>, TimerView>,
) -> Seq<StepView> {
    let count = layouts.len() as int;
    let replacements = replacements_of_layouts(layouts, notes, timers, count);
    applying_layouts(layouts, count) + writing(
        replacements,
        rollback(originals_of(notes, timers, replacements)) + restoring_layouts(layouts, count),
    )
}

/// Whether everything is stored that is needed to place the windows of layouts.
pub open spec fn are_placeable(
    layouts: Seq<LayoutView>,
    notes: Map<Seq<char>, NoteView>,
    timers: Map<Seq<char>, TimerView>,
) -> bool {
    let count = layouts.len() as int;
    let stored = surface_members(replacements_of_layouts(layouts, notes, timers, count));
    &&& forall|i: int|
        0 <= i < count ==> surfaces_known(
            notes,
            timers,
            members_of((#[trigger] layouts[i]).snapshots),
            layouts[i].snapshots.len() as int,
        )
    &&& surfaces_known(notes, timers, stored, stored.len() as int)
}

/// Puts linked windows in place, layout by layout.
pub fn restore_group_layouts(
    layouts: &Vec<GroupLayout>,
    notes: &Table<StoredNote>,
    timers: &TimerStore,
) -> (transaction: Result<Transaction, GroupError>)
    ensures
        match transaction {
            Ok(transaction) => {
                &&& are_placeable(views(layouts@), notes@, timers@)
                &&& transaction@ == begun(
                    restore_layouts_plan(views(layouts@), notes@, timers@),
                )
            },
            Err(error) => !are_placeable(views(layouts@), notes@, timers@)
                && names_missing_surface(error, notes@, timers@),
        },
{
    broadcast use group_views;

    let ghost viewed = views(layouts@);
    let mut steps: Vec<Step> = Vec::new();
    let mut restore: Vec<Undo> = Vec::new();
    let mut replacements: Vec<StoredSurface> = Vec::new();
    let mut i: usize = 0;
    while i < layouts.len()
        invariant
            viewed == views(layouts@),
            i <= layouts@.len(),
            views(steps@) == applying_layouts(viewed, i as int),
            views(restore@) == restoring_layouts(viewed, i as int),
            views(replacements@) == replacements_of_layouts(viewed, notes@, timers@, i as int),
            forall|j: int|
                0 <= j < i ==> surfaces_known(
                    notes@,
                    timers@,
                    members_of((#[trigger] viewed[j]).snapshots),
                    viewed[j].snapshots.len() as int,
                ),
        decreases layouts.len() - i,
    {
        broadcast use group_views;

        let layout = &layouts[i];
        proof {
            assert(viewed[i as int] == layout@);
        }
        let mut placed = match layout_surface_replacements(layout, notes, timers) {
            Ok(placed) => placed,
            Err(error) => {
                proof {
                    assert(!surfaces_known(
                        notes@,
                        timers@,
                        members_of(viewed[i as int].snapshots),
                        viewed[i as int].snapshots.len() as int,
                    ));
                }
                return Err(error);
            },
        };
        let mut moves = apply_layout(layout, &restore);
        let snapshots = layout.snapshots();
        let mut undos = restore_snapshots(snapshots, snapshots.len());
        proof {
            assert(layout@.snapshots.take(snapshots@.len() as int) =~= layout@.snapshots);
        }
        steps.append(&mut moves);
        restore.append(&mut undos);
        replacements.append(&mut placed);
        i += 1;
    }
    let originals = match stored_originals(notes, timers, &replacements) {
        Ok(originals) => originals,
        Err(error) => {
            return Err(error);
        },
    };
    let mut writes = persist_surface_changes(&replacements, &originals, &restore);
    steps.append(&mut writes);
    Ok(Transaction::begin(steps))
}

/// What putting linked windows in place promises: they are stored where they
/// were placed; or, after a failure, what is stored is as before, and, if
/// `whole`, the windows are too. A scale factor that cannot be read does not
/// bring the windows of its own layout back.
pub open spec fn restore_layouts_promise(
    layouts: Seq<LayoutView>,
    before: World,
    whole: bool,
) -> Promise {
    Promise {
        done: |w: World|
            {
                let count = layouts.len() as int;
                let stored = written(
                    before,
                    replacements_of_layouts(layouts, before.store.notes, before.timers, count),
                );
                &&& differs_only_at(w, before, snapshots_of_layouts(layouts, count))
                &&& same_records(w, stored)
            },
        home: |w: World| same_records(w, before) && (whole ==> same_desktop(w, before)),
        exempt: |effect: EffectView| whole && is_reading(effect),
    }
}

/// Bringing the windows of the first `n` layouts back leaves everything as it was.
proof fn lemma_layouts_restored(layouts: Seq<LayoutView>, n: int, before: World, now: World)
    requires
        0 <= n <= layouts.len(),
        forall|i: int| 0 <= i < layouts.len() ==> shows(before, (#[trigger] layouts[i]).snapshots),
        differs_only_at(now, before, snapshots_of_layouts(layouts, n)),
    ensures
        same_desktop(undone(now, restoring_layouts(layouts, n)), before),
        same_records(undone(now, restoring_layouts(layouts, n)), now),
    decreases n,
{
    lemma_layouts_restored_to(layouts, n, before, now, Seq::empty());
    lemma_differs_nowhere(undone(now, restoring_layouts(layouts, n)), before);
}

/// Bringing the windows of the first `n` layouts back leaves only others where
/// they are.
proof fn lemma_layouts_restored_to(
    layouts: Seq<LayoutView>,
    n: int,
    before: World,
    now: World,
    others: Seq<SnapshotView>,
)
    requires
        0 <= n <= layouts.len(),
        forall|i: int| 0 <= i < layouts.len() ==> shows(before, (#[trigger] layouts[i]).snapshots),
        differs_only_at(now, before, snapshots_of_layouts(layouts, n) + others),
    ensures
        differs_only_at(undone(now, restoring_layouts(layouts, n)), before, others),
        same_records(undone(now, restoring_layouts(layouts, n)), now),
    decreases n,
{
    if n <= 0 {
        assert(Seq::<SnapshotView>::empty() + others =~= others);
    } else {
        let last = layouts[n - 1].snapshots;
        assert(snapshots_of_layouts(layouts, n) + others =~= snapshots_of_layouts(layouts, n - 1)
            + (last + others));
        lemma_layouts_restored_to(layouts, n - 1, before, now, last + others);
        let middle = undone(now, restoring_layouts(layouts, n - 1));
        lemma_swapped(middle, before, last, others);
        lemma_restored_some(middle, before, last, others);
        lemma_undone_add(now, restoring_layouts(layouts, n - 1), restoring(last));
    }
}

/// The order in which windows are listed does not matter.
proof fn lemma_swapped(
    now: World,
    before: World,
    a: Seq<SnapshotView>,
    b: Seq<SnapshotView>,
)
    requires
        differs_only_at(now, before, a + b),
    ensures
        differs_only_at(now, before, b + a),
{
    let there = a + b;
    let here = b + a;
    assert forall|i: int| 0 <= i < there.len() implies here.contains(#[trigger] there[i]) by {
        if i < a.len() {
            assert(here[b.len() + i] == there[i]);
        } else {
            assert(here[i - a.len()] == there[i]);
        }
    }
    lemma_differs_at_more(now, before, there, here);
}

/// Taking the windows of the first `n` layouts to their targets keeps a promise
/// that is kept wherever they have come to.
proof fn lemma_applying_layouts_keeps(
    layouts: Seq<LayoutView>,
    n: int,
    before: World,
    promise: Promise,
    whole: bool,
)
    requires
        0 <= n <= layouts.len(),
        forall|i: int|
            0 <= i < layouts.len() ==> {
                &&& (#[trigger] layouts[i]).snapshots.len() == layouts[i].targets.len()
                &&& shows(before, layouts[i].snapshots)
            },
        promise.home == restore_layouts_promise(layouts, before, whole).home,
        promise.exempt == restore_layouts_promise(layouts, before, whole).exempt,
        forall|w: World|
            same_records(w, before) && differs_only_at(
                w,
                before,
                snapshots_of_layouts(layouts, n),
            ) ==> #[trigger] (promise.done)(w),
    ensures
        keeps(applying_layouts(layouts, n), 0, before, promise),
    decreases n,
{
    if n <= 0 {
        lemma_differs_nowhere(before, before);
        assert((promise.done)(before));
    } else {
        let earlier = snapshots_of_layouts(layouts, n - 1);
        let suffix = restoring_layouts(layouts, n - 1);
        let layout = layouts[n - 1];
        let first = applying_layouts(layouts, n - 1);
        let second = applying(layout, suffix);
        let moved = Promise {
            done: |w: World| same_records(w, before) && differs_only_at(w, before, earlier),
            ..promise
        };
        lemma_applying_layouts_keeps(layouts, n - 1, before, moved, whole);
        assert forall|w: World| #[trigger] (moved.done)(w) implies keeps(second, 0, w, promise) by {
            assert(earlier + layout.snapshots.take(0) =~= earlier);
            assert forall|v: World|
                same_records(v, before) && differs_only_at(v, before, earlier) implies
                #[trigger] (promise.home)(undone(v, suffix)) by {
                lemma_layouts_restored(layouts, n - 1, before, v);
            }
            assert forall|v: World| same_records(v, before) implies (promise.home)(
                #[trigger] undone(v, suffix),
            ) || (forall|effect: EffectView| #[trigger]
                is_reading(effect) ==> (promise.exempt)(effect)) by {
                lemma_restoring_keeps_records(layouts, n - 1, v);
            }
            lemma_applying_keeps(layout, earlier, suffix, 0, before, w, promise);
        }
        lemma_keeps_add(first, second, 0, before, moved, promise);
    }
}

/// Bringing windows back changes nothing that is stored.
proof fn lemma_restoring_keeps_records(layouts: Seq<LayoutView>, n: int, world: World)
    requires
        n <= layouts.len(),
    ensures
        same_records(undone(world, restoring_layouts(layouts, n)), world),
    decreases n,
{
    if n > 0 {
        lemma_restoring_keeps_records(layouts, n - 1, world);
        lemma_undone_add(
            world,
            restoring_layouts(layouts, n - 1),
            restoring(layouts[n - 1].snapshots),
        );
        lemma_restoring_one_keeps_records(
            undone(world, restoring_layouts(layouts, n - 1)),
            layouts[n - 1].snapshots,
        );
    }
}

proof fn lemma_restoring_one_keeps_records(world: World, snapshots: Seq<SnapshotView>)
    ensures
        same_records(undone(world, restoring(snapshots)), world),
    decreases snapshots.len(),
{
    if snapshots.len() > 0 {
        lemma_restoring_one_keeps_records(world, snapshots.drop_last());
        let before = undone(world, restoring(snapshots.drop_last()));
        lemma_undone_add(
            world,
            restoring(snapshots.drop_last()),
            restoring_one(snapshots.last()),
        );
        lemma_restored_one(before, snapshots.last());
    }
}

/// Putting linked windows in place is done as a whole or not at all: see
/// `restore_layouts_promise`.
pub proof fn law_restoring_layouts_is_all_or_nothing(
    layouts: Seq<LayoutView>,
    before: World,
    whole: bool,
)
    requires
        forall|i: int|
            0 <= i < layouts.len() ==> {
                &&& (#[trigger] layouts[i]).snapshots.len() == layouts[i].targets.len()
                &&& shows(before, layouts[i].snapshots)
            },
        is_keyed(before.store.notes, before.timers),
        are_placeable(layouts, before.store.notes, before.timers),
    ensures
        keeps(
            restore_layouts_plan(layouts, before.store.notes, before.timers),
            0,
            before,
            restore_layouts_promise(layouts, before, whole),
        ),
{
    let notes = before.store.notes;
    let timers = before.timers;
    let count = layouts.len() as int;
    let promise = restore_layouts_promise(layouts, before, whole);
    let replacements = replacements_of_layouts(layouts, notes, timers, count);
    let restore = restoring_layouts(layouts, count);
    let all = snapshots_of_layouts(layouts, count);
    let first = applying_layouts(layouts, count);
    let second = writing(
        replacements,
        rollback(originals_of(notes, timers, replacements)) + restore,
    );
    let moved = Promise {
        done: |w: World| same_records(w, before) && differs_only_at(w, before, all),
        ..promise
    };
    lemma_applying_layouts_keeps(layouts, count, before, moved, whole);
    assert forall|w: World| #[trigger] (moved.done)(w) implies keeps(second, 0, w, promise) by {
        lemma_layouts_restored(layouts, count, before, w);
        assert(differs_only_at(written(w, replacements), before, all));
        lemma_writing_keeps(w, replacements, restore, promise);
    }
    lemma_keeps_add(first, second, 0, before, moved, promise);
}

/// While nothing fails, restoring a note leaves each window of its group where
/// the layout puts it: moved to its target, or found there and not touched.
pub proof fn law_windows_of_a_restored_note_end_in_place(
    member: MemberView,
    layout: LayoutView,
    before: World,
    readings: Seq<ScaleReading>,
    more: Seq<Event>,
)
    requires
        layout.snapshots.len() == layout.targets.len(),
        layout.snapshots.len() == readings.len(),
        windows_are_distinct(layout.snapshots),
        shows(before, layout.snapshots),
        forall|i: int| 0 <= i < more.len() ==> #[trigger] more[i] != Event::Failed,
        restore_note_plan(member, layout, before.store.notes, before.timers).len()
            <= usize::MAX,
    ensures
        ends_in_place(
            layout,
            readings,
            before,
            played(
                begun(restore_note_plan(member, layout, before.store.notes, before.timers)),
                before,
                layout_events(layout, readings, layout.snapshots.len() as int) + more,
            ).1,
        ),
{
    let notes = before.store.notes;
    let timers = before.timers;
    let plan = restore_note_plan(member, layout, notes, timers);
    let close = closing_again(member);
    let first = applying(layout, close);
    let rest = plan.skip(first.len() as int);
    assert(plan =~= first + rest);
    assert forall|k: int| 0 <= k < rest.len() implies spares(
        (#[trigger] rest[k]).effect,
        layout.snapshots,
    ) by {
        assert(rest[k] == plan[first.len() + k]);
    }
    lemma_first_layout_ends_in_place(layout, close, rest, before, readings, more);
}

/// Whether the windows of layout `g` are in no other layout.
pub open spec fn is_apart(layouts: Seq<LayoutView>, g: int) -> bool {
    forall|h: int, i: int|
        0 <= h < layouts.len() && h != g && 0 <= i < layouts[h].snapshots.len()
            ==> !is_label_of(
            layouts[g].snapshots,
            (#[trigger] layouts[h].snapshots[i]).member.window_label(),
        )
}

/// The steps of the first `n` layouts hold those of layout `g`, and the others
/// spare its windows.
proof fn lemma_layout_among_others(layouts: Seq<LayoutView>, g: int, n: int)
    requires
        0 <= g < layouts.len(),
        0 <= n <= layouts.len(),
        is_apart(layouts, g),
    ensures
        ({
            let steps = applying_layouts(layouts, n);
            let from = applying_layouts(layouts, g).len() as int;
            &&& n > g ==> holds_layout(
                steps,
                from,
                layouts[g],
                restoring_layouts(layouts, g),
            )
            &&& n <= g ==> steps.len() <= from
            &&& forall|k: int|
                0 <= k < steps.len() && !(from <= k < from + 4 * layouts[g].snapshots.len())
                    ==> spares((#[trigger] steps[k]).effect, layouts[g].snapshots)
        }),
    decreases n,
{
    if n > 0 {
        let h = n - 1;
        lemma_layout_among_others(layouts, g, h);
        let before = applying_layouts(layouts, h);
        let added = applying(layouts[h], restoring_layouts(layouts, h));
        let steps = applying_layouts(layouts, n);
        let from = applying_layouts(layouts, g).len() as int;
        assert(steps == before + added);
        if n <= g {
            lemma_more_layouts(layouts, n, g);
        }
        assert forall|k: int|
            0 <= k < steps.len() && !(from <= k < from + 4 * layouts[g].snapshots.len()) implies spares(
            (#[trigger] steps[k]).effect,
            layouts[g].snapshots,
        ) by {
            if k < before.len() {
                assert(steps[k] == before[k]);
            } else {
                let l = k - before.len();
                assert(steps[k] == added[l]);
                assert(added[l] == placing_step(
                    layouts[h],
                    restoring_layouts(layouts, h),
                    l / 4,
                    l % 4,
                ));
                assert(h != g);
                assert(!is_label_of(
                    layouts[g].snapshots,
                    layouts[h].snapshots[l / 4].member.window_label(),
                ));
            }
        }
        if h == g {
            assert forall|k: int| 0 <= k < added.len() implies steps[from + k] == #[trigger] added[k] by {}
        } else if n > g {
            let own = applying(layouts[g], restoring_layouts(layouts, g));
            assert forall|k: int| 0 <= k < own.len() implies steps[from + k] == #[trigger] own[k] by {
                assert(before[from + k] == own[k]);
            }
        }
    }
}

proof fn lemma_more_layouts(layouts: Seq<LayoutView>, m: int, n: int)
    requires
        0 <= m <= n,
    ensures
        applying_layouts(layouts, m).len() <= applying_layouts(layouts, n).len(),
    decreases n,
{
    if m < n {
        lemma_more_layouts(layouts, m, n - 1);
    }
}

/// While nothing fails, putting linked windows in place leaves each window of
/// layout `g` where that layout puts it: moved to its target, or found there and
/// not touched. `earlier` are the events of the layouts before it.
pub proof fn law_restored_layouts_end_in_place(
    layouts: Seq<LayoutView>,
    g: int,
    before: World,
    earlier: Seq<Event>,
    readings: Seq<ScaleReading>,
    more: Seq<Event>,
)
    requires
        0 <= g < layouts.len(),
        layouts[g].snapshots.len() == layouts[g].targets.len(),
        layouts[g].snapshots.len() == readings.len(),
        windows_are_distinct(layouts[g].snapshots),
        is_apart(layouts, g),
        shows(before, layouts[g].snapshots),
        forall|i: int| 0 <= i < earlier.len() ==> #[trigger] earlier[i] != Event::Failed,
        forall|i: int| 0 <= i < more.len() ==> #[trigger] more[i] != Event::Failed,
        restore_layouts_plan(layouts, before.store.notes, before.timers).len() <= usize::MAX,
        layouts[g].snapshots.len() > 0 ==> played(
            begun(restore_layouts_plan(layouts, before.store.notes, before.timers)),
            before,
            earlier,
        ).0.stage == (Stage::Forward { at: applying_layouts(layouts, g).len() as usize }),
    ensures
        ends_in_place(
            layouts[g],
            readings,
            before,
            played(
                begun(restore_layouts_plan(layouts, before.store.notes, before.timers)),
                before,
                earlier + layout_events(
                    layouts[g],
                    readings,
                    layouts[g].snapshots.len() as int,
                ) + more,
            ).1,
        ),
{
    let count = layouts.len() as int;
    let plan = restore_layouts_plan(layouts, before.store.notes, before.timers);
    let first = applying_layouts(layouts, count);
    let rest = plan.skip(first.len() as int);
    let from = applying_layouts(layouts, g).len() as int;
    let suffix = restoring_layouts(layouts, g);
    let own = applying(layouts[g], suffix);
    assert(plan =~= first + rest);
    lemma_layout_among_others(layouts, g, count);
    assert(holds_layout(plan, from, layouts[g], suffix)) by {
        assert forall|k: int| 0 <= k < own.len() implies plan[from + k] == #[trigger] own[k] by {
            assert(first[from + k] == own[k]);
        }
    }
    assert forall|k: int|
        0 <= k < plan.len() && !(from <= k < from + 4 * layouts[g].snapshots.len()) implies spares(
        (#[trigger] plan[k]).effect,
        layouts[g].snapshots,
    ) by {
        if k < first.len() {
            assert(plan[k] == first[k]);
        } else {
            assert(plan[k] == rest[k - first.len()]);
        }
    }
    law_placed_windows_stay_in_place(
        layouts[g],
        suffix,
        from,
        plan,
        before,
        earlier,
        readings,
        more,
    );
}

/// Archived notes are restored in the order in which they were closed, those with no
/// time first, each once; of two that were closed at the same time, the one that is
/// listed first comes first.
pub proof fn law_closed_first_is_restored_first(archived: Seq<NoteView>, restored: Seq<NoteView>)
    requires
        is_closing_order(archived, restored),
    ensures
        restored.len() == archived.len(),
        exists|order: Seq<usize>| #[trigger] is_timely(archived, restored, order),
{
    let order = choose|order: Seq<usize>|
        {
            &&& #[trigger] is_stable_order(closed_keys(archived), order)
            &&& restored == Seq::new(order.len(), |i: int| archived[order[i] as int])
        };
    let keys = closed_keys(archived);
    lemma_stable_order_is_permutation(keys, order);
    assert forall|a: int, b: int| 0 <= a < b < order.len() implies {
        let first = archived[#[trigger] order[a] as int].closed_at;
        let second = archived[#[trigger] order[b] as int].closed_at;
        &&& match (first, second) {
            (Some(early), Some(late)) => early <= late,
            (Some(_), None) => false,
            (None, _) => true,
        }
        &&& first == second ==> order[a] < order[b]
    } by {
        assert(stands_before(keys, order[a] as int, order[b] as int));
    }
    assert(is_timely(archived, restored, order));
}

/// Whether `order` has the place of every archived note once, and notes are restored
/// in this order, which goes by the time when they were closed.
pub open spec fn is_timely(
    archived: Seq<NoteView>,
    restored: Seq<NoteView>,
    order: Seq<usize>,
) -> bool {
    &&& order.len() == archived.len()
    &&& restored.len() == archived.len()
    &&& order.no_duplicates()
    &&& forall|a: int|
        0 <= a < order.len() ==> (#[trigger] order[a]) < archived.len() && restored[a]
            == archived[order[a] as int]
    &&& forall|a: int, b: int|
        0 <= a < b < order.len() ==> {
            let first = archived[#[trigger] order[a] as int].closed_at;
            let second = archived[#[trigger] order[b] as int].closed_at;
            &&& match (first, second) {
                (Some(early), Some(late)) => early <= late,
                (Some(_), None) => false,
                (None, _) => true,
            }
            &&& first == second ==> order[a] < order[b]
        }
}

} // verus!
