//! Storing what changed of several windows at once, and taking it back.
use vstd::prelude::*;

use crate::effect::{Effect, EffectView, NoteAction, NoteActionView, TimerAction, TimerActionView};
use crate::error::GroupError;
use crate::geometry::LogicalPosition;
use crate::layout::{
    apply_layout, applying, differs_only_at, is_reading, join_undos, layout_replacements,
    layout_surface_replacements, lemma_applying_keeps, lemma_differs_nowhere, members_of,
    moved_surfaces, same_desktop, same_records, shows, GroupLayout, LayoutView, SnapshotView,
};
use crate::member::{GroupMemberKind, MemberView};
use crate::store::{
    is_missing_surface, notes_of, notes_replaced, split_surfaces, stored_surface, surface_of,
    surfaces_known, surfaces_of, timers_of, timers_replaced, StoreView, TimerStore,
};
use crate::surface::{NoteView, StoredNote, StoredSurface, SurfaceView, TimerView};
use crate::table::Table;
use crate::transaction::{
    copy_undos, resolved, OnFailure, Registers, Step, StepView, Undo, UndoView,
};
use crate::views::{group_views, views};
use crate::world::{keeps, lemma_keeps_add, lemma_undone_add, performed, undone, Promise, World};

verus! {

/// The windows that surfaces belong to.
pub open spec fn surface_members(surfaces: Seq<SurfaceView>) -> Seq<MemberView> {
    Seq::new(surfaces.len(), |i: int| surfaces[i].member())
}

/// What is stored of the windows that replacements are for.
pub open spec fn originals_of(
    notes: Map<Seq<char>, NoteView>,
    timers: Map<Seq<char>, TimerView>,
    replacements: Seq<SurfaceView>,
) -> Seq<SurfaceView> {
    surfaces_of(notes, timers, surface_members(replacements))
}

/// The steps that store surfaces: timers first, then notes, each at once.
pub open spec fn writing(surfaces: Seq<SurfaceView>, unwind: Seq<UndoView>) -> Seq<StepView> {
    (if timers_of(surfaces).len() > 0 {
        seq![
            StepView {
                effect: EffectView::Timers(TimerActionView::Write(timers_of(surfaces))),
                only_if_moving: false,
                unwind,
            },
        ]
    } else {
        Seq::empty()
    }) + (if notes_of(surfaces).len() > 0 {
        seq![
            StepView {
                effect: EffectView::Notes(NoteActionView::Write(notes_of(surfaces))),
                only_if_moving: false,
                unwind,
            },
        ]
    } else {
        Seq::empty()
    })
}

/// The effects that store what was there before. If the timers cannot be
/// stored, the notes are left alone.
pub open spec fn rollback(originals: Seq<SurfaceView>) -> Seq<UndoView> {
    (if timers_of(originals).len() > 0 {
        seq![
            UndoView {
                effect: EffectView::Timers(TimerActionView::Write(timers_of(originals))),
                on_failure: if notes_of(originals).len() > 0 {
                    OnFailure::Skip(1)
                } else {
                    OnFailure::Skip(0)
                },
            },
        ]
    } else {
        Seq::empty()
    }) + (if notes_of(originals).len() > 0 {
        seq![
            UndoView {
                effect: EffectView::Notes(NoteActionView::Write(notes_of(originals))),
                on_failure: OnFailure::Skip(0),
            },
        ]
    } else {
        Seq::empty()
    })
}

/// What is stored of the windows that replacements are for.
pub fn stored_originals(
    notes: &Table<StoredNote>,
    timers: &TimerStore,
    replacements: &Vec<StoredSurface>,
) -> (originals: Result<Vec<StoredSurface>, GroupError>)
    ensures
        ({
            let members = surface_members(views(replacements@));
            match originals {
                Ok(originals) => {
                    &&& surfaces_known(notes@, timers@, members, members.len() as int)
                    &&& views(originals@) == originals_of(notes@, timers@, views(replacements@))
                },
                Err(error) => exists|i: int|
                    {
                        &&& 0 <= i < members.len()
                        &&& surfaces_known(notes@, timers@, members, i)
                        &&& surface_of(notes@, timers@, #[trigger] members[i]) is None
                        &&& is_missing_surface(error, members[i])
                    },
            }
        }),
{
    let ghost members = surface_members(views(replacements@));
    let mut originals: Vec<StoredSurface> = Vec::new();
    let mut i: usize = 0;
    while i < replacements.len()
        invariant
            members == surface_members(views(replacements@)),
            i <= replacements@.len(),
            surfaces_known(notes@, timers@, members, i as int),
            originals@.len() == i,
            forall|j: int|
                0 <= j < i ==> (#[trigger] originals@[j])@ == surface_of(
                    notes@,
                    timers@,
                    members[j],
                )->0,
        decreases replacements.len() - i,
    {
        let member = replacements[i].member();
        proof {
            assert(members[i as int] == member@);
        }
        match stored_surface(notes, timers, &member) {
            Ok(original) => {
                originals.push(original);
            },
            Err(error) => {
                return Err(error);
            },
        }
        i += 1;
    }
    proof {
        assert(views(originals@) =~= originals_of(notes@, timers@, views(replacements@)));
    }
    Ok(originals)
}

/// The steps that store surfaces.
pub fn replace_surface_batch(surfaces: &Vec<StoredSurface>, unwind: &Vec<Undo>) -> (steps: Vec<
    Step,
>)
    ensures
        views(steps@) == writing(views(surfaces@), views(unwind@)),
{
    broadcast use group_views;

    let (timers, notes) = split_surfaces(surfaces);
    let mut steps: Vec<Step> = Vec::new();
    if timers.len() > 0 {
        steps.push(
            Step {
                effect: Effect::Timers(TimerAction::Write(timers)),
                only_if_moving: false,
                unwind: copy_undos(unwind),
            },
        );
    }
    if notes.len() > 0 {
        steps.push(
            Step {
                effect: Effect::Notes(NoteAction::Write(notes)),
                only_if_moving: false,
                unwind: copy_undos(unwind),
            },
        );
    }
    proof {
        assert(views(steps@) =~= writing(views(surfaces@), views(unwind@)));
    }
    steps
}

/// The effects that store what was there before.
pub fn restore_surface_changes(originals: &Vec<StoredSurface>) -> (undos: Vec<Undo>)
    ensures
        views(undos@) == rollback(views(originals@)),
{
    broadcast use group_views;

    let (timers, notes) = split_surfaces(originals);
    let mut undos: Vec<Undo> = Vec::new();
    if timers.len() > 0 {
        undos.push(
            Undo {
                effect: Effect::Timers(TimerAction::Write(timers)),
                on_failure: if notes.len() > 0 {
                    OnFailure::Skip(1)
                } else {
                    OnFailure::Skip(0)
                },
            },
        );
    }
    if notes.len() > 0 {
        undos.push(
            Undo {
                effect: Effect::Notes(NoteAction::Write(notes)),
                on_failure: OnFailure::Skip(0),
            },
        );
    }
    proof {
        assert(views(undos@) =~= rollback(views(originals@)));
    }
    undos
}

/// The steps that store replacements and, if that fails, store the originals
/// again before what `suffix` undoes.
pub fn persist_surface_changes(
    replacements: &Vec<StoredSurface>,
    originals: &Vec<StoredSurface>,
    suffix: &Vec<Undo>,
) -> (steps: Vec<Step>)
    ensures
        views(steps@) == writing(
            views(replacements@),
            rollback(views(originals@)) + views(suffix@),
        ),
{
    let unwind = join_undos(restore_surface_changes(originals), suffix);
    replace_surface_batch(replacements, &unwind)
}

/// Steps that change the stored windows of a layout, with the effects that take
/// that back.
pub struct Compaction {
    /// The steps that place the windows and store where they are.
    pub steps: Vec<Step>,
    /// The effects that store where they were before.
    pub rollback: Vec<Undo>,
}

/// What was stored of the windows of a layout before they are placed.
pub open spec fn layout_originals(
    layout: LayoutView,
    notes: Map<Seq<char>, NoteView>,
    timers: Map<Seq<char>, TimerView>,
) -> Seq<SurfaceView> {
    originals_of(notes, timers, layout_replacements(layout, notes, timers))
}

/// The steps that place the windows of a layout and store where they are. What
/// follows in the undoing of the one and of the other is the affair of the caller.
pub open spec fn placing(
    layout: LayoutView,
    notes: Map<Seq<char>, NoteView>,
    timers: Map<Seq<char>, TimerView>,
    after_moves: Seq<UndoView>,
    after_writes: Seq<UndoView>,
) -> Seq<StepView> {
    applying(layout, after_moves) + writing(
        layout_replacements(layout, notes, timers),
        rollback(layout_originals(layout, notes, timers)) + after_writes,
    )
}

/// Whether the windows of a list are stored, and what is stored of each belongs
/// to a window that is stored.
pub open spec fn are_stored(
    members: Seq<MemberView>,
    notes: Map<Seq<char>, NoteView>,
    timers: Map<Seq<char>, TimerView>,
) -> bool {
    let owners = surface_members(surfaces_of(notes, timers, members));
    &&& surfaces_known(notes, timers, members, members.len() as int)
    &&& surfaces_known(notes, timers, owners, owners.len() as int)
}

/// Whether everything is stored that is needed to place the windows of a layout.
pub open spec fn is_placeable(
    layout: LayoutView,
    notes: Map<Seq<char>, NoteView>,
    timers: Map<Seq<char>, TimerView>,
) -> bool {
    are_stored(members_of(layout.snapshots), notes, timers)
}

/// Moving surfaces does not change the windows that they belong to.
pub proof fn lemma_moved_members(surfaces: Seq<SurfaceView>, targets: Seq<LogicalPosition>)
    ensures
        surface_members(moved_surfaces(surfaces, targets)) == surface_members(surfaces),
{
    assert(surface_members(moved_surfaces(surfaces, targets)) =~= surface_members(surfaces));
}

/// Windows that are stored under their own identifiers are stored for good.
pub proof fn lemma_keyed_are_stored(
    members: Seq<MemberView>,
    notes: Map<Seq<char>, NoteView>,
    timers: Map<Seq<char>, TimerView>,
)
    requires
        is_keyed(notes, timers),
        surfaces_known(notes, timers, members, members.len() as int),
    ensures
        surface_members(surfaces_of(notes, timers, members)) == members,
        are_stored(members, notes, timers),
{
    let owners = surface_members(surfaces_of(notes, timers, members));
    assert forall|i: int| 0 <= i < members.len() implies #[trigger] owners[i] == members[i] by {
        assert(surface_of(notes, timers, members[i]) is Some);
        match members[i].kind {
            GroupMemberKind::Note => {
                assert(notes.contains_key(members[i].id));
            },
            GroupMemberKind::Timer => {
                assert(timers.contains_key(members[i].id));
            },
        }
    }
    assert(owners =~= members);
}

/// Whether an error names a note or a timer that is not stored.
pub open spec fn names_missing_surface(
    error: GroupError,
    notes: Map<Seq<char>, NoteView>,
    timers: Map<Seq<char>, TimerView>,
) -> bool {
    exists|member: MemberView|
        surface_of(notes, timers, member) is None && #[trigger] is_missing_surface(error, member)
}

/// The steps that place the windows of a layout and store where they are.
pub fn place_windows(
    layout: &GroupLayout,
    notes: &Table<StoredNote>,
    timers: &TimerStore,
    after_moves: &Vec<Undo>,
    after_writes: &Vec<Undo>,
) -> (compaction: Result<Compaction, GroupError>)
    ensures
        match compaction {
            Ok(compaction) => {
                &&& is_placeable(layout@, notes@, timers@)
                &&& views(compaction.steps@) == placing(
                    layout@,
                    notes@,
                    timers@,
                    views(after_moves@),
                    views(after_writes@),
                )
                &&& views(compaction.rollback@) == rollback(
                    layout_originals(layout@, notes@, timers@),
                )
            },
            Err(error) => !is_placeable(layout@, notes@, timers@) && names_missing_surface(
                error,
                notes@,
                timers@,
            ),
        },
{
    broadcast use group_views;

    let replacements = match layout_surface_replacements(layout, notes, timers) {
        Ok(replacements) => replacements,
        Err(error) => {
            return Err(error);
        },
    };
    proof {
        lemma_moved_members(
            surfaces_of(notes@, timers@, members_of(layout@.snapshots)),
            layout@.targets,
        );
    }
    let originals = match stored_originals(notes, timers, &replacements) {
        Ok(originals) => originals,
        Err(error) => {
            return Err(error);
        },
    };
    let mut steps = apply_layout(layout, after_moves);
    let mut writes = persist_surface_changes(&replacements, &originals, after_writes);
    steps.append(&mut writes);
    Ok(Compaction { steps, rollback: restore_surface_changes(&originals) })
}

/// Whether every note and timer is stored under its own identifier.
pub open spec fn is_keyed(
    notes: Map<Seq<char>, NoteView>,
    timers: Map<Seq<char>, TimerView>,
) -> bool {
    &&& forall|id: Seq<char>| #[trigger] notes.contains_key(id) ==> notes[id].id == id
    &&& forall|id: Seq<char>| #[trigger] timers.contains_key(id) ==> timers[id].id == id
}

/// The world after replacements were stored.
pub open spec fn written(world: World, replacements: Seq<SurfaceView>) -> World {
    let notes = notes_of(replacements);
    let timers = timers_of(replacements);
    World {
        store: StoreView {
            notes: notes_replaced(world.store.notes, notes, notes.len() as int),
            ..world.store
        },
        timers: timers_replaced(world.timers, timers, timers.len() as int),
        ..world
    }
}

/// Whether replacements are for windows that the world knows.
pub open spec fn are_replaceable(world: World, replacements: Seq<SurfaceView>) -> bool {
    &&& is_keyed(world.store.notes, world.timers)
    &&& surfaces_known(
        world.store.notes,
        world.timers,
        surface_members(replacements),
        replacements.len() as int,
    )
}

/// The original of a surface is the stored value under its identifier.
proof fn lemma_notes_of(
    notes: Map<Seq<char>, NoteView>,
    timers: Map<Seq<char>, TimerView>,
    replacements: Seq<SurfaceView>,
    n: int,
)
    requires
        0 <= n <= replacements.len(),
        is_keyed(notes, timers),
        surfaces_known(notes, timers, surface_members(replacements), n),
    ensures
        ({
            let written = notes_of(replacements.take(n));
            let originals = notes_of(originals_of(notes, timers, replacements).take(n));
            &&& written.len() == originals.len()
            &&& forall|i: int|
                0 <= i < written.len() ==> {
                    &&& (#[trigger] originals[i]).id == written[i].id
                    &&& notes.contains_key(written[i].id)
                    &&& originals[i] == notes[written[i].id]
                }
        }),
        ({
            let written = timers_of(replacements.take(n));
            let originals = timers_of(originals_of(notes, timers, replacements).take(n));
            &&& written.len() == originals.len()
            &&& forall|i: int|
                0 <= i < written.len() ==> {
                    &&& (#[trigger] originals[i]).id == written[i].id
                    &&& timers.contains_key(written[i].id)
                    &&& originals[i] == timers[written[i].id]
                }
        }),
    decreases n,
{
    let all = originals_of(notes, timers, replacements);
    if n > 0 {
        lemma_notes_of(notes, timers, replacements, n - 1);
        assert(replacements.take(n).drop_last() =~= replacements.take(n - 1));
        assert(all.take(n).drop_last() =~= all.take(n - 1));
        let members = surface_members(replacements);
        assert(surface_of(notes, timers, members[n - 1]) is Some);
        assert(replacements.take(n).last() == replacements[n - 1]);
        assert(all.take(n).last() == all[n - 1]);
        match replacements[n - 1] {
            SurfaceView::Note(note) => {
                assert(notes.contains_key(note.id));
            },
            SurfaceView::Timer(timer) => {
                assert(timers.contains_key(timer.id));
            },
        }
    }
}

/// Notes that were replaced are restored by storing the originals again.
proof fn lemma_notes_restored(
    now: Map<Seq<char>, NoteView>,
    before: Map<Seq<char>, NoteView>,
    originals: Seq<NoteView>,
    n: int,
)
    requires
        0 <= n <= originals.len(),
        forall|i: int|
            0 <= i < originals.len() ==> before.contains_key((#[trigger] originals[i]).id)
                && before[originals[i].id] == originals[i],
        now.dom() == before.dom(),
        forall|id: Seq<char>|
            before.contains_key(id) && now[id] != before[id] ==> exists|i: int|
                0 <= i < originals.len() && (#[trigger] originals[i]).id == id,
    ensures
        notes_replaced(now, originals, n).dom() == before.dom(),
        forall|id: Seq<char>|
            before.contains_key(id) && #[trigger] notes_replaced(now, originals, n)[id]
                != before[id] ==> exists|i: int|
                n <= i < originals.len() && (#[trigger] originals[i]).id == id,
        n == originals.len() ==> notes_replaced(now, originals, n) == before,
    decreases n,
{
    if n > 0 {
        lemma_notes_restored(now, before, originals, n - 1);
        let previous = notes_replaced(now, originals, n - 1);
        let current = notes_replaced(now, originals, n);
        assert(before.contains_key(originals[n - 1].id));
        assert(current.dom() =~= before.dom());
        assert forall|id: Seq<char>|
            before.contains_key(id) && #[trigger] current[id] != before[id] implies exists|i: int|
            n <= i < originals.len() && (#[trigger] originals[i]).id == id by {
            assert(id != originals[n - 1].id);
            assert(previous[id] != before[id]);
            let i = choose|i: int|
                n - 1 <= i < originals.len() && (#[trigger] originals[i]).id == id;
            assert(n <= i && originals[i].id == id);
        }
    }
    if n == originals.len() {
        let current = notes_replaced(now, originals, n);
        assert forall|id: Seq<char>| before.contains_key(id) implies #[trigger] current[id]
            == before[id] by {}
        assert(current =~= before);
    }
}

/// Timers that were replaced are restored by storing the originals again.
proof fn lemma_timers_restored(
    now: Map<Seq<char>, TimerView>,
    before: Map<Seq<char>, TimerView>,
    originals: Seq<TimerView>,
    n: int,
)
    requires
        0 <= n <= originals.len(),
        forall|i: int|
            0 <= i < originals.len() ==> before.contains_key((#[trigger] originals[i]).id)
                && before[originals[i].id] == originals[i],
        now.dom() == before.dom(),
        forall|id: Seq<char>|
            before.contains_key(id) && now[id] != before[id] ==> exists|i: int|
                0 <= i < originals.len() && (#[trigger] originals[i]).id == id,
    ensures
        timers_replaced(now, originals, n).dom() == before.dom(),
        forall|id: Seq<char>|
            before.contains_key(id) && #[trigger] timers_replaced(now, originals, n)[id]
                != before[id] ==> exists|i: int|
                n <= i < originals.len() && (#[trigger] originals[i]).id == id,
        n == originals.len() ==> timers_replaced(now, originals, n) == before,
    decreases n,
{
    if n > 0 {
        lemma_timers_restored(now, before, originals, n - 1);
        let previous = timers_replaced(now, originals, n - 1);
        let current = timers_replaced(now, originals, n);
        assert(before.contains_key(originals[n - 1].id));
        assert(current.dom() =~= before.dom());
        assert forall|id: Seq<char>|
            before.contains_key(id) && #[trigger] current[id] != before[id] implies exists|i: int|
            n <= i < originals.len() && (#[trigger] originals[i]).id == id by {
            assert(id != originals[n - 1].id);
            assert(previous[id] != before[id]);
            let i = choose|i: int|
                n - 1 <= i < originals.len() && (#[trigger] originals[i]).id == id;
            assert(n <= i && originals[i].id == id);
        }
    }
    if n == originals.len() {
        let current = timers_replaced(now, originals, n);
        assert forall|id: Seq<char>| before.contains_key(id) implies #[trigger] current[id]
            == before[id] by {}
        assert(current =~= before);
    }
}

/// Replacing notes changes none but those that are replaced.
pub proof fn lemma_notes_replaced(
    notes: Map<Seq<char>, NoteView>,
    replacements: Seq<NoteView>,
    n: int,
)
    requires
        0 <= n <= replacements.len(),
        forall|i: int|
            0 <= i < replacements.len() ==> notes.contains_key((#[trigger] replacements[i]).id),
    ensures
        notes_replaced(notes, replacements, n).dom() == notes.dom(),
        forall|id: Seq<char>|
            #[trigger] notes_replaced(notes, replacements, n)[id] != notes[id] ==> exists|i: int|
                0 <= i < n && (#[trigger] replacements[i]).id == id,
    decreases n,
{
    if n > 0 {
        lemma_notes_replaced(notes, replacements, n - 1);
        let previous = notes_replaced(notes, replacements, n - 1);
        let current = notes_replaced(notes, replacements, n);
        assert(notes.contains_key(replacements[n - 1].id));
        assert(current.dom() =~= notes.dom());
        assert forall|id: Seq<char>| #[trigger] current[id] != notes[id] implies exists|i: int|
            0 <= i < n && (#[trigger] replacements[i]).id == id by {
            if id == replacements[n - 1].id {
                assert(0 <= n - 1 < n);
            } else {
                assert(previous[id] != notes[id]);
                let i = choose|i: int| 0 <= i < n - 1 && (#[trigger] replacements[i]).id == id;
                assert(i < n && replacements[i].id == id);
            }
        }
    }
}

/// Replacing timers changes none but those that are replaced.
pub proof fn lemma_timers_replaced(
    timers: Map<Seq<char>, TimerView>,
    replacements: Seq<TimerView>,
    n: int,
)
    requires
        0 <= n <= replacements.len(),
        forall|i: int|
            0 <= i < replacements.len() ==> timers.contains_key((#[trigger] replacements[i]).id),
    ensures
        timers_replaced(timers, replacements, n).dom() == timers.dom(),
        forall|id: Seq<char>|
            #[trigger] timers_replaced(timers, replacements, n)[id] != timers[id] ==> exists|
                i: int,
            |
                0 <= i < n && (#[trigger] replacements[i]).id == id,
    decreases n,
{
    if n > 0 {
        lemma_timers_replaced(timers, replacements, n - 1);
        let previous = timers_replaced(timers, replacements, n - 1);
        let current = timers_replaced(timers, replacements, n);
        assert(timers.contains_key(replacements[n - 1].id));
        assert(current.dom() =~= timers.dom());
        assert forall|id: Seq<char>| #[trigger] current[id] != timers[id] implies exists|i: int|
            0 <= i < n && (#[trigger] replacements[i]).id == id by {
            if id == replacements[n - 1].id {
                assert(0 <= n - 1 < n);
            } else {
                assert(previous[id] != timers[id]);
                let i = choose|i: int| 0 <= i < n - 1 && (#[trigger] replacements[i]).id == id;
                assert(i < n && replacements[i].id == id);
            }
        }
    }
}

/// The notes and timers among surfaces are surfaces.
proof fn lemma_parts_of(surfaces: Seq<SurfaceView>)
    ensures
        forall|i: int|
            0 <= i < notes_of(surfaces).len() ==> surfaces.contains(
                SurfaceView::Note(#[trigger] notes_of(surfaces)[i]),
            ),
        forall|i: int|
            0 <= i < timers_of(surfaces).len() ==> surfaces.contains(
                SurfaceView::Timer(#[trigger] timers_of(surfaces)[i]),
            ),
    decreases surfaces.len(),
{
    if surfaces.len() > 0 {
        let shorter = surfaces.drop_last();
        lemma_parts_of(shorter);
        assert forall|surface: SurfaceView| shorter.contains(surface) implies surfaces.contains(
            surface,
        ) by {
            let j = shorter.index_of(surface);
            assert(surfaces[j] == surface);
        }
        assert(surfaces[surfaces.len() - 1] == surfaces.last());
        assert forall|i: int| 0 <= i < notes_of(surfaces).len() implies surfaces.contains(
            SurfaceView::Note(#[trigger] notes_of(surfaces)[i]),
        ) by {
            if i < notes_of(shorter).len() {
                assert(notes_of(surfaces)[i] == notes_of(shorter)[i]);
            }
        }
        assert forall|i: int| 0 <= i < timers_of(surfaces).len() implies surfaces.contains(
            SurfaceView::Timer(#[trigger] timers_of(surfaces)[i]),
        ) by {
            if i < timers_of(shorter).len() {
                assert(timers_of(surfaces)[i] == timers_of(shorter)[i]);
            }
        }
    }
}

/// Storing replacements does not change a window that none of them is for.
pub proof fn lemma_replaced_elsewhere(
    world: World,
    replacements: Seq<SurfaceView>,
    member: MemberView,
)
    requires
        are_replaceable(world, replacements),
        !surface_members(replacements).contains(member),
    ensures
        surface_of(
            written(world, replacements).store.notes,
            written(world, replacements).timers,
            member,
        ) == surface_of(world.store.notes, world.timers, member),
        written(world, replacements).store.notes.dom() == world.store.notes.dom(),
        written(world, replacements).timers.dom() == world.timers.dom(),
{
    let members = surface_members(replacements);
    let new_notes = notes_of(replacements);
    let new_timers = timers_of(replacements);
    lemma_parts_of(replacements);
    assert forall|i: int| 0 <= i < new_notes.len() implies world.store.notes.contains_key(
        (#[trigger] new_notes[i]).id,
    ) && members.contains(SurfaceView::Note(new_notes[i]).member()) by {
        let j = replacements.index_of(SurfaceView::Note(new_notes[i]));
        assert(surface_of(world.store.notes, world.timers, members[j]) is Some);
    }
    assert forall|i: int| 0 <= i < new_timers.len() implies world.timers.contains_key(
        (#[trigger] new_timers[i]).id,
    ) && members.contains(SurfaceView::Timer(new_timers[i]).member()) by {
        let j = replacements.index_of(SurfaceView::Timer(new_timers[i]));
        assert(surface_of(world.store.notes, world.timers, members[j]) is Some);
    }
    lemma_notes_replaced(world.store.notes, new_notes, new_notes.len() as int);
    lemma_timers_replaced(world.timers, new_timers, new_timers.len() as int);
    let after = written(world, replacements);
    match member.kind {
        GroupMemberKind::Note => {
            if after.store.notes[member.id] != world.store.notes[member.id] {
                let i = choose|i: int|
                    0 <= i < new_notes.len() && (#[trigger] new_notes[i]).id == member.id;
                assert(SurfaceView::Note(new_notes[i]).member() == member);
            }
        },
        GroupMemberKind::Timer => {
            if after.timers[member.id] != world.timers[member.id] {
                let i = choose|i: int|
                    0 <= i < new_timers.len() && (#[trigger] new_timers[i]).id == member.id;
                assert(SurfaceView::Timer(new_timers[i]).member() == member);
            }
        },
    }
}

/// The windows that are stored when a layout is placed are those of the layout.
pub proof fn lemma_layout_replacements(
    layout: LayoutView,
    notes: Map<Seq<char>, NoteView>,
    timers: Map<Seq<char>, TimerView>,
)
    requires
        is_keyed(notes, timers),
        is_placeable(layout, notes, timers),
    ensures
        surface_members(layout_replacements(layout, notes, timers)) == members_of(
            layout.snapshots,
        ),
{
    let members = members_of(layout.snapshots);
    lemma_moved_members(surfaces_of(notes, timers, members), layout.targets);
    lemma_keyed_are_stored(members, notes, timers);
}

/// Storing replacements and then the originals leaves everything as it was,
/// whether or not the timers or the notes had been stored.
pub proof fn lemma_rolled_back(
    world: World,
    replacements: Seq<SurfaceView>,
    timers_written: bool,
    notes_written: bool,
)
    requires
        are_replaceable(world, replacements),
    ensures
        ({
            let notes = world.store.notes;
            let done = written(world, replacements);
            let now = World {
                timers: if timers_written {
                    done.timers
                } else {
                    world.timers
                },
                store: if notes_written {
                    done.store
                } else {
                    world.store
                },
                ..world
            };
            undone(now, rollback(originals_of(notes, world.timers, replacements))) == world
        }),
{
    let notes = world.store.notes;
    let timers = world.timers;
    let count = replacements.len() as int;
    let originals = originals_of(notes, timers, replacements);
    lemma_notes_of(notes, timers, replacements, count);
    assert(replacements.take(count) =~= replacements);
    assert(originals.take(count) =~= originals);
    let new_notes = notes_of(replacements);
    let new_timers = timers_of(replacements);
    let old_notes = notes_of(originals);
    let old_timers = timers_of(originals);
    assert forall|i: int| 0 <= i < new_notes.len() implies notes.contains_key(
        (#[trigger] new_notes[i]).id,
    ) by {
        assert(old_notes[i].id == new_notes[i].id);
    }
    assert forall|i: int| 0 <= i < new_timers.len() implies timers.contains_key(
        (#[trigger] new_timers[i]).id,
    ) by {
        assert(old_timers[i].id == new_timers[i].id);
    }
    lemma_notes_replaced(notes, new_notes, new_notes.len() as int);
    lemma_timers_replaced(timers, new_timers, new_timers.len() as int);
    let done = written(world, replacements);
    let now = World {
        timers: if timers_written {
            done.timers
        } else {
            world.timers
        },
        store: if notes_written {
            done.store
        } else {
            world.store
        },
        ..world
    };
    assert forall|id: Seq<char>|
        notes.contains_key(id) && now.store.notes[id] != notes[id] implies exists|i: int|
        0 <= i < old_notes.len() && (#[trigger] old_notes[i]).id == id by {
        let i = choose|i: int| 0 <= i < new_notes.len() && (#[trigger] new_notes[i]).id == id;
        assert(old_notes[i].id == id);
    }
    assert forall|id: Seq<char>|
        timers.contains_key(id) && now.timers[id] != timers[id] implies exists|i: int|
        0 <= i < old_timers.len() && (#[trigger] old_timers[i]).id == id by {
        let i = choose|i: int| 0 <= i < new_timers.len() && (#[trigger] new_timers[i]).id == id;
        assert(old_timers[i].id == id);
    }
    lemma_notes_restored(now.store.notes, notes, old_notes, old_notes.len() as int);
    lemma_timers_restored(now.timers, timers, old_timers, old_timers.len() as int);
    let undos = rollback(originals);
    reveal_with_fuel(undone, 3);
    if old_timers.len() > 0 && old_notes.len() > 0 {
        assert(undos.drop_last().drop_last() =~= Seq::empty());
        assert(undos.drop_last().last() == undos[0]);
        assert(undone(now, undos) =~= world);
    } else if old_timers.len() > 0 || old_notes.len() > 0 {
        assert(undos.len() == 1);
        assert(undos.drop_last() =~= Seq::empty());
        assert(undone(now, undos) =~= world);
    } else {
        assert(undos =~= Seq::empty());
        assert(now =~= world);
    }
}

/// Whether an effect stores notes or timers.
pub open spec fn is_write(effect: EffectView) -> bool {
    match effect {
        EffectView::Notes(NoteActionView::Write(_)) => true,
        EffectView::Timers(TimerActionView::Write(_)) => true,
        _ => false,
    }
}

/// Storing replacements keeps a promise that is kept where they are stored, if
/// what follows the rollback leads home.
pub proof fn lemma_writing_keeps(
    world: World,
    replacements: Seq<SurfaceView>,
    suffix: Seq<UndoView>,
    promise: Promise,
)
    requires
        are_replaceable(world, replacements),
        (promise.home)(undone(world, suffix)) || (forall|effect: EffectView| #[trigger]
            is_write(effect) ==> (promise.exempt)(effect)),
        (promise.done)(written(world, replacements)),
    ensures
        keeps(
            writing(
                replacements,
                rollback(originals_of(world.store.notes, world.timers, replacements)) + suffix,
            ),
            0,
            world,
            promise,
        ),
{
    let originals = originals_of(world.store.notes, world.timers, replacements);
    let unwind = rollback(originals) + suffix;
    let steps = writing(replacements, unwind);
    let new_notes = notes_of(replacements);
    let new_timers = timers_of(replacements);
    let done = written(world, replacements);
    assert(is_write(EffectView::Notes(NoteActionView::Write(new_notes))));
    assert(is_write(EffectView::Timers(TimerActionView::Write(new_timers))));
    lemma_rolled_back(world, replacements, false, false);
    lemma_rolled_back(world, replacements, true, false);
    let half = World { timers: done.timers, ..world };
    assert(world =~= World { timers: world.timers, store: world.store, ..world });
    assert(half =~= World { timers: done.timers, store: world.store, ..world });
    lemma_undone_add(world, rollback(originals), suffix);
    lemma_undone_add(half, rollback(originals), suffix);
    if new_timers.len() > 0 && new_notes.len() > 0 {
        assert(steps.len() == 2);
        let notes_effect = steps[1].effect;
        let timers_effect = steps[0].effect;
        assert(keeps(steps, 2, done, promise));
        assert forall|registers: Registers|
            keeps(steps, 2, performed(half, #[trigger] resolved(notes_effect, registers)), promise) by {
            assert(performed(half, notes_effect) =~= done);
        }
        assert(keeps(steps, 1, half, promise));
        assert forall|registers: Registers|
            keeps(
                steps,
                1,
                performed(world, #[trigger] resolved(timers_effect, registers)),
                promise,
            ) by {
            assert(performed(world, timers_effect) =~= half);
        }
    } else if new_timers.len() > 0 {
        let timers_effect = steps[0].effect;
        assert(steps.len() == 1);
        assert(keeps(steps, 1, done, promise));
        assert forall|registers: Registers|
            keeps(
                steps,
                1,
                performed(world, #[trigger] resolved(timers_effect, registers)),
                promise,
            ) by {
            assert(performed(world, timers_effect) =~= done);
        }
    } else if new_notes.len() > 0 {
        let notes_effect = steps[0].effect;
        assert(steps.len() == 1);
        assert(keeps(steps, 1, done, promise));
        assert forall|registers: Registers|
            keeps(
                steps,
                1,
                performed(world, #[trigger] resolved(notes_effect, registers)),
                promise,
            ) by {
            assert(performed(world, notes_effect) =~= done);
        }
    } else {
        assert(steps =~= Seq::empty());
        assert(done =~= world);
    }
}

/// Placing the windows of a layout and storing where they are keeps a promise,
/// if bringing everything back leads home, and if it is kept wherever the
/// windows have come to once they are stored there.
pub proof fn lemma_placing_keeps(
    layout: LayoutView,
    after_moves: Seq<UndoView>,
    after_writes: Seq<UndoView>,
    before: World,
    promise: Promise,
)
    requires
        layout.snapshots.len() == layout.targets.len(),
        shows(before, layout.snapshots),
        is_keyed(before.store.notes, before.timers),
        is_placeable(layout, before.store.notes, before.timers),
        forall|w: World|
            same_desktop(w, before) && same_records(w, before) ==> #[trigger] (promise.home)(
                undone(w, after_moves),
            ),
        forall|w: World|
            same_records(w, before) ==> (promise.home)(#[trigger] undone(w, after_moves)) || (
            forall|effect: EffectView| #[trigger]
                is_reading(effect) ==> (promise.exempt)(effect)),
        forall|w: World|
            same_records(w, before) && differs_only_at(w, before, layout.snapshots) ==> {
                &&& (promise.home)(#[trigger] undone(w, after_writes)) || (forall|
                    effect: EffectView,
                | #[trigger]
                    is_write(effect) ==> (promise.exempt)(effect))
                &&& (promise.done)(
                    written(w, layout_replacements(layout, before.store.notes, before.timers)),
                )
            },
    ensures
        keeps(
            placing(layout, before.store.notes, before.timers, after_moves, after_writes),
            0,
            before,
            promise,
        ),
{
    let replacements = layout_replacements(layout, before.store.notes, before.timers);
    lemma_layout_replacements(layout, before.store.notes, before.timers);
    let unwind = rollback(layout_originals(layout, before.store.notes, before.timers))
        + after_writes;
    let writes = writing(replacements, unwind);
    let moved = Promise {
        done: |w: World| same_records(w, before) && differs_only_at(w, before, layout.snapshots),
        ..promise
    };
    let none = Seq::<SnapshotView>::empty();
    assert(none + layout.snapshots.take(0) =~= none);
    assert(none + layout.snapshots =~= layout.snapshots);
    lemma_differs_nowhere(before, before);
    assert forall|w: World| same_records(w, before) && differs_only_at(w, before, none) implies
        #[trigger] (promise.home)(undone(w, after_moves)) by {
        lemma_differs_nowhere(w, before);
    }
    lemma_applying_keeps(layout, none, after_moves, 0, before, before, moved);
    assert forall|w: World| #[trigger] (moved.done)(w) implies keeps(writes, 0, w, promise) by {
        let there = undone(w, after_writes);
        lemma_writing_keeps(w, replacements, after_writes, promise);
    }
    lemma_keeps_add(applying(layout, after_moves), writes, 0, before, moved, promise);
}

proof fn lemma_notes_replaced_prefix(
    notes: Map<Seq<char>, NoteView>,
    a: Seq<NoteView>,
    b: Seq<NoteView>,
    n: int,
)
    requires
        0 <= n <= a.len(),
        n <= b.len(),
        forall|i: int| 0 <= i < n ==> #[trigger] a[i] == b[i],
    ensures
        notes_replaced(notes, a, n) == notes_replaced(notes, b, n),
    decreases n,
{
    if n > 0 {
        lemma_notes_replaced_prefix(notes, a, b, n - 1);
        assert(a[n - 1] == b[n - 1]);
    }
}

proof fn lemma_timers_replaced_prefix(
    timers: Map<Seq<char>, TimerView>,
    a: Seq<TimerView>,
    b: Seq<TimerView>,
    n: int,
)
    requires
        0 <= n <= a.len(),
        n <= b.len(),
        forall|i: int| 0 <= i < n ==> #[trigger] a[i] == b[i],
    ensures
        timers_replaced(timers, a, n) == timers_replaced(timers, b, n),
    decreases n,
{
    if n > 0 {
        lemma_timers_replaced_prefix(timers, a, b, n - 1);
        assert(a[n - 1] == b[n - 1]);
    }
}

/// Storing one more surface puts it under its window and leaves every other.
proof fn lemma_one_more_written(world: World, replacements: Seq<SurfaceView>, m: MemberView)
    requires
        replacements.len() > 0,
    ensures
        ({
            let after = written(world, replacements);
            let before = written(world, replacements.drop_last());
            let last = replacements.last();
            surface_of(after.store.notes, after.timers, m) == (if m == last.member() {
                Some(last)
            } else {
                surface_of(before.store.notes, before.timers, m)
            })
        }),
{
    let shorter = replacements.drop_last();
    match replacements.last() {
        SurfaceView::Note(note) => {
            let a = notes_of(shorter);
            let b = notes_of(replacements);
            assert(b == a.push(note));
            lemma_notes_replaced_prefix(world.store.notes, a, b, a.len() as int);
        },
        SurfaceView::Timer(timer) => {
            let a = timers_of(shorter);
            let b = timers_of(replacements);
            assert(b == a.push(timer));
            lemma_timers_replaced_prefix(world.timers, a, b, a.len() as int);
        },
    }
}

/// A surface that is stored is found under its window afterwards, if no other is
/// stored for that window, and what is stored of any other window stays. Neither
/// a window nor a group changes.
pub proof fn law_stored_surfaces_are_found(
    world: World,
    replacements: Seq<SurfaceView>,
    m: MemberView,
)
    requires
        surface_members(replacements).no_duplicates(),
    ensures
        ({
            let after = written(world, replacements);
            &&& forall|i: int|
                0 <= i < replacements.len() && (#[trigger] replacements[i]).member() == m
                    ==> surface_of(after.store.notes, after.timers, m) == Some(replacements[i])
            &&& !surface_members(replacements).contains(m) ==> surface_of(
                after.store.notes,
                after.timers,
                m,
            ) == surface_of(world.store.notes, world.timers, m)
            &&& after.store.groups == world.store.groups
            &&& after.windows == world.windows
            &&& after.geometries == world.geometries
            &&& after.runtime == world.runtime
        }),
    decreases replacements.len(),
{
    if replacements.len() > 0 {
        let shorter = replacements.drop_last();
        let last = replacements.len() - 1;
        let members = surface_members(replacements);
        assert(surface_members(shorter) =~= members.drop_last());
        law_stored_surfaces_are_found(world, shorter, m);
        lemma_one_more_written(world, replacements, m);
        assert forall|i: int| 0 <= i < replacements.len() && (#[trigger] replacements[i]).member()
            == m implies surface_of(
            written(world, replacements).store.notes,
            written(world, replacements).timers,
            m,
        ) == Some(replacements[i]) by {
            if i < last {
                assert(members[i] != members[last]);
                assert(shorter[i] == replacements[i]);
            }
        }
        if !members.contains(m) {
            assert(members[last] != m);
            assert(!surface_members(shorter).contains(m)) by {
                if surface_members(shorter).contains(m) {
                    let j = surface_members(shorter).index_of(m);
                    assert(members[j] == m);
                }
            }
        }
    }
}

} // verus!
