//! How large windows become, what is stored of that, and where the windows below
//! them go.
use vstd::prelude::*;

use crate::arrange::law_group_stands_from_its_origin_down;
use crate::geometry::{LogicalSize, NoteGeometry, PhysicalSize};
use crate::layout::{durable_heights, SnapshotView};
use crate::member::MemberView;
use crate::resize::{
    fold_size, is_resize, lemma_index_of_first, may_resize, note_target, resize_note_plan,
    ResizeView, ResizingView,
};
use crate::stack::{is_known, stored_height};
use crate::store::surfaces_of;
use crate::surface::{NoteView, SurfaceView, TimerView};
use crate::transaction::{begun, Event, Stage, Verdict};
use crate::world::{played, Extent, World};

verus! {

/// Resizing an unfolded note stores the size that was asked for, brought to the
/// least one of 150 by 80; so a size that is no smaller is the one it is found with
/// afterwards. Nothing else that is stored of it changes. A folded note and a timer
/// stay as they are stored.
pub proof fn law_resized_note_has_the_asked_size(request: ResizingView)
    requires
        request.collapsed is None,
    ensures
        match (request.old, request.new_surface()) {
            (SurfaceView::Note(old), SurfaceView::Note(new)) => if old.collapsed {
                new == old
            } else {
                let asked = request.target;
                &&& asked.width >= 150 ==> new.expanded_width == asked.width
                &&& asked.width < 150 ==> new.expanded_width == 150
                &&& asked.height >= 80 ==> new.expanded_height == asked.height
                &&& asked.height < 80 ==> new.expanded_height == 80
                &&& asked.width >= 150 && asked.height >= 80
                    ==> request.new_surface().durable_size() == asked
                &&& (NoteView {
                    expanded_width: old.expanded_width,
                    expanded_height: old.expanded_height,
                    ..new
                }) == old
            },
            (SurfaceView::Timer(old), SurfaceView::Timer(new)) => new == old,
            _ => false,
        },
{
}

/// Folding or unfolding a window stores that it is folded or not. Its window is
/// asked to be as high as it is stored to be afterwards: 24 if it is folded, else as
/// high as it was before it was folded.
pub proof fn law_folded_window_is_as_high_as_stored(
    request: ResizingView,
    collapsed: bool,
    size: LogicalSize,
)
    requires
        request.collapsed == Some(collapsed),
        request.old.collapsed() != collapsed,
        request.target == fold_size(request.old, size, collapsed),
    ensures
        ({
            let new = request.new_surface();
            &&& new.collapsed() == collapsed
            &&& request.target.height == new.durable_size().height
            &&& collapsed ==> request.target.height == 24
            &&& !collapsed ==> request.target.height == match request.old {
                SurfaceView::Note(note) => if note.expanded_height < 80 {
                    80
                } else {
                    note.expanded_height
                },
                SurfaceView::Timer(_) => 176,
            }
            &&& request.target.width >= size.width
            &&& request.target.width >= new.durable_size().width
            &&& request.target.width == size.width || request.target.width
                == new.durable_size().width
            &&& match (request.old, new) {
                (SurfaceView::Note(old), SurfaceView::Note(note)) => {
                    &&& old.expanded_width >= 150 ==> note.expanded_width == old.expanded_width
                    &&& (NoteView {
                        collapsed: old.collapsed,
                        expanded_width: old.expanded_width,
                        ..note
                    }) == old
                },
                (SurfaceView::Timer(old), SurfaceView::Timer(timer)) => (TimerView {
                    collapsed: old.collapsed,
                    ..timer
                }) == old,
                _ => false,
            }
        }),
{
}

/// Only the window of an unfolded note can be resized by the user.
pub proof fn law_only_unfolded_notes_are_resizable(member: MemberView, collapsed: bool)
    ensures
        may_resize(member, collapsed) <==> member.kind is Note && !collapsed,
{
}

/// A note that is given a height keeps its width and gets the height, each brought
/// to the least one.
pub proof fn law_note_gets_the_given_height(size: LogicalSize, height: u32)
    ensures
        ({
            let target = note_target(size, height);
            &&& size.width >= 150 ==> target.width == size.width
            &&& size.width < 150 ==> target.width == 150
            &&& height >= 80 ==> target.height == height
            &&& height < 80 ==> target.height == 80
        }),
{
}

/// When a window of a group is resized or folded, those that follow it in the group
/// make room: the next one goes 12 below the new end of the window, which stays
/// where it is, and each further one 12 below the stored end of the one before it.
/// After that, the next window is 12 below the stored end of the window too, unless
/// less than the least height was asked for.
pub proof fn law_windows_below_make_room(
    resize: ResizeView,
    request: ResizingView,
    active: Seq<MemberView>,
    geometries: Map<Seq<char>, NoteGeometry>,
    notes: Map<Seq<char>, NoteView>,
    timers: Map<Seq<char>, TimerView>,
    place: int,
)
    requires
        is_resize(resize, request, active, geometries, notes, timers),
        0 <= place < active.len(),
        active[place] == request.member,
        forall|j: int| 0 <= j < place ==> #[trigger] active[j] != request.member,
        forall|i: int| 0 <= i < active.len() ==> is_known(notes, timers, #[trigger] active[i]),
    ensures
        resize.later.len() == active.len() - place - 1,
        resize.targets.len() == resize.later.len(),
        resize.position == geometries[request.member.id].position,
        forall|i: int|
            0 <= i < resize.later.len() ==> {
                &&& (#[trigger] resize.later[i]).member == active[place + 1 + i]
                &&& resize.later[i].position == geometries[active[place + 1 + i].id].position
                &&& resize.later[i].size == geometries[active[place + 1 + i].id].size
            },
        resize.targets.len() > 0 ==> {
            let (x, y) = match request.old {
                SurfaceView::Note(note) => (note.x, note.y),
                SurfaceView::Timer(timer) => (timer.x, timer.y),
            };
            &&& resize.targets[0].x == x
            &&& resize.targets[0].y == y + request.target.height + 12
            &&& match (request.collapsed, request.old) {
                (None, SurfaceView::Note(note)) => !note.collapsed && request.target.height >= 80
                    ==> resize.targets[0].y == y + request.new_surface().durable_size().height
                    + 12,
                _ => true,
            }
        },
        forall|i: int|
            0 <= i < resize.targets.len() - 1 ==> {
                &&& (#[trigger] resize.targets[i + 1]).x == resize.targets[i].x
                &&& resize.targets[i + 1].y == resize.targets[i].y + stored_height(
                    notes,
                    timers,
                    active[place + 1 + i],
                ) + 12
            },
{
    lemma_index_of_first(active, request.member, place);
    let below = active.skip(place + 1);
    let origin = request.old.position();
    let heights = seq![request.target.height] + durable_heights(
        surfaces_of(notes, timers, below),
    );
    let positions = seq![origin] + resize.targets;
    law_group_stands_from_its_origin_down(origin, heights, positions);
    if resize.targets.len() > 0 {
        assert(positions[0int + 1] == resize.targets[0]);
    }
    assert forall|i: int| 0 <= i < resize.targets.len() - 1 implies {
        &&& (#[trigger] resize.targets[i + 1]).x == resize.targets[i].x
        &&& resize.targets[i + 1].y == resize.targets[i].y + stored_height(
            notes,
            timers,
            active[place + 1 + i],
        ) + 12
    } by {
        assert(positions[(i + 1) + 1] == resize.targets[i + 1]);
        assert(positions[i + 1] == resize.targets[i]);
        assert(below[i] == active[place + 1 + i]);
        assert(is_known(notes, timers, active[place + 1 + i]));
        assert(heights[i + 1] == stored_height(notes, timers, below[i]));
    }
}

/// A note in no group that is resized is stored with the size that its window was
/// measured with afterwards, brought to the least one, and that size is cached;
/// nothing else that is stored changes.
pub proof fn law_note_alone_is_stored_as_measured(
    snapshot: SnapshotView,
    target: LogicalSize,
    before: World,
    measured: PhysicalSize,
    converted: LogicalSize,
)
    requires
        before.store.notes.contains_key(snapshot.member.id),
    ensures
        ({
            let id = snapshot.member.id;
            let label = snapshot.member.window_label();
            let (transaction, after) = played(
                begun(resize_note_plan(snapshot, target)),
                before,
                seq![
                    Event::Done,
                    Event::Measured(measured),
                    Event::Done,
                    Event::Converted(converted),
                    Event::Done,
                ],
            );
            let old = before.store.notes[id];
            &&& transaction.stage == Stage::Ended(Verdict::Committed)
            &&& after.windows[label].size == Extent::Logical(target)
            &&& after.windows[label].position == before.windows[label].position
            &&& after.geometries[id].size == measured
            &&& after.geometries[id].position == before.geometries[id].position
            &&& after.store.notes == before.store.notes.insert(
                id,
                NoteView {
                    expanded_width: if converted.width < 150 {
                        150
                    } else {
                        converted.width
                    },
                    expanded_height: if converted.height < 80 {
                        80
                    } else {
                        converted.height
                    },
                    ..old
                },
            )
            &&& after.store.groups == before.store.groups
            &&& after.timers == before.timers
        }),
{
    let steps = resize_note_plan(snapshot, target);
    let e5 = seq![
        Event::Done,
        Event::Measured(measured),
        Event::Done,
        Event::Converted(converted),
        Event::Done,
    ];
    let e4 = e5.drop_last();
    let e3 = e4.drop_last();
    let e2 = e3.drop_last();
    let e1 = e2.drop_last();
    assert(e1.drop_last() =~= Seq::empty());
    let t0 = begun(steps);
    assert(played(t0, before, e1.drop_last()) == (t0, before));
    assert(t0.stage == Stage::Forward { at: 0 });
    let (t1, w1) = played(t0, before, e1);
    assert(t1.stage == Stage::Forward { at: 1 });
    let (t2, w2) = played(t0, before, e2);
    assert(t2.stage == Stage::Forward { at: 2 });
    assert(t2.registers.measured == measured);
    let (t3, w3) = played(t0, before, e3);
    assert(t3.stage == Stage::Forward { at: 3 });
    let (t4, w4) = played(t0, before, e4);
    assert(t4.stage == Stage::Forward { at: 4 });
    let (t5, w5) = played(t0, before, e5);
    assert(t5.stage == Stage::Ended(Verdict::Committed));
}

} // verus!
