//! What is stored once an operation is done: what each operation is for.
//!
//! Each law speaks of a run of the operation in which nothing fails, and of the
//! world before and after it.
use vstd::prelude::*;

use crate::close::{
    close_note_plan, close_note_promise, close_timer_plan, close_timer_promise,
    law_closing_a_note_is_all_or_nothing, law_closing_a_timer_is_all_or_nothing, ClosingView,
};
use crate::effect::{EffectView, NoteActionView};
use crate::geometry::{LogicalPosition, LogicalSize, NoteGeometry, PhysicalPosition};
use crate::groups::groups_detached;
use crate::layout::{
    is_id_of, layout_replacements, members_of, moved_surfaces, shows, windows_are_distinct,
    LayoutView, SnapshotView,
};
use crate::link::{group_ids, law_linking_is_all_or_nothing, link_plan, link_promise, SelectionView};
use crate::member::{GroupMemberKind, MemberView};
use crate::persist::{
    are_replaceable, is_keyed, is_placeable, law_stored_surfaces_are_found,
    lemma_layout_replacements, surface_members, written,
};
use crate::rearrange::{law_packing_is_all_or_nothing, reset_plan, reset_promise};
use crate::rest::is_dropped;
use crate::resize::{
    law_resizing_is_all_or_nothing, law_resizing_moves_only_the_windows_below, resize_plan,
    resize_promise, resize_replacements, resized_promise, ResizingView,
};
use crate::restore::{
    are_placeable, law_restoring_a_note_is_all_or_nothing, law_restoring_layouts_is_all_or_nothing,
    replacements_of_layouts, restore_layouts_plan, restore_layouts_promise, restore_note_plan,
    restore_note_promise, snapshots_of_layouts,
};
use crate::settle::{detach_plan, detach_promise, detached_surface, law_detaching_is_all_or_nothing};
use crate::store::{surface_of, surfaces_known, surfaces_of};
use crate::surface::{NoteView, SurfaceView, TimerView};
use crate::transaction::{begun, resolved, Event, Registers, StepView};
use crate::world::{
    keeps, law_unhindered_operation_is_done, performed, played, Extent, Promise, Spot, World,
};

verus! {

/// Whether steps can be carried out by these events from start to end, and no
/// event is a failure.
pub open spec fn is_run(steps: Seq<StepView>, before: World, events: Seq<Event>) -> bool {
    &&& steps.len() <= usize::MAX
    &&& forall|i: int| 0 <= i < events.len() ==> #[trigger] events[i] != Event::Failed
    &&& played(begun(steps), before, events).0.stage is Ended
}

/// The world after such a run.
pub open spec fn after_run(steps: Seq<StepView>, before: World, events: Seq<Event>) -> World {
    played(begun(steps), before, events).1
}

/// What is stored of a window.
pub open spec fn stored(world: World, member: MemberView) -> Option<SurfaceView> {
    surface_of(world.store.notes, world.timers, member)
}

/// Whether what is stored of a window is at `position`, and otherwise as it was.
pub open spec fn is_stored_at(
    before: World,
    after: World,
    member: MemberView,
    position: LogicalPosition,
) -> bool {
    match (stored(before, member), stored(after, member)) {
        (Some(SurfaceView::Note(old)), Some(SurfaceView::Note(new))) => new == NoteView {
            x: position.x,
            y: position.y,
            ..old
        },
        (Some(SurfaceView::Timer(old)), Some(SurfaceView::Timer(new))) => new == TimerView {
            x: position.x,
            y: position.y,
            ..old
        },
        _ => false,
    }
}

/// Whether every window of a layout is stored at its target.
pub open spec fn is_stored_in_place(before: World, after: World, layout: LayoutView) -> bool {
    forall|i: int|
        0 <= i < layout.snapshots.len() ==> is_stored_at(
            before,
            after,
            (#[trigger] layout.snapshots[i]).member,
            layout.targets[i],
        )
}

/// Storing a layout stores its windows at their targets and nothing else.
proof fn lemma_layout_is_stored(layout: LayoutView, before: World)
    requires
        layout.snapshots.len() == layout.targets.len(),
        is_keyed(before.store.notes, before.timers),
        is_placeable(layout, before.store.notes, before.timers),
        members_of(layout.snapshots).no_duplicates(),
    ensures
        ({
            let after = written(
                before,
                layout_replacements(layout, before.store.notes, before.timers),
            );
            &&& is_stored_in_place(before, after, layout)
            &&& forall|m: MemberView|
                !members_of(layout.snapshots).contains(m) ==> #[trigger] stored(after, m)
                    == stored(before, m)
        }),
{
    let replacements = layout_replacements(layout, before.store.notes, before.timers);
    let after = written(before, replacements);
    let members = members_of(layout.snapshots);
    lemma_layout_replacements(layout, before.store.notes, before.timers);
    assert forall|i: int| 0 <= i < layout.snapshots.len() implies is_stored_at(
        before,
        after,
        (#[trigger] layout.snapshots[i]).member,
        layout.targets[i],
    ) by {
        let m = layout.snapshots[i].member;
        assert(members[i] == m);
        assert(surface_members(replacements)[i] == replacements[i].member());
        law_stored_surfaces_are_found(before, replacements, m);
        assert(surface_of(before.store.notes, before.timers, members[i]) is Some);
    }
    assert forall|m: MemberView| !members.contains(m) implies #[trigger] stored(after, m)
        == stored(before, m) by {
        law_stored_surfaces_are_found(before, replacements, m);
    }
}

/// Linking stores every linked window where it is stacked, and nothing else of any
/// window. The new group is stored under its identifier with the windows of the
/// relinked order, the groups that it absorbed are gone, and the others stay.
pub proof fn law_linked_windows_are_stored(
    selection: SelectionView,
    layout: LayoutView,
    before: World,
    id: Seq<char>,
    events: Seq<Event>,
)
    requires
        layout.snapshots.len() == layout.targets.len(),
        shows(before, layout.snapshots),
        is_keyed(before.store.notes, before.timers),
        is_placeable(layout, before.store.notes, before.timers),
        members_of(layout.snapshots).no_duplicates(),
        is_run(
            link_plan(selection, layout, before.store.notes, before.timers, id),
            before,
            events,
        ),
    ensures
        ({
            let after = after_run(
                link_plan(selection, layout, before.store.notes, before.timers, id),
                before,
                events,
            );
            &&& is_stored_in_place(before, after, layout)
            &&& forall|m: MemberView|
                !members_of(layout.snapshots).contains(m) ==> #[trigger] stored(after, m)
                    == stored(before, m)
            &&& after.store.groups.contains_key(id)
            &&& after.store.groups[id].id == id
            &&& after.store.groups[id].members == selection.new_group(id).members
            &&& forall|k: Seq<char>|
                k != id ==> (#[trigger] after.store.groups.contains_key(k) <==> {
                    &&& before.store.groups.contains_key(k)
                    &&& !(exists|g: int|
                        0 <= g < selection.absorbed.len() && (#[trigger] selection.absorbed[g]).id
                            == k)
                })
            &&& forall|k: Seq<char>|
                k != id && after.store.groups.contains_key(k) ==> #[trigger] after.store.groups[k]
                    == before.store.groups[k]
        }),
{
    let plan = link_plan(selection, layout, before.store.notes, before.timers, id);
    let promise = link_promise(selection, layout, before, id, false);
    law_linking_is_all_or_nothing(selection, layout, before, id, false);
    law_unhindered_operation_is_done(plan, before, promise, events);
    lemma_layout_is_stored(layout, before);
    let after = after_run(plan, before, events);
    let kept = written(before, layout_replacements(layout, before.store.notes, before.timers));
    assert forall|m: MemberView| #[trigger] stored(after, m) == stored(kept, m) by {}
    assert forall|i: int| 0 <= i < layout.snapshots.len() implies is_stored_at(
        before,
        after,
        (#[trigger] layout.snapshots[i]).member,
        layout.targets[i],
    ) by {
        assert(stored(after, layout.snapshots[i].member) == stored(
            kept,
            layout.snapshots[i].member,
        ));
    }
    let absorbed = group_ids(selection.absorbed);
    assert forall|k: Seq<char>| k != id implies (#[trigger] after.store.groups.contains_key(k)
        <==> {
        &&& before.store.groups.contains_key(k)
        &&& !(exists|g: int|
            0 <= g < selection.absorbed.len() && (#[trigger] selection.absorbed[g]).id == k)
    }) by {
        if absorbed.contains(k) {
            let g = absorbed.index_of(k);
            assert(selection.absorbed[g].id == k);
        }
        if exists|g: int|
            0 <= g < selection.absorbed.len() && (#[trigger] selection.absorbed[g]).id == k {
            let g = choose|g: int|
                0 <= g < selection.absorbed.len() && (#[trigger] selection.absorbed[g]).id == k;
            assert(absorbed[g] == k);
        }
        assert(absorbed.to_set().contains(k) <==> absorbed.contains(k));
    }
}

/// Closing a note of a group archives it and changes nothing else that is stored
/// of it, stores every window that is left where it is stacked, and leaves all
/// other windows and all groups as they are stored.
pub proof fn law_closed_note_is_archived(
    closing: ClosingView,
    note: NoteView,
    layout: LayoutView,
    before: World,
    events: Seq<Event>,
)
    requires
        layout.snapshots.len() == layout.targets.len(),
        shows(before, layout.snapshots),
        is_keyed(before.store.notes, before.timers),
        is_placeable(layout, before.store.notes, before.timers),
        members_of(layout.snapshots).no_duplicates(),
        closing.member.kind == GroupMemberKind::Note,
        before.store.notes.contains_key(closing.member.id),
        before.store.notes[closing.member.id] == note,
        !members_of(layout.snapshots).contains(closing.member),
        is_run(
            close_note_plan(closing, note, layout, before.store.notes, before.timers),
            before,
            events,
        ),
    ensures
        ({
            let after = after_run(
                close_note_plan(closing, note, layout, before.store.notes, before.timers),
                before,
                events,
            );
            &&& is_stored_in_place(before, after, layout)
            &&& after.store.notes.contains_key(closing.member.id)
            &&& after.store.notes[closing.member.id].closed_at is Some
            &&& (NoteView { closed_at: note.closed_at, ..after.store.notes[closing.member.id] })
                == note
            &&& forall|m: MemberView|
                m != closing.member && !members_of(layout.snapshots).contains(m)
                    ==> #[trigger] stored(after, m) == stored(before, m)
            &&& after.store.groups == before.store.groups
            &&& !after.windows.contains_key(closing.member.window_label())
            &&& !after.runtime.drags.contains_key(closing.member.window_label())
            &&& !after.runtime.completed.contains_key(closing.member.window_label())
            &&& !after.runtime.pending.contains_key(closing.member.window_label())
        }),
{
    let plan = close_note_plan(closing, note, layout, before.store.notes, before.timers);
    let promise = close_note_promise(closing, note, layout, before, false);
    law_closing_a_note_is_all_or_nothing(closing, note, layout, before, false);
    law_unhindered_operation_is_done(plan, before, promise, events);
    lemma_layout_is_stored(layout, before);
    let after = after_run(plan, before, events);
    let kept = written(before, layout_replacements(layout, before.store.notes, before.timers));
    let at = choose|at: u64|
        after.store.notes == #[trigger] kept.store.notes.insert(
            closing.member.id,
            NoteView { closed_at: Some(at), ..note },
        );
    assert forall|m: MemberView| m != closing.member implies #[trigger] stored(after, m) == stored(
        kept,
        m,
    ) by {}
    assert forall|i: int| 0 <= i < layout.snapshots.len() implies is_stored_at(
        before,
        after,
        (#[trigger] layout.snapshots[i]).member,
        layout.targets[i],
    ) by {
        assert(members_of(layout.snapshots)[i] == layout.snapshots[i].member);
        assert(stored(after, layout.snapshots[i].member) == stored(
            kept,
            layout.snapshots[i].member,
        ));
    }
}

/// Closing a timer of a group deletes it and takes it out of its group, stores
/// every window that is left where it is stacked, and leaves all other windows and
/// all other groups as they are stored.
pub proof fn law_closed_timer_is_deleted(
    closing: ClosingView,
    timer: TimerView,
    layout: LayoutView,
    before: World,
    events: Seq<Event>,
)
    requires
        layout.snapshots.len() == layout.targets.len(),
        shows(before, layout.snapshots),
        is_keyed(before.store.notes, before.timers),
        is_placeable(layout, before.store.notes, before.timers),
        members_of(layout.snapshots).no_duplicates(),
        closing.member.kind == GroupMemberKind::Timer,
        before.timers.contains_key(closing.member.id),
        before.timers[closing.member.id] == timer,
        before.store.groups.contains_key(closing.group.id),
        before.store.groups[closing.group.id] == closing.group,
        !members_of(layout.snapshots).contains(closing.member),
        is_run(
            close_timer_plan(closing, timer, layout, before.store.notes, before.timers),
            before,
            events,
        ),
    ensures
        ({
            let after = after_run(
                close_timer_plan(closing, timer, layout, before.store.notes, before.timers),
                before,
                events,
            );
            let group = closing.group.id;
            &&& is_stored_in_place(before, after, layout)
            &&& !after.timers.contains_key(closing.member.id)
            &&& forall|m: MemberView|
                m != closing.member && !members_of(layout.snapshots).contains(m)
                    ==> #[trigger] stored(after, m) == stored(before, m)
            &&& after.store.groups == groups_detached(
                before.store.groups,
                group,
                closing.member,
            )
            &&& forall|k: Seq<char>|
                k != group ==> {
                    &&& #[trigger] after.store.groups.contains_key(k)
                        == before.store.groups.contains_key(k)
                    &&& after.store.groups[k] == before.store.groups[k]
                }
            &&& !after.windows.contains_key(closing.member.window_label())
            &&& !after.runtime.drags.contains_key(closing.member.window_label())
            &&& !after.runtime.completed.contains_key(closing.member.window_label())
            &&& !after.runtime.pending.contains_key(closing.member.window_label())
        }),
{
    let plan = close_timer_plan(closing, timer, layout, before.store.notes, before.timers);
    let promise = close_timer_promise(closing, layout, before, false);
    law_closing_a_timer_is_all_or_nothing(closing, timer, layout, before, false);
    law_unhindered_operation_is_done(plan, before, promise, events);
    lemma_layout_is_stored(layout, before);
    let after = after_run(plan, before, events);
    let kept = written(before, layout_replacements(layout, before.store.notes, before.timers));
    assert forall|m: MemberView| m != closing.member implies #[trigger] stored(after, m) == stored(
        kept,
        m,
    ) by {}
    assert forall|i: int| 0 <= i < layout.snapshots.len() implies is_stored_at(
        before,
        after,
        (#[trigger] layout.snapshots[i]).member,
        layout.targets[i],
    ) by {
        assert(members_of(layout.snapshots)[i] == layout.snapshots[i].member);
        assert(stored(after, layout.snapshots[i].member) == stored(
            kept,
            layout.snapshots[i].member,
        ));
    }
}

/// Restoring a note takes it out of the archive, stores it and every window of its
/// group where they are stacked, and leaves all other windows and all groups as
/// they are stored.
pub proof fn law_restored_note_is_active(
    member: MemberView,
    layout: LayoutView,
    before: World,
    events: Seq<Event>,
)
    requires
        layout.snapshots.len() == layout.targets.len(),
        shows(before, layout.snapshots),
        is_keyed(before.store.notes, before.timers),
        is_placeable(layout, before.store.notes, before.timers),
        members_of(layout.snapshots).no_duplicates(),
        member.kind == GroupMemberKind::Note,
        before.store.notes.contains_key(member.id),
        is_run(
            restore_note_plan(member, layout, before.store.notes, before.timers),
            before,
            events,
        ),
    ensures
        ({
            let after = after_run(
                restore_note_plan(member, layout, before.store.notes, before.timers),
                before,
                events,
            );
            let old = before.store.notes[member.id];
            let new = after.store.notes[member.id];
            &&& after.store.notes.contains_key(member.id)
            &&& new.closed_at is None
            &&& (NoteView { closed_at: old.closed_at, x: old.x, y: old.y, ..new }) == old
            &&& !members_of(layout.snapshots).contains(member) ==> new.x == old.x && new.y
                == old.y
            &&& forall|i: int|
                0 <= i < layout.snapshots.len() ==> if (#[trigger] layout.snapshots[i]).member
                    == member {
                    new.x == layout.targets[i].x && new.y == layout.targets[i].y
                } else {
                    is_stored_at(before, after, layout.snapshots[i].member, layout.targets[i])
                }
            &&& forall|m: MemberView|
                m != member && !members_of(layout.snapshots).contains(m) ==> #[trigger] stored(
                    after,
                    m,
                ) == stored(before, m)
            &&& after.store.groups == before.store.groups
        }),
{
    let plan = restore_note_plan(member, layout, before.store.notes, before.timers);
    let promise = restore_note_promise(member, layout, before, false);
    law_restoring_a_note_is_all_or_nothing(member, layout, before, false);
    law_unhindered_operation_is_done(plan, before, promise, events);
    lemma_layout_is_stored(layout, before);
    let after = after_run(plan, before, events);
    let kept = written(before, layout_replacements(layout, before.store.notes, before.timers));
    assert forall|m: MemberView| m != member implies #[trigger] stored(after, m) == stored(
        kept,
        m,
    ) by {}
    let members = members_of(layout.snapshots);
    if members.contains(member) {
        let j = members.index_of(member);
        assert(layout.snapshots[j].member == member);
        assert(is_stored_at(before, kept, layout.snapshots[j].member, layout.targets[j]));
    } else {
        assert(stored(kept, member) == stored(before, member));
    }
    assert forall|i: int| 0 <= i < layout.snapshots.len() implies if (
    #[trigger] layout.snapshots[i]).member == member {
        after.store.notes[member.id].x == layout.targets[i].x && after.store.notes[member.id].y
            == layout.targets[i].y
    } else {
        is_stored_at(before, after, layout.snapshots[i].member, layout.targets[i])
    } by {
        let m = layout.snapshots[i].member;
        assert(is_stored_at(before, kept, m, layout.targets[i]));
        if m != member {
            assert(stored(after, m) == stored(kept, m));
        }
    }
}

/// Resizing an unfolded note of a group stores it with the size that its window was
/// asked to take, brought to the least one, and where it was. Folding or unfolding
/// a window stores that it is folded or not, and keeps its expanded height. The
/// windows below are stored at their targets, and nothing else changes that is
/// stored.
pub proof fn law_resized_window_is_stored_so(
    request: ResizingView,
    position: PhysicalPosition,
    later: Seq<SnapshotView>,
    targets: Seq<LogicalPosition>,
    before: World,
    events: Seq<Event>,
)
    requires
        later.len() == targets.len(),
        before.windows.contains_key(request.member.window_label()),
        before.geometries.contains_key(request.member.id),
        shows(before, later),
        is_keyed(before.store.notes, before.timers),
        stored(before, request.member) == Some(request.old),
        forall|i: int|
            0 <= i < later.len() ==> stored(before, (#[trigger] later[i]).member) is Some,
        members_of(later).no_duplicates(),
        !members_of(later).contains(request.member),
        request.collapsed matches Some(collapsed) ==> request.old.collapsed() != collapsed,
        is_run(
            resize_plan(
                request,
                position,
                later,
                targets,
                before.store.notes,
                before.timers,
            ),
            before,
            events,
        ),
    ensures
        ({
            let after = after_run(
                resize_plan(
                    request,
                    position,
                    later,
                    targets,
                    before.store.notes,
                    before.timers,
                ),
                before,
                events,
            );
            &&& stored(after, request.member) matches Some(new)
            &&& new.position() == request.old.position()
            &&& new.pinned() == request.old.pinned()
            &&& match request.collapsed {
                None => {
                    &&& new.collapsed() == request.old.collapsed()
                    &&& new matches SurfaceView::Note(note) ==> !note.collapsed ==> {
                        let asked = request.target;
                        &&& note.expanded_width == (if asked.width < 150 {
                            150
                        } else {
                            asked.width
                        })
                        &&& note.expanded_height == (if asked.height < 80 {
                            80
                        } else {
                            asked.height
                        })
                        &&& asked.width >= 150 && asked.height >= 80 ==> new.durable_size()
                            == asked
                    }
                    &&& !(request.old is Note && !request.old.collapsed()) ==> new == request.old
                },
                Some(collapsed) => {
                    &&& new.collapsed() == collapsed
                    &&& new.expanded_height() == request.old.expanded_height()
                    &&& new.width() == request.old.width()
                },
            }
            &&& forall|i: int|
                0 <= i < later.len() ==> is_stored_at(
                    before,
                    after,
                    (#[trigger] later[i]).member,
                    targets[i],
                )
            &&& forall|m: MemberView|
                m != request.member && !members_of(later).contains(m) ==> #[trigger] stored(
                    after,
                    m,
                ) == stored(before, m)
            &&& after.store.groups == before.store.groups
        }),
{
    let notes = before.store.notes;
    let timers = before.timers;
    let plan = resize_plan(request, position, later, targets, notes, timers);
    let replacements = resize_replacements(request, later, targets, notes, timers);
    let members = members_of(later);
    let owners = surface_members(replacements);
    assert forall|i: int| 0 <= i < later.len() implies owners[i + 1] == #[trigger] members[i]
        && surface_of(notes, timers, members[i]) is Some by {
        assert(stored(before, later[i].member) is Some);
        assert(replacements[i + 1] == moved_surfaces(
            surfaces_of(notes, timers, members),
            targets,
        )[i]);
    }
    assert(owners[0] == request.member);
    assert(owners =~= seq![request.member] + members);
    assert forall|i: int| 0 <= i < owners.len() implies surface_of(
        notes,
        timers,
        #[trigger] owners[i],
    ) is Some by {
        if i > 0 {
            assert(owners[i - 1 + 1] == members[i - 1]);
        }
    }
    assert(are_replaceable(before, replacements));
    assert(owners.no_duplicates()) by {
        assert forall|i: int, j: int| 0 <= i < j < owners.len() implies owners[i] != owners[j] by {
            assert(owners[j] == members[j - 1]);
            if i == 0 {
                assert(members.contains(members[j - 1]));
            } else {
                assert(owners[i] == members[i - 1]);
            }
        }
    }
    law_resizing_is_all_or_nothing(request, position, later, targets, before);
    law_unhindered_operation_is_done(
        plan,
        before,
        resize_promise(request, position, later, targets, before),
        events,
    );
    let after = after_run(plan, before, events);
    let kept = written(before, replacements);
    assert forall|m: MemberView| #[trigger] stored(after, m) == stored(kept, m) by {}
    law_stored_surfaces_are_found(before, replacements, request.member);
    assert(replacements[0].member() == request.member);
    assert forall|i: int| 0 <= i < later.len() implies is_stored_at(
        before,
        after,
        (#[trigger] later[i]).member,
        targets[i],
    ) by {
        let m = later[i].member;
        assert(members[i] == m);
        law_stored_surfaces_are_found(before, replacements, m);
        assert(replacements[i + 1].member() == m);
        assert(replacements[i + 1] == moved_surfaces(
            surfaces_of(notes, timers, members),
            targets,
        )[i]);
    }
    assert forall|m: MemberView| m != request.member && !members.contains(m) implies
        #[trigger] stored(after, m) == stored(before, m) by {
        law_stored_surfaces_are_found(before, replacements, m);
        assert(!owners.contains(m)) by {
            if owners.contains(m) {
                let j = owners.index_of(m);
                if j > 0 {
                    assert(members[j - 1] == m);
                }
            }
        }
    }
}

/// A window that is taken out of its group is stored where it was dropped, be it a
/// note or a timer, an unfolded note with the size it was dropped with. Nothing
/// else changes that is stored of any window, and no window moves.
pub proof fn law_detached_window_stays_where_it_was_dropped(
    member: MemberView,
    group_id: Seq<char>,
    previous: SurfaceView,
    position: LogicalPosition,
    size: LogicalSize,
    home: NoteGeometry,
    before: World,
    events: Seq<Event>,
)
    requires
        previous.member() == member,
        stored(before, member) == Some(previous),
        is_keyed(before.store.notes, before.timers),
        is_run(
            detach_plan(member, group_id, previous, position, size, home),
            before,
            events,
        ),
    ensures
        ({
            let after = after_run(
                detach_plan(member, group_id, previous, position, size, home),
                before,
                events,
            );
            &&& stored(after, member) matches Some(new)
            &&& is_dropped(previous, new, position, size)
            &&& forall|m: MemberView|
                m != member ==> #[trigger] stored(after, m) == stored(before, m)
            &&& after.store.groups == groups_detached(before.store.groups, group_id, member)
            &&& forall|k: Seq<char>|
                k != group_id ==> {
                    &&& #[trigger] after.store.groups.contains_key(k)
                        == before.store.groups.contains_key(k)
                    &&& after.store.groups[k] == before.store.groups[k]
                }
            &&& after.windows == before.windows
        }),
{
    let plan = detach_plan(member, group_id, previous, position, size, home);
    law_detaching_is_all_or_nothing(
        member,
        group_id,
        previous,
        position,
        size,
        home,
        before,
        false,
    );
    law_unhindered_operation_is_done(
        plan,
        before,
        detach_promise(member, group_id, previous, position, size, home, before, false),
        events,
    );
    let dropped = detached_surface(previous, position, size);
    let kept = written(before, seq![dropped]);
    let after = after_run(plan, before, events);
    assert(surface_members(seq![dropped]) =~= seq![member]);
    law_stored_surfaces_are_found(before, seq![dropped], member);
    assert(seq![dropped][0].member() == member);
    assert(stored(kept, member) == Some(dropped));
    assert forall|m: MemberView| #[trigger] stored(after, m) == stored(kept, m) by {}
    assert forall|m: MemberView| m != member implies #[trigger] stored(after, m) == stored(
        before,
        m,
    ) by {
        law_stored_surfaces_are_found(before, seq![dropped], m);
        assert(!seq![member].contains(m));
    }
}

/// Packing stores every packed window where it was packed, and leaves no group.
/// Nothing else changes that is stored of any window.
pub proof fn law_packed_windows_are_stored(
    snapshots: Seq<SnapshotView>,
    targets: Seq<PhysicalPosition>,
    logical: Seq<LogicalPosition>,
    before: World,
    events: Seq<Event>,
)
    requires
        snapshots.len() > 0,
        snapshots.len() == targets.len(),
        snapshots.len() == logical.len(),
        shows(before, snapshots),
        is_keyed(before.store.notes, before.timers),
        forall|i: int|
            0 <= i < snapshots.len() ==> stored(before, (#[trigger] snapshots[i]).member) is Some,
        members_of(snapshots).no_duplicates(),
        is_run(
            reset_plan(snapshots, targets, logical, before.store.notes, before.timers),
            before,
            events,
        ),
    ensures
        ({
            let after = after_run(
                reset_plan(snapshots, targets, logical, before.store.notes, before.timers),
                before,
                events,
            );
            &&& forall|i: int|
                0 <= i < snapshots.len() ==> is_stored_at(
                    before,
                    after,
                    (#[trigger] snapshots[i]).member,
                    logical[i],
                )
            &&& forall|m: MemberView|
                !members_of(snapshots).contains(m) ==> #[trigger] stored(after, m) == stored(
                    before,
                    m,
                )
            &&& forall|k: Seq<char>| !#[trigger] after.store.groups.contains_key(k)
        }),
{
    let notes = before.store.notes;
    let timers = before.timers;
    let plan = reset_plan(snapshots, targets, logical, notes, timers);
    let members = members_of(snapshots);
    let replacements = moved_surfaces(surfaces_of(notes, timers, members), logical);
    let owners = surface_members(replacements);
    assert forall|i: int| 0 <= i < snapshots.len() implies #[trigger] owners[i] == members[i]
        && surface_of(notes, timers, members[i]) is Some by {
        assert(stored(before, snapshots[i].member) is Some);
    }
    assert(owners =~= members);
    assert(are_replaceable(before, replacements));
    law_packing_is_all_or_nothing(snapshots, targets, logical, before);
    law_unhindered_operation_is_done(
        plan,
        before,
        reset_promise(snapshots, logical, before),
        events,
    );
    let after = after_run(plan, before, events);
    let kept = written(before, replacements);
    assert forall|m: MemberView| #[trigger] stored(after, m) == stored(kept, m) by {}
    assert forall|i: int| 0 <= i < snapshots.len() implies is_stored_at(
        before,
        after,
        (#[trigger] snapshots[i]).member,
        logical[i],
    ) by {
        law_stored_surfaces_are_found(before, replacements, snapshots[i].member);
        assert(owners[i] == members[i]);
        assert(replacements[i].member() == snapshots[i].member);
    }
    assert forall|m: MemberView| !members.contains(m) implies #[trigger] stored(after, m)
        == stored(before, m) by {
        law_stored_surfaces_are_found(before, replacements, m);
    }
}

/// What is stored for the first `n` layouts is for their windows, in order.
proof fn lemma_layouts_replaced(
    layouts: Seq<LayoutView>,
    notes: Map<Seq<char>, NoteView>,
    timers: Map<Seq<char>, TimerView>,
    n: int,
)
    requires
        0 <= n <= layouts.len(),
        is_keyed(notes, timers),
        forall|g: int|
            0 <= g < layouts.len() ==> {
                &&& (#[trigger] layouts[g]).snapshots.len() == layouts[g].targets.len()
                &&& surfaces_known(
                    notes,
                    timers,
                    members_of(layouts[g].snapshots),
                    layouts[g].snapshots.len() as int,
                )
            },
    ensures
        surface_members(replacements_of_layouts(layouts, notes, timers, n)) == members_of(
            snapshots_of_layouts(layouts, n),
        ),
        forall|g: int, i: int|
            0 <= g < n && 0 <= i < layouts[g].snapshots.len() ==> is_replaced(
                replacements_of_layouts(layouts, notes, timers, n),
                notes,
                timers,
                (#[trigger] layouts[g].snapshots[i]).member,
                layouts[g].targets[i],
            ),
    decreases n,
{
    if n > 0 {
        lemma_layouts_replaced(layouts, notes, timers, n - 1);
        let last = layouts[n - 1];
        let members = members_of(last.snapshots);
        let added = layout_replacements(last, notes, timers);
        let rest = replacements_of_layouts(layouts, notes, timers, n - 1);
        let all = replacements_of_layouts(layouts, notes, timers, n);
        assert(surfaces_known(notes, timers, members, last.snapshots.len() as int));
        assert forall|i: int| 0 <= i < last.snapshots.len() implies (
        #[trigger] added[i]).member() == members[i] && surface_of(notes, timers, members[i])
            is Some by {
            assert(surface_of(notes, timers, members[i]) is Some);
        }
        assert(surface_members(added) =~= members);
        assert(surface_members(all) =~= surface_members(rest) + surface_members(added));
        assert(members_of(snapshots_of_layouts(layouts, n)) =~= members_of(
            snapshots_of_layouts(layouts, n - 1),
        ) + members);
        assert forall|g: int, i: int|
            0 <= g < n && 0 <= i < layouts[g].snapshots.len() implies is_replaced(
            all,
            notes,
            timers,
            (#[trigger] layouts[g].snapshots[i]).member,
            layouts[g].targets[i],
        ) by {
            let m = layouts[g].snapshots[i].member;
            let position = layouts[g].targets[i];
            if g < n - 1 {
                assert(is_replaced(rest, notes, timers, m, position));
                let k = choose|k: int|
                    0 <= k < rest.len() && #[trigger] rest[k] == surface_of(notes, timers, m)->0.at(
                        position.x,
                        position.y,
                    );
                assert(all[k] == rest[k]);
            } else {
                assert(members[i] == m);
                assert(all[rest.len() + i] == added[i]);
            }
        }
    } else {
        assert(surface_members(replacements_of_layouts(layouts, notes, timers, n)) =~= members_of(
            snapshots_of_layouts(layouts, n),
        ));
    }
}

/// Whether one of some replacements is what is stored of a window, at `position`.
spec fn is_replaced(
    replacements: Seq<SurfaceView>,
    notes: Map<Seq<char>, NoteView>,
    timers: Map<Seq<char>, TimerView>,
    member: MemberView,
    position: LogicalPosition,
) -> bool {
    &&& surface_of(notes, timers, member) is Some
    &&& exists|k: int|
        0 <= k < replacements.len() && #[trigger] replacements[k] == surface_of(
            notes,
            timers,
            member,
        )->0.at(position.x, position.y)
}

/// Putting linked windows in place stores every one of them where it is stacked.
/// Nothing else changes that is stored of any window, and no group changes.
pub proof fn law_windows_put_in_place_are_stored(
    layouts: Seq<LayoutView>,
    before: World,
    events: Seq<Event>,
)
    requires
        forall|g: int|
            0 <= g < layouts.len() ==> {
                &&& (#[trigger] layouts[g]).snapshots.len() == layouts[g].targets.len()
                &&& shows(before, layouts[g].snapshots)
            },
        is_keyed(before.store.notes, before.timers),
        are_placeable(layouts, before.store.notes, before.timers),
        members_of(snapshots_of_layouts(layouts, layouts.len() as int)).no_duplicates(),
        is_run(
            restore_layouts_plan(layouts, before.store.notes, before.timers),
            before,
            events,
        ),
    ensures
        ({
            let after = after_run(
                restore_layouts_plan(layouts, before.store.notes, before.timers),
                before,
                events,
            );
            &&& forall|g: int|
                0 <= g < layouts.len() ==> is_stored_in_place(
                    before,
                    after,
                    #[trigger] layouts[g],
                )
            &&& forall|m: MemberView|
                !members_of(snapshots_of_layouts(layouts, layouts.len() as int)).contains(m)
                    ==> #[trigger] stored(after, m) == stored(before, m)
            &&& after.store.groups == before.store.groups
        }),
{
    let notes = before.store.notes;
    let timers = before.timers;
    let count = layouts.len() as int;
    let plan = restore_layouts_plan(layouts, notes, timers);
    let replacements = replacements_of_layouts(layouts, notes, timers, count);
    law_restoring_layouts_is_all_or_nothing(layouts, before, false);
    law_unhindered_operation_is_done(
        plan,
        before,
        restore_layouts_promise(layouts, before, false),
        events,
    );
    lemma_layouts_replaced(layouts, notes, timers, count);
    let after = after_run(plan, before, events);
    let kept = written(before, replacements);
    assert forall|m: MemberView| #[trigger] stored(after, m) == stored(kept, m) by {}
    assert forall|g: int| 0 <= g < layouts.len() implies is_stored_in_place(
        before,
        after,
        #[trigger] layouts[g],
    ) by {
        assert forall|i: int| 0 <= i < layouts[g].snapshots.len() implies is_stored_at(
            before,
            after,
            (#[trigger] layouts[g].snapshots[i]).member,
            layouts[g].targets[i],
        ) by {
            let m = layouts[g].snapshots[i].member;
            let position = layouts[g].targets[i];
            assert(is_replaced(replacements, notes, timers, m, position));
            let k = choose|k: int|
                0 <= k < replacements.len() && #[trigger] replacements[k] == surface_of(
                    notes,
                    timers,
                    m,
                )->0.at(position.x, position.y);
            law_stored_surfaces_are_found(before, replacements, m);
            assert(replacements[k].member() == m);
        }
    }
    assert forall|m: MemberView|
        !members_of(snapshots_of_layouts(layouts, count)).contains(m) implies #[trigger] stored(
        after,
        m,
    ) == stored(before, m) by {
        law_stored_surfaces_are_found(before, replacements, m);
    }
    law_stored_surfaces_are_found(before, replacements, MemberView {
        kind: GroupMemberKind::Note,
        id: Seq::empty(),
    });
}

/// A window of a group that is resized or folded has the size it was asked to have, in
/// its place, and that size in device pixels is cached; if it is folded or unfolded, the
/// user can resize it exactly if it is an unfolded note. The windows below go to their
/// targets and keep their sizes, and no other window changes.
pub proof fn law_resized_window_has_the_asked_size(
    request: ResizingView,
    position: PhysicalPosition,
    later: Seq<SnapshotView>,
    targets: Seq<LogicalPosition>,
    before: World,
    events: Seq<Event>,
)
    requires
        later.len() == targets.len(),
        before.windows.contains_key(request.member.window_label()),
        before.geometries.contains_key(request.member.id),
        shows(before, later),
        windows_are_distinct(later),
        !is_id_of(later, request.member.id),
        is_run(
            resize_plan(
                request,
                position,
                later,
                targets,
                before.store.notes,
                before.timers,
            ),
            before,
            events,
        ),
    ensures
        ({
            let after = after_run(
                resize_plan(
                    request,
                    position,
                    later,
                    targets,
                    before.store.notes,
                    before.timers,
                ),
                before,
                events,
            );
            let label = request.member.window_label();
            &&& after.windows[label].size == Extent::Logical(request.target)
            &&& after.windows[label].position == before.windows[label].position
            &&& match request.collapsed {
                Some(collapsed) => after.windows[label].resizable <==> request.member.kind is Note
                    && !collapsed,
                None => after.windows[label].resizable == before.windows[label].resizable,
            }
            &&& after.geometries[request.member.id].size == request.target_physical
            &&& after.geometries[request.member.id].position
                == before.geometries[request.member.id].position
            &&& forall|i: int|
                0 <= i < later.len() ==> {
                    let below = (#[trigger] later[i]).member.window_label();
                    &&& after.windows[below].position == Spot::Logical(targets[i])
                    &&& after.windows[below].size == before.windows[below].size
                }
            &&& forall|other: Seq<char>|
                other != label && !(exists|i: int|
                    0 <= i < later.len() && (#[trigger] later[i]).member.window_label() == other)
                    ==> #[trigger] after.windows[other] == before.windows[other]
        }),
{
    let plan = resize_plan(
        request,
        position,
        later,
        targets,
        before.store.notes,
        before.timers,
    );
    law_resizing_moves_only_the_windows_below(request, position, later, targets, before);
    law_unhindered_operation_is_done(
        plan,
        before,
        resized_promise(request, later, targets, later.len() as int, before),
        events,
    );
    assert(later.take(later.len() as int) =~= later);
}

/// Unlinking removes the group and nothing else that is stored.
pub proof fn law_unlinked_group_is_gone(id: Seq<char>, before: World, events: Seq<Event>)
    requires
        is_run(
            seq![
                StepView {
                    effect: EffectView::Notes(NoteActionView::RemoveGroup(id)),
                    only_if_moving: false,
                    unwind: Seq::empty(),
                },
            ],
            before,
            events,
        ),
    ensures
        ({
            let after = after_run(
                seq![
                    StepView {
                        effect: EffectView::Notes(NoteActionView::RemoveGroup(id)),
                        only_if_moving: false,
                        unwind: Seq::empty(),
                    },
                ],
                before,
                events,
            );
            &&& !after.store.groups.contains_key(id)
            &&& forall|k: Seq<char>|
                k != id ==> {
                    &&& #[trigger] after.store.groups.contains_key(k)
                        == before.store.groups.contains_key(k)
                    &&& after.store.groups[k] == before.store.groups[k]
                }
            &&& after.store.notes == before.store.notes
            &&& after.timers == before.timers
            &&& after.windows == before.windows
        }),
{
    let step = StepView {
        effect: EffectView::Notes(NoteActionView::RemoveGroup(id)),
        only_if_moving: false,
        unwind: Seq::empty(),
    };
    let end = performed(before, step.effect);
    let promise = Promise {
        done: |w: World| w == end,
        home: |w: World| true,
        exempt: |effect: EffectView| true,
    };
    assert(keeps(seq![step], 0, before, promise)) by {
        assert forall|registers: Registers|
            keeps(
                seq![step],
                1,
                performed(before, #[trigger] resolved(step.effect, registers)),
                promise,
            ) by {}
    }
    law_unhindered_operation_is_done(seq![step], before, promise, events);
}

} // verus!
