//! What a failed operation leaves behind.
//!
//! Each law speaks of a run in which one effect of the operation fails and no effect
//! that takes something back does.
use vstd::prelude::*;

use crate::close::{
    close_note_plan, close_note_promise, close_timer_plan, close_timer_promise,
    law_closing_a_note_is_all_or_nothing, law_closing_a_timer_is_all_or_nothing, ClosingView,
};
use crate::effect::EffectView;
use crate::geometry::{LogicalPosition, LogicalSize, NoteGeometry, PhysicalPosition};
use crate::layout::{members_of, moved_surfaces, shows, LayoutView, SnapshotView};
use crate::link::{law_linking_is_all_or_nothing, link_plan, link_promise, SelectionView};
use crate::member::{GroupMemberKind, MemberView};
use crate::outcome::{after_run, stored};
use crate::persist::{are_replaceable, is_keyed, is_placeable};
use crate::rearrange::{law_packing_is_all_or_nothing, reset_plan, reset_promise};
use crate::resize::{
    law_resizing_is_all_or_nothing, resize_plan, resize_promise, resize_replacements, ResizingView,
};
use crate::restore::{
    are_placeable, law_restoring_a_note_is_all_or_nothing, law_restoring_layouts_is_all_or_nothing,
    restore_layouts_plan, restore_layouts_promise, restore_note_plan, restore_note_promise,
};
use crate::settle::{detach_plan, detach_promise, law_detaching_is_all_or_nothing};
use crate::store::surfaces_of;
use crate::surface::{NoteView, SurfaceView, TimerView};
use crate::transaction::{begun, Event, Stage, StepView, Verdict};
use crate::world::{law_failed_operation_is_taken_back, played, Extent, Spot, World};

verus! {

/// Whether steps are carried out by these events to an end, event `j` is the failure of
/// `effect`, and no other event is a failure.
pub open spec fn is_failed_run(
    steps: Seq<StepView>,
    before: World,
    events: Seq<Event>,
    j: int,
    effect: EffectView,
) -> bool {
    &&& steps.len() <= usize::MAX
    &&& forall|i: int| 0 <= i < steps.len() ==> (#[trigger] steps[i]).unwind.len() <= usize::MAX
    &&& 0 <= j < events.len()
    &&& events[j] == Event::Failed
    &&& forall|i: int| 0 <= i < events.len() && i != j ==> #[trigger] events[i] != Event::Failed
    &&& played(begun(steps), before, events.take(j)).0.planned_effect() == Some(effect)
    &&& played(begun(steps), before, events).0.stage is Ended
}

/// Whether an operation has ended as one that was taken back.
pub open spec fn is_rolled_back(
    steps: Seq<StepView>,
    before: World,
    events: Seq<Event>,
) -> bool {
    played(begun(steps), before, events).0.stage == Stage::Ended(Verdict::RolledBack)
}

/// Whether what is stored is as it was.
pub open spec fn nothing_stored_differs(before: World, after: World) -> bool {
    &&& after.store.notes == before.store.notes
    &&& after.store.groups == before.store.groups
    &&& after.timers == before.timers
}

/// Whether every window and every cached geometry is as it was.
pub open spec fn no_window_differs(before: World, after: World) -> bool {
    &&& after.windows == before.windows
    &&& after.geometries == before.geometries
}

/// Whether an effect reads the scale factor of a window or the clock.
pub open spec fn only_reads(effect: EffectView) -> bool {
    match effect {
        EffectView::Window(_, action) => action is ReadScale,
        EffectView::ReadClock => true,
        _ => false,
    }
}

/// Whether an effect stores notes or timers.
pub open spec fn stores_surfaces(effect: EffectView) -> bool {
    match effect {
        EffectView::Notes(action) => action is Write,
        EffectView::Timers(action) => action is Write,
        _ => false,
    }
}

/// A link that fails leaves what is stored as it was, and, unless it was a scale
/// factor that could not be read, every window where it was.
pub proof fn law_failed_link_is_taken_back(
    selection: SelectionView,
    layout: LayoutView,
    before: World,
    id: Seq<char>,
    events: Seq<Event>,
    j: int,
    effect: EffectView,
)
    requires
        layout.snapshots.len() == layout.targets.len(),
        shows(before, layout.snapshots),
        is_keyed(before.store.notes, before.timers),
        is_placeable(layout, before.store.notes, before.timers),
        is_failed_run(
            link_plan(selection, layout, before.store.notes, before.timers, id),
            before,
            events,
            j,
            effect,
        ),
    ensures
        ({
            let plan = link_plan(selection, layout, before.store.notes, before.timers, id);
            let after = after_run(plan, before, events);
            &&& is_rolled_back(plan, before, events)
            &&& nothing_stored_differs(before, after)
            &&& !only_reads(effect) ==> no_window_differs(before, after)
        }),
{
    let plan = link_plan(selection, layout, before.store.notes, before.timers, id);
    law_linking_is_all_or_nothing(selection, layout, before, id, false);
    law_failed_operation_is_taken_back(
        plan,
        before,
        link_promise(selection, layout, before, id, false),
        events,
        j,
    );
    if !only_reads(effect) {
        law_linking_is_all_or_nothing(selection, layout, before, id, true);
        law_failed_operation_is_taken_back(
            plan,
            before,
            link_promise(selection, layout, before, id, true),
            events,
            j,
        );
    }
}

/// The closing of a note of a group that fails, at something else than reading the
/// clock, leaves what is stored as it was, and, unless it was a scale factor that
/// could not be read, every window where it was.
pub proof fn law_failed_closing_of_a_note_is_taken_back(
    closing: ClosingView,
    note: NoteView,
    layout: LayoutView,
    before: World,
    events: Seq<Event>,
    j: int,
    effect: EffectView,
)
    requires
        layout.snapshots.len() == layout.targets.len(),
        shows(before, layout.snapshots),
        is_keyed(before.store.notes, before.timers),
        is_placeable(layout, before.store.notes, before.timers),
        closing.member.kind == GroupMemberKind::Note,
        before.store.notes.contains_key(closing.member.id),
        before.store.notes[closing.member.id] == note,
        !members_of(layout.snapshots).contains(closing.member),
        is_failed_run(
            close_note_plan(closing, note, layout, before.store.notes, before.timers),
            before,
            events,
            j,
            effect,
        ),
        effect != EffectView::ReadClock,
        !(effect matches EffectView::Cache(_, action) && action is Forget),
    ensures
        ({
            let plan = close_note_plan(closing, note, layout, before.store.notes, before.timers);
            let after = after_run(plan, before, events);
            &&& is_rolled_back(plan, before, events)
            &&& nothing_stored_differs(before, after)
            &&& !only_reads(effect) ==> no_window_differs(before, after)
        }),
{
    let plan = close_note_plan(closing, note, layout, before.store.notes, before.timers);
    law_closing_a_note_is_all_or_nothing(closing, note, layout, before, false);
    law_failed_operation_is_taken_back(
        plan,
        before,
        close_note_promise(closing, note, layout, before, false),
        events,
        j,
    );
    if !only_reads(effect) {
        law_closing_a_note_is_all_or_nothing(closing, note, layout, before, true);
        law_failed_operation_is_taken_back(
            plan,
            before,
            close_note_promise(closing, note, layout, before, true),
            events,
            j,
        );
    }
}

/// The closing of a timer of a group that fails leaves what is stored as it was, and,
/// unless it was a scale factor that could not be read or a place that could not be
/// stored, every window where it was.
pub proof fn law_failed_closing_of_a_timer_is_taken_back(
    closing: ClosingView,
    timer: TimerView,
    layout: LayoutView,
    before: World,
    events: Seq<Event>,
    j: int,
    effect: EffectView,
)
    requires
        layout.snapshots.len() == layout.targets.len(),
        shows(before, layout.snapshots),
        is_keyed(before.store.notes, before.timers),
        is_placeable(layout, before.store.notes, before.timers),
        closing.member.kind == GroupMemberKind::Timer,
        before.timers.contains_key(closing.member.id),
        before.timers[closing.member.id] == timer,
        before.store.groups.contains_key(closing.group.id),
        before.store.groups[closing.group.id] == closing.group,
        !members_of(layout.snapshots).contains(closing.member),
        is_failed_run(
            close_timer_plan(closing, timer, layout, before.store.notes, before.timers),
            before,
            events,
            j,
            effect,
        ),
        !(effect matches EffectView::Cache(_, action) && action is Forget),
    ensures
        ({
            let plan = close_timer_plan(closing, timer, layout, before.store.notes, before.timers);
            let after = after_run(plan, before, events);
            &&& is_rolled_back(plan, before, events)
            &&& nothing_stored_differs(before, after)
            &&& !only_reads(effect) && !stores_surfaces(effect) ==> no_window_differs(
                before,
                after,
            )
        }),
{
    let plan = close_timer_plan(closing, timer, layout, before.store.notes, before.timers);
    law_closing_a_timer_is_all_or_nothing(closing, timer, layout, before, false);
    law_failed_operation_is_taken_back(
        plan,
        before,
        close_timer_promise(closing, layout, before, false),
        events,
        j,
    );
    if !only_reads(effect) && !stores_surfaces(effect) {
        law_closing_a_timer_is_all_or_nothing(closing, timer, layout, before, true);
        law_failed_operation_is_taken_back(
            plan,
            before,
            close_timer_promise(closing, layout, before, true),
            events,
            j,
        );
    }
}

/// The restoring of a note that fails leaves what is stored as it was and closes the
/// window of the note again; unless it was a scale factor that could not be read or a
/// place that could not be stored, every other window is where it was.
pub proof fn law_failed_restoring_is_taken_back(
    member: MemberView,
    layout: LayoutView,
    before: World,
    events: Seq<Event>,
    j: int,
    effect: EffectView,
)
    requires
        layout.snapshots.len() == layout.targets.len(),
        shows(before, layout.snapshots),
        is_keyed(before.store.notes, before.timers),
        is_placeable(layout, before.store.notes, before.timers),
        is_failed_run(
            restore_note_plan(member, layout, before.store.notes, before.timers),
            before,
            events,
            j,
            effect,
        ),
    ensures
        ({
            let plan = restore_note_plan(member, layout, before.store.notes, before.timers);
            let after = after_run(plan, before, events);
            let label = member.window_label();
            &&& is_rolled_back(plan, before, events)
            &&& nothing_stored_differs(before, after)
            &&& !after.windows.contains_key(label)
            &&& !only_reads(effect) && !stores_surfaces(effect) ==> {
                &&& forall|other: Seq<char>|
                    other != label ==> {
                        &&& #[trigger] after.windows.contains_key(other)
                            == before.windows.contains_key(other)
                        &&& after.windows[other] == before.windows[other]
                    }
                &&& after.geometries == before.geometries
            }
        }),
{
    let plan = restore_note_plan(member, layout, before.store.notes, before.timers);
    law_restoring_a_note_is_all_or_nothing(member, layout, before, false);
    law_failed_operation_is_taken_back(
        plan,
        before,
        restore_note_promise(member, layout, before, false),
        events,
        j,
    );
    if !only_reads(effect) && !stores_surfaces(effect) {
        law_restoring_a_note_is_all_or_nothing(member, layout, before, true);
        law_failed_operation_is_taken_back(
            plan,
            before,
            restore_note_promise(member, layout, before, true),
            events,
            j,
        );
    }
}

/// Putting linked windows in place that fails leaves what is stored as it was, and,
/// unless it was a scale factor that could not be read, every window where it was.
pub proof fn law_failed_putting_in_place_is_taken_back(
    layouts: Seq<LayoutView>,
    before: World,
    events: Seq<Event>,
    j: int,
    effect: EffectView,
)
    requires
        forall|g: int|
            0 <= g < layouts.len() ==> {
                &&& (#[trigger] layouts[g]).snapshots.len() == layouts[g].targets.len()
                &&& shows(before, layouts[g].snapshots)
            },
        is_keyed(before.store.notes, before.timers),
        are_placeable(layouts, before.store.notes, before.timers),
        is_failed_run(
            restore_layouts_plan(layouts, before.store.notes, before.timers),
            before,
            events,
            j,
            effect,
        ),
    ensures
        ({
            let plan = restore_layouts_plan(layouts, before.store.notes, before.timers);
            let after = after_run(plan, before, events);
            &&& is_rolled_back(plan, before, events)
            &&& nothing_stored_differs(before, after)
            &&& !only_reads(effect) ==> no_window_differs(before, after)
        }),
{
    let plan = restore_layouts_plan(layouts, before.store.notes, before.timers);
    law_restoring_layouts_is_all_or_nothing(layouts, before, false);
    law_failed_operation_is_taken_back(
        plan,
        before,
        restore_layouts_promise(layouts, before, false),
        events,
        j,
    );
    if !only_reads(effect) {
        law_restoring_layouts_is_all_or_nothing(layouts, before, true);
        law_failed_operation_is_taken_back(
            plan,
            before,
            restore_layouts_promise(layouts, before, true),
            events,
            j,
        );
    }
}

/// A resizing that fails leaves what is stored as it was and every other window where
/// it was, and brings the window back to where it is with its stored size; only an
/// unfolded note can be resized by the user then.
pub proof fn law_failed_resizing_is_taken_back(
    request: ResizingView,
    position: PhysicalPosition,
    later: Seq<SnapshotView>,
    targets: Seq<LogicalPosition>,
    before: World,
    events: Seq<Event>,
    j: int,
    effect: EffectView,
)
    requires
        later.len() == targets.len(),
        before.windows.contains_key(request.member.window_label()),
        before.geometries.contains_key(request.member.id),
        shows(before, later),
        are_replaceable(
            before,
            resize_replacements(request, later, targets, before.store.notes, before.timers),
        ),
        is_failed_run(
            resize_plan(
                request,
                position,
                later,
                targets,
                before.store.notes,
                before.timers,
            ),
            before,
            events,
            j,
            effect,
        ),
    ensures
        ({
            let plan = resize_plan(
                request,
                position,
                later,
                targets,
                before.store.notes,
                before.timers,
            );
            let after = after_run(plan, before, events);
            let label = request.member.window_label();
            &&& is_rolled_back(plan, before, events)
            &&& nothing_stored_differs(before, after)
            &&& after.windows[label].position == Spot::Physical(position)
            &&& after.windows[label].size == Extent::Physical(request.previous_physical)
            &&& after.windows[label].resizable <==> request.member.kind is Note
                && !(match request.old {
                SurfaceView::Note(note) => note.collapsed,
                SurfaceView::Timer(timer) => timer.collapsed,
            })
            &&& after.geometries[request.member.id].position == position
            &&& after.geometries[request.member.id].size == request.previous_physical
            &&& forall|other: Seq<char>|
                other != label ==> {
                    &&& #[trigger] after.windows.contains_key(other)
                        == before.windows.contains_key(other)
                    &&& after.windows[other] == before.windows[other]
                }
            &&& forall|id: Seq<char>|
                id != request.member.id ==> {
                    &&& #[trigger] after.geometries.contains_key(id)
                        == before.geometries.contains_key(id)
                    &&& after.geometries[id] == before.geometries[id]
                }
        }),
{
    let plan = resize_plan(
        request,
        position,
        later,
        targets,
        before.store.notes,
        before.timers,
    );
    law_resizing_is_all_or_nothing(request, position, later, targets, before);
    law_failed_operation_is_taken_back(
        plan,
        before,
        resize_promise(request, position, later, targets, before),
        events,
        j,
    );
}

/// Taking a window out of its group that fails leaves what is stored as it was. If it
/// is the group that could not be changed, the window is back where it is stored, with
/// its stored size.
pub proof fn law_failed_detaching_is_taken_back(
    member: MemberView,
    group_id: Seq<char>,
    previous: SurfaceView,
    position: LogicalPosition,
    size: LogicalSize,
    home: NoteGeometry,
    before: World,
    events: Seq<Event>,
    j: int,
    effect: EffectView,
)
    requires
        previous.member() == member,
        stored(before, member) == Some(previous),
        is_keyed(before.store.notes, before.timers),
        is_failed_run(
            detach_plan(member, group_id, previous, position, size, home),
            before,
            events,
            j,
            effect,
        ),
    ensures
        ({
            let plan = detach_plan(member, group_id, previous, position, size, home);
            let after = after_run(plan, before, events);
            let window = after.windows[member.window_label()];
            &&& is_rolled_back(plan, before, events)
            &&& nothing_stored_differs(before, after)
            &&& !stores_surfaces(effect) ==> {
                &&& match previous {
                    SurfaceView::Note(note) => window.position == Spot::Logical(
                        LogicalPosition { x: note.x, y: note.y },
                    ),
                    SurfaceView::Timer(timer) => window.position == Spot::Logical(
                        LogicalPosition { x: timer.x, y: timer.y },
                    ),
                }
                &&& window.size == Extent::Logical(previous.durable_size())
                &&& after.geometries[member.id] == home
            }
        }),
{
    let plan = detach_plan(member, group_id, previous, position, size, home);
    law_detaching_is_all_or_nothing(
        member,
        group_id,
        previous,
        position,
        size,
        home,
        before,
        false,
    );
    law_failed_operation_is_taken_back(
        plan,
        before,
        detach_promise(member, group_id, previous, position, size, home, before, false),
        events,
        j,
    );
    if !stores_surfaces(effect) {
        law_detaching_is_all_or_nothing(
            member,
            group_id,
            previous,
            position,
            size,
            home,
            before,
            true,
        );
        law_failed_operation_is_taken_back(
            plan,
            before,
            detach_promise(member, group_id, previous, position, size, home, before, true),
            events,
            j,
        );
    }
}

/// Packing that fails leaves what is stored as it was and every window where it was,
/// unless it is only the focus that could not be given.
pub proof fn law_failed_packing_is_taken_back(
    snapshots: Seq<SnapshotView>,
    targets: Seq<PhysicalPosition>,
    logical: Seq<LogicalPosition>,
    before: World,
    events: Seq<Event>,
    j: int,
    effect: EffectView,
)
    requires
        snapshots.len() > 0,
        snapshots.len() == targets.len(),
        snapshots.len() == logical.len(),
        shows(before, snapshots),
        are_replaceable(
            before,
            moved_surfaces(
                surfaces_of(before.store.notes, before.timers, members_of(snapshots)),
                logical,
            ),
        ),
        is_failed_run(
            reset_plan(snapshots, targets, logical, before.store.notes, before.timers),
            before,
            events,
            j,
            effect,
        ),
        !(effect matches EffectView::Window(_, action) && action is Focus),
    ensures
        ({
            let plan = reset_plan(
                snapshots,
                targets,
                logical,
                before.store.notes,
                before.timers,
            );
            let after = after_run(plan, before, events);
            &&& is_rolled_back(plan, before, events)
            &&& nothing_stored_differs(before, after)
            &&& no_window_differs(before, after)
        }),
{
    let plan = reset_plan(snapshots, targets, logical, before.store.notes, before.timers);
    law_packing_is_all_or_nothing(snapshots, targets, logical, before);
    law_failed_operation_is_taken_back(
        plan,
        before,
        reset_promise(snapshots, logical, before),
        events,
        j,
    );
}

} // verus!
