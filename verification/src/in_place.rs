//! Where the windows of a layout are when an operation that places them is done.
use vstd::prelude::*;

use crate::effect::{EffectView, WindowAction};
use crate::layout::{
    applying, holds_layout, is_label_of, law_applied_layout_is_in_place, layout_events,
    placed_window, shows, windows_are_distinct, LayoutView, ScaleReading, SnapshotView,
};
use crate::transaction::{
    begun, lemma_due, registers_after, resolved, Event, Stage, StepView, TransactionView, UndoView,
};
use crate::world::{lemma_played_add, performed, played, World};

verus! {

/// Whether an effect moves, resizes and closes none of the given windows, nor
/// changes whether the user may resize one of them.
pub open spec fn spares(effect: EffectView, snapshots: Seq<SnapshotView>) -> bool {
    match effect {
        EffectView::Window(member, action) => {
            ||| !is_label_of(snapshots, member.window_label())
            ||| match action {
                WindowAction::MoveTo(_) => false,
                WindowAction::MoveToPhysical(_) => false,
                WindowAction::Resize(_) => false,
                WindowAction::ResizePhysical(_) => false,
                WindowAction::SetResizable(_) => false,
                WindowAction::Close => false,
                _ => true,
            }
        },
        _ => true,
    }
}

/// Whether the given windows are in one world as they are in another, and every
/// window whose geometry was cached still has one.
spec fn are_spared(snapshots: Seq<SnapshotView>, before: World, now: World) -> bool {
    &&& forall|i: int|
        0 <= i < snapshots.len() ==> {
            let label = (#[trigger] snapshots[i]).member.window_label();
            &&& now.windows.contains_key(label) == before.windows.contains_key(label)
            &&& now.windows[label] == before.windows[label]
        }
    &&& forall|id: Seq<char>|
        before.geometries.contains_key(id) ==> #[trigger] now.geometries.contains_key(id)
}

/// The step that a transaction has come to, or the number of steps if it ended.
spec fn step_reached(transaction: TransactionView) -> int {
    match transaction.stage {
        Stage::Forward { at } => at as int,
        _ => transaction.steps.len() as int,
    }
}

/// While nothing fails a transaction goes forward, and windows stay as they are
/// that the steps it does on the way spare.
proof fn lemma_spared(
    transaction: TransactionView,
    world: World,
    events: Seq<Event>,
    snapshots: Seq<SnapshotView>,
)
    requires
        transaction.is_valid(),
        !(transaction.stage is Unwinding),
        transaction.steps.len() <= usize::MAX,
        forall|i: int| 0 <= i < events.len() ==> #[trigger] events[i] != Event::Failed,
    ensures
        ({
            let (then, after) = played(transaction, world, events);
            &&& then.is_valid()
            &&& !(then.stage is Unwinding)
            &&& then.steps == transaction.steps
            &&& step_reached(transaction) <= step_reached(then)
            &&& (forall|k: int|
                step_reached(transaction) <= k < step_reached(then) ==> spares(
                    (#[trigger] transaction.steps[k]).effect,
                    snapshots,
                )) ==> are_spared(snapshots, world, after)
        }),
    decreases events.len(),
{
    if events.len() > 0 {
        let shorter = events.drop_last();
        assert forall|i: int| 0 <= i < shorter.len() implies #[trigger] shorter[i]
            != Event::Failed by {
            assert(shorter[i] == events[i]);
        }
        assert(events.last() == events[events.len() - 1]);
        lemma_spared(transaction, world, shorter, snapshots);
        let (before, then) = played(transaction, world, shorter);
        lemma_one_event_spares(before, then, events.last(), snapshots);
        let (last, after) = played(transaction, world, events);
        if forall|k: int|
            step_reached(transaction) <= k < step_reached(last) ==> spares(
                (#[trigger] transaction.steps[k]).effect,
                snapshots,
            ) {
            assert(are_spared(snapshots, world, then));
            assert(are_spared(snapshots, then, after));
        }
    }
}

proof fn lemma_one_event_spares(
    transaction: TransactionView,
    world: World,
    event: Event,
    snapshots: Seq<SnapshotView>,
)
    requires
        transaction.is_valid(),
        !(transaction.stage is Unwinding),
        transaction.steps.len() <= usize::MAX,
        event != Event::Failed,
    ensures
        ({
            let last = transaction.advanced(event);
            let after = match transaction.next_effect() {
                Some(effect) => performed(world, effect),
                None => world,
            };
            &&& last.is_valid()
            &&& !(last.stage is Unwinding)
            &&& last.steps == transaction.steps
            &&& step_reached(transaction) <= step_reached(last)
            &&& (forall|k: int|
                step_reached(transaction) <= k < step_reached(last) ==> spares(
                    (#[trigger] transaction.steps[k]).effect,
                    snapshots,
                )) ==> are_spared(snapshots, world, after)
        }),
{
    match transaction.stage {
        Stage::Forward { at } => {
            let steps = transaction.steps;
            let effect = steps[at as int].effect;
            let registers = registers_after(transaction.registers, effect, event);
            lemma_due(steps, at + 1, registers.moving);
            let whole = resolved(effect, transaction.registers);
            let after = performed(world, whole);
            if spares(effect, snapshots) {
                lemma_effect_spares(world, whole, snapshots);
            }
        },
        _ => {},
    }
}

proof fn lemma_effect_spares(world: World, effect: EffectView, snapshots: Seq<SnapshotView>)
    requires
        spares(effect, snapshots),
    ensures
        are_spared(snapshots, world, performed(world, effect)),
{
    let after = performed(world, effect);
    assert forall|i: int| 0 <= i < snapshots.len() implies {
        let label = (#[trigger] snapshots[i]).member.window_label();
        &&& after.windows.contains_key(label) == world.windows.contains_key(label)
        &&& after.windows[label] == world.windows[label]
    } by {
        let label = snapshots[i].member.window_label();
        assert(is_label_of(snapshots, label));
    }
}

/// Whether every window of a layout is at its target, or was found there.
pub open spec fn ends_in_place(
    layout: LayoutView,
    readings: Seq<ScaleReading>,
    before: World,
    now: World,
) -> bool {
    forall|i: int|
        0 <= i < layout.snapshots.len() ==> {
            let label = (#[trigger] layout.snapshots[i]).member.window_label();
            &&& now.windows.contains_key(label)
            &&& now.windows[label] == placed_window(
                before.windows[label],
                layout.targets[i],
                readings[i],
            )
        }
}

/// An operation that applies a layout, and whose other steps spare the windows
/// of the layout, leaves them where the layout puts them: while nothing fails,
/// each is moved to its target, or was found there and is not touched, and stays
/// there. `earlier` are the events before the layout, and `more` those after it.
pub proof fn law_placed_windows_stay_in_place(
    layout: LayoutView,
    suffix: Seq<UndoView>,
    from: int,
    steps: Seq<StepView>,
    world: World,
    earlier: Seq<Event>,
    readings: Seq<ScaleReading>,
    more: Seq<Event>,
)
    requires
        layout.snapshots.len() == layout.targets.len(),
        layout.snapshots.len() == readings.len(),
        steps.len() <= usize::MAX,
        holds_layout(steps, from, layout, suffix),
        forall|k: int|
            0 <= k < steps.len() && !(from <= k < from + 4 * layout.snapshots.len()) ==> spares(
                (#[trigger] steps[k]).effect,
                layout.snapshots,
            ),
        windows_are_distinct(layout.snapshots),
        forall|i: int|
            0 <= i < layout.snapshots.len() ==> world.windows.contains_key(
                (#[trigger] layout.snapshots[i]).member.window_label(),
            ) && world.geometries.contains_key(layout.snapshots[i].member.id),
        forall|i: int| 0 <= i < earlier.len() ==> #[trigger] earlier[i] != Event::Failed,
        forall|i: int| 0 <= i < more.len() ==> #[trigger] more[i] != Event::Failed,
        layout.snapshots.len() > 0 ==> played(begun(steps), world, earlier).0.stage == (
        Stage::Forward { at: from as usize }),
    ensures
        ends_in_place(
            layout,
            readings,
            world,
            played(
                begun(steps),
                world,
                earlier + layout_events(layout, readings, layout.snapshots.len() as int) + more,
            ).1,
        ),
{
    let n = layout.snapshots.len() as int;
    let events = layout_events(layout, readings, n);
    if n > 0 {
        lemma_due(steps, 0, false);
        lemma_spared(begun(steps), world, earlier, layout.snapshots);
        let (at_layout, then) = played(begun(steps), world, earlier);
        assert(are_spared(layout.snapshots, world, then));
        law_applied_layout_is_in_place(layout, suffix, from, at_layout, then, readings);
        let (past, placed) = played(at_layout, then, events);
        lemma_due(steps, from + 4 * n, past.registers.moving);
        lemma_spared(past, placed, more, layout.snapshots);
        let (last, end) = played(past, placed, more);
        assert(are_spared(layout.snapshots, placed, end));
        lemma_played_add(begun(steps), world, earlier, events);
        lemma_played_add(begun(steps), world, earlier + events, more);
    }
}

/// The same for an operation that begins with the layout.
pub proof fn lemma_first_layout_ends_in_place(
    layout: LayoutView,
    suffix: Seq<UndoView>,
    rest: Seq<StepView>,
    world: World,
    readings: Seq<ScaleReading>,
    more: Seq<Event>,
)
    requires
        layout.snapshots.len() == layout.targets.len(),
        layout.snapshots.len() == readings.len(),
        (applying(layout, suffix) + rest).len() <= usize::MAX,
        forall|k: int|
            0 <= k < rest.len() ==> spares((#[trigger] rest[k]).effect, layout.snapshots),
        windows_are_distinct(layout.snapshots),
        shows(world, layout.snapshots),
        forall|i: int| 0 <= i < more.len() ==> #[trigger] more[i] != Event::Failed,
    ensures
        ends_in_place(
            layout,
            readings,
            world,
            played(
                begun(applying(layout, suffix) + rest),
                world,
                layout_events(layout, readings, layout.snapshots.len() as int) + more,
            ).1,
        ),
{
    let first = applying(layout, suffix);
    let steps = first + rest;
    let events = layout_events(layout, readings, layout.snapshots.len() as int);
    assert(holds_layout(steps, 0, layout, suffix));
    if layout.snapshots.len() > 0 {
        assert(steps[0] == first[0]);
    }
    assert forall|k: int|
        0 <= k < steps.len() && !(0 <= k < 4 * layout.snapshots.len()) implies spares(
        (#[trigger] steps[k]).effect,
        layout.snapshots,
    ) by {
        assert(steps[k] == rest[k - first.len()]);
    }
    law_placed_windows_stay_in_place(
        layout,
        suffix,
        0,
        steps,
        world,
        Seq::empty(),
        readings,
        more,
    );
    assert(Seq::<Event>::empty() + events + more =~= events + more);
}

} // verus!
