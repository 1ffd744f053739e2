//! A model of everything that operations on windows and groups touch, and what
//! it means that an operation can be taken back.
//!
//! The model lives in specifications only. An effect that fails is taken to
//! change nothing.
use vstd::prelude::*;

use crate::effect::{
    cache_after, notes_after, runtime_after, timers_after, EffectView, WindowAction,
};
use crate::geometry::{LogicalPosition, LogicalSize, NoteGeometry, PhysicalPosition, PhysicalSize};
use crate::runtime::RuntimeView;
use crate::store::StoreView;
use crate::surface::TimerView;
use crate::transaction::{
    begun, due, registers_after, resolved, Event, Registers, Stage, StepView, TransactionView,
    UndoView, Verdict,
};

verus! {

/// Where a window was last asked to be.
pub enum Spot {
    Physical(PhysicalPosition),
    Logical(LogicalPosition),
}

/// How large a window was last asked to be.
pub enum Extent {
    Physical(PhysicalSize),
    Logical(LogicalSize),
}

/// An open window.
pub struct WindowState {
    pub position: Spot,
    pub size: Extent,
    pub resizable: bool,
}

/// Everything that operations on windows and groups touch.
#[verifier::ext_equal]
pub struct World {
    /// The open windows, by label.
    pub windows: Map<Seq<char>, WindowState>,
    pub geometries: Map<Seq<char>, NoteGeometry>,
    pub runtime: RuntimeView,
    pub store: StoreView,
    pub timers: Map<Seq<char>, TimerView>,
}

/// The world after an action on the window with the given label.
pub open spec fn window_after(
    windows: Map<Seq<char>, WindowState>,
    label: Seq<char>,
    action: WindowAction,
) -> Map<Seq<char>, WindowState> {
    match action {
        WindowAction::MoveTo(target) => windows.insert(
            label,
            WindowState { position: Spot::Logical(target), ..windows[label] },
        ),
        WindowAction::MoveToPhysical(position) => windows.insert(
            label,
            WindowState { position: Spot::Physical(position), ..windows[label] },
        ),
        WindowAction::Resize(size) => windows.insert(
            label,
            WindowState { size: Extent::Logical(size), ..windows[label] },
        ),
        WindowAction::ResizePhysical(size) => windows.insert(
            label,
            WindowState { size: Extent::Physical(size), ..windows[label] },
        ),
        WindowAction::SetResizable(resizable) => windows.insert(
            label,
            WindowState { resizable, ..windows[label] },
        ),
        WindowAction::Close => windows.remove(label),
        _ => windows,
    }
}

/// The world after an effect that succeeded.
pub open spec fn performed(world: World, effect: EffectView) -> World {
    match effect {
        EffectView::Window(member, action) => World {
            windows: window_after(world.windows, member.window_label(), action),
            ..world
        },
        EffectView::Cache(member, action) => World {
            geometries: cache_after(world.geometries, member, action),
            runtime: runtime_after(world.runtime, member, action),
            ..world
        },
        EffectView::ReadClock => world,
        EffectView::Notes(action) => World { store: notes_after(world.store, action), ..world },
        EffectView::Timers(action) => World {
            timers: timers_after(world.timers, action),
            ..world
        },
    }
}

/// The world after a list of undoing effects that all succeeded.
pub open spec fn undone(world: World, undos: Seq<UndoView>) -> World
    decreases undos.len(),
{
    if undos.len() == 0 {
        world
    } else {
        performed(undone(world, undos.drop_last()), undos.last().effect)
    }
}

/// What is asked of an operation: what holds when it is done, what holds when
/// it was taken back, and the effects whose failure is not taken back.
pub struct Promise {
    pub done: spec_fn(World) -> bool,
    pub home: spec_fn(World) -> bool,
    pub exempt: spec_fn(EffectView) -> bool,
}

/// Whether the steps from `at` on keep a promise in a world, whatever is read
/// on the way and whichever step fails.
pub open spec fn keeps(steps: Seq<StepView>, at: int, world: World, promise: Promise) -> bool
    decreases steps.len() - at,
{
    if at < 0 || at >= steps.len() {
        (promise.done)(world)
    } else {
        &&& !(promise.exempt)(steps[at].effect) ==> (promise.home)(undone(world, steps[at].unwind))
        &&& forall|registers: Registers|
            keeps(
                steps,
                at + 1,
                performed(world, #[trigger] resolved(steps[at].effect, registers)),
                promise,
            )
        &&& steps[at].only_if_moving ==> keeps(steps, at + 1, world, promise)
    }
}

/// The transaction and the world after some events, each of which says how the
/// next effect went.
pub open spec fn played(
    transaction: TransactionView,
    world: World,
    events: Seq<Event>,
) -> (TransactionView, World)
    decreases events.len(),
{
    if events.len() == 0 {
        (transaction, world)
    } else {
        let (before, then) = played(transaction, world, events.drop_last());
        let after = match before.next_effect() {
            Some(effect) => if events.last() == Event::Failed {
                then
            } else {
                performed(then, effect)
            },
            None => then,
        };
        (before.advanced(events.last()), after)
    }
}

/// Events one after the other.
pub proof fn lemma_played_add(
    transaction: TransactionView,
    world: World,
    a: Seq<Event>,
    b: Seq<Event>,
)
    ensures
        ({
            let (then, after) = played(transaction, world, a);
            played(transaction, world, a + b) == played(then, after, b)
        }),
    decreases b.len(),
{
    if b.len() == 0 {
        assert(a + b =~= a);
    } else {
        lemma_played_add(transaction, world, a, b.drop_last());
        assert((a + b).drop_last() =~= a + b.drop_last());
    }
}

/// Leaving out steps that may be left out keeps a promise.
proof fn lemma_due_keeps(
    steps: Seq<StepView>,
    at: int,
    moving: bool,
    world: World,
    promise: Promise,
)
    requires
        0 <= at <= steps.len(),
        keeps(steps, at, world, promise),
    ensures
        at <= due(steps, at, moving) <= steps.len(),
        keeps(steps, due(steps, at, moving), world, promise),
    decreases steps.len() - at,
{
    if at < steps.len() && steps[at].only_if_moving && !moving {
        lemma_due_keeps(steps, at + 1, moving, world, promise);
    }
}

/// Without a failure, the steps that are left keep the promise.
proof fn lemma_played_forward(
    steps: Seq<StepView>,
    world: World,
    promise: Promise,
    events: Seq<Event>,
)
    requires
        steps.len() <= usize::MAX,
        keeps(steps, 0, world, promise),
        forall|i: int| 0 <= i < events.len() ==> #[trigger] events[i] != Event::Failed,
    ensures
        ({
            let (transaction, after) = played(begun(steps), world, events);
            &&& transaction.steps == steps
            &&& match transaction.stage {
                Stage::Forward { at } => at < steps.len() && keeps(
                    steps,
                    at as int,
                    after,
                    promise,
                ),
                Stage::Unwinding { at, undo, reported } => false,
                Stage::Ended(verdict) => verdict == Verdict::Committed && (promise.done)(after),
            }
        }),
    decreases events.len(),
{
    if events.len() == 0 {
        lemma_due_keeps(steps, 0, false, world, promise);
    } else {
        let shorter = events.drop_last();
        assert forall|i: int| 0 <= i < shorter.len() implies #[trigger] shorter[i]
            != Event::Failed by {
            assert(shorter[i] == events[i]);
        }
        lemma_played_forward(steps, world, promise, shorter);
        let (before, then) = played(begun(steps), world, shorter);
        let event = events.last();
        assert(event == events[events.len() - 1]);
        match before.stage {
            Stage::Forward { at } => {
                let effect = steps[at as int].effect;
                let next = performed(then, resolved(effect, before.registers));
                assert(keeps(steps, at + 1, next, promise));
                let registers = registers_after(before.registers, effect, event);
                lemma_due_keeps(steps, at + 1, registers.moving, next, promise);
            },
            _ => {},
        }
    }
}

/// After one failure at event `j`, the undoing effects are performed in order.
proof fn lemma_played_back(
    steps: Seq<StepView>,
    world: World,
    promise: Promise,
    events: Seq<Event>,
    j: int,
)
    requires
        steps.len() <= usize::MAX,
        forall|i: int| 0 <= i < steps.len() ==> (#[trigger] steps[i]).unwind.len() <= usize::MAX,
        keeps(steps, 0, world, promise),
        0 <= j < events.len(),
        events[j] == Event::Failed,
        forall|i: int| 0 <= i < events.len() && i != j ==> #[trigger] events[i] != Event::Failed,
        !(played(begun(steps), world, events.take(j)).0.stage is Ended),
    ensures
        ({
            let (failed, then) = played(begun(steps), world, events.take(j));
            let (transaction, after) = played(begun(steps), world, events);
            &&& failed.steps == steps
            &&& failed.stage matches Stage::Forward { at }
            &&& at < steps.len()
            &&& keeps(steps, at as int, then, promise)
            &&& transaction.steps == steps
            &&& match transaction.stage {
                Stage::Forward { .. } => false,
                Stage::Unwinding { at: unwinding, undo, reported } => {
                    &&& unwinding == at
                    &&& !reported
                    &&& undo < steps[at as int].unwind.len()
                    &&& after == undone(then, steps[at as int].unwind.take(undo as int))
                },
                Stage::Ended(verdict) => {
                    &&& verdict == Verdict::RolledBack
                    &&& after == undone(then, steps[at as int].unwind)
                },
            }
        }),
    decreases events.len(),
{
    let prefix = events.take(j);
    assert forall|i: int| 0 <= i < prefix.len() implies #[trigger] prefix[i] != Event::Failed by {
        assert(prefix[i] == events[i]);
    }
    lemma_played_forward(steps, world, promise, prefix);
    let (failed, then) = played(begun(steps), world, prefix);
    let at = failed.stage->Forward_at;
    let undos = steps[at as int].unwind;
    assert(undos.take(undos.len() as int) =~= undos);
    assert(undone(then, undos.take(0)) == then);
    let shorter = events.drop_last();
    if events.len() == j + 1 {
        assert(shorter =~= prefix);
    } else {
        assert(shorter.take(j) =~= prefix);
        assert(shorter[j] == events[j]);
        assert forall|i: int| 0 <= i < shorter.len() && i != j implies #[trigger] shorter[i]
            != Event::Failed by {
            assert(shorter[i] == events[i]);
        }
        lemma_played_back(steps, world, promise, shorter, j);
        let (before, so_far) = played(begun(steps), world, shorter);
        assert(events.last() == events[events.len() - 1]);
        match before.stage {
            Stage::Unwinding { at: unwinding, undo, reported } => {
                let taken = undos.take(undo + 1);
                assert(taken.drop_last() =~= undos.take(undo as int));
                assert(taken.last() == undos[undo as int]);
            },
            _ => {},
        }
    }
}

/// An operation that keeps a promise and meets no failure ends committed, in a
/// world where what it promises is done.
pub proof fn law_unhindered_operation_is_done(
    steps: Seq<StepView>,
    world: World,
    promise: Promise,
    events: Seq<Event>,
)
    requires
        steps.len() <= usize::MAX,
        keeps(steps, 0, world, promise),
        forall|i: int| 0 <= i < events.len() ==> #[trigger] events[i] != Event::Failed,
        played(begun(steps), world, events).0.stage is Ended,
    ensures
        played(begun(steps), world, events).0.stage == Stage::Ended(Verdict::Committed),
        (promise.done)(played(begun(steps), world, events).1),
{
    lemma_played_forward(steps, world, promise, events);
}

/// An operation that keeps a promise and fails at event `j`, with no undoing
/// effect failing, ends rolled back in a world that is home again, unless the
/// effect that failed is one whose failure is not taken back.
pub proof fn law_failed_operation_is_taken_back(
    steps: Seq<StepView>,
    world: World,
    promise: Promise,
    events: Seq<Event>,
    j: int,
)
    requires
        steps.len() <= usize::MAX,
        forall|i: int| 0 <= i < steps.len() ==> (#[trigger] steps[i]).unwind.len() <= usize::MAX,
        keeps(steps, 0, world, promise),
        0 <= j < events.len(),
        events[j] == Event::Failed,
        forall|i: int| 0 <= i < events.len() && i != j ==> #[trigger] events[i] != Event::Failed,
        played(begun(steps), world, events.take(j)).0.planned_effect() matches Some(effect)
            && !(promise.exempt)(effect),
        played(begun(steps), world, events).0.stage is Ended,
    ensures
        played(begun(steps), world, events).0.stage == Stage::Ended(Verdict::RolledBack),
        (promise.home)(played(begun(steps), world, events).1),
{
    lemma_played_back(steps, world, promise, events, j);
}

/// Undoing by a single effect is performing it.
pub proof fn lemma_undone_one(world: World, undo: UndoView)
    ensures
        undone(world, seq![undo]) == performed(world, undo.effect),
{
    reveal_with_fuel(undone, 2);
    assert(seq![undo].drop_last() =~= Seq::empty());
}

/// Undoing two lists of effects one after the other is undoing both.
pub proof fn lemma_undone_add(world: World, a: Seq<UndoView>, b: Seq<UndoView>)
    ensures
        undone(world, a + b) == undone(undone(world, a), b),
    decreases b.len(),
{
    if b.len() == 0 {
        assert(a + b =~= a);
    } else {
        lemma_undone_add(world, a, b.drop_last());
        assert((a + b).drop_last() =~= a + b.drop_last());
        assert((a + b).last() == b.last());
    }
}

/// Steps after steps: what the first promise to have done is where the second begin.
pub proof fn lemma_keeps_add(
    a: Seq<StepView>,
    b: Seq<StepView>,
    at: int,
    world: World,
    first: Promise,
    second: Promise,
)
    requires
        0 <= at <= a.len(),
        keeps(a, at, world, first),
        first.home == second.home,
        first.exempt == second.exempt,
        forall|w: World| #[trigger] (first.done)(w) ==> keeps(b, 0, w, second),
    ensures
        keeps(a + b, at, world, second),
    decreases a.len() - at,
{
    if at == a.len() {
        lemma_keeps_suffix(a, b, 0, world, second);
    } else {
        let steps = a + b;
        assert(steps[at] == a[at]);
        assert forall|registers: Registers|
            keeps(
                steps,
                at + 1,
                performed(world, #[trigger] resolved(steps[at].effect, registers)),
                second,
            ) by {
            let next = performed(world, resolved(a[at].effect, registers));
            assert(keeps(a, at + 1, next, first));
            lemma_keeps_add(a, b, at + 1, next, first, second);
        }
        if a[at].only_if_moving {
            lemma_keeps_add(a, b, at + 1, world, first, second);
        }
    }
}

proof fn lemma_keeps_suffix(
    a: Seq<StepView>,
    b: Seq<StepView>,
    at: int,
    world: World,
    promise: Promise,
)
    requires
        0 <= at <= b.len(),
        keeps(b, at, world, promise),
    ensures
        keeps(a + b, a.len() + at, world, promise),
    decreases b.len() - at,
{
    let steps = a + b;
    if at < b.len() {
        assert(steps[a.len() + at] == b[at]);
        assert forall|registers: Registers|
            keeps(
                steps,
                a.len() + at + 1,
                performed(world, #[trigger] resolved(steps[a.len() + at].effect, registers)),
                promise,
            ) by {
            let next = performed(world, resolved(b[at].effect, registers));
            assert(keeps(b, at + 1, next, promise));
            lemma_keeps_suffix(a, b, at + 1, next, promise);
        }
        if b[at].only_if_moving {
            lemma_keeps_suffix(a, b, at + 1, world, promise);
        }
    }
}

} // verus!
