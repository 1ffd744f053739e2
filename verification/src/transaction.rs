//! Operations that are carried out effect by effect, and taken back if one
//! effect fails.
//!
//! A transaction is a list of steps. It hands out one effect at a time and is
//! told how it went. When a step fails, the transaction turns round and hands
//! out the effects that undo what was done before.
use vstd::prelude::*;

use crate::effect::{CacheAction, Effect, EffectView, NoteAction, NoteActionView, WindowAction};
use crate::geometry::{LogicalPosition, LogicalSize, PhysicalPosition, PhysicalSize};
use crate::views::views;

verus! {

/// What happens to the rest of the undoing when one undoing effect fails.
#[derive(Debug, Clone, Copy, PartialEq, Eq, Structural)]
pub enum OnFailure {
    /// Leave out the given number of effects that depend on this one, and go on.
    Skip(u8),
    /// Give up; the error is the one of this effect.
    Stop,
    /// Go on; the error is in the end the one of this effect.
    Report,
}

/// An effect that undoes something.
pub struct Undo {
    pub effect: Effect,
    pub on_failure: OnFailure,
}

/// One step of a transaction.
pub struct Step {
    pub effect: Effect,
    /// Whether the step is left out if the last scale reading found the window
    /// at its target already.
    pub only_if_moving: bool,
    /// What is done if the effect fails.
    pub unwind: Vec<Undo>,
}

/// An effect that undoes something, as contracts speak of it.
pub struct UndoView {
    pub effect: EffectView,
    pub on_failure: OnFailure,
}

/// One step of a transaction, as contracts speak of it.
pub struct StepView {
    pub effect: EffectView,
    pub only_if_moving: bool,
    pub unwind: Seq<UndoView>,
}

impl View for Undo {
    type V = UndoView;

    open spec fn view(&self) -> UndoView {
        UndoView { effect: self.effect@, on_failure: self.on_failure }
    }
}

impl View for Step {
    type V = StepView;

    open spec fn view(&self) -> StepView {
        StepView {
            effect: self.effect@,
            only_if_moving: self.only_if_moving,
            unwind: views(self.unwind@),
        }
    }
}

impl Clone for Undo {
    fn clone(&self) -> (copy: Self)
        ensures
            copy@ == self@,
    {
        Undo { effect: self.effect.clone(), on_failure: self.on_failure }
    }
}

/// A copy of a list of undoing effects.
pub fn copy_undos(undos: &Vec<Undo>) -> (copy: Vec<Undo>)
    ensures
        views(copy@) == views(undos@),
{
    let copy = undos.clone();
    proof {
        assert(views(copy@) =~= views(undos@));
    }
    copy
}

/// What the readings of a transaction have given so far.
#[derive(Debug, Clone, Copy, PartialEq, Eq, Structural)]
pub struct Registers {
    /// Whether the last scale reading found the window away from its target.
    pub moving: bool,
    /// The target of the last scale reading in device pixels.
    pub requested: PhysicalPosition,
    /// The last time that was read, in milliseconds of the Unix epoch.
    pub now: u64,
    /// The size that was last measured.
    pub measured: PhysicalSize,
    /// That size in logical pixels.
    pub measured_logical: LogicalSize,
}

/// How an effect went.
#[derive(Debug, Clone, Copy, PartialEq, Eq, Structural)]
pub enum Event {
    Done,
    /// The scale factor was read: where the window is in logical pixels, and
    /// where its target is in device pixels.
    Scale { current: LogicalPosition, requested: PhysicalPosition },
    /// The clock was read.
    Clock(u64),
    /// The outer size of the window was read.
    Measured(PhysicalSize),
    /// The measured size in logical pixels.
    Converted(LogicalSize),
    Failed,
}

/// How a transaction ended.
#[derive(Debug, Clone, Copy, PartialEq, Eq, Structural)]
pub enum Verdict {
    /// Every step was done.
    Committed,
    /// A step failed and what had been done was undone, as far as the window
    /// system let it; the error is the one of the step.
    RolledBack,
    /// A step failed, and an undoing effect whose failure matters failed too;
    /// the error is the one of the latter.
    RollbackFailed,
}

/// How far a transaction has come.
#[derive(Debug, Clone, Copy, PartialEq, Eq, Structural)]
pub enum Stage {
    /// Step `at` is to be done.
    Forward { at: usize },
    /// Step `at` has failed, and undoing effect `undo` of it is to be done.
    Unwinding { at: usize, undo: usize, reported: bool },
    Ended(Verdict),
}

/// An operation that is carried out effect by effect.
pub struct Transaction {
    steps: Vec<Step>,
    stage: Stage,
    registers: Registers,
}

/// A transaction, as contracts speak of it.
pub struct TransactionView {
    pub steps: Seq<StepView>,
    pub stage: Stage,
    pub registers: Registers,
}

impl View for Transaction {
    type V = TransactionView;

    closed spec fn view(&self) -> TransactionView {
        TransactionView {
            steps: views(self.steps@),
            stage: self.stage,
            registers: self.registers,
        }
    }
}

/// What the registers hold before anything is read.
pub open spec fn no_readings() -> Registers {
    Registers {
        moving: false,
        requested: PhysicalPosition { x: 0, y: 0 },
        now: 0,
        measured: PhysicalSize { width: 0, height: 0 },
        measured_logical: LogicalSize { width: 0, height: 0 },
    }
}

/// An effect with what was read put in its place.
pub open spec fn resolved(effect: EffectView, registers: Registers) -> EffectView {
    match effect {
        EffectView::Window(member, WindowAction::ConvertMeasured) => EffectView::Window(
            member,
            WindowAction::ConvertSize(registers.measured),
        ),
        EffectView::Cache(member, CacheAction::RequestedPosition) => EffectView::Cache(
            member,
            CacheAction::Position(registers.requested),
        ),
        EffectView::Cache(member, CacheAction::RecordRequested) => EffectView::Cache(
            member,
            CacheAction::RecordPosition(registers.requested),
        ),
        EffectView::Cache(member, CacheAction::MeasuredSize) => EffectView::Cache(
            member,
            CacheAction::Size(registers.measured),
        ),
        EffectView::Notes(NoteActionView::ArchiveNow(id)) => EffectView::Notes(
            NoteActionView::Archive { id, at: registers.now },
        ),
        EffectView::Notes(NoteActionView::SetMeasuredSize(id)) => EffectView::Notes(
            NoteActionView::SetSize { id, size: registers.measured_logical },
        ),
        _ => effect,
    }
}

/// The registers after an event that answers `effect`.
pub open spec fn registers_after(
    registers: Registers,
    effect: EffectView,
    event: Event,
) -> Registers {
    match event {
        Event::Scale { current, requested } => Registers {
            moving: match effect {
                EffectView::Window(
                    _,
                    WindowAction::ReadScale { position, target },
                ) => current != target,
                _ => true,
            },
            requested,
            ..registers
        },
        Event::Clock(now) => Registers { now, ..registers },
        Event::Measured(measured) => Registers { measured, ..registers },
        Event::Converted(measured_logical) => Registers { measured_logical, ..registers },
        Event::Done => registers,
        Event::Failed => registers,
    }
}

/// The first step from `at` on that is not left out.
pub open spec fn due(steps: Seq<StepView>, at: int, moving: bool) -> int
    decreases steps.len() - at,
{
    if 0 <= at < steps.len() && steps[at].only_if_moving && !moving {
        due(steps, at + 1, moving)
    } else {
        at
    }
}

impl TransactionView {
    /// Whether the stage is one that the steps allow.
    pub open spec fn is_valid(self) -> bool {
        match self.stage {
            Stage::Forward { at } => at < self.steps.len(),
            Stage::Unwinding { at, undo, reported } => at < self.steps.len() && undo
                < self.steps[at as int].unwind.len(),
            Stage::Ended(_) => true,
        }
    }

    /// The transaction with `at` as the next step, or the first after it that
    /// is not left out.
    pub open spec fn proceeded(self, at: int) -> TransactionView {
        let next = due(self.steps, at, self.registers.moving);
        TransactionView {
            stage: if next < self.steps.len() {
                Stage::Forward { at: next as usize }
            } else {
                Stage::Ended(Verdict::Committed)
            },
            ..self
        }
    }

    /// The transaction with `undo` as the next undoing effect of step `at`.
    pub open spec fn unwound_to(self, at: usize, undo: int, reported: bool) -> TransactionView {
        TransactionView {
            stage: if undo < self.steps[at as int].unwind.len() {
                Stage::Unwinding { at, undo: undo as usize, reported }
            } else if reported {
                Stage::Ended(Verdict::RollbackFailed)
            } else {
                Stage::Ended(Verdict::RolledBack)
            },
            ..self
        }
    }

    /// The effect that is to be performed next, before what was read is put in.
    pub open spec fn planned_effect(self) -> Option<EffectView> {
        match self.stage {
            Stage::Forward { at } => Some(self.steps[at as int].effect),
            Stage::Unwinding { at, undo, reported } => Some(
                self.steps[at as int].unwind[undo as int].effect,
            ),
            Stage::Ended(_) => None,
        }
    }

    /// The effect that is to be performed next. What was read is put into the
    /// effects of steps; undoing effects are complete as they are.
    pub open spec fn next_effect(self) -> Option<EffectView> {
        match self.stage {
            Stage::Forward { at } => Some(
                resolved(self.steps[at as int].effect, self.registers),
            ),
            _ => self.planned_effect(),
        }
    }

    /// The transaction after the next effect went as `event` says.
    pub open spec fn advanced(self, event: Event) -> TransactionView {
        match self.stage {
            Stage::Forward { at } => if event == Event::Failed {
                self.unwound_to(at, 0, false)
            } else {
                (TransactionView {
                    registers: registers_after(
                        self.registers,
                        self.steps[at as int].effect,
                        event,
                    ),
                    ..self
                }).proceeded(at + 1)
            },
            Stage::Unwinding { at, undo, reported } => {
                let done = self.steps[at as int].unwind[undo as int];
                if event == Event::Failed {
                    match done.on_failure {
                        OnFailure::Skip(following) => self.unwound_to(
                            at,
                            undo + 1 + following,
                            reported,
                        ),
                        OnFailure::Stop => TransactionView {
                            stage: Stage::Ended(Verdict::RollbackFailed),
                            ..self
                        },
                        OnFailure::Report => self.unwound_to(at, undo + 1, true),
                    }
                } else {
                    (TransactionView {
                        registers: registers_after(self.registers, done.effect, event),
                        ..self
                    }).unwound_to(at, undo + 1, reported)
                }
            },
            Stage::Ended(_) => self,
        }
    }

    /// How many events are left to come, at most.
    pub open spec fn events_left(self) -> int {
        match self.stage {
            Stage::Forward { at } => self.steps.len() - at + longest_unwind(
                self.steps,
                self.steps.len() as int,
            ),
            Stage::Unwinding { at, undo, reported } => self.steps[at as int].unwind.len() - undo,
            Stage::Ended(_) => 0,
        }
    }
}

/// The length of the longest undoing of the first `n` steps.
pub open spec fn longest_unwind(steps: Seq<StepView>, n: int) -> int
    decreases n,
{
    if n <= 0 {
        0
    } else if steps[n - 1].unwind.len() > longest_unwind(steps, n - 1) {
        steps[n - 1].unwind.len() as int
    } else {
        longest_unwind(steps, n - 1)
    }
}

/// The transaction that carries out `steps`, before its first event.
pub open spec fn begun(steps: Seq<StepView>) -> TransactionView {
    (TransactionView {
        steps,
        stage: Stage::Ended(Verdict::Committed),
        registers: no_readings(),
    }).proceeded(0)
}

/// The next step to be done is none before, and there may be none.
pub proof fn lemma_due(steps: Seq<StepView>, at: int, moving: bool)
    requires
        0 <= at <= steps.len(),
    ensures
        at <= due(steps, at, moving) <= steps.len(),
    decreases steps.len() - at,
{
    if at < steps.len() && steps[at].only_if_moving && !moving {
        lemma_due(steps, at + 1, moving);
    }
}

impl Transaction {
    #[verifier::type_invariant]
    spec fn stage_is_valid(self) -> bool {
        self@.is_valid()
    }

    /// The transaction that carries out `steps`.
    pub fn begin(steps: Vec<Step>) -> (transaction: Self)
        ensures
            transaction@ == begun(views(steps@)),
    {
        let registers = Registers {
            moving: false,
            requested: PhysicalPosition::new(0, 0),
            now: 0,
            measured: PhysicalSize::new(0, 0),
            measured_logical: LogicalSize::new(0, 0),
        };
        let stage = Transaction::stage_at(&steps, 0, false);
        proof {
            lemma_due(views(steps@), 0, false);
        }
        Transaction { steps, stage, registers }
    }

    /// The stage of a transaction that is about to do step `at`.
    fn stage_at(steps: &Vec<Step>, at: usize, moving: bool) -> (stage: Stage)
        requires
            at <= steps@.len(),
        ensures
            stage == (if due(views(steps@), at as int, moving) < steps@.len() {
                Stage::Forward { at: due(views(steps@), at as int, moving) as usize }
            } else {
                Stage::Ended(Verdict::Committed)
            }),
    {
        let mut next: usize = at;
        while next < steps.len() && steps[next].only_if_moving && !moving
            invariant
                next <= steps@.len(),
                due(views(steps@), at as int, moving) == due(views(steps@), next as int, moving),
            decreases steps.len() - next,
        {
            next += 1;
        }
        if next < steps.len() {
            Stage::Forward { at: next }
        } else {
            Stage::Ended(Verdict::Committed)
        }
    }

    /// The effect that is to be performed next, or `None` if the transaction
    /// has ended.
    pub fn next_effect(&self) -> (next: Option<Effect>)
        ensures
            match next {
                Some(effect) => self@.next_effect() == Some(effect@),
                None => self@.next_effect() is None,
            },
    {
        proof {
            use_type_invariant(self);
        }
        match self.stage {
            Stage::Forward { at } => Some(resolve(&self.steps[at].effect, &self.registers)),
            Stage::Unwinding { at, undo, reported } => {
                let undos = &self.steps[at].unwind;
                Some(undos[undo].effect.clone())
            },
            Stage::Ended(_) => None,
        }
    }

    /// Takes note of how the next effect went.
    pub fn advance(&mut self, event: Event)
        ensures
            final(self)@ == old(self)@.advanced(event),
    {
        proof {
            use_type_invariant(&*self);
        }
        let ghost before = self@;
        match self.stage {
            Stage::Forward { at } => {
                if event == Event::Failed {
                    let count: usize = self.steps[at].unwind.len();
                    self.stage = Transaction::unwinding_stage(at, 0, count, false);
                } else {
                    let registers = read(&self.registers, &self.steps[at].effect, event);
                    assert(at < self.steps.len());
                    let stage = Transaction::stage_at(&self.steps, at + 1, registers.moving);
                    proof {
                        lemma_due(before.steps, at + 1, registers.moving);
                    }
                    self.registers = registers;
                    self.stage = stage;
                }
            },
            Stage::Unwinding { at, undo, reported } => {
                let count: usize = self.steps[at].unwind.len();
                if event == Event::Failed {
                    let undos = &self.steps[at].unwind;
                    let stage = match undos[undo].on_failure {
                        OnFailure::Skip(following) => {
                            if (following as usize) < count - undo {
                                Transaction::unwinding_stage(
                                    at,
                                    undo + (following as usize) + 1,
                                    count,
                                    reported,
                                )
                            } else {
                                Transaction::unwinding_stage(at, count, count, reported)
                            }
                        },
                        OnFailure::Stop => Stage::Ended(Verdict::RollbackFailed),
                        OnFailure::Report => Transaction::unwinding_stage(
                            at,
                            undo + 1,
                            count,
                            true,
                        ),
                    };
                    self.stage = stage;
                } else {
                    let undos = &self.steps[at].unwind;
                    let registers = read(&self.registers, &undos[undo].effect, event);
                    self.registers = registers;
                    self.stage = Transaction::unwinding_stage(at, undo + 1, count, reported);
                }
            },
            Stage::Ended(_) => {},
        }
    }

    /// The stage of a transaction that is about to do undoing effect `undo` of
    /// the `count` that step `at` has.
    fn unwinding_stage(at: usize, undo: usize, count: usize, reported: bool) -> (stage: Stage)
        ensures
            stage == (if undo < count {
                Stage::Unwinding { at, undo, reported }
            } else if reported {
                Stage::Ended(Verdict::RollbackFailed)
            } else {
                Stage::Ended(Verdict::RolledBack)
            }),
    {
        if undo < count {
            Stage::Unwinding { at, undo, reported }
        } else if reported {
            Stage::Ended(Verdict::RollbackFailed)
        } else {
            Stage::Ended(Verdict::RolledBack)
        }
    }

    /// How the transaction ended, or `None` if it has not.
    pub fn verdict(&self) -> (verdict: Option<Verdict>)
        ensures
            verdict == (match self@.stage {
                Stage::Ended(verdict) => Some(verdict),
                _ => None,
            }),
    {
        match self.stage {
            Stage::Ended(verdict) => Some(verdict),
            _ => None,
        }
    }

    /// Whether a step has failed and what was done is being undone.
    pub fn is_unwinding(&self) -> (unwinding: bool)
        ensures
            unwinding == (self@.stage is Unwinding),
    {
        match self.stage {
            Stage::Unwinding { at, undo, reported } => true,
            _ => false,
        }
    }
}

/// An effect with what was read put in its place.
fn resolve(effect: &Effect, registers: &Registers) -> (complete: Effect)
    ensures
        complete@ == resolved(effect@, *registers),
{
    match effect {
        Effect::Window(member, WindowAction::ConvertMeasured) => Effect::Window(
            member.clone(),
            WindowAction::ConvertSize(registers.measured),
        ),
        Effect::Cache(member, CacheAction::RequestedPosition) => Effect::Cache(
            member.clone(),
            CacheAction::Position(registers.requested),
        ),
        Effect::Cache(member, CacheAction::RecordRequested) => Effect::Cache(
            member.clone(),
            CacheAction::RecordPosition(registers.requested),
        ),
        Effect::Cache(member, CacheAction::MeasuredSize) => Effect::Cache(
            member.clone(),
            CacheAction::Size(registers.measured),
        ),
        Effect::Notes(NoteAction::ArchiveNow(id)) => Effect::Notes(
            NoteAction::Archive { id: id.clone(), at: registers.now },
        ),
        Effect::Notes(NoteAction::SetMeasuredSize(id)) => Effect::Notes(
            NoteAction::SetSize { id: id.clone(), size: registers.measured_logical },
        ),
        _ => effect.clone(),
    }
}

/// The registers after an event that answers `effect`.
fn read(registers: &Registers, effect: &Effect, event: Event) -> (after: Registers)
    ensures
        after == registers_after(*registers, effect@, event),
{
    match event {
        Event::Scale { current, requested } => {
            let moving = match effect {
                Effect::Window(
                    _,
                    WindowAction::ReadScale { position, target },
                ) => current != *target,
                _ => true,
            };
            Registers { moving, requested, ..*registers }
        },
        Event::Clock(now) => Registers { now, ..*registers },
        Event::Measured(measured) => Registers { measured, ..*registers },
        Event::Converted(measured_logical) => Registers { measured_logical, ..*registers },
        Event::Done => *registers,
        Event::Failed => *registers,
    }
}

/// Every transaction ends: each event leaves fewer to come, until none is.
pub proof fn law_transactions_end(transaction: TransactionView, event: Event)
    requires
        transaction.is_valid(),
        transaction.steps.len() <= usize::MAX,
        forall|i: int|
            0 <= i < transaction.steps.len() ==> (
            #[trigger] transaction.steps[i]).unwind.len() <= usize::MAX,
        !(transaction.stage is Ended),
    ensures
        transaction.advanced(event).is_valid(),
        0 <= transaction.advanced(event).events_left() < transaction.events_left(),
{
    let steps = transaction.steps;
    lemma_longest_unwind(steps, steps.len() as int);
    match transaction.stage {
        Stage::Forward { at } => {
            let registers = registers_after(
                transaction.registers,
                steps[at as int].effect,
                event,
            );
            lemma_due(steps, at + 1, registers.moving);
        },
        _ => {},
    }
}

proof fn lemma_longest_unwind(steps: Seq<StepView>, n: int)
    requires
        0 <= n <= steps.len(),
    ensures
        longest_unwind(steps, n) >= 0,
        forall|i: int|
            0 <= i < n ==> (#[trigger] steps[i]).unwind.len() <= longest_unwind(steps, n),
    decreases n,
{
    if n > 0 {
        lemma_longest_unwind(steps, n - 1);
    }
}

/// What an event says was read goes into the step that follows: a note is archived at
/// the time that the clock showed, a window is taken to be where its target is in
/// device pixels, and a measured size is the one that is cached, converted and stored.
pub proof fn law_readings_go_into_the_next_effect(
    transaction: TransactionView,
    at: usize,
    event: Event,
)
    requires
        transaction.stage == (Stage::Forward { at }),
        at + 1 < transaction.steps.len() <= usize::MAX,
        !transaction.steps[at + 1].only_if_moving,
    ensures
        ({
            let next = transaction.advanced(event).next_effect();
            match (event, transaction.steps[at + 1].effect) {
                (
                    Event::Clock(now),
                    EffectView::Notes(NoteActionView::ArchiveNow(id)),
                ) => next == Some(EffectView::Notes(NoteActionView::Archive { id, at: now })),
                (
                    Event::Measured(size),
                    EffectView::Cache(member, CacheAction::MeasuredSize),
                ) => next == Some(EffectView::Cache(member, CacheAction::Size(size))),
                (
                    Event::Measured(size),
                    EffectView::Window(member, WindowAction::ConvertMeasured),
                ) => next == Some(EffectView::Window(member, WindowAction::ConvertSize(size))),
                (
                    Event::Converted(size),
                    EffectView::Notes(NoteActionView::SetMeasuredSize(id)),
                ) => next == Some(EffectView::Notes(NoteActionView::SetSize { id, size })),
                (
                    Event::Scale { requested, .. },
                    EffectView::Cache(member, CacheAction::RequestedPosition),
                ) => next == Some(EffectView::Cache(member, CacheAction::Position(requested))),
                (
                    Event::Scale { requested, .. },
                    EffectView::Cache(member, CacheAction::RecordRequested),
                ) => next == Some(
                    EffectView::Cache(member, CacheAction::RecordPosition(requested)),
                ),
                _ => true,
            }
        }),
{
}

/// A window that a reading finds at its target is not moved: the steps that are only
/// for windows that move are left out. One that it finds elsewhere is moved.
pub proof fn law_windows_in_place_are_not_moved(
    transaction: TransactionView,
    at: usize,
    current: LogicalPosition,
    requested: PhysicalPosition,
)
    requires
        transaction.stage == (Stage::Forward { at }),
        at + 1 < transaction.steps.len() <= usize::MAX,
        transaction.steps[at as int].effect is Window,
        transaction.steps[at as int].effect->Window_1 is ReadScale,
    ensures
        ({
            let target = transaction.steps[at as int].effect->Window_1->target;
            let after = transaction.advanced(Event::Scale { current, requested });
            &&& current != target ==> after.stage == (Stage::Forward { at: (at + 1) as usize })
            &&& current == target ==> match after.stage {
                Stage::Forward { at: next } => {
                    &&& at < next < transaction.steps.len()
                    &&& !transaction.steps[next as int].only_if_moving
                    &&& forall|i: int|
                        at < i < next ==> (#[trigger] transaction.steps[i]).only_if_moving
                },
                Stage::Ended(verdict) => {
                    &&& verdict == Verdict::Committed
                    &&& forall|i: int|
                        at < i < transaction.steps.len() ==> (
                        #[trigger] transaction.steps[i]).only_if_moving
                },
                _ => false,
            }
        }),
{
    lemma_left_out(transaction.steps, at + 1);
}

proof fn lemma_left_out(steps: Seq<StepView>, at: int)
    requires
        0 <= at <= steps.len(),
    ensures
        at <= due(steps, at, false) <= steps.len(),
        due(steps, at, false) < steps.len() ==> !steps[due(steps, at, false)].only_if_moving,
        forall|i: int| at <= i < due(steps, at, false) ==> (#[trigger] steps[i]).only_if_moving,
    decreases steps.len() - at,
{
    if at < steps.len() && steps[at].only_if_moving {
        lemma_left_out(steps, at + 1);
    }
}

} // verus!
