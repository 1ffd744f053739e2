//! Which windows are shown, which one gets the focus, and in what order that is done.
use vstd::prelude::*;

use crate::effect::{EffectView, WindowAction};
use crate::geometry::{LogicalPosition, PhysicalPosition};
use crate::layout::SnapshotView;
use crate::link::focused_member;
use crate::member::{label_member, MemberView};
use crate::rearrange::{packing, packing_step, reset_plan, reset_tail, revealing};
use crate::resize::{focusing, resize_plan, resizing_self, shifting, unresizing, ResizingView};
use crate::restore::reveal_plan;
use crate::surface::{NoteView, TimerView};
use crate::transaction::StepView;

verus! {

/// Whether step `i` does something to a window.
pub open spec fn does(
    steps: Seq<StepView>,
    i: int,
    member: MemberView,
    action: WindowAction,
) -> bool {
    0 <= i < steps.len() && steps[i].effect == EffectView::Window(member, action)
}

/// All the windows are shown and no other, and after that the first of them gets the
/// focus, and no other.
pub proof fn law_all_are_shown_and_the_first_is_focused(windows: Seq<MemberView>, m: MemberView)
    requires
        windows.len() > 0,
    ensures
        ({
            let steps = reveal_plan(windows);
            &&& windows.contains(m) <==> exists|i: int|
                0 <= i < steps.len() - 1 && #[trigger] does(steps, i, m, WindowAction::Reveal)
            &&& forall|i: int|
                #[trigger] does(steps, i, m, WindowAction::Focus) <==> i == steps.len() - 1 && m
                    == windows[0]
        }),
{
    let steps = reveal_plan(windows);
    if windows.contains(m) {
        let i = windows.index_of(m);
        assert(does(steps, i, m, WindowAction::Reveal));
    }
    if exists|i: int|
        0 <= i < steps.len() - 1 && #[trigger] does(steps, i, m, WindowAction::Reveal) {
        let i = choose|i: int|
            0 <= i < steps.len() - 1 && #[trigger] does(steps, i, m, WindowAction::Reveal);
        assert(windows[i] == m);
    }
}

/// When windows are packed, every one is shown before any is moved, each is moved to its
/// target, and the first one gets the focus in the end.
pub proof fn law_packed_windows_are_shown_first(
    snapshots: Seq<SnapshotView>,
    targets: Seq<PhysicalPosition>,
    logical: Seq<LogicalPosition>,
    notes: Map<Seq<char>, NoteView>,
    timers: Map<Seq<char>, TimerView>,
    i: int,
    j: int,
)
    requires
        0 <= i < snapshots.len(),
        0 <= j < snapshots.len(),
        snapshots.len() == targets.len(),
    ensures
        ({
            let steps = reset_plan(snapshots, targets, logical, notes, timers);
            &&& exists|a: int, b: int|
                {
                    &&& a < b
                    &&& #[trigger] does(steps, a, snapshots[i].member, WindowAction::Reveal)
                    &&& #[trigger] does(
                        steps,
                        b,
                        snapshots[j].member,
                        WindowAction::MoveToPhysical(targets[j]),
                    )
                }
            &&& does(steps, steps.len() - 1, snapshots[0].member, WindowAction::Focus)
        }),
{
    let steps = reset_plan(snapshots, targets, logical, notes, timers);
    let shown = revealing(snapshots);
    let moved = packing(snapshots, targets);
    let tail = reset_tail(snapshots, logical, notes, timers);
    assert(steps == shown + moved + tail);
    let b = shown.len() + 3 * j;
    assert(steps[i] == shown[i]);
    assert(moved[3 * j] == packing_step(snapshots, targets, (3 * j) / 3, (3 * j) % 3));
    assert(steps[b] == moved[3 * j]);
    assert(does(steps, i, snapshots[i].member, WindowAction::Reveal));
    assert(does(
        steps,
        b,
        snapshots[j].member,
        WindowAction::MoveToPhysical(targets[j]),
    ));
    assert(steps[steps.len() - 1] == tail[tail.len() - 1]);
}

/// A window that is resized or folded is asked to take its new size. Before that it
/// leaves the maximized state if it is folded, and only then. It gets the focus at the
/// end if it is unfolded, and only then.
pub proof fn law_window_leaves_maximized_before_it_is_folded(
    request: ResizingView,
    position: PhysicalPosition,
    later: Seq<SnapshotView>,
    targets: Seq<LogicalPosition>,
    notes: Map<Seq<char>, NoteView>,
    timers: Map<Seq<char>, TimerView>,
)
    ensures
        ({
            let steps = resize_plan(request, position, later, targets, notes, timers);
            let end = focusing(request);
            &&& exists|b: int|
                {
                    &&& #[trigger] does(
                        steps,
                        b,
                        request.member,
                        WindowAction::Resize(request.target),
                    )
                    &&& request.collapsed == Some(true) ==> exists|a: int|
                        a < b && #[trigger] does(
                            steps,
                            a,
                            request.member,
                            WindowAction::LeaveMaximized,
                        )
                }
            &&& request.collapsed != Some(true) ==> forall|a: int, m: MemberView|
                !#[trigger] does(steps, a, m, WindowAction::LeaveMaximized)
            &&& request.collapsed == Some(false) ==> end.len() == 1 && does(
                end,
                0,
                request.member,
                WindowAction::Focus,
            )
            &&& request.collapsed != Some(false) ==> end.len() == 0
        }),
{
    let steps = resize_plan(request, position, later, targets, notes, timers);
    let unwind = unresizing(request, position, later);
    let own = resizing_self(request, unwind);
    let below = shifting(later, targets, unwind);
    let b = own.len() - 2;
    assert(steps[b] == own[b]);
    assert(does(steps, b, request.member, WindowAction::Resize(request.target)));
    if request.collapsed == Some(true) {
        assert(steps[0] == own[0]);
        assert(does(steps, 0, request.member, WindowAction::LeaveMaximized));
    } else {
        assert forall|a: int, m: MemberView| !#[trigger] does(
            steps,
            a,
            m,
            WindowAction::LeaveMaximized,
        ) by {
            if 0 <= a < own.len() {
                assert(steps[a] == own[a]);
            } else if own.len() <= a < own.len() + below.len() {
                assert(steps[a] == below[a - own.len()]);
            }
        }
    }
}

/// The window that has the focus is the first of the open windows that has it and whose
/// label is one of a note or a timer; there is none exactly if no such window has it.
pub proof fn law_focused_window_is_the_first_with_the_focus(windows: Seq<(String, bool)>)
    ensures
        match focused_member(windows) {
            Some(m) => exists|i: int|
                {
                    &&& 0 <= i < windows.len()
                    &&& (#[trigger] windows[i]).1
                    &&& label_member(windows[i].0@) == Some(m)
                    &&& forall|j: int|
                        0 <= j < i ==> !(#[trigger] windows[j]).1 || label_member(windows[j].0@)
                            is None
                },
            None => forall|j: int|
                0 <= j < windows.len() ==> !(#[trigger] windows[j]).1 || label_member(
                    windows[j].0@,
                ) is None,
        },
    decreases windows.len(),
{
    if windows.len() > 0 {
        let shorter = windows.drop_last();
        law_focused_window_is_the_first_with_the_focus(shorter);
        match focused_member(shorter) {
            Some(m) => {
                let i = choose|i: int|
                    {
                        &&& 0 <= i < shorter.len()
                        &&& (#[trigger] shorter[i]).1
                        &&& label_member(shorter[i].0@) == Some(m)
                        &&& forall|j: int|
                            0 <= j < i ==> !(#[trigger] shorter[j]).1 || label_member(
                                shorter[j].0@,
                            ) is None
                    };
                assert(windows[i] == shorter[i]);
                assert forall|j: int| 0 <= j < i implies !(#[trigger] windows[j]).1
                    || label_member(windows[j].0@) is None by {
                    assert(windows[j] == shorter[j]);
                }
            },
            None => {
                assert forall|j: int| 0 <= j < shorter.len() implies !(#[trigger] windows[j]).1
                    || label_member(windows[j].0@) is None by {
                    assert(windows[j] == shorter[j]);
                }
                assert(windows[windows.len() - 1] == windows.last());
            },
        }
    }
}

} // verus!
