//! Which windows of a group are stacked, in what order, and where.
use vstd::prelude::*;

use crate::arrange::{
    law_group_fits_if_its_last_window_does, law_group_stands_from_its_origin_down, stacked_row,
};
use crate::close::{closing_of, compaction_origin, ClosingView};
use crate::error::GroupError;
use crate::geometry::{LogicalPosition, NoteGeometry};
use crate::groups::{
    active_and_kept, active_members, first_group_of, groups_are_sound, groups_detached,
    lemma_filtered, other_than, without,
};
use crate::layout::{
    can_stack, durable_heights, is_stack_of, members_of, says_why_not_stacked, snapshots_of,
    LayoutView,
};
use crate::linked::law_first_group_that_has_a_window;
use crate::member::{GroupMemberKind, MemberView};
use crate::restore::restored_windows;
use crate::store::{surface_of, surfaces_known, surfaces_of, GroupView};
use crate::surface::{NoteView, SurfaceView, TimerView};

verus! {

/// Whether a window is open: a note that is not archived, or a timer whose window
/// is open.
pub open spec fn is_open(
    active_notes: Seq<Seq<char>>,
    open_timers: Seq<Seq<char>>,
    m: MemberView,
) -> bool {
    match m.kind {
        GroupMemberKind::Note => active_notes.contains(m.id),
        GroupMemberKind::Timer => open_timers.contains(m.id),
    }
}

/// Whether a list has one window before another.
pub open spec fn has_in_turn(
    members: Seq<MemberView>,
    first: MemberView,
    second: MemberView,
) -> bool {
    exists|a: int, b: int|
        0 <= a < b < members.len() && #[trigger] members[a] == first && #[trigger] members[b]
            == second
}

/// Whether the windows of a list come in the order of another.
pub open spec fn is_in_order_of(part: Seq<MemberView>, whole: Seq<MemberView>) -> bool {
    &&& forall|i: int, j: int|
        0 <= i < j < part.len() ==> #[trigger] has_in_turn(whole, part[i], part[j])
    &&& whole.no_duplicates() ==> part.no_duplicates()
}

/// How high a window is, according to what is stored of it.
pub open spec fn stored_height(
    notes: Map<Seq<char>, NoteView>,
    timers: Map<Seq<char>, TimerView>,
    m: MemberView,
) -> int {
    match m.kind {
        GroupMemberKind::Note => if notes[m.id].collapsed {
            24
        } else if notes[m.id].expanded_height < 80 {
            80
        } else {
            notes[m.id].expanded_height as int
        },
        GroupMemberKind::Timer => if timers[m.id].collapsed {
            24
        } else {
            176
        },
    }
}

/// Whether something is stored of a window.
pub open spec fn is_known(
    notes: Map<Seq<char>, NoteView>,
    timers: Map<Seq<char>, TimerView>,
    m: MemberView,
) -> bool {
    match m.kind {
        GroupMemberKind::Note => notes.contains_key(m.id),
        GroupMemberKind::Timer => timers.contains_key(m.id),
    }
}

/// A stack has the windows of its list, in order, from where they are cached to be.
/// The first goes to the origin of the stack, and each next one into the same
/// column of pixels, 12 below the end of the one before it, that is, as far below it
/// as the stored height of that one says.
pub proof fn law_stack_follows_the_stored_heights(
    layout: LayoutView,
    members: Seq<MemberView>,
    geometries: Map<Seq<char>, NoteGeometry>,
    origin: LogicalPosition,
    notes: Map<Seq<char>, NoteView>,
    timers: Map<Seq<char>, TimerView>,
)
    requires
        is_stack_of(layout, members, geometries, origin, notes, timers),
        forall|i: int| 0 <= i < members.len() ==> is_known(notes, timers, #[trigger] members[i]),
    ensures
        layout.snapshots.len() == members.len(),
        layout.targets.len() == members.len(),
        forall|i: int|
            0 <= i < members.len() ==> {
                &&& (#[trigger] layout.snapshots[i]).member == members[i]
                &&& layout.snapshots[i].position == geometries[members[i].id].position
                &&& layout.snapshots[i].size == geometries[members[i].id].size
            },
        members.len() > 0 ==> layout.targets[0] == origin,
        forall|i: int|
            0 <= i < members.len() - 1 ==> {
                &&& (#[trigger] layout.targets[i + 1]).x == layout.targets[i].x
                &&& layout.targets[i + 1].y == layout.targets[i].y + stored_height(
                    notes,
                    timers,
                    members[i],
                ) + 12
            },
{
    if members.len() > 0 {
        let listed = members_of(snapshots_of(geometries, members));
        assert(listed =~= members);
        let heights = durable_heights(surfaces_of(notes, timers, listed));
        law_group_stands_from_its_origin_down(origin, heights, layout.targets);
        assert forall|i: int| 0 <= i < members.len() - 1 implies {
            &&& (#[trigger] layout.targets[i + 1]).x == layout.targets[i].x
            &&& layout.targets[i + 1].y == layout.targets[i].y + stored_height(
                notes,
                timers,
                members[i],
            ) + 12
        } by {
            assert(is_known(notes, timers, members[i]));
            assert(heights[i] == stored_height(notes, timers, members[i]));
        }
    }
}

/// When the topmost window of a group is closed, be it a note or a timer, the next
/// one goes to where it was stored. When another one is closed, the topmost stays.
pub proof fn law_group_moves_up_to_its_closed_top(
    closing: ClosingView,
    layout: LayoutView,
    geometries: Map<Seq<char>, NoteGeometry>,
    first_origin: LogicalPosition,
    notes: Map<Seq<char>, NoteView>,
    timers: Map<Seq<char>, TimerView>,
)
    requires
        closing.remaining.len() > 0,
        forall|i: int|
            0 <= i < closing.remaining.len() ==> is_known(
                notes,
                timers,
                #[trigger] closing.remaining[i],
            ),
        is_stack_of(
            layout,
            closing.remaining,
            geometries,
            compaction_origin(closing, first_origin),
            notes,
            timers,
        ),
    ensures
        layout.snapshots[0].member == closing.remaining[0],
        closing.removed_top ==> match closing.surface {
            SurfaceView::Note(note) => layout.targets[0].x == note.x && layout.targets[0].y
                == note.y,
            SurfaceView::Timer(timer) => layout.targets[0].x == timer.x && layout.targets[0].y
                == timer.y,
        },
        !closing.removed_top ==> layout.targets[0] == first_origin,
{
    law_stack_follows_the_stored_heights(
        layout,
        closing.remaining,
        geometries,
        compaction_origin(closing, first_origin),
        notes,
        timers,
    );
    assert(layout.snapshots[0].member == closing.remaining[0]);
}

/// What passes a filter comes in the order of the list.
pub proof fn lemma_filtered_in_order(members: Seq<MemberView>, keep: spec_fn(MemberView) -> bool)
    ensures
        is_in_order_of(members.filter(keep), members),
        members.filter(keep).len() > 0 ==> is_first(members, members.filter(keep)[0], keep),
    decreases members.len(),
{
    reveal(Seq::filter);
    lemma_filtered(members, keep);
    if members.len() > 0 {
        let rest = members.drop_last();
        let last = members.last();
        lemma_filtered_in_order(rest, keep);
        lemma_filtered(rest, keep);
        let before = rest.filter(keep);
        let part = members.filter(keep);
        assert forall|i: int, j: int| 0 <= i < j < part.len() implies #[trigger] has_in_turn(
            members,
            part[i],
            part[j],
        ) by {
            assert(part[i] == before[i]);
            assert(before.contains(part[i]));
            if j < before.len() {
                assert(has_in_turn(rest, before[i], before[j]));
                let (a, b) = choose|a: int, b: int|
                    0 <= a < b < rest.len() && #[trigger] rest[a] == before[i]
                        && #[trigger] rest[b] == before[j];
                assert(members[a] == before[i] && members[b] == before[j]);
            } else {
                let a = rest.index_of(part[i]);
                assert(members[a] == part[i] && members[members.len() - 1] == part[j]);
            }
        }
        if before.len() > 0 {
            assert(part[0] == before[0]);
            let k = choose|k: int| is_first_at(rest, before[0], keep, k);
            assert forall|j: int| 0 <= j < k implies !keep(#[trigger] members[j]) by {
                assert(members[j] == rest[j]);
            }
            assert(is_first_at(members, part[0], keep, k));
        } else if part.len() > 0 {
            assert forall|j: int| 0 <= j < rest.len() implies !keep(#[trigger] members[j]) by {
                assert(members[j] == rest[j]);
                if keep(rest[j]) {
                    assert(rest.contains(rest[j]));
                    assert(before.contains(rest[j]));
                }
            }
            assert(is_first_at(members, part[0], keep, members.len() - 1));
        }
    }
}

/// Whether a window is number `k` of a list and passes, and none before it does.
pub open spec fn is_first_at(
    members: Seq<MemberView>,
    m: MemberView,
    keep: spec_fn(MemberView) -> bool,
    k: int,
) -> bool {
    &&& 0 <= k < members.len()
    &&& members[k] == m
    &&& keep(m)
    &&& forall|j: int| 0 <= j < k ==> !keep(#[trigger] members[j])
}

/// Whether a window is the first of a list that passes.
pub open spec fn is_first(
    members: Seq<MemberView>,
    m: MemberView,
    keep: spec_fn(MemberView) -> bool,
) -> bool {
    exists|k: int| is_first_at(members, m, keep, k)
}

/// Whether `m` is open and no window before it in the list is.
pub open spec fn is_first_open(
    members: Seq<MemberView>,
    active_notes: Seq<Seq<char>>,
    open_timers: Seq<Seq<char>>,
    m: MemberView,
) -> bool {
    exists|k: int|
        {
            &&& 0 <= k < members.len()
            &&& #[trigger] members[k] == m
            &&& is_open(active_notes, open_timers, m)
            &&& forall|j: int|
                0 <= j < k ==> !is_open(active_notes, open_timers, #[trigger] members[j])
        }
}

/// When a window of a group is closed, the open windows of the group but itself are
/// left, in the order of the group, and it was the topmost exactly if no window
/// before it in the group is open.
pub proof fn law_open_windows_are_left(
    member: MemberView,
    surface: SurfaceView,
    group: GroupView,
    active_notes: Seq<Seq<char>>,
    open_timers: Seq<Seq<char>>,
    m: MemberView,
)
    ensures
        ({
            let closing = closing_of(member, surface, group, active_notes, open_timers);
            &&& closing.member == member
            &&& closing.surface == surface
            &&& closing.group == group
            &&& closing.remaining.contains(m) <==> {
                &&& m != member
                &&& group.members.contains(m)
                &&& is_open(active_notes, open_timers, m)
            }
            &&& is_in_order_of(closing.remaining, group.members)
            &&& closing.removed_top <==> is_first_open(
                group.members,
                active_notes,
                open_timers,
                member,
            )
        }),
{
    let closing = closing_of(member, surface, group, active_notes, open_timers);
    let kept = active_and_kept(active_notes, open_timers, set![member]);
    let all = active_and_kept(active_notes, open_timers, Set::empty());
    let active = active_members(active_notes, open_timers, group.members, Set::empty());
    lemma_filtered(group.members, kept);
    lemma_filtered_in_order(group.members, kept);
    lemma_filtered(group.members, all);
    lemma_filtered_in_order(group.members, all);
    assert(kept(m) <==> m != member && is_open(active_notes, open_timers, m));
    if active.len() > 0 {
        let k = choose|k: int| is_first_at(group.members, active[0], all, k);
        assert forall|j: int| 0 <= j < k implies !is_open(
            active_notes,
            open_timers,
            #[trigger] group.members[j],
        ) by {
            assert(!all(group.members[j]));
        }
        assert(is_first_open(group.members, active_notes, open_timers, active[0])) by {
            assert(group.members[k] == active[0]);
        }
        if is_first_open(group.members, active_notes, open_timers, member) {
            let i = choose|i: int|
                {
                    &&& 0 <= i < group.members.len()
                    &&& #[trigger] group.members[i] == member
                    &&& is_open(active_notes, open_timers, member)
                    &&& forall|j: int|
                        0 <= j < i ==> !is_open(
                            active_notes,
                            open_timers,
                            #[trigger] group.members[j],
                        )
                };
            if i < k {
                assert(!is_open(active_notes, open_timers, group.members[i]));
            } else if k < i {
                assert(!is_open(active_notes, open_timers, group.members[k]));
            }
        }
    } else if is_first_open(group.members, active_notes, open_timers, member) {
        assert(group.members.contains(member) && all(member));
        assert(active.contains(member));
    }
}

/// A note that is opened again is put in place with the open windows of the first
/// group that has it, in the order of the group, itself among them; with none, if
/// no group has it.
pub proof fn law_note_is_restored_with_its_group(
    id: Seq<char>,
    groups: Seq<GroupView>,
    active_notes: Seq<Seq<char>>,
    open_timers: Seq<Seq<char>>,
    m: MemberView,
)
    ensures
        ({
            let note = MemberView { kind: GroupMemberKind::Note, id };
            let restored = restored_windows(id, groups, active_notes, open_timers);
            if exists|g: int|
                0 <= g < groups.len() && (#[trigger] groups[g]).members.contains(note) {
                exists|g: int|
                    {
                        &&& 0 <= g < groups.len()
                        &&& (#[trigger] groups[g]).members.contains(note)
                        &&& forall|h: int|
                            0 <= h < g ==> !(#[trigger] groups[h]).members.contains(note)
                        &&& is_in_order_of(restored, groups[g].members)
                        &&& restored.contains(m) <==> groups[g].members.contains(m) && (m == note
                            || is_open(active_notes, open_timers, m))
                    }
            } else {
                restored.len() == 0
            }
        }),
{
    let note = MemberView { kind: GroupMemberKind::Note, id };
    let restored = restored_windows(id, groups, active_notes, open_timers);
    law_first_group_that_has_a_window(groups, note);
    if exists|g: int| 0 <= g < groups.len() && (#[trigger] groups[g]).members.contains(note) {
        let with_note = active_notes.push(id);
        let kept = active_and_kept(with_note, open_timers, Set::empty());
        assert forall|other: Seq<char>| #[trigger] with_note.contains(other) <==> other == id
            || active_notes.contains(other) by {
            assert(with_note[active_notes.len() as int] == id);
            if active_notes.contains(other) {
                let i = active_notes.index_of(other);
                assert(with_note[i] == other);
            }
            if with_note.contains(other) && other != id {
                let i = with_note.index_of(other);
                assert(active_notes[i] == other);
            }
        }
        assert(kept(m) <==> m == note || is_open(active_notes, open_timers, m));
        let group = first_group_of(groups, note)->0;
        let g = choose|g: int|
            {
                &&& 0 <= g < groups.len()
                &&& #[trigger] groups[g] == group
                &&& group.members.contains(note)
                &&& forall|h: int| 0 <= h < g ==> !(#[trigger] groups[h]).members.contains(note)
            };
        lemma_filtered(groups[g].members, kept);
        lemma_filtered_in_order(groups[g].members, kept);
        assert(restored == groups[g].members.filter(kept));
    }
}

/// A group that a window leaves lasts while two other windows are in it, which stay
/// in order; else it is gone.
pub proof fn law_group_lasts_while_two_are_left(
    groups: Map<Seq<char>, GroupView>,
    group_id: Seq<char>,
    member: MemberView,
)
    requires
        groups_are_sound(groups),
        groups.contains_key(group_id),
    ensures
        ({
            let members = groups[group_id].members;
            let detached = groups_detached(groups, group_id, member);
            &&& detached.contains_key(group_id) <==> exists|a: MemberView, b: MemberView|
                {
                    &&& a != b && a != member && b != member
                    &&& #[trigger] members.contains(a) && #[trigger] members.contains(b)
                }
            &&& detached.contains_key(group_id) ==> {
                &&& detached[group_id].id == groups[group_id].id
                &&& is_in_order_of(detached[group_id].members, members)
                &&& forall|m: MemberView| #[trigger]
                    detached[group_id].members.contains(m) <==> m != member && members.contains(m)
            }
        }),
{
    let members = groups[group_id].members;
    let keep = other_than(member);
    let left = without(members, member);
    lemma_filtered(members, keep);
    lemma_filtered_in_order(members, keep);
    assert forall|m: MemberView| #[trigger] left.contains(m) <==> m != member && members.contains(
        m,
    ) by {
        assert(keep(m) <==> m != member);
    }
    if left.len() >= 2 {
        assert(left.contains(left[0]) && left.contains(left[1]));
        assert(left[0] != left[1]);
        assert(members.contains(left[0]) && members.contains(left[1]));
    }
    if exists|a: MemberView, b: MemberView|
        {
            &&& a != b && a != member && b != member
            &&& #[trigger] members.contains(a) && #[trigger] members.contains(b)
        } {
        let (a, b) = choose|a: MemberView, b: MemberView|
            {
                &&& a != b && a != member && b != member
                &&& #[trigger] members.contains(a) && #[trigger] members.contains(b)
            };
        assert(left.contains(a) && left.contains(b));
        let i = left.index_of(a);
        let j = left.index_of(b);
        assert(left[i] == a && left[j] == b);
    }
}

/// The active windows of a group are the open ones that are not left out, in the order of
/// the group.
pub proof fn law_active_windows_are_the_open_ones(
    active_notes: Seq<Seq<char>>,
    open_timers: Seq<Seq<char>>,
    members: Seq<MemberView>,
    excluded: Set<MemberView>,
    m: MemberView,
)
    ensures
        ({
            let active = active_members(active_notes, open_timers, members, excluded);
            &&& active.contains(m) <==> {
                &&& members.contains(m)
                &&& is_open(active_notes, open_timers, m)
                &&& !excluded.contains(m)
            }
            &&& is_in_order_of(active, members)
        }),
{
    let keep = active_and_kept(active_notes, open_timers, excluded);
    lemma_filtered(members, keep);
    lemma_filtered_in_order(members, keep);
    assert(keep(m) <==> is_open(active_notes, open_timers, m) && !excluded.contains(m));
}

/// How far below the first window of a stack window number `i` begins.
pub open spec fn depth(
    notes: Map<Seq<char>, NoteView>,
    timers: Map<Seq<char>, TimerView>,
    members: Seq<MemberView>,
    i: int,
) -> int
    decreases i,
{
    if i <= 0 {
        0
    } else {
        depth(notes, timers, members, i - 1) + stored_height(notes, timers, members[i - 1]) + 12
    }
}

proof fn lemma_depth(
    notes: Map<Seq<char>, NoteView>,
    timers: Map<Seq<char>, TimerView>,
    members: Seq<MemberView>,
    top: int,
    i: int,
)
    requires
        0 <= i < members.len(),
        forall|j: int| 0 <= j < members.len() ==> is_known(notes, timers, #[trigger] members[j]),
    ensures
        stacked_row(top, durable_heights(surfaces_of(notes, timers, members)), i) == top + depth(
            notes,
            timers,
            members,
            i,
        ),
    decreases i,
{
    if i > 0 {
        lemma_depth(notes, timers, members, top, i - 1);
        assert(is_known(notes, timers, members[i - 1]));
        assert(durable_heights(surfaces_of(notes, timers, members))[i - 1] == stored_height(
            notes,
            timers,
            members[i - 1],
        ));
    }
}

/// Whether every window of a list is open, in the cache and stored, and the last one
/// begins no lower than the window system can express when the first begins at `top`.
pub open spec fn is_stackable(
    members: Seq<MemberView>,
    open_labels: Seq<Seq<char>>,
    geometries: Map<Seq<char>, NoteGeometry>,
    top: int,
    notes: Map<Seq<char>, NoteView>,
    timers: Map<Seq<char>, TimerView>,
) -> bool {
    &&& forall|i: int|
        0 <= i < members.len() ==> {
            &&& open_labels.contains((#[trigger] members[i]).window_label())
            &&& geometries.contains_key(members[i].id)
            &&& is_known(notes, timers, members[i])
        }
    &&& members.len() > 0 ==> top + depth(notes, timers, members, members.len() - 1)
        <= 0x7fff_ffff
}

/// Windows can be stacked exactly if every one is open, in the cache and stored, and the
/// last one does not begin too low; and only if they cannot is there an error that says
/// why.
pub proof fn law_known_windows_can_be_stacked(
    members: Seq<MemberView>,
    open_labels: Seq<Seq<char>>,
    geometries: Map<Seq<char>, NoteGeometry>,
    origin: LogicalPosition,
    notes: Map<Seq<char>, NoteView>,
    timers: Map<Seq<char>, TimerView>,
    error: GroupError,
)
    ensures
        can_stack(members, open_labels, geometries, origin, notes, timers) <==> is_stackable(
            members,
            open_labels,
            geometries,
            origin.y as int,
            notes,
            timers,
        ),
        says_why_not_stacked(error, members, open_labels, geometries, origin, notes, timers)
            ==> !is_stackable(members, open_labels, geometries, origin.y as int, notes, timers),
{
    let heights = durable_heights(surfaces_of(notes, timers, members));
    if forall|i: int| 0 <= i < members.len() ==> is_known(notes, timers, #[trigger] members[i]) {
        if members.len() > 0 {
            lemma_depth(notes, timers, members, origin.y as int, members.len() - 1);
            law_group_fits_if_its_last_window_does(origin.y, heights);
        }
        assert(surfaces_known(notes, timers, members, members.len() as int)) by {
            assert forall|i: int| 0 <= i < members.len() implies surface_of(
                notes,
                timers,
                #[trigger] members[i],
            ) is Some by {
                assert(is_known(notes, timers, members[i]));
            }
        }
    } else {
        let i = choose|i: int|
            0 <= i < members.len() && !is_known(notes, timers, #[trigger] members[i]);
        assert(surface_of(notes, timers, members[i]) is None);
    }
}

} // verus!
