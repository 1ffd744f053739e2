//! Which windows a link takes, which groups it replaces, and in what order.
use vstd::prelude::*;

use crate::geometry::NoteGeometry;
use crate::groups::{first_group_of, is_linked, lemma_filtered, other_than, without};
use crate::link::{
    lemma_filtered_groups, linked_windows, selected_windows, selects, touched_groups, touches,
    Monitor, SelectionView,
};
use crate::member::MemberView;
use crate::ordering::text_before;
use crate::relink::law_relinking_loses_no_window;
use crate::store::GroupView;

verus! {

/// Twice the middle of a window, from left to right.
pub open spec fn middle_across(window: NoteGeometry) -> int {
    2 * window.position.x + window.size.width
}

/// Twice the middle of a window, from top to bottom.
pub open spec fn middle_down(window: NoteGeometry) -> int {
    2 * window.position.y + window.size.height
}

/// Whether the middle of a window is on a display, and left of the middle of the
/// display's work area exactly if the middle of another window is.
pub open spec fn is_beside(monitor: Monitor, parent: NoteGeometry, window: NoteGeometry) -> bool {
    let bounds = monitor.bounds;
    let half = middle_across(monitor.work_area);
    &&& 2 * bounds.position.x <= middle_across(window)
    &&& middle_across(window) < 2 * bounds.position.x + 2 * bounds.size.width
    &&& 2 * bounds.position.y <= middle_down(window)
    &&& middle_down(window) < 2 * bounds.position.y + 2 * bounds.size.height
    &&& middle_across(window) < half <==> middle_across(parent) < half
}

/// Whether a window is the parent, or active and beside it.
pub open spec fn is_chosen(
    parent: MemberView,
    active: Seq<MemberView>,
    geometries: Map<Seq<char>, NoteGeometry>,
    monitor: Monitor,
    m: MemberView,
) -> bool {
    ||| m == parent
    ||| active.contains(m) && is_beside(monitor, geometries[parent.id], geometries[m.id])
}

/// Whether a group has the parent, or an active window beside it.
pub open spec fn is_concerned(
    group: GroupView,
    parent: MemberView,
    active: Seq<MemberView>,
    geometries: Map<Seq<char>, NoteGeometry>,
    monitor: Monitor,
) -> bool {
    exists|n: MemberView|
        group.members.contains(n) && #[trigger] is_chosen(parent, active, geometries, monitor, n)
}

/// The chosen windows are the parent and the active windows beside it.
proof fn lemma_chosen(
    parent: MemberView,
    active: Seq<MemberView>,
    geometries: Map<Seq<char>, NoteGeometry>,
    monitor: Monitor,
    m: MemberView,
)
    ensures
        selected_windows(parent, active, geometries, monitor).contains(m) <==> is_chosen(
            parent,
            active,
            geometries,
            monitor,
            m,
        ),
{
    let others = without(active, parent);
    let keep = other_than(parent);
    lemma_filtered(active, keep);
    if others.contains(m) {
        let i = others.index_of(m);
        assert(keep(others[i]));
        assert(active.contains(others[i]));
    }
    if active.contains(m) && m != parent {
        let i = active.index_of(m);
        assert(keep(active[i]));
        assert(others.contains(m));
    }
}

/// A group has a chosen window exactly if it is concerned.
proof fn lemma_concerned(
    group: GroupView,
    parent: MemberView,
    active: Seq<MemberView>,
    geometries: Map<Seq<char>, NoteGeometry>,
    monitor: Monitor,
)
    ensures
        touches(selected_windows(parent, active, geometries, monitor))(group) <==> is_concerned(
            group,
            parent,
            active,
            geometries,
            monitor,
        ),
{
    let selected = selected_windows(parent, active, geometries, monitor);
    if touches(selected)(group) {
        let i = choose|i: int|
            0 <= i < group.members.len() && selected.contains(#[trigger] group.members[i]);
        lemma_chosen(parent, active, geometries, monitor, group.members[i]);
        assert(group.members.contains(group.members[i]));
    }
    if is_concerned(group, parent, active, geometries, monitor) {
        let n = choose|n: MemberView|
            group.members.contains(n) && #[trigger] is_chosen(
                parent,
                active,
                geometries,
                monitor,
                n,
            );
        lemma_chosen(parent, active, geometries, monitor, n);
        let i = group.members.index_of(n);
        assert(selected.contains(group.members[i]));
    }
}

/// A window is in some absorbed group exactly if it is in a concerned one.
proof fn lemma_in_absorbed(
    groups: Seq<GroupView>,
    parent: MemberView,
    active: Seq<MemberView>,
    geometries: Map<Seq<char>, NoteGeometry>,
    monitor: Monitor,
    m: MemberView,
)
    ensures
        is_linked(
            touched_groups(groups, selected_windows(parent, active, geometries, monitor)),
            m,
        ) <==> exists|g: int|
            0 <= g < groups.len() && (#[trigger] groups[g]).members.contains(m) && is_concerned(
                groups[g],
                parent,
                active,
                geometries,
                monitor,
            ),
{
    let selected = selected_windows(parent, active, geometries, monitor);
    let absorbed = touched_groups(groups, selected);
    lemma_filtered_groups(groups, touches(selected));
    if is_linked(absorbed, m) {
        let a = choose|a: int|
            0 <= a < absorbed.len() && (#[trigger] absorbed[a]).members.contains(m);
        assert(touches(selected)(absorbed[a]));
        lemma_concerned(absorbed[a], parent, active, geometries, monitor);
        let g = groups.index_of(absorbed[a]);
        assert(groups[g].members.contains(m));
    }
    if exists|g: int|
        0 <= g < groups.len() && (#[trigger] groups[g]).members.contains(m) && is_concerned(
            groups[g],
            parent,
            active,
            geometries,
            monitor,
        ) {
        let g = choose|g: int|
            0 <= g < groups.len() && (#[trigger] groups[g]).members.contains(m) && is_concerned(
                groups[g],
                parent,
                active,
                geometries,
                monitor,
            );
        lemma_concerned(groups[g], parent, active, geometries, monitor);
        assert(touches(selected)(groups[g]));
        let a = absorbed.index_of(groups[g]);
        assert(absorbed[a].members.contains(m));
    }
}

/// The windows of the order are the parent and the linked ones, each once.
proof fn lemma_order(
    selection: SelectionView,
    groups: Seq<GroupView>,
    active: Seq<MemberView>,
    geometries: Map<Seq<char>, NoteGeometry>,
    monitor: Monitor,
)
    requires
        selects(selection, groups, active, geometries, monitor),
    ensures
        selection.order.no_duplicates(),
        forall|m: MemberView| #[trigger]
            selection.order.contains(m) <==> m == selection.parent || linked_windows(
                selection.parent,
                groups,
                active,
                geometries,
                monitor,
            ).contains(m),
{
    let order = selection.order;
    let below = order.drop_first();
    let linked = linked_windows(selection.parent, groups, active, geometries, monitor);
    assert forall|i: int| 0 < i < order.len() implies linked.contains(#[trigger] order[i]) by {
        assert(below[i - 1] == order[i]);
        assert(below.to_set().contains(order[i]));
    }
    assert forall|i: int, j: int| 0 <= i < j < order.len() implies order[i] != order[j] by {
        if i > 0 {
            assert(below[i - 1] == order[i] && below[j - 1] == order[j]);
        }
    }
    assert forall|m: MemberView| linked.contains(m) implies #[trigger] order.contains(m) by {
        assert(below.to_set().contains(m));
        let i = below.index_of(m);
        assert(order[i + 1] == m);
    }
    assert(order[0] == selection.parent);
}

/// An active window is in the group that a link makes exactly if it is placed by
/// the link: no open window is kept in the group and left where it is, and none is
/// placed and left out of the group.
pub proof fn law_group_has_the_placed_windows(
    selection: SelectionView,
    groups: Seq<GroupView>,
    active: Seq<MemberView>,
    geometries: Map<Seq<char>, NoteGeometry>,
    monitor: Monitor,
    id: Seq<char>,
    m: MemberView,
)
    requires
        selects(selection, groups, active, geometries, monitor),
        active.contains(m) || m == selection.parent,
    ensures
        selection.new_group(id).members.contains(m) <==> selection.order.contains(m),
{
    lemma_order(selection, groups, active, geometries, monitor);
    law_relinking_loses_no_window(selection.parent, selection.order, selection.absorbed, m);
    if selection.new_group(id).members.contains(m) && !selection.order.contains(m) {
        assert(is_linked(selection.absorbed, m));
    }
}

/// A link places the parent, the active windows beside it, and the active windows
/// of every group that has one of those; it places no other window.
pub proof fn law_linked_windows_are_beside_or_grouped(
    selection: SelectionView,
    groups: Seq<GroupView>,
    active: Seq<MemberView>,
    geometries: Map<Seq<char>, NoteGeometry>,
    monitor: Monitor,
    m: MemberView,
)
    requires
        selects(selection, groups, active, geometries, monitor),
    ensures
        selection.order.contains(m) <==> {
            ||| is_chosen(selection.parent, active, geometries, monitor, m)
            ||| active.contains(m) && exists|g: int|
                0 <= g < groups.len() && (#[trigger] groups[g]).members.contains(m)
                    && is_concerned(groups[g], selection.parent, active, geometries, monitor)
        },
{
    lemma_order(selection, groups, active, geometries, monitor);
    lemma_chosen(selection.parent, active, geometries, monitor, m);
    lemma_in_absorbed(groups, selection.parent, active, geometries, monitor, m);
}

/// A link replaces the groups that have the parent or an active window beside it,
/// and no other.
pub proof fn law_concerned_groups_are_replaced(
    selection: SelectionView,
    groups: Seq<GroupView>,
    active: Seq<MemberView>,
    geometries: Map<Seq<char>, NoteGeometry>,
    monitor: Monitor,
    group: GroupView,
)
    requires
        selects(selection, groups, active, geometries, monitor),
    ensures
        selection.absorbed.contains(group) <==> groups.contains(group) && is_concerned(
            group,
            selection.parent,
            active,
            geometries,
            monitor,
        ),
{
    let selected = selected_windows(selection.parent, active, geometries, monitor);
    lemma_filtered_groups(groups, touches(selected));
    lemma_concerned(group, selection.parent, active, geometries, monitor);
    if selection.absorbed.contains(group) {
        let a = selection.absorbed.index_of(group);
        assert(touches(selected)(selection.absorbed[a]));
    }
    if groups.contains(group) && touches(selected)(group) {
        let g = groups.index_of(group);
        assert(touches(selected)(groups[g]));
    }
}

/// The group that a link makes keeps the identifier of the first group that has
/// the parent; it gets a new one exactly if no group has the parent.
pub proof fn law_group_of_the_parent_is_kept(
    selection: SelectionView,
    groups: Seq<GroupView>,
    active: Seq<MemberView>,
    geometries: Map<Seq<char>, NoteGeometry>,
    monitor: Monitor,
)
    requires
        selects(selection, groups, active, geometries, monitor),
    ensures
        match selection.existing {
            Some(id) => exists|g: int|
                {
                    &&& 0 <= g < groups.len()
                    &&& (#[trigger] groups[g]).id == id
                    &&& groups[g].members.contains(selection.parent)
                    &&& forall|h: int|
                        0 <= h < g ==> !(#[trigger] groups[h]).members.contains(selection.parent)
                },
            None => forall|g: int|
                0 <= g < groups.len() ==> !(#[trigger] groups[g]).members.contains(
                    selection.parent,
                ),
        },
{
    law_first_group_that_has_a_window(groups, selection.parent);
}

/// The group of a window is the first one that has it; it has none exactly if no group
/// has it.
pub proof fn law_first_group_that_has_a_window(groups: Seq<GroupView>, member: MemberView)
    ensures
        match first_group_of(groups, member) {
            Some(group) => exists|g: int|
                {
                    &&& 0 <= g < groups.len()
                    &&& #[trigger] groups[g] == group
                    &&& group.members.contains(member)
                    &&& forall|h: int|
                        0 <= h < g ==> !(#[trigger] groups[h]).members.contains(member)
                },
            None => forall|g: int|
                0 <= g < groups.len() ==> !(#[trigger] groups[g]).members.contains(member),
        },
    decreases groups.len(),
{
    if groups.len() > 0 {
        let shorter = groups.drop_last();
        law_first_group_that_has_a_window(shorter, member);
        match first_group_of(shorter, member) {
            Some(group) => {
                let g = choose|g: int|
                    {
                        &&& 0 <= g < shorter.len()
                        &&& #[trigger] shorter[g] == group
                        &&& group.members.contains(member)
                        &&& forall|h: int|
                            0 <= h < g ==> !(#[trigger] shorter[h]).members.contains(member)
                    };
                assert(groups[g] == group);
                assert forall|h: int| 0 <= h < g implies !(
                #[trigger] groups[h]).members.contains(member) by {
                    assert(shorter[h] == groups[h]);
                }
            },
            None => {
                assert forall|h: int| 0 <= h < groups.len() - 1 implies !(
                #[trigger] groups[h]).members.contains(member) by {
                    assert(shorter[h] == groups[h]);
                }
                assert(groups[groups.len() - 1] == groups.last());
            },
        }
    }
}

/// The parent is placed first, and the others below it are placed from the highest
/// to the lowest, those of one height from left to right, and those of one place notes
/// first and by identifier; none is placed twice.
pub proof fn law_placed_windows_are_in_reading_order(
    selection: SelectionView,
    groups: Seq<GroupView>,
    active: Seq<MemberView>,
    geometries: Map<Seq<char>, NoteGeometry>,
    monitor: Monitor,
    i: int,
    j: int,
)
    requires
        selects(selection, groups, active, geometries, monitor),
        0 < i < j < selection.order.len(),
    ensures
        ({
            let first = geometries[selection.order[i].id].position;
            let second = geometries[selection.order[j].id].position;
            &&& selection.order[0] == selection.parent
            &&& first.y <= second.y
            &&& first.y == second.y ==> first.x <= second.x
            &&& first.y == second.y && first.x == second.x ==> {
                let (a, b) = (selection.order[i], selection.order[j]);
                &&& a.kind != b.kind ==> a.kind is Note
                &&& a.kind == b.kind ==> text_before(a.id, b.id)
            }
            &&& selection.order.no_duplicates()
        }),
{
    lemma_order(selection, groups, active, geometries, monitor);
    let below = selection.order.drop_first();
    assert(below[i - 1] == selection.order[i] && below[j - 1] == selection.order[j]);
}

} // verus!
