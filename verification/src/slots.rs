//! Where the closed notes of a group are in the order of the group that takes its
//! place.
use vstd::prelude::*;

use crate::member::MemberView;
use crate::relink::{
    first_active, groups_are_apart, inactive_after, is_owned_at, last_active,
    law_relinking_repeats_no_window, leading, leads_group, lemma_active_ones_are_active,
    lemma_brought_along, lemma_inactive_after, lemma_inactive_is_member, lemma_leading,
    lemma_one_owner, lemma_slot, lemma_slot_has_no_duplicates, lemma_slots_are_apart,
    lemma_trailing, relinked_order, slot, trailing, trails_in_group,
};
use crate::stack::has_in_turn;
use crate::store::GroupView;

verus! {

/// Whether window number `l` of a list is the last one before number `k` that is one
/// of an order.
pub open spec fn is_last_before(
    members: Seq<MemberView>,
    order: Seq<MemberView>,
    l: int,
    k: int,
) -> bool {
    &&& 0 <= l < k < members.len()
    &&& order.contains(members[l])
    &&& forall|j: int| l < j < k ==> !order.contains(#[trigger] members[j])
}

/// Whether window number `f` of a list is the first one that is one of an order.
pub open spec fn is_first_of(members: Seq<MemberView>, order: Seq<MemberView>, f: int) -> bool {
    &&& 0 <= f < members.len()
    &&& order.contains(members[f])
    &&& forall|j: int| 0 <= j < f ==> !order.contains(#[trigger] members[j])
}

proof fn lemma_last_active(members: Seq<MemberView>, order: Seq<MemberView>, l: int)
    requires
        0 <= l < members.len(),
        order.contains(members[l]),
        forall|j: int| l < j < members.len() ==> !order.contains(#[trigger] members[j]),
    ensures
        last_active(members, order.to_set()) == Some(members[l]),
    decreases members.len(),
{
    if l < members.len() - 1 {
        assert(!order.contains(members[members.len() - 1]));
        let shorter = members.drop_last();
        assert forall|j: int| l < j < shorter.len() implies !order.contains(#[trigger] shorter[j]) by {
            assert(shorter[j] == members[j]);
        }
        lemma_last_active(shorter, order, l);
    }
}

proof fn lemma_none_active(members: Seq<MemberView>, order: Seq<MemberView>)
    requires
        forall|j: int| 0 <= j < members.len() ==> !order.contains(#[trigger] members[j]),
    ensures
        last_active(members, order.to_set()) is None,
        first_active(members, order.to_set()) is None,
    decreases members.len(),
{
    if members.len() > 0 {
        assert(!order.contains(members[members.len() - 1]));
        let shorter = members.drop_last();
        assert forall|j: int| 0 <= j < shorter.len() implies !order.contains(#[trigger] shorter[j]) by {
            assert(shorter[j] == members[j]);
        }
        lemma_none_active(shorter, order);
    }
}

proof fn lemma_first_active(members: Seq<MemberView>, order: Seq<MemberView>, f: int)
    requires
        is_first_of(members, order, f),
    ensures
        first_active(members, order.to_set()) == Some(members[f]),
    decreases members.len(),
{
    let shorter = members.drop_last();
    if f < members.len() - 1 {
        assert forall|j: int| 0 <= j < f implies !order.contains(#[trigger] shorter[j]) by {
            assert(shorter[j] == members[j]);
        }
        assert(shorter[f] == members[f]);
        lemma_first_active(shorter, order, f);
    } else {
        assert forall|j: int| 0 <= j < shorter.len() implies !order.contains(#[trigger] shorter[j]) by {
            assert(shorter[j] == members[j]);
        }
        lemma_none_active(shorter, order);
    }
}

/// Where a window and the closed notes of its slot are within the slot.
proof fn lemma_within_slot(
    parent: MemberView,
    owner: MemberView,
    groups: Seq<GroupView>,
    active: Set<MemberView>,
    i: int,
    p: int,
)
    requires
        groups_are_apart(groups),
        active.contains(owner),
        0 <= i < slot(parent, owner, groups, active).len(),
        0 <= p < slot(parent, owner, groups, active).len(),
        slot(parent, owner, groups, active)[i] == owner,
        i != p,
    ensures
        i < p <==> owner == parent || trailing(groups, active, owner).contains(
            slot(parent, owner, groups, active)[p],
        ),
{
    let all = slot(parent, owner, groups, active);
    let leads = leading(groups, active, owner);
    let trails = trailing(groups, active, owner);
    let c = all[p];
    lemma_slot_has_no_duplicates(parent, owner, groups, active);
    if owner == parent {
        assert(all[0] == owner);
    } else {
        let at = leads.len() as int;
        assert(all[at] == owner);
        assert(i == at);
        if p > at {
            assert(trails[p - at - 1] == c);
        } else if trails.contains(c) {
            let q = trails.index_of(c);
            assert(all[at + 1 + q] == c);
        }
    }
}

/// Where a closed note of a slot is in the relinked order.
proof fn lemma_closed_among_active(
    parent: MemberView,
    order: Seq<MemberView>,
    groups: Seq<GroupView>,
    n: int,
    c: MemberView,
    s: int,
    p: int,
    i: int,
    t: int,
)
    requires
        order.no_duplicates(),
        groups_are_apart(groups),
        0 <= n <= order.len(),
        0 <= s < order.len(),
        0 <= t < order.len(),
        !order.contains(c),
        slot(parent, order[s], groups, order.to_set()).contains(c),
        0 <= p < relinked_order(parent, order, groups, n).len(),
        0 <= i < relinked_order(parent, order, groups, n).len(),
        relinked_order(parent, order, groups, n)[p] == c,
        relinked_order(parent, order, groups, n)[i] == order[t],
    ensures
        s < n,
        t < n,
        i < p <==> t < s || (t == s && (order[s] == parent || trailing(
            groups,
            order.to_set(),
            order[s],
        ).contains(c))),
    decreases n,
{
    let active = order.to_set();
    let owner = order[n - 1];
    assert(!order.take(n - 1).contains(owner)) by {
        if order.take(n - 1).contains(owner) {
            let j = order.take(n - 1).index_of(owner);
            assert(order[j] == owner);
        }
    }
    let before = relinked_order(parent, order, groups, n - 1);
    let added = slot(parent, owner, groups, active);
    let all = relinked_order(parent, order, groups, n);
    assert(all == before + added);
    assert(active.contains(owner) && active.contains(order[s]) && active.contains(order[t]));
    if p >= before.len() {
        assert(added[p - before.len()] == c);
        assert(added.contains(c));
        lemma_slots_are_apart(parent, owner, order[s], groups, active, c);
        assert(s == n - 1);
    }
    if i >= before.len() {
        assert(added[i - before.len()] == order[t]);
        assert(added.contains(order[t]));
        lemma_slot(parent, owner, groups, active);
        if order[t] != owner {
            let g = lemma_brought_along(groups, active, owner, order[t]);
        }
        assert(t == n - 1);
    }
    if p < before.len() && i < before.len() {
        lemma_closed_among_active(parent, order, groups, n - 1, c, s, p, i, t);
    } else if p < before.len() {
        lemma_prefix_slot(parent, order, groups, n - 1, p, s);
    } else if i < before.len() {
        lemma_prefix_active(parent, order, groups, n - 1, i, t);
    } else {
        lemma_within_slot(
            parent,
            owner,
            groups,
            active,
            i - before.len(),
            p - before.len(),
        );
    }
}

/// What the slots of the first `n` windows hold is in one of those slots.
proof fn lemma_prefix_slot(
    parent: MemberView,
    order: Seq<MemberView>,
    groups: Seq<GroupView>,
    n: int,
    p: int,
    s: int,
)
    requires
        order.no_duplicates(),
        groups_are_apart(groups),
        0 <= n <= order.len(),
        0 <= s < order.len(),
        0 <= p < relinked_order(parent, order, groups, n).len(),
        slot(parent, order[s], groups, order.to_set()).contains(
            relinked_order(parent, order, groups, n)[p],
        ),
    ensures
        s < n,
    decreases n,
{
    let active = order.to_set();
    let owner = order[n - 1];
    assert(!order.take(n - 1).contains(owner)) by {
        if order.take(n - 1).contains(owner) {
            let j = order.take(n - 1).index_of(owner);
            assert(order[j] == owner);
        }
    }
    let before = relinked_order(parent, order, groups, n - 1);
    let added = slot(parent, owner, groups, active);
    assert(active.contains(owner) && active.contains(order[s]));
    if p < before.len() {
        lemma_prefix_slot(parent, order, groups, n - 1, p, s);
    } else {
        let c = added[p - before.len()];
        assert(added.contains(c));
        lemma_slots_are_apart(parent, owner, order[s], groups, active, c);
    }
}

proof fn lemma_prefix_active(
    parent: MemberView,
    order: Seq<MemberView>,
    groups: Seq<GroupView>,
    n: int,
    i: int,
    t: int,
)
    requires
        order.no_duplicates(),
        groups_are_apart(groups),
        0 <= n <= order.len(),
        0 <= t < order.len(),
        0 <= i < relinked_order(parent, order, groups, n).len(),
        relinked_order(parent, order, groups, n)[i] == order[t],
    ensures
        t < n,
{
    lemma_slot(parent, order[t], groups, order.to_set());
    assert(slot(parent, order[t], groups, order.to_set()).contains(order[t]));
    lemma_prefix_slot(parent, order, groups, n, i, t);
}

/// A closed note of an absorbed group stays behind the open window that it was behind:
/// of the windows that are placed, those up to that window come before it, and no
/// other.
pub proof fn law_closed_note_stays_behind_its_window(
    parent: MemberView,
    order: Seq<MemberView>,
    groups: Seq<GroupView>,
    g: int,
    k: int,
    l: int,
    s: int,
    t: int,
    i: int,
    p: int,
)
    requires
        order.no_duplicates(),
        groups_are_apart(groups),
        0 <= g < groups.len(),
        0 <= k < groups[g].members.len(),
        !order.contains(groups[g].members[k]),
        is_last_before(groups[g].members, order, l, k),
        0 <= s < order.len(),
        order[s] == groups[g].members[l],
        0 <= t < order.len(),
        ({
            let relinked = relinked_order(parent, order, groups, order.len() as int);
            &&& 0 <= i < relinked.len()
            &&& 0 <= p < relinked.len()
            &&& relinked[i] == order[t]
            &&& relinked[p] == groups[g].members[k]
        }),
    ensures
        i < p <==> t <= s,
{
    let active = order.to_set();
    let members = groups[g].members;
    let c = members[k];
    lemma_trailed(groups, order, g, l, k);
    lemma_slot(parent, members[l], groups, active);
    lemma_closed_among_active(parent, order, groups, order.len() as int, c, s, p, i, t);
}

/// A closed note that led its group stays before the first open window of it: of the
/// windows that are placed, those before that window come before it, and no other;
/// unless that window is the parent, which stays on top of it.
pub proof fn law_closed_note_stays_before_its_window(
    parent: MemberView,
    order: Seq<MemberView>,
    groups: Seq<GroupView>,
    g: int,
    k: int,
    f: int,
    s: int,
    t: int,
    i: int,
    p: int,
)
    requires
        order.no_duplicates(),
        groups_are_apart(groups),
        0 <= g < groups.len(),
        0 <= k < f,
        is_first_of(groups[g].members, order, f),
        0 <= s < order.len(),
        order[s] == groups[g].members[f],
        0 <= t < order.len(),
        ({
            let relinked = relinked_order(parent, order, groups, order.len() as int);
            &&& 0 <= i < relinked.len()
            &&& 0 <= p < relinked.len()
            &&& relinked[i] == order[t]
            &&& relinked[p] == groups[g].members[k]
        }),
    ensures
        i < p <==> t < s || (t == s && groups[g].members[f] == parent),
{
    let active = order.to_set();
    let members = groups[g].members;
    let c = members[k];
    let owner = members[f];
    assert(!order.contains(members[k]));
    lemma_led(groups, order, g, k, f);
    lemma_leading(groups, active, owner);
    lemma_trailing(groups, active, owner);
    lemma_slot(parent, owner, groups, active);
    if trailing(groups, active, owner).contains(c) {
        let h = choose|h: int| trails_in_group(groups, active, owner, c, h);
        let e = choose|e: int| leads_group(groups, active, owner, c, e);
        lemma_inactive_is_member(groups[h].members, active, Some(owner), c);
        lemma_inactive_is_member(groups[e].members, active, None, c);
        assert(groups[e].members.contains(c) && groups[h].members.contains(c));
        assert(groups[e].members.no_duplicates());
        lemma_one_owner(groups[e].members, active, None, Some(owner), c);
    }
    lemma_closed_among_active(parent, order, groups, order.len() as int, c, s, p, i, t);
}

proof fn lemma_in_turn_in_sum(
    a: Seq<MemberView>,
    b: Seq<MemberView>,
    first: MemberView,
    second: MemberView,
)
    requires
        has_in_turn(a, first, second) || has_in_turn(b, first, second),
    ensures
        has_in_turn(a + b, first, second),
{
    if has_in_turn(a, first, second) {
        let (i, j) = choose|i: int, j: int|
            0 <= i < j < a.len() && #[trigger] a[i] == first && #[trigger] a[j] == second;
        assert((a + b)[i] == first && (a + b)[j] == second);
    } else {
        let (i, j) = choose|i: int, j: int|
            0 <= i < j < b.len() && #[trigger] b[i] == first && #[trigger] b[j] == second;
        assert((a + b)[a.len() + i] == first && (a + b)[a.len() + j] == second);
    }
}

/// Inactive windows of one owner are listed in the order in which they are.
proof fn lemma_inactive_in_turn(
    members: Seq<MemberView>,
    active: Set<MemberView>,
    owner: Option<MemberView>,
    j: int,
    k: int,
)
    requires
        0 <= j < k < members.len(),
        is_owned_at(members, active, owner, members[j], j),
        is_owned_at(members, active, owner, members[k], k),
    ensures
        has_in_turn(inactive_after(members, active, owner), members[j], members[k]),
    decreases members.len(),
{
    let shorter = members.drop_last();
    let rest = inactive_after(shorter, active, owner);
    let all = inactive_after(members, active, owner);
    assert(shorter.take(j) =~= members.take(j));
    assert(shorter[j] == members[j]);
    if k < members.len() - 1 {
        assert(shorter.take(k) =~= members.take(k));
        lemma_inactive_in_turn(shorter, active, owner, j, k);
        let (a, b) = choose|a: int, b: int|
            0 <= a < b < rest.len() && #[trigger] rest[a] == members[j] && #[trigger] rest[b]
                == members[k];
        assert(all[a] == rest[a] && all[b] == rest[b]);
    } else {
        assert(members.take(k) =~= shorter);
        lemma_inactive_after(shorter, active, owner);
        assert(is_owned_at(shorter, active, owner, members[j], j));
        assert(rest.contains(members[j]));
        let a = rest.index_of(members[j]);
        assert(all == rest.push(members[k]));
        assert(all[a] == members[j] && all[rest.len() as int] == members[k]);
    }
}

proof fn lemma_leading_in_turn(
    groups: Seq<GroupView>,
    active: Set<MemberView>,
    owner: MemberView,
    g: int,
    first: MemberView,
    second: MemberView,
)
    requires
        0 <= g < groups.len(),
        first_active(groups[g].members, active) == Some(owner),
        has_in_turn(inactive_after(groups[g].members, active, None), first, second),
    ensures
        has_in_turn(leading(groups, active, owner), first, second),
    decreases groups.len(),
{
    let shorter = groups.drop_last();
    let rest = leading(shorter, active, owner);
    if g < shorter.len() {
        assert(shorter[g] == groups[g]);
        lemma_leading_in_turn(shorter, active, owner, g, first, second);
        let added = if first_active(groups.last().members, active) == Some(owner) {
            inactive_after(groups.last().members, active, None)
        } else {
            Seq::empty()
        };
        lemma_in_turn_in_sum(rest, added, first, second);
    } else {
        lemma_in_turn_in_sum(
            rest,
            inactive_after(groups.last().members, active, None),
            first,
            second,
        );
    }
}

proof fn lemma_trailing_in_turn(
    groups: Seq<GroupView>,
    active: Set<MemberView>,
    owner: MemberView,
    g: int,
    first: MemberView,
    second: MemberView,
)
    requires
        0 <= g < groups.len(),
        has_in_turn(inactive_after(groups[g].members, active, Some(owner)), first, second),
    ensures
        has_in_turn(trailing(groups, active, owner), first, second),
    decreases groups.len(),
{
    let shorter = groups.drop_last();
    let rest = trailing(shorter, active, owner);
    if g < shorter.len() {
        assert(shorter[g] == groups[g]);
        lemma_trailing_in_turn(shorter, active, owner, g, first, second);
    }
    lemma_in_turn_in_sum(
        rest,
        inactive_after(groups.last().members, active, Some(owner)),
        first,
        second,
    );
}

proof fn lemma_relinked_in_turn(
    parent: MemberView,
    order: Seq<MemberView>,
    groups: Seq<GroupView>,
    n: int,
    s: int,
    first: MemberView,
    second: MemberView,
)
    requires
        order.no_duplicates(),
        0 <= s < n <= order.len(),
        has_in_turn(slot(parent, order[s], groups, order.to_set()), first, second),
    ensures
        has_in_turn(relinked_order(parent, order, groups, n), first, second),
    decreases n,
{
    let owner = order[n - 1];
    assert(!order.take(n - 1).contains(owner)) by {
        if order.take(n - 1).contains(owner) {
            let j = order.take(n - 1).index_of(owner);
            assert(order[j] == owner);
        }
    }
    if s < n - 1 {
        lemma_relinked_in_turn(parent, order, groups, n - 1, s, first, second);
    }
    lemma_in_turn_in_sum(
        relinked_order(parent, order, groups, n - 1),
        slot(parent, owner, groups, order.to_set()),
        first,
        second,
    );
}

/// Closed notes of an absorbed group that have no placed window between them stay in
/// the order in which they were.
pub proof fn law_closed_notes_stay_in_order(
    parent: MemberView,
    order: Seq<MemberView>,
    groups: Seq<GroupView>,
    g: int,
    j: int,
    k: int,
    holder: int,
)
    requires
        order.no_duplicates(),
        groups_are_apart(groups),
        0 <= g < groups.len(),
        0 <= j < k < groups[g].members.len(),
        forall|i: int| j <= i <= k ==> !order.contains(#[trigger] groups[g].members[i]),
        0 <= holder < groups[g].members.len(),
        order.contains(groups[g].members[holder]),
    ensures
        has_in_turn(
            relinked_order(parent, order, groups, order.len() as int),
            groups[g].members[j],
            groups[g].members[k],
        ),
        relinked_order(parent, order, groups, order.len() as int).no_duplicates(),
{
    let active = order.to_set();
    let members = groups[g].members;
    let owner = last_active(members.take(j), active);
    lemma_same_owner(members, order, j, k);
    assert(is_owned_at(members, active, owner, members[j], j));
    assert(is_owned_at(members, active, owner, members[k], k));
    lemma_inactive_in_turn(members, active, owner, j, k);
    lemma_holds_first(members, order, holder);
    let holding = match owner {
        Some(owner) => owner,
        None => first_active(members, active)->0,
    };
    lemma_active_ones_are_active(members.take(j), active);
    lemma_active_ones_are_active(members, active);
    let leads = leading(groups, active, holding);
    let trails = trailing(groups, active, holding);
    let own = seq![holding];
    if owner is Some {
        lemma_trailing_in_turn(groups, active, holding, g, members[j], members[k]);
        lemma_in_turn_in_sum(own + leads, trails, members[j], members[k]);
        lemma_in_turn_in_sum(leads + own, trails, members[j], members[k]);
    } else {
        lemma_leading_in_turn(groups, active, holding, g, members[j], members[k]);
        lemma_in_turn_in_sum(own, leads, members[j], members[k]);
        lemma_in_turn_in_sum(leads, own, members[j], members[k]);
        lemma_in_turn_in_sum(own + leads, trails, members[j], members[k]);
        lemma_in_turn_in_sum(leads + own, trails, members[j], members[k]);
    }
    let s = order.index_of(holding);
    assert(order[s] == holding);
    lemma_relinked_in_turn(
        parent,
        order,
        groups,
        order.len() as int,
        s,
        members[j],
        members[k],
    );
    law_relinking_repeats_no_window(parent, order, groups);
}

/// With no active window between, the last active one before is the same.
proof fn lemma_same_owner(members: Seq<MemberView>, order: Seq<MemberView>, j: int, k: int)
    requires
        0 <= j <= k <= members.len(),
        forall|i: int| j <= i < k ==> !order.contains(#[trigger] members[i]),
    ensures
        last_active(members.take(k), order.to_set()) == last_active(
            members.take(j),
            order.to_set(),
        ),
    decreases k - j,
{
    if j < k {
        assert(!order.contains(members[k - 1]));
        assert(members.take(k).drop_last() =~= members.take(k - 1));
        lemma_same_owner(members, order, j, k - 1);
    }
}

proof fn lemma_holds_first(members: Seq<MemberView>, order: Seq<MemberView>, i: int)
    requires
        0 <= i < members.len(),
        order.contains(members[i]),
    ensures
        first_active(members, order.to_set()) is Some,
    decreases members.len(),
{
    if i < members.len() - 1 {
        assert(members.drop_last()[i] == members[i]);
        lemma_holds_first(members.drop_last(), order, i);
    }
}

/// A closed note before the first placed window of an absorbed group stays before those
/// behind that window, also where that window is the parent and so comes before both.
pub proof fn law_leading_notes_stay_before_trailing_ones(
    parent: MemberView,
    order: Seq<MemberView>,
    groups: Seq<GroupView>,
    g: int,
    j: int,
    f: int,
    k: int,
)
    requires
        order.no_duplicates(),
        0 <= g < groups.len(),
        0 <= j < f < k < groups[g].members.len(),
        is_first_of(groups[g].members, order, f),
        forall|i: int| f < i <= k ==> !order.contains(#[trigger] groups[g].members[i]),
    ensures
        has_in_turn(
            relinked_order(parent, order, groups, order.len() as int),
            groups[g].members[j],
            groups[g].members[k],
        ),
{
    let active = order.to_set();
    let members = groups[g].members;
    let owner = members[f];
    let leads = leading(groups, active, owner);
    let trails = trailing(groups, active, owner);
    assert(!order.contains(members[j]) && !order.contains(members[k]));
    lemma_led(groups, order, g, j, f);
    lemma_trailed(groups, order, g, f, k);
    let a = leads.index_of(members[j]);
    let b = trails.index_of(members[k]);
    let all = slot(parent, owner, groups, active);
    if owner == parent {
        assert(all[1 + a] == members[j]);
    } else {
        assert(all[a] == members[j]);
    }
    assert(all[leads.len() + 1 + b] == members[k]);
    assert(has_in_turn(all, members[j], members[k]));
    let s = order.index_of(owner);
    assert(order[s] == owner);
    lemma_relinked_in_turn(
        parent,
        order,
        groups,
        order.len() as int,
        s,
        members[j],
        members[k],
    );
}

/// A closed note before the first placed window of its group leads that window.
proof fn lemma_led(
    groups: Seq<GroupView>,
    order: Seq<MemberView>,
    g: int,
    k: int,
    f: int,
)
    requires
        0 <= g < groups.len(),
        0 <= k < f,
        is_first_of(groups[g].members, order, f),
    ensures
        leading(groups, order.to_set(), groups[g].members[f]).contains(groups[g].members[k]),
{
    let active = order.to_set();
    let members = groups[g].members;
    assert(!order.contains(members[k]));
    let before = members.take(k);
    assert forall|j: int| 0 <= j < before.len() implies !order.contains(#[trigger] before[j]) by {
        assert(before[j] == members[j]);
    }
    lemma_none_active(before, order);
    lemma_first_active(members, order, f);
    assert(is_owned_at(members, active, None, members[k], k));
    lemma_inactive_after(members, active, None);
    assert(leads_group(groups, active, members[f], members[k], g));
    lemma_leading(groups, active, members[f]);
}

/// A closed note behind a placed window of its group trails it.
proof fn lemma_trailed(
    groups: Seq<GroupView>,
    order: Seq<MemberView>,
    g: int,
    l: int,
    k: int,
)
    requires
        0 <= g < groups.len(),
        is_last_before(groups[g].members, order, l, k),
        !order.contains(groups[g].members[k]),
    ensures
        trailing(groups, order.to_set(), groups[g].members[l]).contains(groups[g].members[k]),
{
    let active = order.to_set();
    let members = groups[g].members;
    let before = members.take(k);
    assert forall|j: int| l < j < before.len() implies !order.contains(#[trigger] before[j]) by {
        assert(before[j] == members[j]);
    }
    assert(before[l] == members[l]);
    lemma_last_active(before, order, l);
    assert(is_owned_at(members, active, Some(members[l]), members[k], k));
    lemma_inactive_after(members, active, Some(members[l]));
    assert(trails_in_group(groups, active, members[l], members[k], g));
    lemma_trailing(groups, active, members[l]);
}

/// Whether window number `h` of a list is the one that the closed note number `k` goes
/// with: the last placed one before it, or, if there is none, the first placed one.
pub open spec fn goes_with(
    members: Seq<MemberView>,
    order: Seq<MemberView>,
    k: int,
    h: int,
) -> bool {
    &&& 0 <= k < members.len()
    &&& !order.contains(members[k])
    &&& is_last_before(members, order, h, k) || (is_first_of(members, order, h) && k < h)
}

/// The slot of a window stands between the slots before it and those behind it.
proof fn lemma_slot_range(
    parent: MemberView,
    order: Seq<MemberView>,
    groups: Seq<GroupView>,
    n: int,
    p: int,
    s: int,
)
    requires
        order.no_duplicates(),
        groups_are_apart(groups),
        0 <= n <= order.len(),
        0 <= s < order.len(),
        0 <= p < relinked_order(parent, order, groups, n).len(),
        slot(parent, order[s], groups, order.to_set()).contains(
            relinked_order(parent, order, groups, n)[p],
        ),
    ensures
        relinked_order(parent, order, groups, s).len() <= p,
        p < relinked_order(parent, order, groups, s + 1).len(),
    decreases n,
{
    let active = order.to_set();
    let owner = order[n - 1];
    assert(!order.take(n - 1).contains(owner)) by {
        if order.take(n - 1).contains(owner) {
            let j = order.take(n - 1).index_of(owner);
            assert(order[j] == owner);
        }
    }
    let before = relinked_order(parent, order, groups, n - 1);
    let added = slot(parent, owner, groups, active);
    assert(active.contains(owner) && active.contains(order[s]));
    if p < before.len() {
        lemma_slot_range(parent, order, groups, n - 1, p, s);
    } else {
        let c = added[p - before.len()];
        assert(added.contains(c));
        lemma_slots_are_apart(parent, owner, order[s], groups, active, c);
        assert(s == n - 1);
    }
}

proof fn lemma_longer(
    parent: MemberView,
    order: Seq<MemberView>,
    groups: Seq<GroupView>,
    a: int,
    b: int,
)
    requires
        0 <= a <= b,
    ensures
        relinked_order(parent, order, groups, a).len() <= relinked_order(
            parent,
            order,
            groups,
            b,
        ).len(),
    decreases b - a,
{
    if a < b {
        lemma_longer(parent, order, groups, a, b - 1);
    }
}

proof fn lemma_goes_with(
    parent: MemberView,
    groups: Seq<GroupView>,
    order: Seq<MemberView>,
    g: int,
    k: int,
    h: int,
)
    requires
        0 <= g < groups.len(),
        goes_with(groups[g].members, order, k, h),
    ensures
        slot(parent, groups[g].members[h], groups, order.to_set()).contains(groups[g].members[k]),
{
    lemma_slot(parent, groups[g].members[h], groups, order.to_set());
    if is_last_before(groups[g].members, order, h, k) {
        lemma_trailed(groups, order, g, h, k);
    } else {
        lemma_led(groups, order, g, k, h);
    }
}

/// Closed notes of absorbed groups come in the order of the windows that they go with.
pub proof fn law_closed_notes_follow_their_windows(
    parent: MemberView,
    order: Seq<MemberView>,
    groups: Seq<GroupView>,
    g: int,
    k: int,
    h: int,
    other: int,
    l: int,
    i: int,
    p: int,
    q: int,
)
    requires
        order.no_duplicates(),
        groups_are_apart(groups),
        0 <= g < groups.len(),
        0 <= other < groups.len(),
        goes_with(groups[g].members, order, k, h),
        goes_with(groups[other].members, order, l, i),
        has_in_turn(order, groups[g].members[h], groups[other].members[i]),
        ({
            let relinked = relinked_order(parent, order, groups, order.len() as int);
            &&& 0 <= p < relinked.len()
            &&& 0 <= q < relinked.len()
            &&& relinked[p] == groups[g].members[k]
            &&& relinked[q] == groups[other].members[l]
        }),
    ensures
        p < q,
{
    let n = order.len() as int;
    let (s, t) = choose|s: int, t: int|
        0 <= s < t < order.len() && #[trigger] order[s] == groups[g].members[h]
            && #[trigger] order[t] == groups[other].members[i];
    lemma_goes_with(parent, groups, order, g, k, h);
    lemma_goes_with(parent, groups, order, other, l, i);
    lemma_slot_range(parent, order, groups, n, p, s);
    lemma_slot_range(parent, order, groups, n, q, t);
    lemma_longer(parent, order, groups, s + 1, t);
}

} // verus!
