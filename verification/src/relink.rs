//! The order of a group that is linked anew out of groups with closed notes.
//!
//! Closed notes keep their slots: a closed note follows the active window that
//! it followed in its old group, or, where it had none above it, stands at the
//! first active window of its old group.
use vstd::prelude::*;

use crate::member::{MemberView, StoredGroupMember};
use crate::member_set::MemberSet;
use crate::store::{GroupView, StoredGroup};
use crate::views::{group_views, views};

verus! {

/// The first active window of a list.
pub open spec fn first_active(members: Seq<MemberView>, active: Set<MemberView>) -> Option<
    MemberView,
>
    decreases members.len(),
{
    if members.len() == 0 {
        None
    } else {
        match first_active(members.drop_last(), active) {
            Some(member) => Some(member),
            None => if active.contains(members.last()) {
                Some(members.last())
            } else {
                None
            },
        }
    }
}

/// The last active window of a list.
pub open spec fn last_active(members: Seq<MemberView>, active: Set<MemberView>) -> Option<
    MemberView,
>
    decreases members.len(),
{
    if members.len() == 0 {
        None
    } else if active.contains(members.last()) {
        Some(members.last())
    } else {
        last_active(members.drop_last(), active)
    }
}

/// The inactive windows of a list that come after `owner`, or before any active
/// window if `owner` is `None`, with no other active window between.
pub open spec fn inactive_after(
    members: Seq<MemberView>,
    active: Set<MemberView>,
    owner: Option<MemberView>,
) -> Seq<MemberView>
    decreases members.len(),
{
    if members.len() == 0 {
        Seq::empty()
    } else {
        let rest = inactive_after(members.drop_last(), active, owner);
        if !active.contains(members.last()) && last_active(members.drop_last(), active) == owner {
            rest.push(members.last())
        } else {
            rest
        }
    }
}

/// The inactive windows that lead the groups whose first active window is `owner`.
pub open spec fn leading(groups: Seq<GroupView>, active: Set<MemberView>, owner: MemberView) -> Seq<
    MemberView,
>
    decreases groups.len(),
{
    if groups.len() == 0 {
        Seq::empty()
    } else {
        leading(groups.drop_last(), active, owner) + if first_active(
            groups.last().members,
            active,
        ) == Some(owner) {
            inactive_after(groups.last().members, active, None)
        } else {
            Seq::empty()
        }
    }
}

/// The inactive windows that trail `owner` in any of the groups.
pub open spec fn trailing(
    groups: Seq<GroupView>,
    active: Set<MemberView>,
    owner: MemberView,
) -> Seq<MemberView>
    decreases groups.len(),
{
    if groups.len() == 0 {
        Seq::empty()
    } else {
        trailing(groups.drop_last(), active, owner) + inactive_after(
            groups.last().members,
            active,
            Some(owner),
        )
    }
}

/// An active window with the inactive windows that belong to it: those that
/// lead its group before it, or behind it if it is the parent, then those that
/// trail it.
pub open spec fn slot(
    parent: MemberView,
    owner: MemberView,
    groups: Seq<GroupView>,
    active: Set<MemberView>,
) -> Seq<MemberView> {
    if owner == parent {
        seq![owner] + leading(groups, active, owner) + trailing(groups, active, owner)
    } else {
        leading(groups, active, owner) + seq![owner] + trailing(groups, active, owner)
    }
}

/// The slots of the first `n` active windows. A window that is listed again
/// has nothing left to bring along.
pub open spec fn relinked_order(
    parent: MemberView,
    active_order: Seq<MemberView>,
    groups: Seq<GroupView>,
    n: int,
) -> Seq<MemberView>
    decreases n,
{
    if n <= 0 {
        Seq::empty()
    } else {
        let owner = active_order[n - 1];
        relinked_order(parent, active_order, groups, n - 1) + if active_order.take(
            n - 1,
        ).contains(owner) {
            seq![owner]
        } else {
            slot(parent, owner, groups, active_order.to_set())
        }
    }
}

/// The inactive windows of a group that come after `owner`, or before any
/// active window if `owner` is `None`.
fn collect_inactive(
    group: &StoredGroup,
    active: &MemberSet,
    owner: Option<&StoredGroupMember>,
) -> (collected: Vec<StoredGroupMember>)
    ensures
        views(collected@) == inactive_after(
            group@.members,
            active@,
            match owner {
                Some(owner) => Some(owner@),
                None => None,
            },
        ),
{
    broadcast use group_views;

    let ghost all = group@.members;
    let ghost wanted = match owner {
        Some(owner) => Some(owner@),
        None => None,
    };
    let mut collected: Vec<StoredGroupMember> = Vec::new();
    let mut owned: bool = owner.is_none();
    let mut i: usize = 0;
    proof {
        assert(all.take(0) =~= Seq::empty());
    }
    while i < group.members.len()
        invariant
            all == group@.members,
            wanted == match owner {
                Some(owner) => Some(owner@),
                None => None::<MemberView>,
            },
            i <= group.members@.len(),
            owned == (last_active(all.take(i as int), active@) == wanted),
            views(collected@) == inactive_after(all.take(i as int), active@, wanted),
        decreases group.members.len() - i,
    {
        proof {
            assert(all.take(i + 1).drop_last() =~= all.take(i as int));
            assert(all.take(i + 1).last() == all[i as int]);
        }
        if active.contains(&group.members[i]) {
            owned = match owner {
                Some(owner) => owner.same_window(&group.members[i]),
                None => false,
            };
        } else if owned {
            collected.push(group.members[i].clone());
        }
        i += 1;
    }
    proof {
        assert(all.take(group.members@.len() as int) =~= all);
    }
    collected
}

/// Whether the first active window of a group is `owner`.
fn is_first_active(group: &StoredGroup, active: &MemberSet, owner: &StoredGroupMember) -> (first:
    bool)
    ensures
        first == (first_active(group@.members, active@) == Some(owner@)),
{
    let ghost all = group@.members;
    let mut i: usize = 0;
    proof {
        assert(all.take(0) =~= Seq::empty());
    }
    while i < group.members.len()
        invariant
            all == group@.members,
            i <= group.members@.len(),
            first_active(all.take(i as int), active@) is None,
        decreases group.members.len() - i,
    {
        proof {
            assert(all.take(i + 1).drop_last() =~= all.take(i as int));
            assert(all.take(i + 1).last() == all[i as int]);
        }
        if active.contains(&group.members[i]) {
            proof {
                lemma_first_active_stays(all, active@, i + 1);
            }
            return owner.same_window(&group.members[i]);
        }
        i += 1;
    }
    proof {
        assert(all.take(group.members@.len() as int) =~= all);
    }
    false
}

proof fn lemma_first_active_stays(members: Seq<MemberView>, active: Set<MemberView>, n: int)
    requires
        0 <= n <= members.len(),
        first_active(members.take(n), active) is Some,
    ensures
        first_active(members, active) == first_active(members.take(n), active),
    decreases members.len(),
{
    if n == members.len() {
        assert(members.take(n) =~= members);
    } else {
        assert(members.drop_last().take(n) =~= members.take(n));
        lemma_first_active_stays(members.drop_last(), active, n);
    }
}

/// The inactive windows that lead the groups whose first active window is `owner`.
fn collect_leading(
    groups: &Vec<StoredGroup>,
    active: &MemberSet,
    owner: &StoredGroupMember,
) -> (collected: Vec<StoredGroupMember>)
    ensures
        views(collected@) == leading(views(groups@), active@, owner@),
{
    broadcast use group_views;

    let mut collected: Vec<StoredGroupMember> = Vec::new();
    let mut i: usize = 0;
    proof {
        assert(views(groups@).take(0) =~= Seq::empty());
    }
    while i < groups.len()
        invariant
            i <= groups@.len(),
            views(collected@) == leading(views(groups@).take(i as int), active@, owner@),
        decreases groups.len() - i,
    {
        proof {
            assert(views(groups@).take(i + 1).drop_last() =~= views(groups@).take(i as int));
            assert(views(groups@).take(i + 1).last() == groups@[i as int]@);
            assert(views(collected@) + Seq::<MemberView>::empty() =~= views(collected@));
        }
        if is_first_active(&groups[i], active, owner) {
            let mut led = collect_inactive(&groups[i], active, None);
            collected.append(&mut led);
        }
        i += 1;
    }
    proof {
        assert(views(groups@).take(groups@.len() as int) =~= views(groups@));
    }
    collected
}

/// The inactive windows that trail `owner` in any of the groups.
fn collect_trailing(
    groups: &Vec<StoredGroup>,
    active: &MemberSet,
    owner: &StoredGroupMember,
) -> (collected: Vec<StoredGroupMember>)
    ensures
        views(collected@) == trailing(views(groups@), active@, owner@),
{
    broadcast use group_views;

    let mut collected: Vec<StoredGroupMember> = Vec::new();
    let mut i: usize = 0;
    proof {
        assert(views(groups@).take(0) =~= Seq::empty());
    }
    while i < groups.len()
        invariant
            i <= groups@.len(),
            views(collected@) == trailing(views(groups@).take(i as int), active@, owner@),
        decreases groups.len() - i,
    {
        proof {
            assert(views(groups@).take(i + 1).drop_last() =~= views(groups@).take(i as int));
            assert(views(groups@).take(i + 1).last() == groups@[i as int]@);
        }
        let mut trailed = collect_inactive(&groups[i], active, Some(owner));
        collected.append(&mut trailed);
        i += 1;
    }
    proof {
        assert(views(groups@).take(groups@.len() as int) =~= views(groups@));
    }
    collected
}

/// Whether one of the first `n` windows of a list is the given one.
fn listed_before(members: &Vec<StoredGroupMember>, n: usize, member: &StoredGroupMember) -> (listed:
    bool)
    requires
        n <= members@.len(),
    ensures
        listed == views(members@).take(n as int).contains(member@),
{
    let mut i: usize = 0;
    while i < n
        invariant
            i <= n <= members@.len(),
            forall|j: int| 0 <= j < i ==> #[trigger] members@[j]@ != member@,
        decreases n - i,
    {
        if members[i].same_window(member) {
            proof {
                assert(views(members@).take(n as int)[i as int] == member@);
            }
            return true;
        }
        i += 1;
    }
    proof {
        if views(members@).take(n as int).contains(member@) {
            let j = views(members@).take(n as int).index_of(member@);
            assert(members@[j]@ == member@);
        }
    }
    false
}

/// The order of a group that links the given active windows below `parent` and
/// absorbs the given groups, closed notes included.
pub fn durable_relink_order(
    parent: &StoredGroupMember,
    active_order: &Vec<StoredGroupMember>,
    absorbed_groups: &Vec<StoredGroup>,
) -> (order: Vec<StoredGroupMember>)
    ensures
        views(order@) == relinked_order(
            parent@,
            views(active_order@),
            views(absorbed_groups@),
            active_order@.len() as int,
        ),
{
    broadcast use group_views;

    let active = MemberSet::from_members(active_order);
    let mut order: Vec<StoredGroupMember> = Vec::new();
    let mut i: usize = 0;
    while i < active_order.len()
        invariant
            active@ == views(active_order@).to_set(),
            i <= active_order@.len(),
            views(order@) == relinked_order(
                parent@,
                views(active_order@),
                views(absorbed_groups@),
                i as int,
            ),
        decreases active_order.len() - i,
    {
        let owner = &active_order[i];
        let ghost before = views(order@);
        if listed_before(active_order, i, owner) {
            order.push(owner.clone());
            proof {
                assert(views(order@) =~= before + seq![owner@]);
            }
        } else {
            let mut led = collect_leading(absorbed_groups, &active, owner);
            let mut trailed = collect_trailing(absorbed_groups, &active, owner);
            let ghost leads = views(led@);
            let ghost trails = views(trailed@);
            if owner.same_window(parent) {
                order.push(owner.clone());
                order.append(&mut led);
            } else {
                order.append(&mut led);
                order.push(owner.clone());
            }
            order.append(&mut trailed);
            proof {
                assert(views(order@) =~= before + slot(
                    parent@,
                    owner@,
                    views(absorbed_groups@),
                    active@,
                ));
            }
        }
        i += 1;
    }
    order
}

/// Whether each group of a list has each of its windows once and shares none
/// with another group of the list.
pub open spec fn groups_are_apart(groups: Seq<GroupView>) -> bool {
    &&& forall|g: int| 0 <= g < groups.len() ==> (#[trigger] groups[g]).members.no_duplicates()
    &&& forall|g: int, h: int, m: MemberView|
        #![trigger groups[g].members.contains(m), groups[h].members.contains(m)]
        0 <= g < groups.len() && 0 <= h < groups.len() && groups[g].members.contains(m)
            && groups[h].members.contains(m) ==> g == h
}

/// Whether `m` is window number `i` of a list, inactive, and `owner` the last
/// active window before it.
pub open spec fn is_owned_at(
    members: Seq<MemberView>,
    active: Set<MemberView>,
    owner: Option<MemberView>,
    m: MemberView,
    i: int,
) -> bool {
    &&& 0 <= i < members.len()
    &&& members[i] == m
    &&& !active.contains(m)
    &&& last_active(members.take(i), active) == owner
}

/// What `inactive_after` lists.
pub proof fn lemma_inactive_after(
    members: Seq<MemberView>,
    active: Set<MemberView>,
    owner: Option<MemberView>,
)
    ensures
        forall|m: MemberView| #[trigger]
            inactive_after(members, active, owner).contains(m) <==> exists|i: int|
                is_owned_at(members, active, owner, m, i),
        members.no_duplicates() ==> inactive_after(members, active, owner).no_duplicates(),
    decreases members.len(),
{
    if members.len() > 0 {
        let shorter = members.drop_last();
        let last = members.last();
        lemma_inactive_after(shorter, active, owner);
        let rest = inactive_after(shorter, active, owner);
        let all = inactive_after(members, active, owner);
        let taken = !active.contains(last) && last_active(shorter, active) == owner;
        assert(members.take(members.len() - 1) =~= shorter);
        assert forall|i: int| 0 <= i < shorter.len() implies #[trigger] members.take(i)
            == shorter.take(i) by {
            assert(members.take(i) =~= shorter.take(i));
        }
        assert forall|m: MemberView| #[trigger] all.contains(m) <==> exists|i: int|
            is_owned_at(members, active, owner, m, i) by {
            if all.contains(m) {
                let k = all.index_of(m);
                if k < rest.len() {
                    assert(rest[k] == m);
                    assert(rest.contains(m));
                    let i = choose|i: int| is_owned_at(shorter, active, owner, m, i);
                    assert(members.take(i) == shorter.take(i));
                    assert(is_owned_at(members, active, owner, m, i));
                } else {
                    assert(is_owned_at(members, active, owner, m, members.len() - 1));
                }
            }
            if exists|i: int| is_owned_at(members, active, owner, m, i) {
                let i = choose|i: int| is_owned_at(members, active, owner, m, i);
                if i < shorter.len() {
                    assert(members.take(i) == shorter.take(i));
                    assert(is_owned_at(shorter, active, owner, m, i));
                    assert(rest.contains(m));
                    let k = rest.index_of(m);
                    assert(all[k] == m);
                } else {
                    assert(all[rest.len() as int] == m);
                }
            }
        }
        if members.no_duplicates() {
            assert(shorter.no_duplicates());
            if taken {
                assert(!rest.contains(last)) by {
                    if rest.contains(last) {
                        let i = choose|i: int| is_owned_at(shorter, active, owner, last, i);
                        assert(members[i] == last);
                    }
                }
                assert forall|i: int, j: int|
                    0 <= i < all.len() && 0 <= j < all.len() && i != j implies all[i]
                    != all[j] by {
                    if i == rest.len() {
                        assert(rest.contains(rest[j]));
                    } else if j == rest.len() {
                        assert(rest.contains(rest[i]));
                    }
                }
            }
        }
    } else {
        assert forall|m: MemberView| #[trigger] inactive_after(
            members,
            active,
            owner,
        ).contains(m) <==> exists|i: int| is_owned_at(members, active, owner, m, i) by {}
    }
}

/// Whether `m` leads group `g`, whose first active window is `owner`.
pub open spec fn leads_group(
    groups: Seq<GroupView>,
    active: Set<MemberView>,
    owner: MemberView,
    m: MemberView,
    g: int,
) -> bool {
    &&& 0 <= g < groups.len()
    &&& first_active(groups[g].members, active) == Some(owner)
    &&& inactive_after(groups[g].members, active, None).contains(m)
}

/// Whether `m` trails `owner` in group `g`.
pub open spec fn trails_in_group(
    groups: Seq<GroupView>,
    active: Set<MemberView>,
    owner: MemberView,
    m: MemberView,
    g: int,
) -> bool {
    &&& 0 <= g < groups.len()
    &&& inactive_after(groups[g].members, active, Some(owner)).contains(m)
}

proof fn lemma_contains_in_sum(a: Seq<MemberView>, b: Seq<MemberView>, m: MemberView)
    ensures
        (a + b).contains(m) <==> a.contains(m) || b.contains(m),
{
    if a.contains(m) {
        let i = a.index_of(m);
        assert((a + b)[i] == m);
    }
    if b.contains(m) {
        let i = b.index_of(m);
        assert((a + b)[a.len() + i] == m);
    }
    if (a + b).contains(m) {
        let i = (a + b).index_of(m);
        if i < a.len() {
            assert(a[i] == m);
        } else {
            assert(b[i - a.len()] == m);
        }
    }
}

/// What `leading` lists.
pub proof fn lemma_leading(groups: Seq<GroupView>, active: Set<MemberView>, owner: MemberView)
    ensures
        forall|m: MemberView| #[trigger]
            leading(groups, active, owner).contains(m) <==> exists|g: int|
                leads_group(groups, active, owner, m, g),
        groups_are_apart(groups) ==> leading(groups, active, owner).no_duplicates(),
    decreases groups.len(),
{
    if groups.len() > 0 {
        let shorter = groups.drop_last();
        let last = groups.last();
        lemma_leading(shorter, active, owner);
        lemma_inactive_after(last.members, active, None);
        let rest = leading(shorter, active, owner);
        let added = if first_active(last.members, active) == Some(owner) {
            inactive_after(last.members, active, None)
        } else {
            Seq::empty()
        };
        let all = leading(groups, active, owner);
        assert(all == rest + added);
        assert forall|m: MemberView| #[trigger] all.contains(m) <==> exists|g: int|
            leads_group(groups, active, owner, m, g) by {
            lemma_contains_in_sum(rest, added, m);
            if rest.contains(m) {
                let g = choose|g: int| leads_group(shorter, active, owner, m, g);
                assert(leads_group(groups, active, owner, m, g));
            }
            if added.contains(m) {
                assert(leads_group(groups, active, owner, m, groups.len() - 1));
            }
            if exists|g: int| leads_group(groups, active, owner, m, g) {
                let g = choose|g: int| leads_group(groups, active, owner, m, g);
                if g < shorter.len() {
                    assert(leads_group(shorter, active, owner, m, g));
                }
            }
        }
        if groups_are_apart(groups) {
            lemma_shorter_apart(groups);
            assert(added.no_duplicates());
            assert forall|i: int, j: int| 0 <= i < rest.len() && 0 <= j < added.len() implies rest[i]
                != added[j] by {
                let m = rest[i];
                assert(rest.contains(m));
                let g = choose|g: int| leads_group(shorter, active, owner, m, g);
                lemma_inactive_is_member(groups[g].members, active, None, m);
                if added[j] == m {
                    assert(added.contains(m));
                    lemma_inactive_is_member(last.members, active, None, m);
                    assert(groups[g].members.contains(m) && groups[groups.len()
                        - 1].members.contains(m));
                }
            }
            vstd::seq_lib::lemma_no_dup_in_concat(rest, added);
        }
    } else {
        assert forall|m: MemberView| #[trigger] leading(groups, active, owner).contains(
            m,
        ) <==> exists|g: int| leads_group(groups, active, owner, m, g) by {}
    }
}

/// What `trailing` lists.
pub proof fn lemma_trailing(groups: Seq<GroupView>, active: Set<MemberView>, owner: MemberView)
    ensures
        forall|m: MemberView| #[trigger]
            trailing(groups, active, owner).contains(m) <==> exists|g: int|
                trails_in_group(groups, active, owner, m, g),
        groups_are_apart(groups) ==> trailing(groups, active, owner).no_duplicates(),
    decreases groups.len(),
{
    if groups.len() > 0 {
        let shorter = groups.drop_last();
        let last = groups.last();
        lemma_trailing(shorter, active, owner);
        lemma_inactive_after(last.members, active, Some(owner));
        let rest = trailing(shorter, active, owner);
        let added = inactive_after(last.members, active, Some(owner));
        let all = trailing(groups, active, owner);
        assert(all == rest + added);
        assert forall|m: MemberView| #[trigger] all.contains(m) <==> exists|g: int|
            trails_in_group(groups, active, owner, m, g) by {
            lemma_contains_in_sum(rest, added, m);
            if rest.contains(m) {
                let g = choose|g: int| trails_in_group(shorter, active, owner, m, g);
                assert(trails_in_group(groups, active, owner, m, g));
            }
            if added.contains(m) {
                assert(trails_in_group(groups, active, owner, m, groups.len() - 1));
            }
            if exists|g: int| trails_in_group(groups, active, owner, m, g) {
                let g = choose|g: int| trails_in_group(groups, active, owner, m, g);
                if g < shorter.len() {
                    assert(trails_in_group(shorter, active, owner, m, g));
                }
            }
        }
        if groups_are_apart(groups) {
            lemma_shorter_apart(groups);
            assert forall|i: int, j: int| 0 <= i < rest.len() && 0 <= j < added.len() implies rest[i]
                != added[j] by {
                let m = rest[i];
                assert(rest.contains(m));
                let g = choose|g: int| trails_in_group(shorter, active, owner, m, g);
                lemma_inactive_is_member(groups[g].members, active, Some(owner), m);
                if added[j] == m {
                    assert(added.contains(m));
                    lemma_inactive_is_member(last.members, active, Some(owner), m);
                    assert(groups[g].members.contains(m) && groups[groups.len()
                        - 1].members.contains(m));
                }
            }
            vstd::seq_lib::lemma_no_dup_in_concat(rest, added);
        }
    } else {
        assert forall|m: MemberView| #[trigger] trailing(groups, active, owner).contains(
            m,
        ) <==> exists|g: int| trails_in_group(groups, active, owner, m, g) by {}
    }
}

proof fn lemma_shorter_apart(groups: Seq<GroupView>)
    requires
        groups.len() > 0,
        groups_are_apart(groups),
    ensures
        groups_are_apart(groups.drop_last()),
        groups.last().members.no_duplicates(),
{
    let shorter = groups.drop_last();
    assert forall|g: int, h: int, m: MemberView|
        #![trigger shorter[g].members.contains(m), shorter[h].members.contains(m)]
        0 <= g < shorter.len() && 0 <= h < shorter.len() && shorter[g].members.contains(m)
            && shorter[h].members.contains(m) implies g == h by {
        assert(groups[g].members.contains(m) && groups[h].members.contains(m));
    }
    assert forall|g: int| 0 <= g < shorter.len() implies (
    #[trigger] shorter[g]).members.no_duplicates() by {
        assert(groups[g].members.no_duplicates());
    }
    assert(groups[groups.len() - 1].members.no_duplicates());
}

/// What `inactive_after` lists is listed and inactive.
pub proof fn lemma_inactive_is_member(
    members: Seq<MemberView>,
    active: Set<MemberView>,
    owner: Option<MemberView>,
    m: MemberView,
)
    requires
        inactive_after(members, active, owner).contains(m),
    ensures
        members.contains(m),
        !active.contains(m),
{
    lemma_inactive_after(members, active, owner);
    let i = choose|i: int| is_owned_at(members, active, owner, m, i);
    assert(members[i] == m);
}

/// An inactive window of a list without repetitions has one owner.
pub proof fn lemma_one_owner(
    members: Seq<MemberView>,
    active: Set<MemberView>,
    a: Option<MemberView>,
    b: Option<MemberView>,
    m: MemberView,
)
    requires
        members.no_duplicates(),
        inactive_after(members, active, a).contains(m),
        inactive_after(members, active, b).contains(m),
    ensures
        a == b,
{
    lemma_inactive_after(members, active, a);
    lemma_inactive_after(members, active, b);
    let i = choose|i: int| is_owned_at(members, active, a, m, i);
    let j = choose|j: int| is_owned_at(members, active, b, m, j);
    assert(members[i] == members[j]);
}

/// What a slot holds.
pub proof fn lemma_slot(
    parent: MemberView,
    owner: MemberView,
    groups: Seq<GroupView>,
    active: Set<MemberView>,
)
    ensures
        forall|m: MemberView| #[trigger]
            slot(parent, owner, groups, active).contains(m) <==> m == owner || leading(
                groups,
                active,
                owner,
            ).contains(m) || trailing(groups, active, owner).contains(m),
{
    let leads = leading(groups, active, owner);
    let trails = trailing(groups, active, owner);
    assert forall|m: MemberView| #[trigger] slot(parent, owner, groups, active).contains(m) <==> m
        == owner || leads.contains(m) || trails.contains(m) by {
        lemma_contains_in_sum(seq![owner], leads, m);
        lemma_contains_in_sum(leads, seq![owner], m);
        lemma_contains_in_sum(seq![owner] + leads, trails, m);
        lemma_contains_in_sum(leads + seq![owner], trails, m);
        assert(seq![owner].contains(m) <==> m == owner) by {
            assert(seq![owner][0] == owner);
        }
    }
}

/// An inactive window of a slot is in one of the groups, and inactive.
pub proof fn lemma_brought_along(
    groups: Seq<GroupView>,
    active: Set<MemberView>,
    owner: MemberView,
    m: MemberView,
) -> (g: int)
    requires
        leading(groups, active, owner).contains(m) || trailing(groups, active, owner).contains(m),
    ensures
        !active.contains(m),
        0 <= g < groups.len(),
        groups[g].members.contains(m),
        leading(groups, active, owner).contains(m) && !trailing(groups, active, owner).contains(m)
            ==> leads_group(groups, active, owner, m, g),
        trailing(groups, active, owner).contains(m) ==> trails_in_group(
            groups,
            active,
            owner,
            m,
            g,
        ),
{
    lemma_leading(groups, active, owner);
    lemma_trailing(groups, active, owner);
    if trailing(groups, active, owner).contains(m) {
        let g = choose|g: int| trails_in_group(groups, active, owner, m, g);
        lemma_inactive_is_member(groups[g].members, active, Some(owner), m);
        g
    } else {
        let g = choose|g: int| leads_group(groups, active, owner, m, g);
        lemma_inactive_is_member(groups[g].members, active, None, m);
        g
    }
}

/// A slot holds no window twice.
pub proof fn lemma_slot_has_no_duplicates(
    parent: MemberView,
    owner: MemberView,
    groups: Seq<GroupView>,
    active: Set<MemberView>,
)
    requires
        groups_are_apart(groups),
        active.contains(owner),
    ensures
        slot(parent, owner, groups, active).no_duplicates(),
{
    lemma_leading(groups, active, owner);
    lemma_trailing(groups, active, owner);
    let leads = leading(groups, active, owner);
    let trails = trailing(groups, active, owner);
    assert forall|m: MemberView| leads.contains(m) implies m != owner && !trails.contains(m) by {
        let g = lemma_brought_along(groups, active, owner, m);
        if trails.contains(m) {
            let h = choose|h: int| leads_group(groups, active, owner, m, h);
            lemma_inactive_is_member(groups[h].members, active, None, m);
            assert(groups[g].members.contains(m) && groups[h].members.contains(m));
            assert(groups[g].members.no_duplicates());
            lemma_one_owner(groups[g].members, active, None, Some(owner), m);
        }
    }
    assert forall|m: MemberView| trails.contains(m) implies m != owner by {
        let g = lemma_brought_along(groups, active, owner, m);
    }
    let head = seq![owner];
    assert(head.no_duplicates());
    assert forall|i: int, j: int| 0 <= i < head.len() && 0 <= j < leads.len() implies head[i]
        != leads[j] by {
        assert(leads.contains(leads[j]));
    }
    assert forall|i: int, j: int| 0 <= i < leads.len() && 0 <= j < head.len() implies leads[i]
        != head[j] by {
        assert(leads.contains(leads[i]));
    }
    vstd::seq_lib::lemma_no_dup_in_concat(head, leads);
    vstd::seq_lib::lemma_no_dup_in_concat(leads, head);
    let first = if owner == parent {
        head + leads
    } else {
        leads + head
    };
    assert forall|i: int, j: int| 0 <= i < first.len() && 0 <= j < trails.len() implies first[i]
        != trails[j] by {
        let m = first[i];
        lemma_contains_in_sum(head, leads, m);
        lemma_contains_in_sum(leads, head, m);
        assert(first.contains(m));
        assert(head.contains(m) ==> m == owner);
        assert(trails.contains(trails[j]));
    }
    vstd::seq_lib::lemma_no_dup_in_concat(first, trails);
}

/// Slots of different windows share nothing.
pub proof fn lemma_slots_are_apart(
    parent: MemberView,
    a: MemberView,
    b: MemberView,
    groups: Seq<GroupView>,
    active: Set<MemberView>,
    m: MemberView,
)
    requires
        groups_are_apart(groups),
        active.contains(a),
        active.contains(b),
        slot(parent, a, groups, active).contains(m),
        slot(parent, b, groups, active).contains(m),
    ensures
        a == b,
{
    lemma_slot(parent, a, groups, active);
    lemma_slot(parent, b, groups, active);
    if m == a {
        if m != b {
            let g = lemma_brought_along(groups, active, b, m);
        }
    } else if m == b {
        let g = lemma_brought_along(groups, active, a, m);
    } else {
        let g = lemma_brought_along(groups, active, a, m);
        let h = lemma_brought_along(groups, active, b, m);
        assert(groups[g].members.contains(m) && groups[h].members.contains(m));
        assert(groups[g].members.no_duplicates());
        let a_owner = if trailing(groups, active, a).contains(m) {
            Some(a)
        } else {
            None
        };
        let b_owner = if trailing(groups, active, b).contains(m) {
            Some(b)
        } else {
            None
        };
        lemma_one_owner(groups[g].members, active, a_owner, b_owner, m);
    }
}

/// Every window of a relinked order is in the slot of one of its active windows.
proof fn lemma_in_some_slot(
    parent: MemberView,
    active_order: Seq<MemberView>,
    groups: Seq<GroupView>,
    n: int,
    m: MemberView,
)
    requires
        active_order.no_duplicates(),
        0 <= n <= active_order.len(),
    ensures
        relinked_order(parent, active_order, groups, n).contains(m) <==> exists|i: int|
            0 <= i < n && slot(
                parent,
                #[trigger] active_order[i],
                groups,
                active_order.to_set(),
            ).contains(m),
    decreases n,
{
    if n > 0 {
        lemma_in_some_slot(parent, active_order, groups, n - 1, m);
        let owner = active_order[n - 1];
        assert(!active_order.take(n - 1).contains(owner)) by {
            if active_order.take(n - 1).contains(owner) {
                let i = active_order.take(n - 1).index_of(owner);
                assert(active_order[i] == owner);
            }
        }
        let before = relinked_order(parent, active_order, groups, n - 1);
        let added = slot(parent, owner, groups, active_order.to_set());
        lemma_contains_in_sum(before, added, m);
        if before.contains(m) {
            let i = choose|i: int|
                0 <= i < n - 1 && slot(
                    parent,
                    #[trigger] active_order[i],
                    groups,
                    active_order.to_set(),
                ).contains(m);
            assert(slot(parent, active_order[i], groups, active_order.to_set()).contains(m));
        }
        if added.contains(m) {
            assert(slot(parent, active_order[n - 1], groups, active_order.to_set()).contains(m));
        }
    }
}

/// A relinked order holds the active windows in the order in which they were
/// given, whatever closed notes it holds besides.
pub proof fn law_relinking_keeps_the_active_order(
    parent: MemberView,
    active_order: Seq<MemberView>,
    groups: Seq<GroupView>,
)
    ensures
        relinked_order(parent, active_order, groups, active_order.len() as int).filter(
            |m: MemberView| active_order.contains(m),
        ) == active_order,
{
    let keep = |m: MemberView| active_order.contains(m);
    lemma_active_prefix(parent, active_order, groups, active_order.len() as int, keep);
    assert(active_order.take(active_order.len() as int) =~= active_order);
}

proof fn lemma_active_prefix(
    parent: MemberView,
    active_order: Seq<MemberView>,
    groups: Seq<GroupView>,
    n: int,
    keep: spec_fn(MemberView) -> bool,
)
    requires
        0 <= n <= active_order.len(),
        forall|m: MemberView| #[trigger] keep(m) <==> active_order.contains(m),
    ensures
        relinked_order(parent, active_order, groups, n).filter(keep) == active_order.take(n),
    decreases n,
{
    if n <= 0 {
        lemma_filter_none(Seq::empty(), keep);
        assert(active_order.take(0) =~= Seq::empty());
    } else {
        lemma_active_prefix(parent, active_order, groups, n - 1, keep);
        let active = active_order.to_set();
        let owner = active_order[n - 1];
        assert(keep(owner));
        let before = relinked_order(parent, active_order, groups, n - 1);
        let leads = leading(groups, active, owner);
        let trails = trailing(groups, active, owner);
        let head = seq![owner];
        lemma_nothing_kept(leads, keep, groups, active, owner);
        lemma_nothing_kept(trails, keep, groups, active, owner);
        lemma_filter_one(owner, keep);
        let added = if active_order.take(n - 1).contains(owner) {
            head
        } else {
            slot(parent, owner, groups, active)
        };
        lemma_filter_slot(head, leads, trails, keep);
        lemma_filter_slot(leads, head, trails, keep);
        assert(added.filter(keep) == head);
        Seq::filter_distributes_over_add(before, added, keep);
        assert(active_order.take(n - 1) + head =~= active_order.take(n));
    }
}

proof fn lemma_filter_one(m: MemberView, keep: spec_fn(MemberView) -> bool)
    requires
        keep(m),
    ensures
        seq![m].filter(keep) == seq![m],
{
    reveal(Seq::filter);
    assert(seq![m].drop_last() =~= Seq::empty());
    assert(Seq::<MemberView>::empty().filter(keep) =~= Seq::empty());
    assert(Seq::<MemberView>::empty().push(m) =~= seq![m]);
}

/// Of three lists of which the third and one of the others are filtered out,
/// the remaining one is left.
proof fn lemma_filter_slot(
    a: Seq<MemberView>,
    b: Seq<MemberView>,
    c: Seq<MemberView>,
    keep: spec_fn(MemberView) -> bool,
)
    requires
        c.filter(keep) == Seq::<MemberView>::empty(),
        a.filter(keep) == Seq::<MemberView>::empty() || b.filter(keep) == Seq::<
            MemberView,
        >::empty(),
    ensures
        (a + b + c).filter(keep) == (if b.filter(keep).len() == 0 {
            a.filter(keep)
        } else {
            b.filter(keep)
        }),
{
    Seq::filter_distributes_over_add(a, b, keep);
    Seq::filter_distributes_over_add(a + b, c, keep);
    assert(a.filter(keep) + b.filter(keep) + c.filter(keep) =~= (if b.filter(keep).len() == 0 {
        a.filter(keep)
    } else {
        b.filter(keep)
    }));
}

/// No window that an active window brings along is kept by a test for activity.
proof fn lemma_nothing_kept(
    brought: Seq<MemberView>,
    keep: spec_fn(MemberView) -> bool,
    groups: Seq<GroupView>,
    active: Set<MemberView>,
    owner: MemberView,
)
    requires
        forall|m: MemberView| #[trigger] keep(m) <==> active.contains(m),
        brought == leading(groups, active, owner) || brought == trailing(groups, active, owner),
    ensures
        brought.filter(keep) == Seq::<MemberView>::empty(),
{
    assert forall|i: int| 0 <= i < brought.len() implies !keep(#[trigger] brought[i]) by {
        assert(brought.contains(brought[i]));
        let g = lemma_brought_along(groups, active, owner, brought[i]);
    }
    lemma_filter_none(brought, keep);
}

proof fn lemma_filter_none(s: Seq<MemberView>, keep: spec_fn(MemberView) -> bool)
    requires
        forall|i: int| 0 <= i < s.len() ==> !keep(#[trigger] s[i]),
    ensures
        s.filter(keep) == Seq::<MemberView>::empty(),
    decreases s.len(),
{
    reveal(Seq::filter);
    if s.len() > 0 {
        lemma_filter_none(s.drop_last(), keep);
        assert(!keep(s[s.len() - 1]));
    } else {
        assert(s.filter(keep) =~= Seq::empty());
    }
}

/// A relinked order holds exactly the active windows and the windows of the
/// absorbed groups that have an active one: no closed note is lost, and none
/// is added.
pub proof fn law_relinking_loses_no_window(
    parent: MemberView,
    active_order: Seq<MemberView>,
    groups: Seq<GroupView>,
    m: MemberView,
)
    requires
        active_order.no_duplicates(),
    ensures
        relinked_order(parent, active_order, groups, active_order.len() as int).contains(m) <==> {
            ||| active_order.contains(m)
            ||| exists|g: int|
                0 <= g < groups.len() && (#[trigger] groups[g]).members.contains(m)
                    && first_active(groups[g].members, active_order.to_set()) is Some
        },
{
    let active = active_order.to_set();
    let n = active_order.len() as int;
    lemma_in_some_slot(parent, active_order, groups, n, m);
    let order = relinked_order(parent, active_order, groups, n);
    if order.contains(m) {
        let i = choose|i: int|
            0 <= i < n && slot(parent, #[trigger] active_order[i], groups, active).contains(m);
        lemma_slot(parent, active_order[i], groups, active);
        if m != active_order[i] {
            let g = lemma_brought_along(groups, active, active_order[i], m);
            if trailing(groups, active, active_order[i]).contains(m) {
                lemma_inactive_after(groups[g].members, active, Some(active_order[i]));
                let k = choose|k: int|
                    is_owned_at(groups[g].members, active, Some(active_order[i]), m, k);
                lemma_last_implies_first(groups[g].members, active, k);
            }
        }
    }
    if active_order.contains(m) {
        let i = active_order.index_of(m);
        lemma_slot(parent, active_order[i], groups, active);
        assert(slot(parent, active_order[i], groups, active).contains(m));
    } else if exists|g: int|
        0 <= g < groups.len() && (#[trigger] groups[g]).members.contains(m) && first_active(
            groups[g].members,
            active,
        ) is Some {
        let g = choose|g: int|
            0 <= g < groups.len() && (#[trigger] groups[g]).members.contains(m) && first_active(
                groups[g].members,
                active,
            ) is Some;
        let members = groups[g].members;
        let k = members.index_of(m);
        let owner = last_active(members.take(k), active);
        assert(is_owned_at(members, active, owner, m, k));
        lemma_inactive_after(members, active, owner);
        let holder = match owner {
            Some(owner) => owner,
            None => first_active(members, active)->0,
        };
        lemma_active_ones_are_active(members.take(k), active);
        lemma_active_ones_are_active(members, active);
        lemma_leading(groups, active, holder);
        lemma_trailing(groups, active, holder);
        if owner is Some {
            assert(trails_in_group(groups, active, holder, m, g));
        } else {
            assert(leads_group(groups, active, holder, m, g));
        }
        lemma_slot(parent, holder, groups, active);
        let i = active_order.index_of(holder);
        assert(slot(parent, active_order[i], groups, active).contains(m));
    }
}

/// The first and the last active window of a list are active.
pub proof fn lemma_active_ones_are_active(members: Seq<MemberView>, active: Set<MemberView>)
    ensures
        first_active(members, active) is Some ==> active.contains(
            first_active(members, active)->0,
        ),
        last_active(members, active) is Some ==> active.contains(last_active(members, active)->0),
    decreases members.len(),
{
    if members.len() > 0 {
        lemma_active_ones_are_active(members.drop_last(), active);
    }
}

/// A list of which a beginning has an active window has a first active one.
proof fn lemma_last_implies_first(members: Seq<MemberView>, active: Set<MemberView>, k: int)
    requires
        0 <= k <= members.len(),
        last_active(members.take(k), active) is Some,
    ensures
        first_active(members, active) is Some,
    decreases members.len(),
{
    if k < members.len() {
        assert(members.drop_last().take(k) =~= members.take(k));
        lemma_last_implies_first(members.drop_last(), active, k);
    } else {
        assert(members.take(k) =~= members);
        if !active.contains(members.last()) {
            let shorter = members.drop_last();
            assert(shorter.take(k - 1) =~= shorter);
            lemma_last_implies_first(shorter, active, k - 1);
        }
    }
}

/// A relinked order holds no window twice, if none is active twice and none is
/// in two absorbed groups.
pub proof fn law_relinking_repeats_no_window(
    parent: MemberView,
    active_order: Seq<MemberView>,
    groups: Seq<GroupView>,
)
    requires
        active_order.no_duplicates(),
        groups_are_apart(groups),
    ensures
        relinked_order(
            parent,
            active_order,
            groups,
            active_order.len() as int,
        ).no_duplicates(),
{
    lemma_prefix_repeats_no_window(parent, active_order, groups, active_order.len() as int);
}

proof fn lemma_prefix_repeats_no_window(
    parent: MemberView,
    active_order: Seq<MemberView>,
    groups: Seq<GroupView>,
    n: int,
)
    requires
        active_order.no_duplicates(),
        groups_are_apart(groups),
        0 <= n <= active_order.len(),
    ensures
        relinked_order(parent, active_order, groups, n).no_duplicates(),
    decreases n,
{
    if n > 0 {
        lemma_prefix_repeats_no_window(parent, active_order, groups, n - 1);
        let active = active_order.to_set();
        let owner = active_order[n - 1];
        assert(active.contains(owner));
        assert(!active_order.take(n - 1).contains(owner)) by {
            if active_order.take(n - 1).contains(owner) {
                let i = active_order.take(n - 1).index_of(owner);
                assert(active_order[i] == owner);
            }
        }
        let before = relinked_order(parent, active_order, groups, n - 1);
        let added = slot(parent, owner, groups, active);
        lemma_slot_has_no_duplicates(parent, owner, groups, active);
        assert forall|i: int, j: int| 0 <= i < before.len() && 0 <= j < added.len() implies before[i]
            != added[j] by {
            let m = before[i];
            lemma_in_some_slot(parent, active_order, groups, n - 1, m);
            assert(before.contains(m));
            let k = choose|k: int|
                0 <= k < n - 1 && slot(parent, #[trigger] active_order[k], groups, active).contains(
                    m,
                );
            assert(active.contains(active_order[k]));
            if added[j] == m {
                assert(added.contains(m));
                lemma_slots_are_apart(parent, active_order[k], owner, groups, active, m);
            }
        }
        vstd::seq_lib::lemma_no_dup_in_concat(before, added);
    }
}

/// A parent that is the first active window is the first window of the
/// relinked order, closed notes that led its group behind it.
pub proof fn law_parent_stays_on_top(
    parent: MemberView,
    active_order: Seq<MemberView>,
    groups: Seq<GroupView>,
    n: int,
)
    requires
        1 <= n <= active_order.len(),
        active_order[0] == parent,
    ensures
        relinked_order(parent, active_order, groups, n).len() > 0,
        relinked_order(parent, active_order, groups, n)[0] == parent,
    decreases n,
{
    if n > 1 {
        law_parent_stays_on_top(parent, active_order, groups, n - 1);
    } else {
        assert(!active_order.take(0).contains(parent));
        assert(relinked_order(parent, active_order, groups, 0) =~= Seq::empty());
    }
}

} // verus!
