//! Operations on the linked groups of a store.
use vstd::prelude::*;

use crate::error::GroupError;
use crate::member::{contains_member, copy_members, GroupMemberKind, MemberView, StoredGroupMember};
use crate::member_set::MemberSet;
use crate::store::{GroupView, NoteStore, StoredGroup};
use crate::views::{group_views, views};

verus! {

/// Whether the groups of a store are sound: each is kept under its own
/// identifier, has at least two windows, each once, and shares none with
/// another group.
pub open spec fn groups_are_sound(groups: Map<Seq<char>, GroupView>) -> bool {
    &&& forall|k: Seq<char>| #[trigger]
        groups.contains_key(k) ==> {
            &&& groups[k].id == k
            &&& groups[k].members.len() >= 2
            &&& groups[k].members.no_duplicates()
        }
    &&& forall|k: Seq<char>, l: Seq<char>, m: MemberView|
        #![trigger groups[k].members.contains(m), groups[l].members.contains(m)]
        groups.contains_key(k) && groups.contains_key(l) && groups[k].members.contains(m)
            && groups[l].members.contains(m) ==> k == l
}

/// Replaces the absorbed groups by one new group.
pub fn persist_relinked_group(
    store: &mut NoteStore,
    absorbed_group_ids: &Vec<String>,
    group_id: &str,
    members: &Vec<StoredGroupMember>,
)
    ensures
        final(store)@.notes == old(store)@.notes,
        final(store)@.groups == old(store)@.groups.remove_keys(
            views(absorbed_group_ids@).to_set(),
        ).insert(group_id@, GroupView { id: group_id@, members: views(members@) }),
{
    let ghost ids = views(absorbed_group_ids@);
    let mut i: usize = 0;
    proof {
        assert(store@.groups =~= old(store)@.groups.remove_keys(ids.take(0).to_set()));
    }
    while i < absorbed_group_ids.len()
        invariant
            ids == views(absorbed_group_ids@),
            i <= absorbed_group_ids@.len(),
            store@.notes == old(store)@.notes,
            store@.groups == old(store)@.groups.remove_keys(ids.take(i as int).to_set()),
        decreases absorbed_group_ids.len() - i,
    {
        let removed = store.groups.remove(absorbed_group_ids[i].as_str());
        proof {
            let id = ids[i as int];
            assert(ids.take(i + 1) =~= ids.take(i as int).push(id));
            ids.take(i as int).lemma_push_to_set_commute(id);
            assert(store@.groups =~= old(store)@.groups.remove_keys(ids.take(i + 1).to_set()));
        }
        i += 1;
    }
    proof {
        assert(ids.take(absorbed_group_ids@.len() as int) =~= ids);
    }
    store.groups.insert(
        group_id.to_owned(),
        StoredGroup { id: group_id.to_owned(), members: copy_members(members) },
    );
}

/// Whether a window is another than the given one.
pub open spec fn other_than(member: MemberView) -> spec_fn(MemberView) -> bool {
    |m: MemberView| m != member
}

/// The windows of a list without one of them.
pub open spec fn without(members: Seq<MemberView>, member: MemberView) -> Seq<MemberView> {
    members.filter(other_than(member))
}

/// The groups of a store after a window left a group: a group of which fewer
/// than two windows are left is gone.
pub open spec fn groups_detached(
    groups: Map<Seq<char>, GroupView>,
    group_id: Seq<char>,
    member: MemberView,
) -> Map<Seq<char>, GroupView> {
    let left = without(groups[group_id].members, member);
    if left.len() < 2 {
        groups.remove(group_id)
    } else {
        groups.insert(group_id, GroupView { members: left, ..groups[group_id] })
    }
}

/// Takes a window out of a group.
pub fn persist_group_detachment(
    store: &mut NoteStore,
    group_id: &str,
    member: &StoredGroupMember,
) -> (detached: Result<(), GroupError>)
    ensures
        final(store)@.notes == old(store)@.notes,
        match detached {
            Ok(()) => {
                &&& old(store)@.groups.contains_key(group_id@)
                &&& final(store)@.groups == groups_detached(
                    old(store)@.groups,
                    group_id@,
                    member@,
                )
            },
            Err(error) => {
                &&& !old(store)@.groups.contains_key(group_id@)
                &&& final(store)@.groups == old(store)@.groups
                &&& error matches GroupError::MissingGroup(id) && id@ == group_id@
            },
        },
{
    let (id, left) = match store.groups.get(group_id) {
        Some(group) => (group.id.clone(), members_without(&group.members, member)),
        None => {
            return Err(GroupError::MissingGroup(group_id.to_owned()));
        },
    };
    if left.len() < 2 {
        let removed = store.groups.remove(group_id);
    } else {
        store.groups.insert(group_id.to_owned(), StoredGroup { id, members: left });
    }
    Ok(())
}

/// The windows of a list without one of them.
pub fn members_without(members: &Vec<StoredGroupMember>, member: &StoredGroupMember) -> (left: Vec<
    StoredGroupMember,
>)
    ensures
        views(left@) == without(views(members@), member@),
{
    broadcast use group_views;

    let ghost all = views(members@);
    let ghost keep = other_than(member@);
    let mut left: Vec<StoredGroupMember> = Vec::new();
    let mut i: usize = 0;
    proof {
        reveal(Seq::filter);
        assert(all.take(0).filter(keep) =~= Seq::empty());
    }
    while i < members.len()
        invariant
            all == views(members@),
            keep == other_than(member@),
            i <= members@.len(),
            views(left@) == all.take(i as int).filter(keep),
        decreases members.len() - i,
    {
        proof {
            assert(all.take(i + 1) =~= all.take(i as int).push(all[i as int]));
            all.take(i as int).lemma_filter_push(all[i as int], keep);
        }
        if !members[i].same_window(member) {
            left.push(members[i].clone());
        }
        i += 1;
    }
    proof {
        assert(all.take(members@.len() as int) =~= all);
    }
    left
}

/// The first group of a list that a window belongs to.
pub fn group_for_member(groups: &Vec<StoredGroup>, member: &StoredGroupMember) -> (found: Option<
    usize,
>)
    ensures
        match found {
            Some(i) => {
                &&& i < groups@.len()
                &&& groups@[i as int]@.members.contains(member@)
                &&& forall|j: int|
                    0 <= j < i ==> !(#[trigger] groups@[j])@.members.contains(member@)
            },
            None => forall|j: int|
                0 <= j < groups@.len() ==> !(#[trigger] groups@[j])@.members.contains(member@),
        },
{
    let mut i: usize = 0;
    while i < groups.len()
        invariant
            i <= groups@.len(),
            forall|j: int| 0 <= j < i ==> !(#[trigger] groups@[j])@.members.contains(member@),
        decreases groups.len() - i,
    {
        if contains_member(&groups[i].members, member) {
            return Some(i);
        }
        i += 1;
    }
    None
}

/// Whether a window is in one of the groups.
pub open spec fn is_linked(groups: Seq<GroupView>, member: MemberView) -> bool {
    exists|g: int| 0 <= g < groups.len() && (#[trigger] groups[g]).members.contains(member)
}

/// Whether a window is in one of the groups.
pub fn is_in_group(groups: &Vec<StoredGroup>, member: &StoredGroupMember) -> (linked: bool)
    ensures
        linked == is_linked(views(groups@), member@),
{
    let ghost viewed = views(groups@);
    match group_for_member(groups, member) {
        Some(i) => {
            proof {
                assert(viewed[i as int].members.contains(member@));
            }
            true
        },
        None => {
            proof {
                assert forall|g: int| 0 <= g < viewed.len() implies !(
                #[trigger] viewed[g]).members.contains(member@) by {
                    assert(viewed[g] == groups@[g]@);
                }
            }
            false
        },
    }
}

/// The first group that a window is in.
pub open spec fn first_group_of(groups: Seq<GroupView>, member: MemberView) -> Option<GroupView>
    decreases groups.len(),
{
    if groups.len() == 0 {
        None
    } else {
        match first_group_of(groups.drop_last(), member) {
            Some(group) => Some(group),
            None => if groups.last().members.contains(member) {
                Some(groups.last())
            } else {
                None
            },
        }
    }
}

proof fn lemma_first_group_of(groups: Seq<GroupView>, member: MemberView, i: int)
    requires
        0 <= i <= groups.len(),
        forall|j: int| 0 <= j < i ==> !(#[trigger] groups[j]).members.contains(member),
        i < groups.len() ==> groups[i].members.contains(member),
    ensures
        first_group_of(groups, member) == (if i < groups.len() {
            Some(groups[i])
        } else {
            None
        }),
    decreases groups.len(),
{
    if groups.len() > 0 {
        let shorter = groups.drop_last();
        assert forall|j: int| 0 <= j < shorter.len() && j < i implies !(
        #[trigger] shorter[j]).members.contains(member) by {
            assert(shorter[j] == groups[j]);
        }
        if i < shorter.len() {
            assert(shorter[i] == groups[i]);
            lemma_first_group_of(shorter, member, i);
        } else {
            lemma_first_group_of(shorter, member, shorter.len() as int);
            if i == groups.len() {
                assert(!groups[groups.len() - 1].members.contains(member));
            }
        }
    }
}

/// The first group that a window is in.
pub fn group_of(groups: &Vec<StoredGroup>, member: &StoredGroupMember) -> (group: Option<
    StoredGroup,
>)
    ensures
        match group {
            Some(group) => first_group_of(views(groups@), member@) == Some(group@),
            None => first_group_of(views(groups@), member@) is None,
        },
{
    let ghost viewed = views(groups@);
    match group_for_member(groups, member) {
        Some(i) => {
            proof {
                assert forall|j: int| 0 <= j < i implies !(
                #[trigger] viewed[j]).members.contains(member@) by {
                    assert(viewed[j] == groups@[j]@);
                }
                lemma_first_group_of(viewed, member@, i as int);
            }
            Some(groups[i].clone())
        },
        None => {
            proof {
                assert forall|j: int| 0 <= j < viewed.len() implies !(
                #[trigger] viewed[j]).members.contains(member@) by {
                    assert(viewed[j] == groups@[j]@);
                }
                lemma_first_group_of(viewed, member@, viewed.len() as int);
            }
            None
        },
    }
}

/// The first group that a window is in is one of the groups, and has it.
pub proof fn lemma_first_group_is_found(groups: Seq<GroupView>, member: MemberView)
    ensures
        first_group_of(groups, member) matches Some(group) ==> groups.contains(group)
            && group.members.contains(member),
    decreases groups.len(),
{
    if groups.len() > 0 {
        let shorter = groups.drop_last();
        lemma_first_group_is_found(shorter, member);
        match first_group_of(shorter, member) {
            Some(group) => {
                let i = shorter.index_of(group);
                assert(groups[i] == group);
            },
            None => {
                assert(groups[groups.len() - 1] == groups.last());
            },
        }
    }
}

/// Whether a window is active: a note that is not closed, or a timer whose
/// window is open.
pub open spec fn is_active(
    active_notes: Seq<Seq<char>>,
    open_timers: Seq<Seq<char>>,
    member: MemberView,
) -> bool {
    match member.kind {
        GroupMemberKind::Note => active_notes.contains(member.id),
        GroupMemberKind::Timer => open_timers.contains(member.id),
    }
}

/// Whether a list of texts holds a given one.
pub fn contains_text(texts: &Vec<String>, text: &String) -> (contained: bool)
    ensures
        contained == views(texts@).contains(text@),
{
    let mut i: usize = 0;
    while i < texts.len()
        invariant
            i <= texts@.len(),
            forall|j: int| 0 <= j < i ==> #[trigger] texts@[j]@ != text@,
        decreases texts.len() - i,
    {
        if texts[i] == *text {
            proof {
                assert(views(texts@)[i as int] == text@);
            }
            return true;
        }
        i += 1;
    }
    proof {
        if views(texts@).contains(text@) {
            let j = views(texts@).index_of(text@);
            assert(texts@[j]@ == text@);
        }
    }
    false
}

/// Whether a window is active and not excluded.
pub open spec fn active_and_kept(
    active_notes: Seq<Seq<char>>,
    open_timers: Seq<Seq<char>>,
    excluded: Set<MemberView>,
) -> spec_fn(MemberView) -> bool {
    |m: MemberView| is_active(active_notes, open_timers, m) && !excluded.contains(m)
}

/// The active windows of a group, from top to bottom, without the excluded ones.
pub open spec fn active_members(
    active_notes: Seq<Seq<char>>,
    open_timers: Seq<Seq<char>>,
    members: Seq<MemberView>,
    excluded: Set<MemberView>,
) -> Seq<MemberView> {
    members.filter(active_and_kept(active_notes, open_timers, excluded))
}

/// Picks the active windows of a group, from top to bottom, without the
/// excluded ones.
///
/// `active_notes` are the identifiers of the notes that are not closed,
/// `open_timers` those of the timers whose windows are open.
pub fn active_group_members(
    active_notes: &Vec<String>,
    open_timers: &Vec<String>,
    group: &StoredGroup,
    excluded: &MemberSet,
) -> (members: Vec<StoredGroupMember>)
    ensures
        views(members@) == active_members(
            views(active_notes@),
            views(open_timers@),
            group@.members,
            excluded@,
        ),
{
    broadcast use group_views;

    let ghost all = group@.members;
    let ghost keep = active_and_kept(views(active_notes@), views(open_timers@), excluded@);
    let mut members: Vec<StoredGroupMember> = Vec::new();
    let mut i: usize = 0;
    proof {
        reveal(Seq::filter);
        assert(all.take(0).filter(keep) =~= Seq::empty());
    }
    while i < group.members.len()
        invariant
            all == group@.members,
            keep == active_and_kept(views(active_notes@), views(open_timers@), excluded@),
            i <= group.members@.len(),
            views(members@) == all.take(i as int).filter(keep),
        decreases group.members.len() - i,
    {
        proof {
            assert(all.take(i + 1) =~= all.take(i as int).push(all[i as int]));
            all.take(i as int).lemma_filter_push(all[i as int], keep);
        }
        let active: bool = match group.members[i].kind {
            GroupMemberKind::Note => contains_text(active_notes, &group.members[i].id),
            GroupMemberKind::Timer => contains_text(open_timers, &group.members[i].id),
        };
        if active && !excluded.contains(&group.members[i]) {
            members.push(group.members[i].clone());
        }
        i += 1;
    }
    proof {
        assert(all.take(group.members@.len() as int) =~= all);
    }
    members
}

/// Whether the window of a timer is open.
pub open spec fn has_timer_window(open_labels: Seq<Seq<char>>) -> spec_fn(Seq<char>) -> bool {
    |id: Seq<char>|
        open_labels.contains((MemberView { kind: GroupMemberKind::Timer, id }).window_label())
}

/// The timers of a list whose windows are open.
pub open spec fn timers_with_windows(
    timers: Seq<Seq<char>>,
    open_labels: Seq<Seq<char>>,
) -> Seq<Seq<char>> {
    timers.filter(has_timer_window(open_labels))
}

/// Picks from the identifiers of timers those whose windows are open.
pub fn open_timer_ids(timers: &Vec<String>, open_labels: &Vec<String>) -> (open: Vec<String>)
    ensures
        views(open@) == timers_with_windows(views(timers@), views(open_labels@)),
{
    broadcast use group_views;

    let ghost all = views(timers@);
    let ghost keep = has_timer_window(views(open_labels@));
    let mut open: Vec<String> = Vec::new();
    let mut i: usize = 0;
    proof {
        reveal(Seq::filter);
        assert(all.take(0).filter(keep) =~= Seq::empty());
    }
    while i < timers.len()
        invariant
            all == views(timers@),
            keep == has_timer_window(views(open_labels@)),
            i <= timers@.len(),
            views(open@) == all.take(i as int).filter(keep),
        decreases timers.len() - i,
    {
        proof {
            assert(all.take(i + 1) =~= all.take(i as int).push(all[i as int]));
            all.take(i as int).lemma_filter_push(all[i as int], keep);
        }
        let label = StoredGroupMember::timer(timers[i].as_str()).window_label();
        if contains_text(open_labels, &label) {
            open.push(timers[i].clone());
        }
        i += 1;
    }
    proof {
        assert(all.take(timers@.len() as int) =~= all);
    }
    open
}

/// A window that leaves a sound store of groups leaves it sound, and belongs to
/// no group afterwards; the other groups are untouched.
pub proof fn law_detaching_removes_only_that_membership(
    groups: Map<Seq<char>, GroupView>,
    group_id: Seq<char>,
    member: MemberView,
)
    requires
        groups_are_sound(groups),
        groups.contains_key(group_id),
        groups[group_id].members.contains(member),
    ensures
        ({
            let detached = groups_detached(groups, group_id, member);
            &&& groups_are_sound(detached)
            &&& forall|k: Seq<char>| #[trigger]
                detached.contains_key(k) ==> !detached[k].members.contains(member)
            &&& forall|k: Seq<char>|
                k != group_id ==> (#[trigger] detached.contains_key(k) <==> groups.contains_key(k))
                    && (groups.contains_key(k) ==> detached[k] == groups[k])
            &&& detached.contains_key(group_id) ==> forall|m: MemberView|
                m != member ==> (#[trigger] detached[group_id].members.contains(m)
                    <==> groups[group_id].members.contains(m))
        }),
{
    let detached = groups_detached(groups, group_id, member);
    let members = groups[group_id].members;
    let keep = other_than(member);
    lemma_filtered(members, keep);
    assert forall|m: MemberView| #[trigger] without(members, member).contains(m) <==> m != member
        && members.contains(m) by {
        assert(members.filter(keep).contains(m) <==> members.contains(m) && keep(m));
    }
    assert forall|k: Seq<char>| #[trigger] detached.contains_key(k) implies !detached[k].members.contains(
        member,
    ) by {
        if k != group_id {
            if groups[k].members.contains(member) {
                assert(groups[group_id].members.contains(member));
            }
        }
    }
    assert forall|k: Seq<char>, l: Seq<char>, m: MemberView|
        #![trigger detached[k].members.contains(m), detached[l].members.contains(m)]
        detached.contains_key(k) && detached.contains_key(l) && detached[k].members.contains(m)
            && detached[l].members.contains(m) implies k == l by {
        if k == group_id {
            assert(without(members, member).contains(m));
        }
        if l == group_id {
            assert(without(members, member).contains(m));
        }
        assert(groups[k].members.contains(m));
        assert(groups[l].members.contains(m));
    }
}

/// Filtering keeps what passes, once, and in order.
pub proof fn lemma_filtered(members: Seq<MemberView>, keep: spec_fn(MemberView) -> bool)
    ensures
        forall|m: MemberView| #[trigger]
            members.filter(keep).contains(m) <==> members.contains(m) && keep(m),
        members.no_duplicates() ==> members.filter(keep).no_duplicates(),
    decreases members.len(),
{
    reveal(Seq::filter);
    if members.len() > 0 {
        let rest = members.drop_last();
        let last = members.last();
        lemma_filtered(rest, keep);
        assert(members =~= rest.push(last));
        let filtered = members.filter(keep);
        let before = rest.filter(keep);
        assert forall|m: MemberView| #[trigger] filtered.contains(m) <==> members.contains(m)
            && keep(m) by {
            if members.contains(m) {
                let i = members.index_of(m);
                if i < rest.len() {
                    assert(rest[i] == m);
                }
            }
            if rest.contains(m) {
                let i = rest.index_of(m);
                assert(members[i] == m);
            }
            if before.contains(m) {
                let i = before.index_of(m);
                assert(filtered[i] == m);
            }
            if filtered.contains(m) {
                let i = filtered.index_of(m);
                if i < before.len() {
                    assert(before[i] == m);
                }
            }
            if keep(last) {
                assert(filtered[before.len() as int] == last);
            }
            assert(members[members.len() - 1] == last);
        }
        if members.no_duplicates() {
            assert(rest.no_duplicates());
            if keep(last) {
                assert(!before.contains(last)) by {
                    if before.contains(last) {
                        let i = rest.index_of(last);
                        assert(members[i] == last);
                    }
                }
                assert forall|i: int, j: int|
                    0 <= i < filtered.len() && 0 <= j < filtered.len() && i
                        != j implies filtered[i] != filtered[j] by {
                    if i == before.len() {
                        assert(before.contains(before[j]));
                    } else if j == before.len() {
                        assert(before.contains(before[i]));
                    }
                }
            }
        }
    }
}

/// Unlinking a group leaves the other groups sound and untouched, and its
/// windows without a group.
pub proof fn law_unlinking_frees_every_member(
    groups: Map<Seq<char>, GroupView>,
    group_id: Seq<char>,
)
    requires
        groups_are_sound(groups),
        groups.contains_key(group_id),
    ensures
        groups_are_sound(groups.remove(group_id)),
        forall|k: Seq<char>, m: MemberView|
            #![trigger groups.remove(group_id)[k].members.contains(m)]
            groups.remove(group_id).contains_key(k) && groups[group_id].members.contains(m)
                ==> !groups.remove(group_id)[k].members.contains(m),
{
    let left = groups.remove(group_id);
    assert forall|k: Seq<char>, l: Seq<char>, m: MemberView|
        #![trigger left[k].members.contains(m), left[l].members.contains(m)]
        left.contains_key(k) && left.contains_key(l) && left[k].members.contains(m)
            && left[l].members.contains(m) implies k == l by {
        assert(groups[k].members.contains(m));
        assert(groups[l].members.contains(m));
    }
    assert forall|k: Seq<char>, m: MemberView|
        #![trigger left[k].members.contains(m)]
        left.contains_key(k) && groups[group_id].members.contains(
            m,
        ) implies !left[k].members.contains(m) by {
        if left[k].members.contains(m) {
            assert(groups[k].members.contains(m));
        }
    }
}

} // verus!
