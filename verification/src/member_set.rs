//! Sets of windows.
use vstd::prelude::*;

use crate::member::{contains_member, copy_members, MemberView, StoredGroupMember};
use crate::views::{group_views, views};

verus! {

/// A set of windows.
pub struct MemberSet {
    members: Vec<StoredGroupMember>,
}

impl View for MemberSet {
    type V = Set<MemberView>;

    closed spec fn view(&self) -> Set<MemberView> {
        views(self.members@).to_set()
    }
}

impl MemberSet {
    #[verifier::type_invariant]
    spec fn members_are_distinct(self) -> bool {
        views(self.members@).no_duplicates()
    }

    /// The set without windows.
    pub fn new() -> (set: Self)
        ensures
            set@ == Set::<MemberView>::empty(),
    {
        let set = MemberSet { members: Vec::new() };
        proof {
            assert(set@ =~= Set::<MemberView>::empty());
        }
        set
    }

    /// The set of the windows of a list.
    pub fn from_members(members: &Vec<StoredGroupMember>) -> (set: Self)
        ensures
            set@ == views(members@).to_set(),
    {
        let mut set = MemberSet::new();
        let mut i: usize = 0;
        proof {
            assert(views(members@).take(0).to_set() =~= Set::empty());
        }
        while i < members.len()
            invariant
                i <= members@.len(),
                set@ == views(members@).take(i as int).to_set(),
            decreases members.len() - i,
        {
            set.insert(members[i].clone());
            proof {
                let all = views(members@);
                assert(all.take(i + 1) =~= all.take(i as int).push(all[i as int]));
                all.take(i as int).lemma_push_to_set_commute(all[i as int]);
            }
            i += 1;
        }
        proof {
            assert(views(members@).take(members@.len() as int) =~= views(members@));
        }
        set
    }

    /// Whether the set holds a window.
    pub fn contains(&self, member: &StoredGroupMember) -> (contained: bool)
        ensures
            contained == self@.contains(member@),
    {
        contains_member(&self.members, member)
    }

    /// Adds a window.
    pub fn insert(&mut self, member: StoredGroupMember)
        ensures
            final(self)@ == old(self)@.insert(member@),
    {
        proof {
            use_type_invariant(&*self);
        }
        if self.contains(&member) {
            proof {
                assert(self@.insert(member@) =~= self@);
            }
            return ;
        }
        let ghost before = views(self.members@);
        let mut members: Vec<StoredGroupMember> = Vec::new();
        std::mem::swap(&mut members, &mut self.members);
        members.push(member);
        proof {
            broadcast use group_views;

            assert(views(members@) == before.push(member@));
            before.lemma_push_to_set_commute(member@);
            assert(!before.contains(member@));
            assert forall|i: int, j: int|
                0 <= i < views(members@).len() && 0 <= j < views(members@).len() && i
                    != j implies views(members@)[i] != views(members@)[j] by {
                if i == before.len() {
                    assert(before.contains(before[j]));
                } else if j == before.len() {
                    assert(before.contains(before[i]));
                }
            }
        }
        self.members = members;
    }

    /// Removes a window.
    pub fn remove(&mut self, member: &StoredGroupMember)
        ensures
            final(self)@ == old(self)@.remove(member@),
    {
        let ghost before = views(self.members@);
        proof {
            use_type_invariant(&*self);
        }
        let mut kept: Vec<StoredGroupMember> = Vec::new();
        let mut i: usize = 0;
        while i < self.members.len()
            invariant
                before == views(self.members@),
                before.no_duplicates(),
                i <= self.members@.len(),
                views(kept@).no_duplicates(),
                forall|m: MemberView| #[trigger]
                    views(kept@).contains(m) <==> before.take(i as int).contains(m) && m != member@,
            decreases self.members.len() - i,
        {
            let ghost kept_before = views(kept@);
            proof {
                assert(before.take(i + 1) =~= before.take(i as int).push(before[i as int]));
                assert(!before.take(i as int).contains(before[i as int]));
                assert forall|m: MemberView| before.take(i + 1).contains(m) <==> before.take(
                    i as int,
                ).contains(m) || m == before[i as int] by {
                    if m == before[i as int] {
                        assert(before.take(i + 1)[i as int] == m);
                    }
                    if before.take(i as int).contains(m) {
                        let k = before.take(i as int).index_of(m);
                        assert(before.take(i + 1)[k] == m);
                    }
                }
            }
            if !self.members[i].same_window(member) {
                kept.push(self.members[i].clone());
                proof {
                    broadcast use group_views;

                    let added = before[i as int];
                    assert(views(kept@) == kept_before.push(added));
                    assert(!kept_before.contains(added));
                    assert forall|j: int, k: int|
                        0 <= j < views(kept@).len() && 0 <= k < views(kept@).len() && j
                            != k implies views(kept@)[j] != views(kept@)[k] by {
                        if j == kept_before.len() {
                            assert(kept_before.contains(kept_before[k]));
                        } else if k == kept_before.len() {
                            assert(kept_before.contains(kept_before[j]));
                        }
                    }
                    assert forall|m: MemberView| #[trigger]
                        views(kept@).contains(m) <==> before.take(i + 1).contains(m) && m
                            != member@ by {
                        if kept_before.contains(m) {
                            let k = kept_before.index_of(m);
                            assert(views(kept@)[k] == m);
                        }
                        if m == added {
                            assert(views(kept@)[kept_before.len() as int] == m);
                        }
                    }
                }
            }
            i += 1;
        }
        proof {
            assert(before.take(self.members@.len() as int) =~= before);
            assert(views(kept@).to_set() =~= before.to_set().remove(member@));
        }
        self.members = kept;
    }

    /// The windows of the set, each once, in no particular order.
    pub fn to_vec(&self) -> (members: Vec<StoredGroupMember>)
        ensures
            views(members@).no_duplicates(),
            views(members@).to_set() == self@,
    {
        proof {
            use_type_invariant(self);
        }
        copy_members(&self.members)
    }
}

} // verus!
