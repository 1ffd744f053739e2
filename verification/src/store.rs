//! What the program keeps between runs: notes, timers and linked groups.
use vstd::prelude::*;

use crate::error::GroupError;
use crate::member::{copy_members, GroupMemberKind, MemberView, StoredGroupMember};
use crate::surface::{NoteView, StoredNote, StoredSurface, StoredTimer, SurfaceView, TimerView};
use crate::table::Table;
use crate::views::{group_views, views};

verus! {

/// A linked group: its windows from top to bottom, closed notes among them.
#[derive(Debug, PartialEq, Eq)]
pub struct StoredGroup {
    pub id: String,
    pub members: Vec<StoredGroupMember>,
}

/// A linked group, as contracts speak of it.
pub struct GroupView {
    pub id: Seq<char>,
    pub members: Seq<MemberView>,
}

impl View for StoredGroup {
    type V = GroupView;

    open spec fn view(&self) -> GroupView {
        GroupView { id: self.id@, members: views(self.members@) }
    }
}

impl Clone for StoredGroup {
    fn clone(&self) -> (copy: Self)
        ensures
            copy@ == self@,
    {
        StoredGroup { id: self.id.clone(), members: copy_members(&self.members) }
    }
}

/// Every note, open or closed, and every linked group, by identifier.
pub struct NoteStore {
    pub notes: Table<StoredNote>,
    pub groups: Table<StoredGroup>,
}

/// Every timer, by identifier.
pub type TimerStore = Table<StoredTimer>;

/// The contents of the stores, as contracts speak of them.
#[verifier::ext_equal]
pub struct StoreView {
    pub notes: Map<Seq<char>, NoteView>,
    pub groups: Map<Seq<char>, GroupView>,
}

impl View for NoteStore {
    type V = StoreView;

    open spec fn view(&self) -> StoreView {
        StoreView { notes: self.notes@, groups: self.groups@ }
    }
}

/// What is stored of a window.
pub open spec fn surface_of(
    notes: Map<Seq<char>, NoteView>,
    timers: Map<Seq<char>, TimerView>,
    member: MemberView,
) -> Option<SurfaceView> {
    match member.kind {
        GroupMemberKind::Note => if notes.contains_key(member.id) {
            Some(SurfaceView::Note(notes[member.id]))
        } else {
            None
        },
        GroupMemberKind::Timer => if timers.contains_key(member.id) {
            Some(SurfaceView::Timer(timers[member.id]))
        } else {
            None
        },
    }
}

/// The error for a window of which nothing is stored.
pub open spec fn is_missing_surface(error: GroupError, member: MemberView) -> bool {
    match member.kind {
        GroupMemberKind::Note => error matches GroupError::MissingNote(id) && id@ == member.id,
        GroupMemberKind::Timer => error matches GroupError::MissingTimer(id) && id@ == member.id,
    }
}

/// Reads what is stored of a window.
pub fn stored_surface(
    notes: &Table<StoredNote>,
    timers: &TimerStore,
    member: &StoredGroupMember,
) -> (surface: Result<StoredSurface, GroupError>)
    ensures
        match surface {
            Ok(surface) => surface_of(notes@, timers@, member@) == Some(surface@),
            Err(error) => surface_of(notes@, timers@, member@) is None && is_missing_surface(
                error,
                member@,
            ),
        },
{
    match member.kind {
        GroupMemberKind::Note => match notes.get(member.id.as_str()) {
            Some(note) => Ok(StoredSurface::Note(note.clone())),
            None => Err(GroupError::MissingNote(member.id.clone())),
        },
        GroupMemberKind::Timer => match timers.get(member.id.as_str()) {
            Some(timer) => Ok(StoredSurface::Timer(timer.clone())),
            None => Err(GroupError::MissingTimer(member.id.clone())),
        },
    }
}

/// Whether something is stored of the first `n` windows of a list.
pub open spec fn surfaces_known(
    notes: Map<Seq<char>, NoteView>,
    timers: Map<Seq<char>, TimerView>,
    members: Seq<MemberView>,
    n: int,
) -> bool {
    forall|i: int| 0 <= i < n ==> surface_of(notes, timers, #[trigger] members[i]) is Some
}

/// What is stored of each window of a list.
pub open spec fn surfaces_of(
    notes: Map<Seq<char>, NoteView>,
    timers: Map<Seq<char>, TimerView>,
    members: Seq<MemberView>,
) -> Seq<SurfaceView> {
    Seq::new(members.len(), |i: int| surface_of(notes, timers, members[i])->0)
}

/// Reads what is stored of each window of a list.
pub fn stored_surfaces(
    notes: &Table<StoredNote>,
    timers: &TimerStore,
    members: &Vec<StoredGroupMember>,
) -> (surfaces: Result<Vec<StoredSurface>, GroupError>)
    ensures
        match surfaces {
            Ok(surfaces) => {
                &&& surfaces_known(notes@, timers@, views(members@), members@.len() as int)
                &&& views(surfaces@) == surfaces_of(notes@, timers@, views(members@))
            },
            Err(error) => exists|i: int|
                {
                    &&& 0 <= i < members@.len()
                    &&& surfaces_known(notes@, timers@, views(members@), i)
                    &&& surface_of(notes@, timers@, (#[trigger] members@[i])@) is None
                    &&& is_missing_surface(error, members@[i]@)
                },
        },
{
    let mut surfaces: Vec<StoredSurface> = Vec::new();
    let mut i: usize = 0;
    while i < members.len()
        invariant
            i <= members@.len(),
            surfaces@.len() == i,
            surfaces_known(notes@, timers@, views(members@), i as int),
            forall|j: int|
                0 <= j < i ==> Some((#[trigger] surfaces@[j])@) == surface_of(
                    notes@,
                    timers@,
                    members@[j]@,
                ),
        decreases members.len() - i,
    {
        match stored_surface(notes, timers, &members[i]) {
            Ok(surface) => {
                surfaces.push(surface);
            },
            Err(error) => {
                return Err(error);
            },
        }
        i += 1;
    }
    proof {
        assert(views(surfaces@) =~= surfaces_of(notes@, timers@, views(members@)));
    }
    Ok(surfaces)
}

/// The notes among the surfaces of a list.
pub open spec fn notes_of(surfaces: Seq<SurfaceView>) -> Seq<NoteView>
    decreases surfaces.len(),
{
    if surfaces.len() == 0 {
        Seq::empty()
    } else {
        match surfaces.last() {
            SurfaceView::Note(note) => notes_of(surfaces.drop_last()).push(note),
            SurfaceView::Timer(_) => notes_of(surfaces.drop_last()),
        }
    }
}

/// The timers among the surfaces of a list.
pub open spec fn timers_of(surfaces: Seq<SurfaceView>) -> Seq<TimerView>
    decreases surfaces.len(),
{
    if surfaces.len() == 0 {
        Seq::empty()
    } else {
        match surfaces.last() {
            SurfaceView::Note(_) => timers_of(surfaces.drop_last()),
            SurfaceView::Timer(timer) => timers_of(surfaces.drop_last()).push(timer),
        }
    }
}

/// Parts the surfaces of a list into the timers and the notes among them, each
/// in the order of the list.
pub fn split_surfaces(surfaces: &Vec<StoredSurface>) -> (parts: (Vec<StoredTimer>, Vec<StoredNote>))
    ensures
        views(parts.0@) == timers_of(views(surfaces@)),
        views(parts.1@) == notes_of(views(surfaces@)),
{
    broadcast use group_views;

    let mut timers: Vec<StoredTimer> = Vec::new();
    let mut notes: Vec<StoredNote> = Vec::new();
    let mut i: usize = 0;
    proof {
        assert(views(surfaces@).take(0) =~= Seq::empty());
    }
    while i < surfaces.len()
        invariant
            i <= surfaces@.len(),
            views(timers@) == timers_of(views(surfaces@).take(i as int)),
            views(notes@) == notes_of(views(surfaces@).take(i as int)),
        decreases surfaces.len() - i,
    {
        proof {
            assert(views(surfaces@).take(i + 1).drop_last() =~= views(surfaces@).take(i as int));
            assert(views(surfaces@).take(i + 1).last() == surfaces@[i as int]@);
        }
        match &surfaces[i] {
            StoredSurface::Note(note) => {
                notes.push(note.clone());
            },
            StoredSurface::Timer(timer) => {
                timers.push(timer.clone());
            },
        }
        i += 1;
    }
    proof {
        assert(views(surfaces@).take(surfaces@.len() as int) =~= views(surfaces@));
    }
    (timers, notes)
}

/// A map of notes after the first `n` notes of a list replaced those of the
/// same identifier.
pub open spec fn notes_replaced(
    notes: Map<Seq<char>, NoteView>,
    replacements: Seq<NoteView>,
    n: int,
) -> Map<Seq<char>, NoteView>
    decreases n,
{
    if n <= 0 {
        notes
    } else {
        notes_replaced(notes, replacements, n - 1).insert(
            replacements[n - 1].id,
            replacements[n - 1],
        )
    }
}

/// A map of timers after the first `n` timers of a list replaced those of the
/// same identifier.
pub open spec fn timers_replaced(
    timers: Map<Seq<char>, TimerView>,
    replacements: Seq<TimerView>,
    n: int,
) -> Map<Seq<char>, TimerView>
    decreases n,
{
    if n <= 0 {
        timers
    } else {
        timers_replaced(timers, replacements, n - 1).insert(
            replacements[n - 1].id,
            replacements[n - 1],
        )
    }
}

/// Whether the first `n` notes of a list have an identifier in a map.
pub open spec fn notes_present(
    notes: Map<Seq<char>, NoteView>,
    replacements: Seq<NoteView>,
    n: int,
) -> bool {
    forall|i: int| 0 <= i < n ==> notes.contains_key((#[trigger] replacements[i]).id)
}

/// Whether the first `n` timers of a list have an identifier in a map.
pub open spec fn timers_present(
    timers: Map<Seq<char>, TimerView>,
    replacements: Seq<TimerView>,
    n: int,
) -> bool {
    forall|i: int| 0 <= i < n ==> timers.contains_key((#[trigger] replacements[i]).id)
}

/// Replacing notes that are there adds and removes none.
pub proof fn lemma_notes_replaced_domain(
    notes: Map<Seq<char>, NoteView>,
    replacements: Seq<NoteView>,
    n: int,
)
    requires
        0 <= n <= replacements.len(),
        notes_present(notes, replacements, n),
    ensures
        notes_replaced(notes, replacements, n).dom() == notes.dom(),
    decreases n,
{
    if n > 0 {
        lemma_notes_replaced_domain(notes, replacements, n - 1);
        assert(notes.contains_key(replacements[n - 1].id));
        assert(notes_replaced(notes, replacements, n).dom() =~= notes.dom());
    }
}

/// Replacing timers that are there adds and removes none.
pub proof fn lemma_timers_replaced_domain(
    timers: Map<Seq<char>, TimerView>,
    replacements: Seq<TimerView>,
    n: int,
)
    requires
        0 <= n <= replacements.len(),
        timers_present(timers, replacements, n),
    ensures
        timers_replaced(timers, replacements, n).dom() == timers.dom(),
    decreases n,
{
    if n > 0 {
        lemma_timers_replaced_domain(timers, replacements, n - 1);
        assert(timers.contains_key(replacements[n - 1].id));
        assert(timers_replaced(timers, replacements, n).dom() =~= timers.dom());
    }
}

/// Replaces the notes of a store that have the identifiers of the given ones.
///
/// It stops at the first note that the store does not have.
pub fn replace_notes(store: &mut NoteStore, replacements: &Vec<StoredNote>) -> (replaced: Result<
    (),
    GroupError,
>)
    ensures
        final(store)@.groups == old(store)@.groups,
        match replaced {
            Ok(()) => {
                &&& notes_present(
                    old(store)@.notes,
                    views(replacements@),
                    replacements@.len() as int,
                )
                &&& final(store)@.notes == notes_replaced(
                    old(store)@.notes,
                    views(replacements@),
                    replacements@.len() as int,
                )
            },
            Err(error) => exists|i: int|
                {
                    &&& 0 <= i < replacements@.len()
                    &&& notes_present(old(store)@.notes, views(replacements@), i)
                    &&& !old(store)@.notes.contains_key((#[trigger] replacements@[i])@.id)
                    &&& error matches GroupError::MissingNote(id) && id@ == replacements@[i]@.id
                    &&& final(store)@.notes == notes_replaced(
                        old(store)@.notes,
                        views(replacements@),
                        i,
                    )
                },
        },
{
    let mut i: usize = 0;
    while i < replacements.len()
        invariant
            i <= replacements@.len(),
            store@.groups == old(store)@.groups,
            notes_present(old(store)@.notes, views(replacements@), i as int),
            store@.notes == notes_replaced(old(store)@.notes, views(replacements@), i as int),
        decreases replacements.len() - i,
    {
        proof {
            lemma_notes_replaced_domain(old(store)@.notes, views(replacements@), i as int);
        }
        if !store.notes.contains_key(replacements[i].id.as_str()) {
            proof {
                assert(!old(store)@.notes.contains_key(replacements@[i as int]@.id));
            }
            return Err(GroupError::MissingNote(replacements[i].id.clone()));
        }
        proof {
            assert(old(store)@.notes.contains_key(views(replacements@)[i as int].id));
        }
        store.notes.insert(replacements[i].id.clone(), replacements[i].clone());
        i += 1;
    }
    Ok(())
}

/// Replaces the timers of a store that have the identifiers of the given ones.
///
/// It stops at the first timer that the store does not have.
pub fn replace_timers(store: &mut TimerStore, replacements: &Vec<StoredTimer>) -> (replaced: Result<
    (),
    GroupError,
>)
    ensures
        match replaced {
            Ok(()) => {
                &&& timers_present(old(store)@, views(replacements@), replacements@.len() as int)
                &&& final(store)@ == timers_replaced(
                    old(store)@,
                    views(replacements@),
                    replacements@.len() as int,
                )
            },
            Err(error) => exists|i: int|
                {
                    &&& 0 <= i < replacements@.len()
                    &&& timers_present(old(store)@, views(replacements@), i)
                    &&& !old(store)@.contains_key((#[trigger] replacements@[i])@.id)
                    &&& error matches GroupError::MissingTimer(id) && id@ == replacements@[i]@.id
                    &&& final(store)@ == timers_replaced(old(store)@, views(replacements@), i)
                },
        },
{
    let mut i: usize = 0;
    while i < replacements.len()
        invariant
            i <= replacements@.len(),
            timers_present(old(store)@, views(replacements@), i as int),
            store@ == timers_replaced(old(store)@, views(replacements@), i as int),
        decreases replacements.len() - i,
    {
        proof {
            lemma_timers_replaced_domain(old(store)@, views(replacements@), i as int);
        }
        if !store.contains_key(replacements[i].id.as_str()) {
            proof {
                assert(!old(store)@.contains_key(replacements@[i as int]@.id));
            }
            return Err(GroupError::MissingTimer(replacements[i].id.clone()));
        }
        proof {
            assert(old(store)@.contains_key(views(replacements@)[i as int].id));
        }
        store.insert(replacements[i].id.clone(), replacements[i].clone());
        i += 1;
    }
    Ok(())
}

} // verus!
