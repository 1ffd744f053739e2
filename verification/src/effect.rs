//! The single effects that operations on windows and groups are made of, and
//! what those do that touch only the application's own state.
use vstd::prelude::*;

use crate::error::GroupError;
use crate::geometry::{
    GeometryIndex, LogicalPosition, LogicalSize, NoteGeometry, PhysicalPosition, PhysicalSize,
};
use crate::groups::{groups_detached, persist_group_detachment, persist_relinked_group};
use crate::member::{MemberView, StoredGroupMember};
use crate::runtime::{GroupRuntimeState, RuntimeView};
use crate::store::{
    notes_present, notes_replaced, replace_notes, replace_timers, timers_present, timers_replaced,
    GroupView, NoteStore, StoreView, StoredGroup, TimerStore,
};
use crate::surface::{NoteView, StoredNote, StoredTimer, TimerView};
use crate::views::views;

verus! {

/// What the window system is asked to do with a window.
#[derive(Debug, Clone, Copy, PartialEq, Eq, Structural)]
pub enum WindowAction {
    /// Read the scale factor of the window's display. The answer tells where
    /// `position` is in logical pixels, and `target` in device pixels.
    ReadScale { position: PhysicalPosition, target: LogicalPosition },
    MoveTo(LogicalPosition),
    MoveToPhysical(PhysicalPosition),
    Resize(LogicalSize),
    ResizePhysical(PhysicalSize),
    SetResizable(bool),
    /// Bring a window that fills its display back to its own size.
    LeaveMaximized,
    /// Show the window, and bring it back if it is minimised.
    Reveal,
    Focus,
    Close,
    /// Read the outer size of the window.
    MeasureSize,
    /// Read the scale factor of the window's display. The answer tells what the
    /// size that was last measured is in logical pixels.
    ConvertMeasured,
    /// Read the scale factor of the window's display. The answer tells what the
    /// size is in logical pixels.
    ConvertSize(PhysicalSize),
}

/// What is noted of a window in the geometry cache or the drag memory.
#[derive(Debug, Clone, Copy, PartialEq, Eq, Structural)]
pub enum CacheAction {
    Position(PhysicalPosition),
    /// The position in device pixels that the last scale reading gave.
    RequestedPosition,
    Size(PhysicalSize),
    /// The size that was last measured.
    MeasuredSize,
    Geometry(NoteGeometry),
    /// A move that the application asked for.
    RecordPosition(PhysicalPosition),
    /// A move to the position that the last scale reading gave.
    RecordRequested,
    /// The window is gone.
    Forget,
}

/// A change of the stored notes and groups.
pub enum NoteAction {
    Write(Vec<StoredNote>),
    /// Archive a note at the time that was last read.
    ArchiveNow(String),
    Archive { id: String, at: u64 },
    Reopen(String),
    Restore { id: String, note: StoredNote },
    /// Give a note the size that was last measured.
    SetMeasuredSize(String),
    SetSize { id: String, size: LogicalSize },
    Relink { absorbed: Vec<String>, group: StoredGroup },
    Detach { group_id: String, member: StoredGroupMember },
    InsertGroup(StoredGroup),
    RemoveGroup(String),
    ClearGroups,
}

/// A change of the stored timers.
pub enum TimerAction {
    Write(Vec<StoredTimer>),
    Remove(String),
    Restore(StoredTimer),
}

/// One effect.
pub enum Effect {
    Window(StoredGroupMember, WindowAction),
    Cache(StoredGroupMember, CacheAction),
    ReadClock,
    Notes(NoteAction),
    Timers(TimerAction),
}

/// A change of the stored notes and groups, as contracts speak of it.
pub enum NoteActionView {
    Write(Seq<NoteView>),
    ArchiveNow(Seq<char>),
    Archive { id: Seq<char>, at: u64 },
    Reopen(Seq<char>),
    Restore { id: Seq<char>, note: NoteView },
    SetMeasuredSize(Seq<char>),
    SetSize { id: Seq<char>, size: LogicalSize },
    Relink { absorbed: Seq<Seq<char>>, group: GroupView },
    Detach { group_id: Seq<char>, member: MemberView },
    InsertGroup(GroupView),
    RemoveGroup(Seq<char>),
    ClearGroups,
}

/// A change of the stored timers, as contracts speak of it.
pub enum TimerActionView {
    Write(Seq<TimerView>),
    Remove(Seq<char>),
    Restore(TimerView),
}

/// One effect, as contracts speak of it.
pub enum EffectView {
    Window(MemberView, WindowAction),
    Cache(MemberView, CacheAction),
    ReadClock,
    Notes(NoteActionView),
    Timers(TimerActionView),
}

impl View for NoteAction {
    type V = NoteActionView;

    open spec fn view(&self) -> NoteActionView {
        match self {
            NoteAction::Write(notes) => NoteActionView::Write(views(notes@)),
            NoteAction::ArchiveNow(id) => NoteActionView::ArchiveNow(id@),
            NoteAction::Archive { id, at } => NoteActionView::Archive { id: id@, at: *at },
            NoteAction::Reopen(id) => NoteActionView::Reopen(id@),
            NoteAction::Restore { id, note } => NoteActionView::Restore { id: id@, note: note@ },
            NoteAction::SetMeasuredSize(id) => NoteActionView::SetMeasuredSize(id@),
            NoteAction::SetSize { id, size } => NoteActionView::SetSize { id: id@, size: *size },
            NoteAction::Relink { absorbed, group } => NoteActionView::Relink {
                absorbed: views(absorbed@),
                group: group@,
            },
            NoteAction::Detach { group_id, member } => NoteActionView::Detach {
                group_id: group_id@,
                member: member@,
            },
            NoteAction::InsertGroup(group) => NoteActionView::InsertGroup(group@),
            NoteAction::RemoveGroup(id) => NoteActionView::RemoveGroup(id@),
            NoteAction::ClearGroups => NoteActionView::ClearGroups,
        }
    }
}

impl View for TimerAction {
    type V = TimerActionView;

    open spec fn view(&self) -> TimerActionView {
        match self {
            TimerAction::Write(timers) => TimerActionView::Write(views(timers@)),
            TimerAction::Remove(id) => TimerActionView::Remove(id@),
            TimerAction::Restore(timer) => TimerActionView::Restore(timer@),
        }
    }
}

impl View for Effect {
    type V = EffectView;

    open spec fn view(&self) -> EffectView {
        match self {
            Effect::Window(member, action) => EffectView::Window(member@, *action),
            Effect::Cache(member, action) => EffectView::Cache(member@, *action),
            Effect::ReadClock => EffectView::ReadClock,
            Effect::Notes(action) => EffectView::Notes(action@),
            Effect::Timers(action) => EffectView::Timers(action@),
        }
    }
}

/// A copy of a list of notes.
fn copy_notes(notes: &Vec<StoredNote>) -> (copy: Vec<StoredNote>)
    ensures
        views(copy@) == views(notes@),
{
    let copy = notes.clone();
    proof {
        assert(views(copy@) =~= views(notes@));
    }
    copy
}

/// A copy of a list of timers.
fn copy_timers(timers: &Vec<StoredTimer>) -> (copy: Vec<StoredTimer>)
    ensures
        views(copy@) == views(timers@),
{
    let copy = timers.clone();
    proof {
        assert(views(copy@) =~= views(timers@));
    }
    copy
}

/// A copy of a list of texts.
pub fn copy_texts(texts: &Vec<String>) -> (copy: Vec<String>)
    ensures
        views(copy@) == views(texts@),
{
    let copy = texts.clone();
    proof {
        assert(views(copy@) =~= views(texts@));
    }
    copy
}

impl Clone for NoteAction {
    fn clone(&self) -> (copy: Self)
        ensures
            copy@ == self@,
    {
        match self {
            NoteAction::Write(notes) => NoteAction::Write(copy_notes(notes)),
            NoteAction::ArchiveNow(id) => NoteAction::ArchiveNow(id.clone()),
            NoteAction::Archive { id, at } => NoteAction::Archive { id: id.clone(), at: *at },
            NoteAction::Reopen(id) => NoteAction::Reopen(id.clone()),
            NoteAction::Restore { id, note } => NoteAction::Restore {
                id: id.clone(),
                note: note.clone(),
            },
            NoteAction::SetMeasuredSize(id) => NoteAction::SetMeasuredSize(id.clone()),
            NoteAction::SetSize { id, size } => NoteAction::SetSize { id: id.clone(), size: *size },
            NoteAction::Relink { absorbed, group } => NoteAction::Relink {
                absorbed: copy_texts(absorbed),
                group: group.clone(),
            },
            NoteAction::Detach { group_id, member } => NoteAction::Detach {
                group_id: group_id.clone(),
                member: member.clone(),
            },
            NoteAction::InsertGroup(group) => NoteAction::InsertGroup(group.clone()),
            NoteAction::RemoveGroup(id) => NoteAction::RemoveGroup(id.clone()),
            NoteAction::ClearGroups => NoteAction::ClearGroups,
        }
    }
}

impl Clone for TimerAction {
    fn clone(&self) -> (copy: Self)
        ensures
            copy@ == self@,
    {
        match self {
            TimerAction::Write(timers) => TimerAction::Write(copy_timers(timers)),
            TimerAction::Remove(id) => TimerAction::Remove(id.clone()),
            TimerAction::Restore(timer) => TimerAction::Restore(timer.clone()),
        }
    }
}

impl Clone for Effect {
    fn clone(&self) -> (copy: Self)
        ensures
            copy@ == self@,
    {
        match self {
            Effect::Window(member, action) => Effect::Window(member.clone(), *action),
            Effect::Cache(member, action) => Effect::Cache(member.clone(), *action),
            Effect::ReadClock => Effect::ReadClock,
            Effect::Notes(action) => Effect::Notes(action.clone()),
            Effect::Timers(action) => Effect::Timers(action.clone()),
        }
    }
}

/// The geometry cache after an action.
pub open spec fn cache_after(
    geometries: Map<Seq<char>, NoteGeometry>,
    member: MemberView,
    action: CacheAction,
) -> Map<Seq<char>, NoteGeometry> {
    match action {
        CacheAction::Position(position) => geometries.insert(
            member.id,
            NoteGeometry { position, ..geometries[member.id] },
        ),
        CacheAction::Size(size) => geometries.insert(
            member.id,
            NoteGeometry { size, ..geometries[member.id] },
        ),
        CacheAction::Geometry(geometry) => geometries.insert(member.id, geometry),
        _ => geometries,
    }
}

/// The drag memory after an action.
pub open spec fn runtime_after(
    runtime: RuntimeView,
    member: MemberView,
    action: CacheAction,
) -> RuntimeView {
    match action {
        CacheAction::RecordPosition(position) => runtime.move_recorded(
            member.window_label(),
            position,
        ),
        CacheAction::Forget => runtime.forgotten(member.window_label()),
        _ => runtime,
    }
}

/// Whether an action on the geometry cache or the drag memory is possible:
/// only a window that is in the cache can have its position or size replaced.
pub open spec fn cache_possible(
    geometries: Map<Seq<char>, NoteGeometry>,
    member: MemberView,
    action: CacheAction,
) -> bool {
    match action {
        CacheAction::Position(_) => geometries.contains_key(member.id),
        CacheAction::Size(_) => geometries.contains_key(member.id),
        _ => true,
    }
}

/// Performs an action on the geometry cache or the drag memory.
pub fn perform_on_cache(
    member: &StoredGroupMember,
    action: CacheAction,
    geometries: &mut GeometryIndex,
    runtime: &mut GroupRuntimeState,
) -> (performed: Result<(), GroupError>)
    ensures
        match performed {
            Ok(()) => {
                &&& cache_possible(old(geometries)@, member@, action)
                &&& final(geometries)@ == cache_after(old(geometries)@, member@, action)
                &&& final(runtime)@ == runtime_after(old(runtime)@, member@, action)
            },
            Err(error) => {
                &&& !cache_possible(old(geometries)@, member@, action)
                &&& final(geometries)@ == old(geometries)@
                &&& final(runtime)@ == old(runtime)@
                &&& error matches GroupError::MissingGeometry(id) && id@ == member@.id
            },
        },
{
    match action {
        CacheAction::Position(position) => match geometries.set_position(
            member.id.as_str(),
            position,
        ) {
            Ok(()) => Ok(()),
            Err(missing) => Err(GroupError::MissingGeometry(missing.id)),
        },
        CacheAction::Size(size) => match geometries.set_size(member.id.as_str(), size) {
            Ok(()) => Ok(()),
            Err(missing) => Err(GroupError::MissingGeometry(missing.id)),
        },
        CacheAction::Geometry(geometry) => {
            geometries.insert(member.id.clone(), geometry);
            Ok(())
        },
        CacheAction::RecordPosition(position) => {
            runtime.record_programmatic_position(member.runtime_key(), position);
            Ok(())
        },
        CacheAction::Forget => {
            let key = member.runtime_key();
            runtime.forget(key.as_str());
            Ok(())
        },
        CacheAction::RequestedPosition => Ok(()),
        CacheAction::MeasuredSize => Ok(()),
        CacheAction::RecordRequested => Ok(()),
    }
}

/// The stored notes and groups after an action.
pub open spec fn notes_after(store: StoreView, action: NoteActionView) -> StoreView {
    match action {
        NoteActionView::Write(notes) => StoreView {
            notes: notes_replaced(store.notes, notes, notes.len() as int),
            ..store
        },
        NoteActionView::Archive { id, at } => StoreView {
            notes: store.notes.insert(id, NoteView { closed_at: Some(at), ..store.notes[id] }),
            ..store
        },
        NoteActionView::Reopen(id) => StoreView {
            notes: store.notes.insert(id, NoteView { closed_at: None, ..store.notes[id] }),
            ..store
        },
        NoteActionView::Restore { id, note } => StoreView {
            notes: store.notes.insert(id, note),
            ..store
        },
        NoteActionView::SetSize { id, size } => StoreView {
            notes: store.notes.insert(id, store.notes[id].with_size(size)),
            ..store
        },
        NoteActionView::Relink { absorbed, group } => StoreView {
            groups: store.groups.remove_keys(absorbed.to_set()).insert(group.id, group),
            ..store
        },
        NoteActionView::Detach { group_id, member } => StoreView {
            groups: groups_detached(store.groups, group_id, member),
            ..store
        },
        NoteActionView::InsertGroup(group) => StoreView {
            groups: store.groups.insert(group.id, group),
            ..store
        },
        NoteActionView::RemoveGroup(id) => StoreView { groups: store.groups.remove(id), ..store },
        NoteActionView::ClearGroups => StoreView { groups: Map::empty(), ..store },
        NoteActionView::ArchiveNow(_) => store,
        NoteActionView::SetMeasuredSize(_) => store,
    }
}

/// Whether an action on the stored notes and groups is possible: a note or a
/// group has to be there to be changed.
pub open spec fn notes_possible(store: StoreView, action: NoteActionView) -> bool {
    match action {
        NoteActionView::Write(notes) => notes_present(store.notes, notes, notes.len() as int),
        NoteActionView::Archive { id, at } => store.notes.contains_key(id),
        NoteActionView::Reopen(id) => store.notes.contains_key(id),
        NoteActionView::Restore { id, note } => store.notes.contains_key(id),
        NoteActionView::SetSize { id, size } => store.notes.contains_key(id),
        NoteActionView::Detach { group_id, member } => store.groups.contains_key(group_id),
        _ => true,
    }
}

/// The first of some notes that is not in the store.
fn first_missing_note(store: &NoteStore, notes: &Vec<StoredNote>) -> (missing: Option<usize>)
    ensures
        match missing {
            Some(i) => i < notes@.len() && !store@.notes.contains_key(notes@[i as int]@.id)
                && notes_present(store@.notes, views(notes@), i as int),
            None => notes_present(store@.notes, views(notes@), notes@.len() as int),
        },
{
    let mut i: usize = 0;
    while i < notes.len()
        invariant
            i <= notes@.len(),
            notes_present(store@.notes, views(notes@), i as int),
        decreases notes.len() - i,
    {
        if !store.notes.contains_key(notes[i].id.as_str()) {
            return Some(i);
        }
        proof {
            assert(store@.notes.contains_key(views(notes@)[i as int].id));
        }
        i += 1;
    }
    None
}

/// Which note or group an action misses.
pub open spec fn is_missing_for(
    error: GroupError,
    store: StoreView,
    action: NoteActionView,
) -> bool {
    match action {
        NoteActionView::Write(notes) => error matches GroupError::MissingNote(missing) && exists|
            i: int,
        |
            {
                &&& 0 <= i < notes.len()
                &&& notes_present(store.notes, notes, i)
                &&& !store.notes.contains_key((#[trigger] notes[i]).id)
                &&& missing@ == notes[i].id
            },
        NoteActionView::Archive { id, at } => error matches GroupError::MissingNote(missing)
            && missing@ == id,
        NoteActionView::Reopen(id) => error matches GroupError::MissingNote(missing) && missing@
            == id,
        NoteActionView::Restore { id, note } => error matches GroupError::MissingNote(missing)
            && missing@ == id,
        NoteActionView::SetSize { id, size } => error matches GroupError::MissingNote(missing)
            && missing@ == id,
        NoteActionView::Detach { group_id, member } => error matches GroupError::MissingGroup(
            missing,
        ) && missing@ == group_id,
        _ => false,
    }
}

/// Performs an action on the stored notes and groups, or leaves them as they
/// are if it is not possible.
pub fn perform_on_notes(store: &mut NoteStore, action: &NoteAction) -> (performed: Result<
    (),
    GroupError,
>)
    ensures
        match performed {
            Ok(()) => notes_possible(old(store)@, action@) && final(store)@ == notes_after(
                old(store)@,
                action@,
            ),
            Err(error) => !notes_possible(old(store)@, action@) && final(store)@ == old(store)@
                && is_missing_for(error, old(store)@, action@),
        },
{
    match action {
        NoteAction::Write(notes) => match first_missing_note(store, notes) {
            Some(i) => {
                proof {
                    let viewed = views(notes@);
                    assert(!store@.notes.contains_key(viewed[i as int].id));
                }
                Err(GroupError::MissingNote(notes[i].id.clone()))
            },
            None => {
                let replaced = replace_notes(store, notes);
                proof {
                    if replaced is Err {
                        let i = choose|i: int|
                            0 <= i < notes@.len() && !old(store)@.notes.contains_key(
                                (#[trigger] notes@[i])@.id,
                            );
                        assert(old(store)@.notes.contains_key(views(notes@)[i].id));
                    }
                }
                replaced
            },
        },
        NoteAction::Archive { id, at } => change_note(store, id, NoteChange::ClosedAt(Some(*at))),
        NoteAction::Reopen(id) => change_note(store, id, NoteChange::ClosedAt(None)),
        NoteAction::SetSize { id, size } => change_note(store, id, NoteChange::Size(*size)),
        NoteAction::Restore { id, note } => {
            if store.notes.contains_key(id.as_str()) {
                store.notes.insert(id.clone(), note.clone());
                Ok(())
            } else {
                Err(GroupError::MissingNote(id.clone()))
            }
        },
        NoteAction::Relink { absorbed, group } => {
            persist_relinked_group(store, absorbed, group.id.as_str(), &group.members);
            Ok(())
        },
        NoteAction::Detach { group_id, member } => persist_group_detachment(
            store,
            group_id.as_str(),
            member,
        ),
        NoteAction::InsertGroup(group) => {
            store.groups.insert(group.id.clone(), group.clone());
            Ok(())
        },
        NoteAction::RemoveGroup(id) => {
            store.groups.remove(id.as_str());
            Ok(())
        },
        NoteAction::ClearGroups => {
            store.groups.clear();
            Ok(())
        },
        NoteAction::ArchiveNow(_) => Ok(()),
        NoteAction::SetMeasuredSize(_) => Ok(()),
    }
}

/// What is changed of one note.
#[derive(Clone, Copy)]
enum NoteChange {
    ClosedAt(Option<u64>),
    Size(LogicalSize),
}

spec fn note_changed(note: NoteView, change: NoteChange) -> NoteView {
    match change {
        NoteChange::ClosedAt(closed_at) => NoteView { closed_at, ..note },
        NoteChange::Size(size) => note.with_size(size),
    }
}

/// Changes one note of the store.
fn change_note(store: &mut NoteStore, id: &String, change: NoteChange) -> (changed: Result<
    (),
    GroupError,
>)
    ensures
        final(store)@.groups == old(store)@.groups,
        match changed {
            Ok(()) => old(store)@.notes.contains_key(id@) && final(store)@.notes == old(
                store,
            )@.notes.insert(id@, note_changed(old(store)@.notes[id@], change)),
            Err(error) => !old(store)@.notes.contains_key(id@) && final(store)@.notes == old(
                store,
            )@.notes && (error matches GroupError::MissingNote(missing) && missing@ == id@),
        },
{
    let mut note = match store.notes.get(id.as_str()) {
        Some(note) => note.clone(),
        None => {
            return Err(GroupError::MissingNote(id.clone()));
        },
    };
    match change {
        NoteChange::ClosedAt(closed_at) => {
            note.closed_at = closed_at;
        },
        NoteChange::Size(size) => {
            note.set_size(size);
        },
    }
    store.notes.insert(id.clone(), note);
    Ok(())
}

/// The stored timers after an action.
pub open spec fn timers_after(
    timers: Map<Seq<char>, TimerView>,
    action: TimerActionView,
) -> Map<Seq<char>, TimerView> {
    match action {
        TimerActionView::Write(written) => timers_replaced(timers, written, written.len() as int),
        TimerActionView::Remove(id) => timers.remove(id),
        TimerActionView::Restore(timer) => timers.insert(timer.id, timer),
    }
}

/// Whether an action on the stored timers is possible: a timer has to be there
/// to be replaced or removed.
pub open spec fn timers_possible(
    timers: Map<Seq<char>, TimerView>,
    action: TimerActionView,
) -> bool {
    match action {
        TimerActionView::Write(written) => timers_present(timers, written, written.len() as int),
        TimerActionView::Remove(id) => timers.contains_key(id),
        TimerActionView::Restore(_) => true,
    }
}

/// The first of some timers that is not in the store.
fn first_missing_timer(timers: &TimerStore, written: &Vec<StoredTimer>) -> (missing: Option<usize>)
    ensures
        match missing {
            Some(i) => i < written@.len() && !timers@.contains_key(written@[i as int]@.id)
                && timers_present(timers@, views(written@), i as int),
            None => timers_present(timers@, views(written@), written@.len() as int),
        },
{
    let mut i: usize = 0;
    while i < written.len()
        invariant
            i <= written@.len(),
            timers_present(timers@, views(written@), i as int),
        decreases written.len() - i,
    {
        if !timers.contains_key(written[i].id.as_str()) {
            return Some(i);
        }
        proof {
            assert(timers@.contains_key(views(written@)[i as int].id));
        }
        i += 1;
    }
    None
}

/// Which timer an action misses.
pub open spec fn is_missing_timer_for(
    error: GroupError,
    timers: Map<Seq<char>, TimerView>,
    action: TimerActionView,
) -> bool {
    match action {
        TimerActionView::Write(written) => error matches GroupError::MissingTimer(missing)
            && exists|i: int|
            {
                &&& 0 <= i < written.len()
                &&& timers_present(timers, written, i)
                &&& !timers.contains_key((#[trigger] written[i]).id)
                &&& missing@ == written[i].id
            },
        TimerActionView::Remove(id) => error matches GroupError::MissingTimer(missing) && missing@
            == id,
        TimerActionView::Restore(_) => false,
    }
}

/// Performs an action on the stored timers, or leaves them as they are if it is
/// not possible.
pub fn perform_on_timers(timers: &mut TimerStore, action: &TimerAction) -> (performed: Result<
    (),
    GroupError,
>)
    ensures
        match performed {
            Ok(()) => timers_possible(old(timers)@, action@) && final(timers)@ == timers_after(
                old(timers)@,
                action@,
            ),
            Err(error) => !timers_possible(old(timers)@, action@) && final(timers)@ == old(timers)@
                && is_missing_timer_for(error, old(timers)@, action@),
        },
{
    match action {
        TimerAction::Write(written) => match first_missing_timer(timers, written) {
            Some(i) => {
                proof {
                    let viewed = views(written@);
                    assert(!timers@.contains_key(viewed[i as int].id));
                }
                Err(GroupError::MissingTimer(written[i].id.clone()))
            },
            None => {
                let replaced = replace_timers(timers, written);
                proof {
                    if replaced is Err {
                        let i = choose|i: int|
                            0 <= i < written@.len() && !old(timers)@.contains_key(
                                (#[trigger] written@[i])@.id,
                            );
                        assert(old(timers)@.contains_key(views(written@)[i].id));
                    }
                }
                replaced
            },
        },
        TimerAction::Remove(id) => match timers.remove(id.as_str()) {
            Some(removed) => Ok(()),
            None => {
                proof {
                    assert(timers@ =~= old(timers)@);
                }
                Err(GroupError::MissingTimer(id.clone()))
            },
        },
        TimerAction::Restore(timer) => {
            timers.insert(timer.id.clone(), timer.clone());
            Ok(())
        },
    }
}

} // verus!
