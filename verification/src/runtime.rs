//! What is remembered of windows between two events of the window system:
//! drags by the user, and moves that the application asked for itself.
use vstd::prelude::*;

use crate::error::GroupError;
use crate::geometry::{GeometryIndex, PhysicalPosition};
use crate::member::{label_member, StoredGroupMember};
use crate::table::Table;

verus! {

/// Drags and pending moves, by the key of the window.
pub struct GroupRuntimeState {
    /// Where the windows that are being dragged started.
    pub drag_origins: Table<PhysicalPosition>,
    /// Where the windows started whose drag has ended but not been settled.
    pub completed_drag_origins: Table<PhysicalPosition>,
    /// Where the application last asked a window to go, until it is seen there.
    pub programmatic_positions: Table<PhysicalPosition>,
}

/// Drags and pending moves, as contracts speak of them.
#[verifier::ext_equal]
pub struct RuntimeView {
    pub drags: Map<Seq<char>, PhysicalPosition>,
    pub completed: Map<Seq<char>, PhysicalPosition>,
    pub pending: Map<Seq<char>, PhysicalPosition>,
}

impl View for GroupRuntimeState {
    type V = RuntimeView;

    open spec fn view(&self) -> RuntimeView {
        RuntimeView {
            drags: self.drag_origins@,
            completed: self.completed_drag_origins@,
            pending: self.programmatic_positions@,
        }
    }
}

impl RuntimeView {
    /// A drag of the window starts at `origin`; what was known of it before is void.
    pub open spec fn drag_begun(self, key: Seq<char>, origin: PhysicalPosition) -> RuntimeView {
        RuntimeView {
            drags: self.drags.insert(key, origin),
            completed: self.completed.remove(key),
            pending: self.pending.remove(key),
        }
    }

    /// The drag of the window is given up.
    pub open spec fn drag_cancelled(self, key: Seq<char>) -> RuntimeView {
        RuntimeView { drags: self.drags.remove(key), ..self }
    }

    /// The drag of the window has ended and waits to be settled.
    pub open spec fn drag_completed(self, key: Seq<char>) -> RuntimeView {
        RuntimeView {
            drags: self.drags.remove(key),
            completed: self.completed.insert(key, self.drags[key]),
            ..self
        }
    }

    /// The ended drag of the window is settled.
    pub open spec fn drag_taken(self, key: Seq<char>) -> RuntimeView {
        RuntimeView { completed: self.completed.remove(key), ..self }
    }

    /// The application has asked the window to go to `position`.
    pub open spec fn move_recorded(self, key: Seq<char>, position: PhysicalPosition) -> RuntimeView {
        RuntimeView {
            completed: self.completed.remove(key),
            pending: self.pending.insert(key, position),
            ..self
        }
    }

    /// The window is gone.
    pub open spec fn forgotten(self, key: Seq<char>) -> RuntimeView {
        RuntimeView {
            drags: self.drags.remove(key),
            completed: self.completed.remove(key),
            pending: self.pending.remove(key),
        }
    }

    /// Whether no window waits both for the end of a drag to be settled and for
    /// a move of the application to be seen.
    pub open spec fn is_unambiguous(self) -> bool {
        forall|key: Seq<char>| #[trigger]
            self.completed.contains_key(key) ==> !self.pending.contains_key(key)
    }
}

impl Default for GroupRuntimeState {
    fn default() -> (state: Self)
        ensures
            state@ == (RuntimeView {
                drags: Map::empty(),
                completed: Map::empty(),
                pending: Map::empty(),
            }),
    {
        GroupRuntimeState {
            drag_origins: Table::new(),
            completed_drag_origins: Table::new(),
            programmatic_positions: Table::new(),
        }
    }
}

impl GroupRuntimeState {
    /// Notes that the user starts to drag a window.
    pub fn begin_user_drag(&mut self, id: String, origin: PhysicalPosition)
        ensures
            final(self)@ == old(self)@.drag_begun(id@, origin),
    {
        self.completed_drag_origins.remove(id.as_str());
        self.programmatic_positions.remove(id.as_str());
        self.drag_origins.insert(id, origin);
    }

    /// Notes that a drag did not take place.
    pub fn cancel_user_drag(&mut self, id: &str)
        ensures
            final(self)@ == old(self)@.drag_cancelled(id@),
    {
        self.drag_origins.remove(id);
    }

    /// Notes that a drag has ended.
    pub fn complete_user_drag(&mut self, id: &str) -> (completed: Result<(), GroupError>)
        ensures
            match completed {
                Ok(()) => old(self)@.drags.contains_key(id@) && final(self)@ == old(
                    self,
                )@.drag_completed(id@),
                Err(error) => !old(self)@.drags.contains_key(id@) && final(self)@ == old(self)@
                    && (error matches GroupError::MissingDrag(key) && key@ == id@),
            },
    {
        match self.drag_origins.remove(id) {
            Some(origin) => {
                self.completed_drag_origins.insert(id.to_owned(), origin);
                Ok(())
            },
            None => {
                proof {
                    assert(self@ =~= old(self)@);
                }
                Err(GroupError::MissingDrag(id.to_owned()))
            },
        }
    }

    /// Hands out where an ended drag started, once.
    pub fn take_completed_drag(&mut self, id: &str) -> (origin: Option<PhysicalPosition>)
        ensures
            final(self)@ == old(self)@.drag_taken(id@),
            match origin {
                Some(origin) => old(self)@.completed.contains_key(id@) && origin == old(
                    self,
                )@.completed[id@],
                None => !old(self)@.completed.contains_key(id@),
            },
    {
        self.completed_drag_origins.remove(id)
    }

    /// Notes that the application asked a window to go to `position`.
    pub fn record_programmatic_position(&mut self, id: String, position: PhysicalPosition)
        ensures
            final(self)@ == old(self)@.move_recorded(id@, position),
    {
        self.completed_drag_origins.remove(id.as_str());
        self.programmatic_positions.insert(id, position);
    }

    /// Whether the user is dragging a window.
    pub fn is_dragging(&self, id: &str) -> (dragging: bool)
        ensures
            dragging == self@.drags.contains_key(id@),
    {
        self.drag_origins.contains_key(id)
    }

    /// Drops everything about a window that is gone.
    pub fn forget(&mut self, id: &str)
        ensures
            final(self)@ == old(self)@.forgotten(id@),
    {
        self.drag_origins.remove(id);
        self.completed_drag_origins.remove(id);
        self.programmatic_positions.remove(id);
    }
}

/// A drag that is about to start.
pub struct DragStart {
    /// The key of the window.
    pub key: String,
    /// Where the window is.
    pub origin: PhysicalPosition,
}

/// Where a drag of the window with the given label starts.
pub fn drag_start(geometries: &GeometryIndex, label: &str) -> (start: Result<
    DragStart,
    GroupError,
>)
    ensures
        match start {
            Ok(start) => {
                &&& label_member(label@) matches Some(member)
                &&& geometries@.contains_key(member.id)
                &&& start.key@ == member.window_label()
                &&& start.origin == geometries@[member.id].position
            },
            Err(GroupError::UnknownWindow(unknown)) => unknown@ == label@ && label_member(
                label@,
            ) is None,
            Err(GroupError::MissingGeometry(id)) => {
                &&& label_member(label@) matches Some(member)
                &&& id@ == member.id
                &&& !geometries@.contains_key(member.id)
            },
            Err(_) => false,
        },
{
    match StoredGroupMember::from_window_label(label) {
        Ok(member) => match geometries.get(member.id.as_str()) {
            Ok(geometry) => Ok(
                DragStart { key: member.runtime_key(), origin: geometry.position },
            ),
            Err(missing) => Err(GroupError::MissingGeometry(missing.id)),
        },
        Err(unknown) => Err(GroupError::UnknownWindow(unknown.label)),
    }
}

/// How a drag went wrong.
pub enum DragError<E> {
    /// The drag itself failed.
    Native(E),
    /// The drag was not known to be in progress when it ended.
    Lost(GroupError),
}

/// What is remembered after a drag that succeeded or failed.
pub open spec fn dragged(
    state: RuntimeView,
    key: Seq<char>,
    origin: PhysicalPosition,
    succeeded: bool,
) -> RuntimeView {
    if succeeded {
        state.drag_begun(key, origin).drag_completed(key)
    } else {
        state.drag_begun(key, origin).drag_cancelled(key)
    }
}

/// Lets the user drag a window: `drag` returns when the mouse button is up. A
/// drag that succeeded waits to be settled; one that failed leaves no trace but
/// that an earlier drag or move of the window is no longer awaited.
pub fn run_window_drag<E, F: FnOnce() -> Result<(), E>>(
    runtime: &mut GroupRuntimeState,
    start: DragStart,
    drag: F,
) -> (outcome: Result<(), DragError<E>>)
    requires
        drag.requires(()),
    ensures
        match outcome {
            Ok(done) => drag.ensures((), Ok(done)) && final(runtime)@ == dragged(
                old(runtime)@,
                start.key@,
                start.origin,
                true,
            ),
            Err(DragError::Native(error)) => drag.ensures((), Err(error)) && final(runtime)@
                == dragged(old(runtime)@, start.key@, start.origin, false),
            Err(DragError::Lost(_)) => false,
        },
{
    let key = start.key.clone();
    runtime.begin_user_drag(start.key, start.origin);
    let result = drag();
    match result {
        Ok(done) => match runtime.complete_user_drag(key.as_str()) {
            Ok(()) => Ok(done),
            Err(error) => Err(DragError::Lost(error)),
        },
        Err(error) => {
            runtime.cancel_user_drag(key.as_str());
            Err(DragError::Native(error))
        },
    }
}

/// A completed drag hands out the position that it started from, once, and
/// leaves nothing else of the window behind; other windows are not concerned.
pub proof fn law_drag_hands_out_its_origin_once(
    state: RuntimeView,
    key: Seq<char>,
    other: Seq<char>,
    origin: PhysicalPosition,
)
    ensures
        ({
            let waiting = dragged(state, key, origin, true);
            let settled = waiting.drag_taken(key);
            &&& waiting.completed.contains_key(key)
            &&& waiting.completed[key] == origin
            &&& !waiting.pending.contains_key(key)
            &&& settled == state.forgotten(key)
            &&& other != key ==> {
                &&& waiting.drags.contains_key(other) == state.drags.contains_key(other)
                &&& waiting.completed.contains_key(other) == state.completed.contains_key(other)
                &&& waiting.pending.contains_key(other) == state.pending.contains_key(other)
                &&& waiting.drags[other] == state.drags[other]
                &&& waiting.completed[other] == state.completed[other]
                &&& waiting.pending[other] == state.pending[other]
            }
        }),
{
    assert(dragged(state, key, origin, true).drag_taken(key) =~= state.forgotten(key));
}

/// A failed drag leaves the window as if nothing had been known of it.
pub proof fn law_failed_drag_leaves_no_drag(
    state: RuntimeView,
    key: Seq<char>,
    origin: PhysicalPosition,
)
    ensures
        dragged(state, key, origin, false) == state.forgotten(key),
{
    assert(dragged(state, key, origin, false) =~= state.forgotten(key));
}

/// A move that the application asks for replaces an ended drag, and a drag
/// replaces an awaited move: no operation makes a window wait for both.
pub proof fn law_runtime_stays_unambiguous(
    state: RuntimeView,
    key: Seq<char>,
    position: PhysicalPosition,
    succeeded: bool,
)
    requires
        state.is_unambiguous(),
    ensures
        state.move_recorded(key, position).is_unambiguous(),
        dragged(state, key, position, succeeded).is_unambiguous(),
        state.drag_taken(key).is_unambiguous(),
        state.forgotten(key).is_unambiguous(),
{
}

/// A move that the application asks for is awaited where it was asked for, and an
/// ended drag of the window is settled by it; a drag in progress goes on, and other
/// windows are not concerned.
pub proof fn law_asked_moves_are_awaited(
    state: RuntimeView,
    key: Seq<char>,
    other: Seq<char>,
    position: PhysicalPosition,
)
    ensures
        ({
            let asked = state.move_recorded(key, position);
            &&& asked.pending.contains_key(key)
            &&& asked.pending[key] == position
            &&& !asked.completed.contains_key(key)
            &&& asked.drags == state.drags
            &&& other != key ==> {
                &&& asked.completed.contains_key(other) == state.completed.contains_key(other)
                &&& asked.completed[other] == state.completed[other]
                &&& asked.pending.contains_key(other) == state.pending.contains_key(other)
                &&& asked.pending[other] == state.pending[other]
            }
        }),
{
}

/// Of a window that is gone nothing is remembered; other windows are not concerned.
pub proof fn law_nothing_is_remembered_of_gone_windows(
    state: RuntimeView,
    key: Seq<char>,
    other: Seq<char>,
)
    ensures
        ({
            let left = state.forgotten(key);
            &&& !left.drags.contains_key(key)
            &&& !left.completed.contains_key(key)
            &&& !left.pending.contains_key(key)
            &&& other != key ==> {
                &&& left.drags.contains_key(other) == state.drags.contains_key(other)
                &&& left.drags[other] == state.drags[other]
                &&& left.completed.contains_key(other) == state.completed.contains_key(other)
                &&& left.completed[other] == state.completed[other]
                &&& left.pending.contains_key(other) == state.pending.contains_key(other)
                &&& left.pending[other] == state.pending[other]
            }
        }),
{
}

} // verus!
