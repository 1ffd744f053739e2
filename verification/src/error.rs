//! Why an operation on windows and groups was refused.
use vstd::prelude::*;

use crate::member::StoredGroupMember;
use crate::reset::ResetError;

verus! {

/// Why an operation on windows and groups was refused before it began.
#[derive(Debug, PartialEq, Eq)]
pub enum GroupError {
    /// A window label names neither a note nor a timer.
    UnknownWindow(String),
    /// No geometry is cached for the window with this identifier.
    MissingGeometry(String),
    /// An active window is not open.
    MissingWindow(StoredGroupMember),
    /// No note has this identifier.
    MissingNote(String),
    /// No timer has this identifier.
    MissingTimer(String),
    /// No group has this identifier.
    MissingGroup(String),
    /// No drag of the window with this key is in progress.
    MissingDrag(String),
    /// The centre of the window to link below lies on another display.
    ParentOutsideMonitor,
    /// No other window can be linked.
    NothingToLink,
    /// A group has no active member.
    NoActiveMembers,
    /// The window is in no linked group.
    NotLinked,
    /// The window is not among the active windows of its group.
    NotActive,
    /// No note or timer has the focus.
    NothingFocused,
    /// There is no note to restore.
    NothingToRestore,
    /// A position of a layout is no value of `i32`.
    PositionOutOfRange,
    /// The windows do not fit the work area.
    Reset(ResetError),
}

} // verus!
