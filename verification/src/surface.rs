//! What is stored of a window: a note or a timer with its place on the desktop.
use vstd::prelude::*;

use crate::geometry::{LogicalPosition, LogicalSize};
use crate::member::{GroupMemberKind, MemberView, StoredGroupMember};

verus! {

/// The height of a folded window.
pub const COLLAPSED_HEIGHT: u32 = 24;

/// The width of every timer.
pub const TIMER_WIDTH: u32 = 300;

/// The height of every timer that is not folded.
pub const TIMER_HEIGHT: u32 = 176;

/// The least width of a note.
pub const MIN_NOTE_WIDTH: u32 = 150;

/// The least height of a note that is not folded.
pub const MIN_NOTE_HEIGHT: u32 = 80;

/// A note as it is stored.
#[derive(Debug, PartialEq, Eq)]
pub struct StoredNote {
    pub id: String,
    /// The text of the note, as the editor serialised it.
    pub document: String,
    pub color: String,
    pub x: i32,
    pub y: i32,
    pub expanded_width: u32,
    pub expanded_height: u32,
    pub collapsed: bool,
    pub pinned: bool,
    pub font_size: u8,
    /// When the note was closed, in milliseconds of the Unix epoch; `None`
    /// while it is open.
    pub closed_at: Option<u64>,
}

/// A note, as contracts speak of it.
pub struct NoteView {
    pub id: Seq<char>,
    pub document: Seq<char>,
    pub color: Seq<char>,
    pub x: i32,
    pub y: i32,
    pub expanded_width: u32,
    pub expanded_height: u32,
    pub collapsed: bool,
    pub pinned: bool,
    pub font_size: u8,
    pub closed_at: Option<u64>,
}

impl View for StoredNote {
    type V = NoteView;

    open spec fn view(&self) -> NoteView {
        NoteView {
            id: self.id@,
            document: self.document@,
            color: self.color@,
            x: self.x,
            y: self.y,
            expanded_width: self.expanded_width,
            expanded_height: self.expanded_height,
            collapsed: self.collapsed,
            pinned: self.pinned,
            font_size: self.font_size,
            closed_at: self.closed_at,
        }
    }
}

impl Clone for StoredNote {
    fn clone(&self) -> (copy: Self)
        ensures
            copy@ == self@,
    {
        StoredNote {
            id: self.id.clone(),
            document: self.document.clone(),
            color: self.color.clone(),
            x: self.x,
            y: self.y,
            expanded_width: self.expanded_width,
            expanded_height: self.expanded_height,
            collapsed: self.collapsed,
            pinned: self.pinned,
            font_size: self.font_size,
            closed_at: self.closed_at,
        }
    }
}

/// A timer as it is stored.
#[derive(Debug, PartialEq, Eq)]
pub struct StoredTimer {
    pub id: String,
    /// What the timer counts, as the timer serialised it.
    pub countdown: String,
    pub x: i32,
    pub y: i32,
    pub collapsed: bool,
    pub pinned: bool,
}

/// A timer, as contracts speak of it.
pub struct TimerView {
    pub id: Seq<char>,
    pub countdown: Seq<char>,
    pub x: i32,
    pub y: i32,
    pub collapsed: bool,
    pub pinned: bool,
}

impl View for StoredTimer {
    type V = TimerView;

    open spec fn view(&self) -> TimerView {
        TimerView {
            id: self.id@,
            countdown: self.countdown@,
            x: self.x,
            y: self.y,
            collapsed: self.collapsed,
            pinned: self.pinned,
        }
    }
}

impl Clone for StoredTimer {
    fn clone(&self) -> (copy: Self)
        ensures
            copy@ == self@,
    {
        StoredTimer {
            id: self.id.clone(),
            countdown: self.countdown.clone(),
            x: self.x,
            y: self.y,
            collapsed: self.collapsed,
            pinned: self.pinned,
        }
    }
}

/// What is stored of a window.
#[derive(Debug, PartialEq, Eq)]
pub enum StoredSurface {
    Note(StoredNote),
    Timer(StoredTimer),
}

/// What is stored of a window, as contracts speak of it.
pub enum SurfaceView {
    Note(NoteView),
    Timer(TimerView),
}

impl View for StoredSurface {
    type V = SurfaceView;

    open spec fn view(&self) -> SurfaceView {
        match self {
            StoredSurface::Note(note) => SurfaceView::Note(note@),
            StoredSurface::Timer(timer) => SurfaceView::Timer(timer@),
        }
    }
}

impl Clone for StoredSurface {
    fn clone(&self) -> (copy: Self)
        ensures
            copy@ == self@,
    {
        match self {
            StoredSurface::Note(note) => StoredSurface::Note(note.clone()),
            StoredSurface::Timer(timer) => StoredSurface::Timer(timer.clone()),
        }
    }
}

/// The larger of two lengths.
pub open spec fn at_least(length: u32, least: u32) -> u32 {
    if length < least {
        least
    } else {
        length
    }
}

/// The larger of two lengths.
pub fn raised_to(length: u32, least: u32) -> (raised: u32)
    ensures
        raised == at_least(length, least),
{
    if length < least {
        least
    } else {
        length
    }
}

impl NoteView {
    /// The note with another expanded size, brought to the least size.
    pub open spec fn with_size(self, size: LogicalSize) -> NoteView {
        NoteView {
            expanded_width: at_least(size.width, MIN_NOTE_WIDTH),
            expanded_height: at_least(size.height, MIN_NOTE_HEIGHT),
            ..self
        }
    }
}

impl StoredNote {
    /// Gives the note another expanded size, brought to the least size.
    pub fn set_size(&mut self, size: LogicalSize)
        ensures
            final(self)@ == old(self)@.with_size(size),
    {
        self.expanded_width = raised_to(size.width, MIN_NOTE_WIDTH);
        self.expanded_height = raised_to(size.height, MIN_NOTE_HEIGHT);
    }
}

impl SurfaceView {
    /// The window that the surface belongs to.
    pub open spec fn member(self) -> MemberView {
        match self {
            SurfaceView::Note(note) => MemberView { kind: GroupMemberKind::Note, id: note.id },
            SurfaceView::Timer(timer) => MemberView { kind: GroupMemberKind::Timer, id: timer.id },
        }
    }

    pub open spec fn x(self) -> i32 {
        match self {
            SurfaceView::Note(note) => note.x,
            SurfaceView::Timer(timer) => timer.x,
        }
    }

    pub open spec fn y(self) -> i32 {
        match self {
            SurfaceView::Note(note) => note.y,
            SurfaceView::Timer(timer) => timer.y,
        }
    }

    /// Where the surface is stored to stand.
    pub open spec fn position(self) -> LogicalPosition {
        LogicalPosition { x: self.x(), y: self.y() }
    }

    pub open spec fn collapsed(self) -> bool {
        match self {
            SurfaceView::Note(note) => note.collapsed,
            SurfaceView::Timer(timer) => timer.collapsed,
        }
    }

    pub open spec fn pinned(self) -> bool {
        match self {
            SurfaceView::Note(note) => note.pinned,
            SurfaceView::Timer(timer) => timer.pinned,
        }
    }

    pub open spec fn width(self) -> u32 {
        match self {
            SurfaceView::Note(note) => at_least(note.expanded_width, MIN_NOTE_WIDTH),
            SurfaceView::Timer(_) => TIMER_WIDTH,
        }
    }

    /// The height of the surface when it is not folded.
    pub open spec fn expanded_height(self) -> u32 {
        match self {
            SurfaceView::Note(note) => at_least(note.expanded_height, MIN_NOTE_HEIGHT),
            SurfaceView::Timer(_) => TIMER_HEIGHT,
        }
    }

    /// The height of the surface as it is stored, folded or not.
    pub open spec fn durable_height(self) -> u32 {
        if self.collapsed() {
            COLLAPSED_HEIGHT
        } else {
            self.expanded_height()
        }
    }

    /// The size of the surface as it is stored.
    pub open spec fn durable_size(self) -> LogicalSize {
        LogicalSize { width: self.width(), height: self.durable_height() }
    }

    /// The surface at another place, otherwise unchanged.
    pub open spec fn at(self, x: i32, y: i32) -> SurfaceView {
        match self {
            SurfaceView::Note(note) => SurfaceView::Note(NoteView { x, y, ..note }),
            SurfaceView::Timer(timer) => SurfaceView::Timer(TimerView { x, y, ..timer }),
        }
    }

    /// The surface after it was seen with another size: a note that is not
    /// folded takes the size, anything else stays as it is.
    pub open spec fn seen_with_size(self, size: LogicalSize) -> SurfaceView {
        match self {
            SurfaceView::Note(note) => if note.collapsed {
                self
            } else {
                SurfaceView::Note(note.with_size(size))
            },
            SurfaceView::Timer(_) => self,
        }
    }

    /// The surface folded or unfolded, when it had the given size before.
    ///
    /// Folding a note keeps the width it had; unfolding it brings back the
    /// expanded size it had when it was folded.
    pub open spec fn folded(self, collapsed: bool, size: LogicalSize) -> SurfaceView {
        match self {
            SurfaceView::Note(note) => SurfaceView::Note(
                if collapsed {
                    NoteView {
                        expanded_width: at_least(size.width, MIN_NOTE_WIDTH),
                        collapsed: true,
                        ..note
                    }
                } else if !note.collapsed {
                    note.with_size(size)
                } else {
                    NoteView { collapsed: false, ..note }
                },
            ),
            SurfaceView::Timer(timer) => SurfaceView::Timer(TimerView { collapsed, ..timer }),
        }
    }
}

impl StoredSurface {
    /// The window that the surface belongs to.
    pub fn member(&self) -> (member: StoredGroupMember)
        ensures
            member@ == self@.member(),
    {
        match self {
            StoredSurface::Note(note) => StoredGroupMember::note(note.id.as_str()),
            StoredSurface::Timer(timer) => StoredGroupMember::timer(timer.id.as_str()),
        }
    }

    pub fn x(&self) -> (x: i32)
        ensures
            x == self@.x(),
    {
        match self {
            StoredSurface::Note(note) => note.x,
            StoredSurface::Timer(timer) => timer.x,
        }
    }

    pub fn y(&self) -> (y: i32)
        ensures
            y == self@.y(),
    {
        match self {
            StoredSurface::Note(note) => note.y,
            StoredSurface::Timer(timer) => timer.y,
        }
    }

    /// Where the surface is stored to stand.
    pub fn position(&self) -> (position: LogicalPosition)
        ensures
            position == self@.position(),
    {
        LogicalPosition { x: self.x(), y: self.y() }
    }

    pub fn collapsed(&self) -> (collapsed: bool)
        ensures
            collapsed == self@.collapsed(),
    {
        match self {
            StoredSurface::Note(note) => note.collapsed,
            StoredSurface::Timer(timer) => timer.collapsed,
        }
    }

    pub fn pinned(&self) -> (pinned: bool)
        ensures
            pinned == self@.pinned(),
    {
        match self {
            StoredSurface::Note(note) => note.pinned,
            StoredSurface::Timer(timer) => timer.pinned,
        }
    }

    pub fn width(&self) -> (width: u32)
        ensures
            width == self@.width(),
    {
        match self {
            StoredSurface::Note(note) => raised_to(note.expanded_width, MIN_NOTE_WIDTH),
            StoredSurface::Timer(_) => TIMER_WIDTH,
        }
    }

    /// The height of the surface when it is not folded.
    pub fn expanded_height(&self) -> (height: u32)
        ensures
            height == self@.expanded_height(),
    {
        match self {
            StoredSurface::Note(note) => raised_to(note.expanded_height, MIN_NOTE_HEIGHT),
            StoredSurface::Timer(_) => TIMER_HEIGHT,
        }
    }

    /// The height of the surface as it is stored, folded or not.
    pub fn durable_height(&self) -> (height: u32)
        ensures
            height == self@.durable_height(),
    {
        if self.collapsed() {
            COLLAPSED_HEIGHT
        } else {
            self.expanded_height()
        }
    }

    /// The size of the surface as it is stored.
    pub fn durable_size(&self) -> (size: LogicalSize)
        ensures
            size == self@.durable_size(),
    {
        LogicalSize { width: self.width(), height: self.durable_height() }
    }

    /// Moves the surface, as far as it is stored.
    pub fn set_position(&mut self, x: i32, y: i32)
        ensures
            final(self)@ == old(self)@.at(x, y),
    {
        match self {
            StoredSurface::Note(note) => {
                note.x = x;
                note.y = y;
            },
            StoredSurface::Timer(timer) => {
                timer.x = x;
                timer.y = y;
            },
        }
    }

    /// Takes over a size that the window was seen with.
    pub fn adopt_size(&mut self, size: LogicalSize)
        ensures
            final(self)@ == old(self)@.seen_with_size(size),
    {
        match self {
            StoredSurface::Note(note) => {
                if !note.collapsed {
                    note.set_size(size);
                }
            },
            StoredSurface::Timer(_) => {},
        }
    }

    /// Folds or unfolds the surface, whose size was `size` before.
    pub fn set_collapsed_and_size(&mut self, collapsed: bool, size: LogicalSize)
        ensures
            final(self)@ == old(self)@.folded(collapsed, size),
    {
        match self {
            StoredSurface::Note(note) => {
                if collapsed {
                    note.expanded_width = raised_to(size.width, MIN_NOTE_WIDTH);
                } else if !note.collapsed {
                    note.set_size(size);
                }
                note.collapsed = collapsed;
            },
            StoredSurface::Timer(timer) => {
                timer.collapsed = collapsed;
            },
        }
    }
}

/// A window is never stored smaller than its least size.
pub proof fn law_surfaces_have_a_least_size(surface: SurfaceView)
    ensures
        surface.width() >= MIN_NOTE_WIDTH,
        surface.expanded_height() >= MIN_NOTE_HEIGHT,
        surface.durable_height() >= COLLAPSED_HEIGHT,
        surface.collapsed() <==> surface.durable_height() == COLLAPSED_HEIGHT,
{
}

/// Moving a surface moves it there and leaves its window, its size and its
/// other contents alone; moving it back undoes the move.
pub proof fn law_moving_changes_only_the_place(surface: SurfaceView, x: i32, y: i32)
    ensures
        surface.at(x, y).position() == (LogicalPosition { x, y }),
        surface.at(x, y).member() == surface.member(),
        surface.at(x, y).durable_size() == surface.durable_size(),
        surface.at(x, y).pinned() == surface.pinned(),
        surface.at(x, y).at(surface.x(), surface.y()) == surface,
{
}

/// Folding a window from the size it is stored with, and unfolding it from any
/// size, gives it back its size.
pub proof fn law_unfolding_undoes_folding(surface: SurfaceView, size: LogicalSize)
    requires
        !surface.collapsed(),
    ensures
        ({
            let folded = surface.folded(true, surface.durable_size());
            &&& folded.collapsed()
            &&& folded.durable_height() == COLLAPSED_HEIGHT
            &&& folded.position() == surface.position()
            &&& !folded.folded(false, size).collapsed()
            &&& folded.folded(false, size).durable_size() == surface.durable_size()
            &&& folded.folded(false, size).position() == surface.position()
        }),
{
}

/// How large a window is, according to what is stored of it: a timer has one
/// size, a note the size it was given, at least the least one, and a folded window
/// the height of its bar.
pub proof fn law_stored_sizes(surface: SurfaceView)
    ensures
        match surface {
            SurfaceView::Note(note) => {
                &&& surface.width() >= note.expanded_width
                &&& surface.width() == note.expanded_width || surface.width() == 150
                    && note.expanded_width < 150
                &&& surface.expanded_height() == note.expanded_height || surface.expanded_height()
                    == 80 && note.expanded_height < 80
                &&& surface.expanded_height() >= note.expanded_height
            },
            SurfaceView::Timer(_) => surface.width() == 300 && surface.expanded_height() == 176,
        },
        surface.durable_height() == (if surface.collapsed() {
            24
        } else {
            surface.expanded_height()
        }),
        surface.durable_size().width == surface.width(),
        surface.durable_size().height == surface.durable_height(),
{
}

/// A size that an unfolded note is seen with becomes its size, brought to the
/// least one; a folded note keeps the size it had, and a timer its own. Nothing
/// else changes.
pub proof fn law_seen_sizes_are_adopted(surface: SurfaceView, size: LogicalSize)
    ensures
        ({
            let after = surface.seen_with_size(size);
            &&& after.member() == surface.member()
            &&& after.position() == surface.position()
            &&& after.collapsed() == surface.collapsed()
            &&& after.pinned() == surface.pinned()
            &&& match (surface, after) {
                (SurfaceView::Note(old), SurfaceView::Note(new)) => {
                    &&& new.document == old.document && new.color == old.color
                        && new.font_size == old.font_size && new.closed_at == old.closed_at
                    &&& old.collapsed ==> new == old
                    &&& !old.collapsed ==> {
                        &&& size.width >= 150 ==> new.expanded_width == size.width
                        &&& size.width < 150 ==> new.expanded_width == 150
                        &&& size.height >= 80 ==> new.expanded_height == size.height
                        &&& size.height < 80 ==> new.expanded_height == 80
                    }
                },
                (SurfaceView::Timer(old), SurfaceView::Timer(new)) => new == old,
                _ => false,
            }
        }),
{
}

/// Folding or unfolding a window does so, leaves it where it is and leaves how high
/// it is when it is not folded, and changes nothing else but, when a note is
/// folded, its width.
pub proof fn law_folding_keeps_the_expanded_height(
    surface: SurfaceView,
    collapsed: bool,
    size: LogicalSize,
)
    requires
        surface.collapsed() != collapsed,
    ensures
        ({
            let after = surface.folded(collapsed, size);
            &&& after.member() == surface.member()
            &&& after.collapsed() == collapsed
            &&& after.position() == surface.position()
            &&& after.pinned() == surface.pinned()
            &&& after.expanded_height() == surface.expanded_height()
            &&& match (surface, after) {
                (SurfaceView::Note(old), SurfaceView::Note(new)) => {
                    &&& new.document == old.document && new.color == old.color
                        && new.font_size == old.font_size && new.closed_at == old.closed_at
                    &&& !collapsed ==> new.expanded_width == old.expanded_width
                    &&& collapsed && size.width >= 150 ==> new.expanded_width == size.width
                    &&& collapsed && size.width < 150 ==> new.expanded_width == 150
                    &&& new.expanded_height == old.expanded_height
                },
                (SurfaceView::Timer(old), SurfaceView::Timer(new)) => new.countdown
                    == old.countdown,
                _ => false,
            }
        }),
{
}

} // verus!
