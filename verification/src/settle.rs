//! What a window is found to have done once it has come to rest: dragged by the
//! user, moved by the application, moved by something else, or resized.
use vstd::prelude::*;

use crate::effect::{CacheAction, Effect, EffectView, NoteAction, NoteActionView, WindowAction};
use crate::error::GroupError;
use crate::geometry::{LogicalPosition, LogicalSize, NoteGeometry, PhysicalPosition};
use crate::layout::{join_undos, same_records};
use crate::member::{label_member, MemberView, StoredGroupMember};
use crate::persist::{
    are_replaceable, is_keyed, is_write, lemma_rolled_back, lemma_writing_keeps, originals_of,
    replace_surface_batch, restore_surface_changes, rollback, surface_members, writing, written,
};
use crate::resize::{plain_step, step_of};
use crate::runtime::{GroupRuntimeState, RuntimeView};
use crate::groups::groups_detached;
use crate::store::surface_of;
use crate::surface::{
    at_least, raised_to, MIN_NOTE_HEIGHT, MIN_NOTE_WIDTH, StoredSurface, SurfaceView,
};
use crate::table::Table;
use crate::transaction::{
    begun, resolved, OnFailure, Registers, Step, StepView, Transaction, Undo, UndoView,
};
use crate::views::{group_views, views};
use crate::world::{
    keeps, lemma_keeps_add, lemma_undone_add, performed, undone, Extent, Promise, Spot, World,
};

verus! {

/// How far, in logical pixels, a window of a group can be dragged and still
/// snap back.
pub const DRAG_DETACH_THRESHOLD: i32 = 4;

/// How far, in device pixels, a window may come to rest from where the
/// application asked it to go.
pub const NATIVE_POSITION_ROUNDING_TOLERANCE: i32 = 2;

/// The absolute value of a difference.
pub open spec fn distance(a: int, b: int) -> int {
    if a < b {
        b - a
    } else {
        a - b
    }
}

/// The greater of the horizontal and the vertical distance of two points.
pub open spec fn span(ax: int, ay: int, bx: int, by: int) -> int {
    if distance(ax, bx) < distance(ay, by) {
        distance(ay, by)
    } else {
        distance(ax, bx)
    }
}

/// Whether the distances of two points are values of `i32`.
pub open spec fn span_fits(ax: int, ay: int, bx: int, by: int) -> bool {
    span(ax, ay, bx, by) <= i32::MAX
}

/// Whether the distances of two points are values of `i32`.
pub fn distances_fit(ax: i32, ay: i32, bx: i32, by: i32) -> (fit: bool)
    ensures
        fit == span_fits(ax as int, ay as int, bx as int, by as int),
{
    let x: i64 = bx as i64 - ax as i64;
    let y: i64 = by as i64 - ay as i64;
    let max: i64 = i32::MAX as i64;
    -max <= x && x <= max && -max <= y && y <= max
}

/// The greater of the horizontal and the vertical distance of two points.
fn greater_distance(ax: i32, ay: i32, bx: i32, by: i32) -> (greater: i32)
    requires
        span_fits(ax as int, ay as int, bx as int, by as int),
    ensures
        greater == span(ax as int, ay as int, bx as int, by as int),
{
    let x: i32 = if ax < bx {
        bx - ax
    } else {
        ax - bx
    };
    let y: i32 = if ay < by {
        by - ay
    } else {
        ay - by
    };
    if x < y {
        y
    } else {
        x
    }
}

/// Whether a drag from `start` to `end` takes a window out of its group.
pub open spec fn is_dragged_away(start: LogicalPosition, end: LogicalPosition) -> bool {
    span(start.x as int, start.y as int, end.x as int, end.y as int) > DRAG_DETACH_THRESHOLD
}

/// Whether a drag from `start` to `end` takes a window out of its group.
pub fn drag_exceeds_threshold(start: LogicalPosition, end: LogicalPosition) -> (exceeds: bool)
    requires
        span_fits(start.x as int, start.y as int, end.x as int, end.y as int),
    ensures
        exceeds == is_dragged_away(start, end),
{
    greater_distance(start.x, start.y, end.x, end.y) > DRAG_DETACH_THRESHOLD
}

/// Whether a window has come to rest where it was asked to go, up to rounding.
pub open spec fn is_rounded(requested: PhysicalPosition, observed: PhysicalPosition) -> bool {
    span(requested.x as int, requested.y as int, observed.x as int, observed.y as int)
        <= NATIVE_POSITION_ROUNDING_TOLERANCE
}

/// Whether a window has come to rest where it was asked to go, up to rounding.
pub fn positions_within_rounding_tolerance(
    requested: PhysicalPosition,
    observed: PhysicalPosition,
) -> (within: bool)
    requires
        span_fits(requested.x as int, requested.y as int, observed.x as int, observed.y as int),
    ensures
        within == is_rounded(requested, observed),
{
    greater_distance(requested.x, requested.y, observed.x, observed.y)
        <= NATIVE_POSITION_ROUNDING_TOLERANCE
}

/// What to make of the position that a window has come to rest at.
#[derive(Debug, Clone, Copy, PartialEq, Eq, Structural)]
pub enum PositionSettlement {
    /// The application asked for it; it is the position to keep.
    AdoptProgrammatic(PhysicalPosition),
    /// Something else moved the window.
    ExternalMove,
    /// The window is where it is stored to be.
    Unchanged,
}

/// What to make of the position `observed`, which is `observed_logical` in
/// logical pixels, of a window that is stored at `durable`.
pub open spec fn settled(
    pending: Map<Seq<char>, PhysicalPosition>,
    key: Seq<char>,
    observed: PhysicalPosition,
    observed_logical: LogicalPosition,
    durable: LogicalPosition,
) -> PositionSettlement {
    if pending.contains_key(key) {
        if is_rounded(pending[key], observed) {
            PositionSettlement::AdoptProgrammatic(observed)
        } else {
            PositionSettlement::ExternalMove
        }
    } else if observed_logical != durable {
        PositionSettlement::ExternalMove
    } else {
        PositionSettlement::Unchanged
    }
}

/// The moves that are still awaited after that.
pub open spec fn pending_after(
    pending: Map<Seq<char>, PhysicalPosition>,
    key: Seq<char>,
    observed: PhysicalPosition,
) -> Map<Seq<char>, PhysicalPosition> {
    if pending.contains_key(key) && is_rounded(pending[key], observed) {
        pending.remove(key)
    } else {
        pending
    }
}

/// Decides what to make of the position that a window has come to rest at. Only
/// a move that is adopted is no longer awaited.
pub fn position_settlement(
    programmatic_positions: &mut Table<PhysicalPosition>,
    id: &str,
    observed: PhysicalPosition,
    observed_logical: LogicalPosition,
    durable: LogicalPosition,
) -> (settlement: PositionSettlement)
    requires
        old(programmatic_positions)@.contains_key(id@) ==> {
            let requested = old(programmatic_positions)@[id@];
            span_fits(requested.x as int, requested.y as int, observed.x as int, observed.y as int)
        },
    ensures
        settlement == settled(
            old(programmatic_positions)@,
            id@,
            observed,
            observed_logical,
            durable,
        ),
        final(programmatic_positions)@ == pending_after(
            old(programmatic_positions)@,
            id@,
            observed,
        ),
{
    let requested = match programmatic_positions.get(id) {
        Some(requested) => Some(*requested),
        None => None,
    };
    match requested {
        Some(requested) => if positions_within_rounding_tolerance(requested, observed) {
            programmatic_positions.remove(id);
            PositionSettlement::AdoptProgrammatic(observed)
        } else {
            PositionSettlement::ExternalMove
        },
        None => if observed_logical != durable {
            PositionSettlement::ExternalMove
        } else {
            PositionSettlement::Unchanged
        },
    }
}

/// The window with the given label, if it is to be settled: not while the user
/// is dragging it.
pub fn window_to_settle(label: &str, runtime: &GroupRuntimeState) -> (member: Result<
    Option<StoredGroupMember>,
    GroupError,
>)
    ensures
        match label_member(label@) {
            Some(window) => match member {
                Ok(None) => runtime@.drags.contains_key(window.window_label()),
                Ok(Some(member)) => member@ == window && !runtime@.drags.contains_key(
                    window.window_label(),
                ),
                Err(_) => false,
            },
            None => member matches Err(GroupError::UnknownWindow(unknown)) && unknown@ == label@,
        },
{
    let member = match StoredGroupMember::from_window_label(label) {
        Ok(member) => member,
        Err(unknown) => {
            return Err(GroupError::UnknownWindow(unknown.label));
        },
    };
    let key = member.runtime_key();
    if runtime.is_dragging(key.as_str()) {
        Ok(None)
    } else {
        Ok(Some(member))
    }
}

/// A window that has come to rest.
pub struct Settling {
    pub member: StoredGroupMember,
    /// What is stored of the window.
    pub current: StoredSurface,
    /// Whether the window is in a group.
    pub grouped: bool,
    /// Where the window is.
    pub geometry: NoteGeometry,
    /// The same in logical pixels.
    pub position: LogicalPosition,
    pub size: LogicalSize,
    /// Where an ended drag of the window started, in logical pixels; of no
    /// meaning if there is none.
    pub drag_start: LogicalPosition,
    /// The stored position in device pixels.
    pub home: PhysicalPosition,
}

/// A window that has come to rest, as contracts speak of it.
pub struct SettlingView {
    pub member: MemberView,
    pub current: SurfaceView,
    pub grouped: bool,
    pub geometry: NoteGeometry,
    pub position: LogicalPosition,
    pub size: LogicalSize,
    pub drag_start: LogicalPosition,
    pub home: PhysicalPosition,
}

impl View for Settling {
    type V = SettlingView;

    open spec fn view(&self) -> SettlingView {
        SettlingView {
            member: self.member@,
            current: self.current@,
            grouped: self.grouped,
            geometry: self.geometry,
            position: self.position,
            size: self.size,
            drag_start: self.drag_start,
            home: self.home,
        }
    }
}

/// What is to be done once the steps of a settlement are.
#[derive(Debug, Clone, Copy, PartialEq, Eq, Structural)]
pub enum FollowUp {
    Nothing,
    /// Take the window out of its group.
    Detach,
    /// Give the window of a group the size that it was found with.
    Resize(LogicalSize),
}

/// A settlement: steps, and what is to be done after them.
pub struct Settlement {
    pub steps: Vec<Step>,
    pub follow_up: FollowUp,
}

/// The steps that store one surface, and the former one if that fails.
pub open spec fn storing(surface: SurfaceView, former: SurfaceView) -> Seq<StepView> {
    writing(seq![surface], rollback(seq![former]))
}

/// The steps that store one surface, and the former one if that fails.
fn store_surface(surface: &StoredSurface, former: &StoredSurface) -> (steps: Vec<Step>)
    ensures
        views(steps@) == storing(surface@, former@),
{
    broadcast use group_views;

    let mut new: Vec<StoredSurface> = Vec::new();
    new.push(surface.clone());
    let mut old: Vec<StoredSurface> = Vec::new();
    old.push(former.clone());
    proof {
        assert(views(new@) =~= seq![surface@]);
        assert(views(old@) =~= seq![former@]);
    }
    let unwind = restore_surface_changes(&old);
    replace_surface_batch(&new, &unwind)
}

/// The steps that put a window back to where its drag started.
pub open spec fn snapping_back(member: MemberView, origin: PhysicalPosition) -> Seq<StepView> {
    seq![
        step_of(
            EffectView::Window(member, WindowAction::MoveToPhysical(origin)),
            Seq::empty(),
        ),
        step_of(EffectView::Cache(member, CacheAction::Position(origin)), Seq::empty()),
        step_of(EffectView::Cache(member, CacheAction::RecordPosition(origin)), Seq::empty()),
    ]
}

/// The steps that put a pinned window back to where it is stored.
pub open spec fn pinning(request: SettlingView) -> Seq<StepView> {
    let member = request.member;
    seq![
        step_of(
            EffectView::Window(member, WindowAction::MoveTo(request.current.position())),
            Seq::empty(),
        ),
        step_of(EffectView::Cache(member, CacheAction::Position(request.home)), Seq::empty()),
        step_of(
            EffectView::Cache(member, CacheAction::RecordPosition(request.home)),
            Seq::empty(),
        ),
    ]
}

/// What becomes of the position, and what is stored of the window after that,
/// where `origin` is where an ended drag started.
pub open spec fn position_steps(
    request: SettlingView,
    origin: Option<PhysicalPosition>,
    settlement: PositionSettlement,
) -> (Seq<StepView>, SurfaceView) {
    match origin {
        Some(origin) => if request.geometry.position != origin {
            (snapping_back(request.member, origin), request.current)
        } else {
            (Seq::empty(), request.current)
        },
        None => match settlement {
            PositionSettlement::AdoptProgrammatic(observed) => {
                let cache = step_of(
                    EffectView::Cache(request.member, CacheAction::Position(observed)),
                    Seq::empty(),
                );
                if request.position != request.current.position() {
                    let moved = request.current.at(request.position.x, request.position.y);
                    (storing(moved, request.current).push(cache), moved)
                } else {
                    (seq![cache], request.current)
                }
            },
            PositionSettlement::ExternalMove => if request.current.pinned() {
                (pinning(request), request.current)
            } else {
                (Seq::empty(), request.current)
            },
            PositionSettlement::Unchanged => (Seq::empty(), request.current),
        },
    }
}

/// What becomes of the size: a note in no group is stored with it, otherwise as
/// it was stored before, its place included; a window of a group that is not
/// folded is resized to it.
pub open spec fn size_steps(request: SettlingView, stored: SurfaceView) -> (
    Seq<StepView>,
    FollowUp,
) {
    if request.grouped {
        if request.current.collapsed() || (request.size.width == request.current.width()
            && request.size.height == request.current.expanded_height()) {
            (Seq::empty(), FollowUp::Nothing)
        } else {
            (
                Seq::empty(),
                FollowUp::Resize(
                    LogicalSize {
                        width: at_least(request.size.width, MIN_NOTE_WIDTH),
                        height: at_least(request.size.height, MIN_NOTE_HEIGHT),
                    },
                ),
            )
        }
    } else {
        match request.current {
            SurfaceView::Note(note) => if !note.collapsed && (request.size.width
                != note.expanded_width || request.size.height != note.expanded_height) {
                (
                    storing(SurfaceView::Note(note.with_size(request.size)), stored),
                    FollowUp::Nothing,
                )
            } else {
                (Seq::empty(), FollowUp::Nothing)
            },
            SurfaceView::Timer(_) => (Seq::empty(), FollowUp::Nothing),
        }
    }
}

/// What a window that has come to rest is settled by. A drag of a window in no
/// group is stored; one of a window in a group takes it out of the group if it
/// went far enough, and is reverted if not.
pub open spec fn settlement_of(
    request: SettlingView,
    origin: Option<PhysicalPosition>,
    settlement: PositionSettlement,
) -> (Seq<StepView>, FollowUp) {
    if origin is Some && !request.grouped {
        let dropped = request.current.at(request.position.x, request.position.y).seen_with_size(
            request.size,
        );
        (storing(dropped, request.current), FollowUp::Nothing)
    } else if origin is Some && is_dragged_away(request.drag_start, request.position) {
        (Seq::empty(), FollowUp::Detach)
    } else {
        let (first, stored) = position_steps(request, origin, settlement);
        let (second, follow_up) = size_steps(request, stored);
        (first + second, follow_up)
    }
}

/// Where an ended drag of a window started.
pub open spec fn ended_drag(runtime: RuntimeView, key: Seq<char>) -> Option<PhysicalPosition> {
    if runtime.completed.contains_key(key) {
        Some(runtime.completed[key])
    } else {
        None
    }
}

/// Where an ended drag of a window started, without settling it.
pub fn ended_drag_origin(runtime: &GroupRuntimeState, member: &StoredGroupMember) -> (origin:
    Option<PhysicalPosition>)
    ensures
        origin == ended_drag(runtime@, member@.window_label()),
{
    let key = member.runtime_key();
    match runtime.completed_drag_origins.get(key.as_str()) {
        Some(origin) => Some(*origin),
        None => None,
    }
}

/// The drag memory after a window was settled.
pub open spec fn runtime_settled(
    runtime: RuntimeView,
    key: Seq<char>,
    observed: PhysicalPosition,
) -> RuntimeView {
    if runtime.completed.contains_key(key) {
        runtime.drag_taken(key)
    } else {
        RuntimeView { pending: pending_after(runtime.pending, key, observed), ..runtime }
    }
}

/// Whether every distance that settling a window asks for is a value of `i32`.
pub open spec fn settling_fits(runtime: RuntimeView, request: SettlingView) -> bool {
    let key = request.member.window_label();
    if runtime.completed.contains_key(key) {
        request.grouped ==> span_fits(
            request.drag_start.x as int,
            request.drag_start.y as int,
            request.position.x as int,
            request.position.y as int,
        )
    } else {
        runtime.pending.contains_key(key) ==> span_fits(
            runtime.pending[key].x as int,
            runtime.pending[key].y as int,
            request.geometry.position.x as int,
            request.geometry.position.y as int,
        )
    }
}

/// Whether every distance that settling a window asks for is a value of `i32`.
pub fn can_settle(runtime: &GroupRuntimeState, request: &Settling) -> (can: bool)
    ensures
        can == settling_fits(runtime@, request@),
{
    let key = request.member.runtime_key();
    match runtime.completed_drag_origins.get(key.as_str()) {
        Some(_) => !request.grouped || distances_fit(
            request.drag_start.x,
            request.drag_start.y,
            request.position.x,
            request.position.y,
        ),
        None => match runtime.programmatic_positions.get(key.as_str()) {
            Some(requested) => distances_fit(
                requested.x,
                requested.y,
                request.geometry.position.x,
                request.geometry.position.y,
            ),
            None => true,
        },
    }
}

/// Settles a window that has come to rest.
pub fn settle_window_geometry(runtime: &mut GroupRuntimeState, request: &Settling) -> (settlement:
    Settlement)
    requires
        settling_fits(old(runtime)@, request@),
    ensures
        ({
            let key = request@.member.window_label();
            let found = settlement_of(
                request@,
                ended_drag(old(runtime)@, key),
                settled(
                    old(runtime)@.pending,
                    key,
                    request@.geometry.position,
                    request@.position,
                    request@.current.position(),
                ),
            );
            &&& views(settlement.steps@) == found.0
            &&& settlement.follow_up == found.1
            &&& final(runtime)@ == runtime_settled(
                old(runtime)@,
                key,
                request@.geometry.position,
            )
        }),
{
    broadcast use group_views;

    let key = request.member.runtime_key();
    let mut steps: Vec<Step> = Vec::new();
    let mut stored = request.current.clone();
    let ghost before = runtime@;
    let ghost settlement = settled(
        before.pending,
        key@,
        request@.geometry.position,
        request@.position,
        request@.current.position(),
    );
    match runtime.take_completed_drag(key.as_str()) {
        Some(origin) => {
            if !request.grouped {
                let mut dropped = request.current.clone();
                dropped.set_position(request.position.x, request.position.y);
                dropped.adopt_size(request.size);
                return Settlement {
                    steps: store_surface(&dropped, &request.current),
                    follow_up: FollowUp::Nothing,
                };
            }
            if drag_exceeds_threshold(request.drag_start, request.position) {
                return Settlement { steps, follow_up: FollowUp::Detach };
            }
            if request.geometry.position != origin {
                steps.push(
                    plain_step(
                        Effect::Window(
                            request.member.clone(),
                            WindowAction::MoveToPhysical(origin),
                        ),
                    ),
                );
                steps.push(
                    plain_step(
                        Effect::Cache(request.member.clone(), CacheAction::Position(origin)),
                    ),
                );
                steps.push(
                    plain_step(
                        Effect::Cache(request.member.clone(), CacheAction::RecordPosition(origin)),
                    ),
                );
            }
            proof {
                assert(views(steps@) =~= position_steps(request@, Some(origin), settlement).0);
            }
        },
        None => {
            proof {
                assert(runtime@ =~= before);
            }
            let home = request.current.position();
            match position_settlement(
                &mut runtime.programmatic_positions,
                key.as_str(),
                request.geometry.position,
                request.position,
                home,
            ) {
                PositionSettlement::AdoptProgrammatic(observed) => {
                    if request.position != home {
                        let mut moved = request.current.clone();
                        moved.set_position(request.position.x, request.position.y);
                        steps = store_surface(&moved, &request.current);
                        stored = moved;
                    }
                    steps.push(
                        plain_step(
                            Effect::Cache(request.member.clone(), CacheAction::Position(observed)),
                        ),
                    );
                },
                PositionSettlement::ExternalMove => {
                    if request.current.pinned() {
                        steps.push(
                            plain_step(
                                Effect::Window(request.member.clone(), WindowAction::MoveTo(home)),
                            ),
                        );
                        steps.push(
                            plain_step(
                                Effect::Cache(
                                    request.member.clone(),
                                    CacheAction::Position(request.home),
                                ),
                            ),
                        );
                        steps.push(
                            plain_step(
                                Effect::Cache(
                                    request.member.clone(),
                                    CacheAction::RecordPosition(request.home),
                                ),
                            ),
                        );
                    }
                },
                PositionSettlement::Unchanged => {},
            }
            proof {
                assert(views(steps@) =~= position_steps(request@, None, settlement).0);
                assert(runtime@ =~= runtime_settled(before, key@, request@.geometry.position));
            }
        },
    }
    let ghost first = views(steps@);
    let follow_up = if request.grouped {
        if request.current.collapsed() || (request.size.width == request.current.width()
            && request.size.height == request.current.expanded_height()) {
            FollowUp::Nothing
        } else {
            FollowUp::Resize(
                LogicalSize {
                    width: raised_to(request.size.width, MIN_NOTE_WIDTH),
                    height: raised_to(request.size.height, MIN_NOTE_HEIGHT),
                },
            )
        }
    } else {
        match &request.current {
            StoredSurface::Note(note) => {
                if !note.collapsed && (request.size.width != note.expanded_width
                    || request.size.height != note.expanded_height) {
                    let mut sized = note.clone();
                    sized.set_size(request.size);
                    let mut writes = store_surface(&StoredSurface::Note(sized), &stored);
                    steps.append(&mut writes);
                }
            },
            StoredSurface::Timer(_) => {},
        }
        FollowUp::Nothing
    };
    proof {
        let origin = ended_drag(before, key@);
        let (own, after) = position_steps(request@, origin, settlement);
        assert(first == own);
        assert(stored@ == after);
        assert(views(steps@) =~= first + size_steps(request@, after).0);
    }
    Settlement { steps, follow_up }
}

/// The effects that bring a window back to where it is stored to be. Each needs
/// those before it: after a failure the rest is left out.
pub open spec fn returning_home(surface: SurfaceView, home: NoteGeometry) -> Seq<UndoView> {
    let member = surface.member();
    seq![
        UndoView {
            effect: EffectView::Window(member, WindowAction::Resize(surface.durable_size())),
            on_failure: OnFailure::Skip(4),
        },
        UndoView {
            effect: EffectView::Window(member, WindowAction::MoveTo(surface.position())),
            on_failure: OnFailure::Skip(3),
        },
        UndoView {
            effect: EffectView::Window(
                member,
                WindowAction::ReadScale { position: home.position, target: surface.position() },
            ),
            on_failure: OnFailure::Skip(2),
        },
        UndoView {
            effect: EffectView::Cache(member, CacheAction::Geometry(home)),
            on_failure: OnFailure::Skip(1),
        },
        UndoView {
            effect: EffectView::Cache(member, CacheAction::RecordPosition(home.position)),
            on_failure: OnFailure::Skip(0),
        },
    ]
}

/// The effects that bring a window back to where it is stored to be, which is
/// `home` in device pixels.
pub fn restore_stored_geometry(surface: &StoredSurface, home: NoteGeometry) -> (undos: Vec<Undo>)
    ensures
        views(undos@) == returning_home(surface@, home),
{
    broadcast use group_views;

    let member = surface.member();
    let mut undos: Vec<Undo> = Vec::new();
    undos.push(
        Undo {
            effect: Effect::Window(member.clone(), WindowAction::Resize(surface.durable_size())),
            on_failure: OnFailure::Skip(4),
        },
    );
    undos.push(
        Undo {
            effect: Effect::Window(member.clone(), WindowAction::MoveTo(surface.position())),
            on_failure: OnFailure::Skip(3),
        },
    );
    undos.push(
        Undo {
            effect: Effect::Window(
                member.clone(),
                WindowAction::ReadScale { position: home.position, target: surface.position() },
            ),
            on_failure: OnFailure::Skip(2),
        },
    );
    undos.push(
        Undo {
            effect: Effect::Cache(member.clone(), CacheAction::Geometry(home)),
            on_failure: OnFailure::Skip(1),
        },
    );
    undos.push(
        Undo {
            effect: Effect::Cache(member, CacheAction::RecordPosition(home.position)),
            on_failure: OnFailure::Skip(0),
        },
    );
    proof {
        assert(views(undos@) =~= returning_home(surface@, home));
    }
    undos
}

/// A window of a group that was dragged away, as it is stored from then on.
pub open spec fn detached_surface(
    previous: SurfaceView,
    position: LogicalPosition,
    size: LogicalSize,
) -> SurfaceView {
    previous.at(position.x, position.y).seen_with_size(size)
}

/// The steps that take a window out of its group: store where it was dropped,
/// then change the group.
pub open spec fn detach_plan(
    member: MemberView,
    group_id: Seq<char>,
    previous: SurfaceView,
    position: LogicalPosition,
    size: LogicalSize,
    home: NoteGeometry,
) -> Seq<StepView> {
    storing(detached_surface(previous, position, size), previous).push(
        step_of(
            EffectView::Notes(NoteActionView::Detach { group_id, member }),
            rollback(seq![previous]) + returning_home(previous, home),
        ),
    )
}

/// Takes a window out of its group that was dropped at `position` with the size
/// `size`. `previous` is what is stored of it, and `home` is where that is in
/// device pixels.
pub fn detach_member(
    member: &StoredGroupMember,
    group_id: &str,
    previous: &StoredSurface,
    position: LogicalPosition,
    size: LogicalSize,
    home: NoteGeometry,
) -> (transaction: Transaction)
    ensures
        transaction@ == begun(
            detach_plan(member@, group_id@, previous@, position, size, home),
        ),
{
    broadcast use group_views;

    let mut replacement = previous.clone();
    replacement.set_position(position.x, position.y);
    replacement.adopt_size(size);
    let mut steps = store_surface(&replacement, previous);
    let mut former: Vec<StoredSurface> = Vec::new();
    former.push(previous.clone());
    proof {
        assert(views(former@) =~= seq![previous@]);
    }
    steps.push(
        Step {
            effect: Effect::Notes(
                NoteAction::Detach { group_id: group_id.to_owned(), member: member.clone() },
            ),
            only_if_moving: false,
            unwind: join_undos(
                restore_surface_changes(&former),
                &restore_stored_geometry(previous, home),
            ),
        },
    );
    Transaction::begin(steps)
}

/// What taking a window out of its group promises: it is stored where it was
/// dropped and out of the group; or, after a failure, what is stored is as
/// before, and, if the group could not be changed, the window is asked to go
/// back to where it is stored to be.
pub open spec fn detach_promise(
    member: MemberView,
    group_id: Seq<char>,
    previous: SurfaceView,
    position: LogicalPosition,
    size: LogicalSize,
    home: NoteGeometry,
    before: World,
    whole: bool,
) -> Promise {
    Promise {
        done: |w: World|
            {
                let stored = written(
                    before,
                    seq![detached_surface(previous, position, size)],
                );
                &&& w.timers == stored.timers
                &&& w.store.notes == stored.store.notes
                &&& w.store.groups == groups_detached(before.store.groups, group_id, member)
                &&& w.windows == before.windows
                &&& w.geometries == before.geometries
            },
        home: |w: World|
            {
                &&& same_records(w, before)
                &&& whole ==> {
                    let window = w.windows[member.window_label()];
                    &&& window.position == Spot::Logical(previous.position())
                    &&& window.size == Extent::Logical(previous.durable_size())
                    &&& w.geometries == before.geometries.insert(member.id, home)
                    &&& w.runtime.pending.contains_key(member.window_label())
                    &&& w.runtime.pending[member.window_label()] == home.position
                }
            },
        exempt: |effect: EffectView| whole && is_write(effect),
    }
}

/// Taking a window out of its group is done as a whole or not at all: see
/// `detach_promise`.
pub proof fn law_detaching_is_all_or_nothing(
    member: MemberView,
    group_id: Seq<char>,
    previous: SurfaceView,
    position: LogicalPosition,
    size: LogicalSize,
    home: NoteGeometry,
    before: World,
    whole: bool,
)
    requires
        previous.member() == member,
        surface_of(before.store.notes, before.timers, member) == Some(previous),
        is_keyed(before.store.notes, before.timers),
    ensures
        keeps(
            detach_plan(member, group_id, previous, position, size, home),
            0,
            before,
            detach_promise(
                member,
                group_id,
                previous,
                position,
                size,
                home,
                before,
                whole,
            ),
        ),
{
    let promise = detach_promise(
        member,
        group_id,
        previous,
        position,
        size,
        home,
        before,
        whole,
    );
    let dropped = detached_surface(previous, position, size);
    let replacements = seq![dropped];
    let notes = before.store.notes;
    let timers = before.timers;
    assert(surface_members(replacements) =~= seq![member]);
    assert(originals_of(notes, timers, replacements) =~= seq![previous]);
    assert(are_replaceable(before, replacements)) by {
        assert(surface_members(replacements)[0] == member);
    }
    let none = Seq::<UndoView>::empty();
    let first = storing(dropped, previous);
    assert(rollback(seq![previous]) + none =~= rollback(seq![previous]));
    let last = step_of(
        EffectView::Notes(NoteActionView::Detach { group_id, member }),
        rollback(seq![previous]) + returning_home(previous, home),
    );
    let stored = Promise {
        done: |w: World| w == written(before, replacements),
        ..promise
    };
    assert(undone(before, none) == before);
    lemma_writing_keeps(before, replacements, none, stored);
    assert forall|w: World| #[trigger] (stored.done)(w) implies keeps(seq![last], 0, w, promise) by {
        lemma_rolled_back(before, replacements, true, true);
        lemma_undone_add(w, rollback(seq![previous]), returning_home(previous, home));
        lemma_returned_home(before, previous, home);
        assert forall|registers: Registers|
            keeps(
                seq![last],
                1,
                performed(w, #[trigger] resolved(last.effect, registers)),
                promise,
            ) by {}
    }
    lemma_keeps_add(first, seq![last], 0, before, stored, promise);
    assert(first + seq![last] =~= first.push(last));
}

proof fn lemma_returned_home(world: World, surface: SurfaceView, home: NoteGeometry)
    ensures
        ({
            let label = surface.member().window_label();
            let after = undone(world, returning_home(surface, home));
            &&& same_records(after, world)
            &&& after.windows[label].position == Spot::Logical(surface.position())
            &&& after.windows[label].size == Extent::Logical(surface.durable_size())
            &&& after.geometries == world.geometries.insert(surface.member().id, home)
            &&& after.runtime.pending.contains_key(label)
            &&& after.runtime.pending[label] == home.position
        }),
{
    reveal_with_fuel(undone, 6);
    let undos = returning_home(surface, home);
    let four = undos.drop_last();
    let three = four.drop_last();
    let two = three.drop_last();
    let one = two.drop_last();
    assert(one.drop_last() =~= Seq::empty());
    assert(one.last() == undos[0] && two.last() == undos[1] && three.last() == undos[2]
        && four.last() == undos[3] && undos.last() == undos[4]);
}

/// A move that something else made does not make the application forget where
/// it asked the window to go; a move that is adopted is no longer awaited.
pub proof fn law_only_adopted_moves_are_settled(
    pending: Map<Seq<char>, PhysicalPosition>,
    key: Seq<char>,
    observed: PhysicalPosition,
    observed_logical: LogicalPosition,
    durable: LogicalPosition,
)
    ensures
        match settled(pending, key, observed, observed_logical, durable) {
            PositionSettlement::AdoptProgrammatic(adopted) => {
                &&& adopted == observed
                &&& !pending_after(pending, key, observed).contains_key(key)
                &&& forall|other: Seq<char>|
                    other != key && #[trigger] pending.contains_key(other) ==> pending_after(
                        pending,
                        key,
                        observed,
                    ).contains_key(other)
            },
            _ => pending_after(pending, key, observed) == pending,
        },
{
}

/// A window of a group that was dragged no farther than the threshold stays in
/// it: it is put back to where the drag started, unless it is there.
pub proof fn law_short_drags_are_reverted(
    request: SettlingView,
    origin: PhysicalPosition,
    settlement: PositionSettlement,
)
    requires
        request.grouped,
        !is_dragged_away(request.drag_start, request.position),
    ensures
        ({
            let (steps, follow_up) = settlement_of(request, Some(origin), settlement);
            &&& follow_up != FollowUp::Detach
            &&& steps == (if request.geometry.position == origin {
                Seq::empty()
            } else {
                snapping_back(request.member, origin)
            })
        }),
{
    let (steps, follow_up) = settlement_of(request, Some(origin), settlement);
    assert(steps =~= (if request.geometry.position == origin {
        Seq::empty()
    } else {
        snapping_back(request.member, origin)
    }));
}

/// A pinned window that something else moved is put back to where it is stored
/// to be.
pub proof fn law_pinned_windows_are_put_back(request: SettlingView)
    requires
        request.current.pinned(),
    ensures
        ({
            let (steps, follow_up) = settlement_of(
                request,
                None,
                PositionSettlement::ExternalMove,
            );
            &&& steps.len() >= 3
            &&& steps.take(3) == pinning(request)
        }),
{
    let (steps, follow_up) = settlement_of(request, None, PositionSettlement::ExternalMove);
    assert(steps.take(3) =~= pinning(request));
}

/// A window that rests where it is stored to be, with its stored size, is left alone.
pub proof fn law_settled_windows_are_left_alone(
    request: SettlingView,
    pending: Map<Seq<char>, PhysicalPosition>,
)
    requires
        !pending.contains_key(request.member.window_label()),
        request.position == request.current.position(),
        match request.current {
            SurfaceView::Note(note) => request.size.width == note.expanded_width
                && request.size.height == note.expanded_height && request.size.width
                >= MIN_NOTE_WIDTH && request.size.height >= MIN_NOTE_HEIGHT,
            SurfaceView::Timer(_) => request.size.width == request.current.width()
                && request.size.height == request.current.expanded_height(),
        },
    ensures
        settlement_of(
            request,
            None,
            settled(
                pending,
                request.member.window_label(),
                request.geometry.position,
                request.position,
                request.current.position(),
            ),
        ) == (Seq::<StepView>::empty(), FollowUp::Nothing),
{
    let found = settlement_of(request, None, PositionSettlement::Unchanged);
    assert(found.0 =~= Seq::empty());
}

} // verus!
