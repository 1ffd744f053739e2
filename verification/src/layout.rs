//! Windows stacked below each other: where they are, where they go, and the
//! steps that take them there or bring them back.
use vstd::prelude::*;

use crate::arrange::{arranged_positions, is_arranged, stack_fits};
use crate::effect::{CacheAction, Effect, EffectView, WindowAction};
use crate::error::GroupError;
use crate::geometry::{GeometryIndex, LogicalPosition, NoteGeometry, PhysicalPosition, PhysicalSize};
use crate::groups::contains_text;
use crate::member::{MemberView, StoredGroupMember};
use crate::store::{
    is_missing_surface, stored_surface, stored_surfaces, surface_of, surfaces_known, surfaces_of,
    TimerStore,
};
use crate::surface::{NoteView, StoredNote, StoredSurface, SurfaceView, TimerView};
use crate::table::Table;
use crate::transaction::{
    copy_undos, due, registers_after, resolved, Event, OnFailure, Registers, Stage, Step, StepView,
    TransactionView, Undo, UndoView,
};
use crate::views::{group_views, views};
use crate::world::{
    keeps, lemma_played_add, lemma_undone_add, performed, played, undone, Extent, Promise, Spot,
    WindowState, World,
};

verus! {

/// A window as it was found before an operation.
pub struct WindowSnapshot {
    pub member: StoredGroupMember,
    pub position: PhysicalPosition,
    pub size: PhysicalSize,
}

/// A window as it was found before an operation, as contracts speak of it.
pub struct SnapshotView {
    pub member: MemberView,
    pub position: PhysicalPosition,
    pub size: PhysicalSize,
}

impl View for WindowSnapshot {
    type V = SnapshotView;

    open spec fn view(&self) -> SnapshotView {
        SnapshotView { member: self.member@, position: self.position, size: self.size }
    }
}

impl Clone for WindowSnapshot {
    fn clone(&self) -> (copy: Self)
        ensures
            copy@ == self@,
    {
        WindowSnapshot { member: self.member.clone(), position: self.position, size: self.size }
    }
}

impl SnapshotView {
    /// The geometry of the window.
    pub open spec fn geometry(self) -> NoteGeometry {
        NoteGeometry { position: self.position, size: self.size }
    }
}

/// Whether the first `n` windows of a list are open and have a cached geometry.
pub open spec fn windows_known(
    open_labels: Seq<Seq<char>>,
    geometries: Map<Seq<char>, NoteGeometry>,
    members: Seq<MemberView>,
    n: int,
) -> bool {
    forall|i: int|
        0 <= i < n ==> open_labels.contains((#[trigger] members[i]).window_label())
            && geometries.contains_key(members[i].id)
}

/// The windows of a list with their cached geometries.
pub open spec fn snapshots_of(
    geometries: Map<Seq<char>, NoteGeometry>,
    members: Seq<MemberView>,
) -> Seq<SnapshotView> {
    Seq::new(
        members.len(),
        |i: int|
            SnapshotView {
                member: members[i],
                position: geometries[members[i].id].position,
                size: geometries[members[i].id].size,
            },
    )
}

/// Looks up where the windows of a list are. Every one has to be open.
pub fn snapshots_for_members(
    open_labels: &Vec<String>,
    geometries: &GeometryIndex,
    members: &Vec<StoredGroupMember>,
) -> (snapshots: Result<Vec<WindowSnapshot>, GroupError>)
    ensures
        match snapshots {
            Ok(snapshots) => {
                &&& windows_known(
                    views(open_labels@),
                    geometries@,
                    views(members@),
                    members@.len() as int,
                )
                &&& views(snapshots@) == snapshots_of(geometries@, views(members@))
            },
            Err(GroupError::MissingWindow(missing)) => exists|i: int|
                {
                    &&& 0 <= i < members@.len()
                    &&& windows_known(views(open_labels@), geometries@, views(members@), i)
                    &&& missing@ == (#[trigger] members@[i])@
                    &&& !views(open_labels@).contains(members@[i]@.window_label())
                },
            Err(GroupError::MissingGeometry(id)) => exists|i: int|
                {
                    &&& 0 <= i < members@.len()
                    &&& windows_known(views(open_labels@), geometries@, views(members@), i)
                    &&& views(open_labels@).contains((#[trigger] members@[i])@.window_label())
                    &&& !geometries@.contains_key(members@[i]@.id)
                    &&& id@ == members@[i]@.id
                },
            Err(_) => false,
        },
{
    let ghost viewed = views(members@);
    let mut snapshots: Vec<WindowSnapshot> = Vec::new();
    let mut i: usize = 0;
    while i < members.len()
        invariant
            viewed == views(members@),
            i <= members@.len(),
            windows_known(views(open_labels@), geometries@, viewed, i as int),
            views(snapshots@) == snapshots_of(geometries@, viewed.take(i as int)),
        decreases members.len() - i,
    {
        let label = members[i].window_label();
        if !contains_text(open_labels, &label) {
            return Err(GroupError::MissingWindow(members[i].clone()));
        }
        let geometry = match geometries.get(members[i].id.as_str()) {
            Ok(geometry) => geometry,
            Err(missing) => {
                return Err(GroupError::MissingGeometry(missing.id));
            },
        };
        let ghost before = snapshots@;
        snapshots.push(
            WindowSnapshot {
                member: members[i].clone(),
                position: geometry.position,
                size: geometry.size,
            },
        );
        proof {
            broadcast use group_views;

            assert(viewed[i as int] == members@[i as int]@);
            assert(views(snapshots@) =~= snapshots_of(geometries@, viewed.take(i + 1)));
        }
        i += 1;
    }
    proof {
        assert(viewed.take(members@.len() as int) =~= viewed);
    }
    Ok(snapshots)
}

/// Windows and the positions they are to take, one for each.
pub struct GroupLayout {
    snapshots: Vec<WindowSnapshot>,
    targets: Vec<LogicalPosition>,
}

/// Windows and the positions they are to take, as contracts speak of them.
pub struct LayoutView {
    pub snapshots: Seq<SnapshotView>,
    pub targets: Seq<LogicalPosition>,
}

impl View for GroupLayout {
    type V = LayoutView;

    closed spec fn view(&self) -> LayoutView {
        LayoutView { snapshots: views(self.snapshots@), targets: self.targets@ }
    }
}

/// The layout of no windows.
pub open spec fn no_layout() -> LayoutView {
    LayoutView { snapshots: Seq::empty(), targets: Seq::empty() }
}

/// The heights that the windows of a list have according to what is stored of them.
pub open spec fn durable_heights(surfaces: Seq<SurfaceView>) -> Seq<u32> {
    Seq::new(surfaces.len(), |i: int| surfaces[i].durable_height())
}

/// The windows of a list of snapshots.
pub open spec fn members_of(snapshots: Seq<SnapshotView>) -> Seq<MemberView> {
    Seq::new(snapshots.len(), |i: int| snapshots[i].member)
}

/// Whether a layout stacks windows from `origin` downwards, each as high as it
/// is stored.
pub open spec fn is_stacked(
    layout: LayoutView,
    snapshots: Seq<SnapshotView>,
    origin: LogicalPosition,
    notes: Map<Seq<char>, NoteView>,
    timers: Map<Seq<char>, TimerView>,
) -> bool {
    &&& layout.snapshots == snapshots
    &&& is_arranged(
        origin,
        durable_heights(surfaces_of(notes, timers, members_of(snapshots))),
        layout.targets,
    )
}

impl GroupLayout {
    #[verifier::type_invariant]
    spec fn every_window_has_a_target(self) -> bool {
        self.snapshots@.len() == self.targets@.len()
    }

    /// The layout of no windows.
    pub fn none() -> (layout: Self)
        ensures
            layout@ == no_layout(),
    {
        let layout = GroupLayout { snapshots: Vec::new(), targets: Vec::new() };
        proof {
            assert(layout@.snapshots =~= Seq::empty());
            assert(layout@.targets =~= Seq::empty());
        }
        layout
    }

    /// The windows of the layout.
    pub fn snapshots(&self) -> (snapshots: &Vec<WindowSnapshot>)
        ensures
            views(snapshots@) == self@.snapshots,
            self@.snapshots.len() == self@.targets.len(),
    {
        proof {
            use_type_invariant(self);
        }
        &self.snapshots
    }

    /// The positions that the windows are to take.
    pub fn targets(&self) -> (targets: &Vec<LogicalPosition>)
        ensures
            targets@ == self@.targets,
            self@.snapshots.len() == self@.targets.len(),
    {
        proof {
            use_type_invariant(self);
        }
        &self.targets
    }
}

/// The windows of a list of snapshots.
fn snapshot_members(snapshots: &Vec<WindowSnapshot>) -> (members: Vec<StoredGroupMember>)
    ensures
        views(members@) == members_of(views(snapshots@)),
{
    let mut members: Vec<StoredGroupMember> = Vec::new();
    let mut i: usize = 0;
    while i < snapshots.len()
        invariant
            i <= snapshots@.len(),
            members@.len() == i,
            forall|j: int|
                0 <= j < i ==> (#[trigger] members@[j])@ == views(snapshots@)[j].member,
        decreases snapshots.len() - i,
    {
        members.push(snapshots[i].member.clone());
        i += 1;
    }
    proof {
        assert(views(members@) =~= members_of(views(snapshots@)));
    }
    members
}

/// Stacks windows from `origin` downwards, each as high as it is stored.
pub fn layout_for_members_at_origin(
    snapshots: Vec<WindowSnapshot>,
    origin: LogicalPosition,
    notes: &Table<StoredNote>,
    timers: &TimerStore,
) -> (layout: Result<GroupLayout, GroupError>)
    ensures
        ({
            let members = members_of(views(snapshots@));
            let count = snapshots@.len() as int;
            let heights = durable_heights(surfaces_of(notes@, timers@, members));
            match layout {
                Ok(layout) => {
                    &&& count > 0
                    &&& surfaces_known(notes@, timers@, members, count)
                    &&& stack_fits(origin.y as int, heights)
                    &&& is_stacked(layout@, views(snapshots@), origin, notes@, timers@)
                },
                Err(error) => {
                    ||| count == 0 && error == GroupError::NoActiveMembers
                    ||| exists|i: int|
                        {
                            &&& 0 <= i < count
                            &&& surfaces_known(notes@, timers@, members, i)
                            &&& surface_of(notes@, timers@, #[trigger] members[i]) is None
                            &&& is_missing_surface(error, members[i])
                        }
                    ||| count > 0 && surfaces_known(notes@, timers@, members, count)
                        && !stack_fits(origin.y as int, heights) && error
                        == GroupError::PositionOutOfRange
                },
            }
        }),
{
    if snapshots.len() == 0 {
        return Err(GroupError::NoActiveMembers);
    }
    let members = snapshot_members(&snapshots);
    let surfaces = match stored_surfaces(notes, timers, &members) {
        Ok(surfaces) => surfaces,
        Err(error) => {
            proof {
                let i = choose|i: int|
                    {
                        &&& 0 <= i < members@.len()
                        &&& surfaces_known(notes@, timers@, views(members@), i)
                        &&& surface_of(notes@, timers@, (#[trigger] members@[i])@) is None
                        &&& is_missing_surface(error, members@[i]@)
                    };
                assert(members_of(views(snapshots@))[i] == members@[i]@);
            }
            return Err(error);
        },
    };
    let heights = surface_heights(&surfaces);
    match arranged_positions(origin, &heights) {
        Ok(targets) => Ok(GroupLayout { snapshots, targets }),
        Err(error) => Err(error),
    }
}

/// Whether a layout stacks the windows of a list from `origin` downwards, from
/// where they are cached to be, each as high as it is stored. Of no windows, it
/// is the empty one.
pub open spec fn is_stack_of(
    layout: LayoutView,
    members: Seq<MemberView>,
    geometries: Map<Seq<char>, NoteGeometry>,
    origin: LogicalPosition,
    notes: Map<Seq<char>, NoteView>,
    timers: Map<Seq<char>, TimerView>,
) -> bool {
    if members.len() == 0 {
        layout == no_layout()
    } else {
        is_stacked(layout, snapshots_of(geometries, members), origin, notes, timers)
    }
}

/// The windows of a stack are those of the list.
pub proof fn lemma_stack_members(
    layout: LayoutView,
    members: Seq<MemberView>,
    geometries: Map<Seq<char>, NoteGeometry>,
    origin: LogicalPosition,
    notes: Map<Seq<char>, NoteView>,
    timers: Map<Seq<char>, TimerView>,
)
    requires
        is_stack_of(layout, members, geometries, origin, notes, timers),
    ensures
        members_of(layout.snapshots) == members,
{
    assert(members_of(layout.snapshots) =~= members);
}

/// Whether the windows of a list can be stacked: each is open, has a cached
/// geometry and is stored, and every position is a value of `i32`.
pub open spec fn can_stack(
    members: Seq<MemberView>,
    open_labels: Seq<Seq<char>>,
    geometries: Map<Seq<char>, NoteGeometry>,
    origin: LogicalPosition,
    notes: Map<Seq<char>, NoteView>,
    timers: Map<Seq<char>, TimerView>,
) -> bool {
    &&& windows_known(open_labels, geometries, members, members.len() as int)
    &&& surfaces_known(notes, timers, members, members.len() as int)
    &&& stack_fits(origin.y as int, durable_heights(surfaces_of(notes, timers, members)))
}

/// Whether an error says why the windows of a list cannot be stacked: the first
/// one that is not open or has no cached geometry; if there is none, the first
/// one that is not stored; if there is none, a position that is out of range.
pub open spec fn says_why_not_stacked(
    error: GroupError,
    members: Seq<MemberView>,
    open_labels: Seq<Seq<char>>,
    geometries: Map<Seq<char>, NoteGeometry>,
    origin: LogicalPosition,
    notes: Map<Seq<char>, NoteView>,
    timers: Map<Seq<char>, TimerView>,
) -> bool {
    let count = members.len() as int;
    match error {
        GroupError::MissingWindow(missing) => exists|i: int|
            {
                &&& 0 <= i < count
                &&& windows_known(open_labels, geometries, members, i)
                &&& missing@ == #[trigger] members[i]
                &&& !open_labels.contains(members[i].window_label())
            },
        GroupError::MissingGeometry(id) => exists|i: int|
            {
                &&& 0 <= i < count
                &&& windows_known(open_labels, geometries, members, i)
                &&& open_labels.contains((#[trigger] members[i]).window_label())
                &&& !geometries.contains_key(members[i].id)
                &&& id@ == members[i].id
            },
        GroupError::PositionOutOfRange => {
            &&& windows_known(open_labels, geometries, members, count)
            &&& surfaces_known(notes, timers, members, count)
            &&& !stack_fits(
                origin.y as int,
                durable_heights(surfaces_of(notes, timers, members)),
            )
        },
        _ => windows_known(open_labels, geometries, members, count) && exists|i: int|
            {
                &&& 0 <= i < count
                &&& surfaces_known(notes, timers, members, i)
                &&& surface_of(notes, timers, #[trigger] members[i]) is None
                &&& is_missing_surface(error, members[i])
            },
    }
}

/// Stacks the windows of a list from `origin` downwards.
pub fn stack_members(
    members: &Vec<StoredGroupMember>,
    open_labels: &Vec<String>,
    geometries: &GeometryIndex,
    origin: LogicalPosition,
    notes: &Table<StoredNote>,
    timers: &TimerStore,
) -> (layout: Result<GroupLayout, GroupError>)
    ensures
        match layout {
            Ok(layout) => {
                &&& can_stack(
                    views(members@),
                    views(open_labels@),
                    geometries@,
                    origin,
                    notes@,
                    timers@,
                )
                &&& is_stack_of(
                    layout@,
                    views(members@),
                    geometries@,
                    origin,
                    notes@,
                    timers@,
                )
            },
            Err(error) => says_why_not_stacked(
                error,
                views(members@),
                views(open_labels@),
                geometries@,
                origin,
                notes@,
                timers@,
            ),
        },
{
    let ghost viewed = views(members@);
    let snapshots = match snapshots_for_members(open_labels, geometries, members) {
        Ok(snapshots) => snapshots,
        Err(error) => {
            proof {
                if error is MissingWindow {
                    let missing = error->MissingWindow_0;
                    let i = choose|i: int|
                        {
                            &&& 0 <= i < members@.len()
                            &&& windows_known(views(open_labels@), geometries@, viewed, i)
                            &&& missing@ == (#[trigger] members@[i])@
                            &&& !views(open_labels@).contains(members@[i]@.window_label())
                        };
                    assert(viewed[i] == members@[i]@);
                } else {
                    let id = error->MissingGeometry_0;
                    let i = choose|i: int|
                        {
                            &&& 0 <= i < members@.len()
                            &&& windows_known(views(open_labels@), geometries@, viewed, i)
                            &&& views(open_labels@).contains(
                                (#[trigger] members@[i])@.window_label(),
                            )
                            &&& !geometries@.contains_key(members@[i]@.id)
                            &&& id@ == members@[i]@.id
                        };
                    assert(viewed[i] == members@[i]@);
                }
            }
            return Err(error);
        },
    };
    proof {
        assert(members_of(views(snapshots@)) =~= viewed);
    }
    if snapshots.len() == 0 {
        return Ok(GroupLayout::none());
    }
    layout_for_members_at_origin(snapshots, origin, notes, timers)
}

/// The heights that surfaces have according to what is stored of them.
pub fn surface_heights(surfaces: &Vec<StoredSurface>) -> (heights: Vec<u32>)
    ensures
        heights@ == durable_heights(views(surfaces@)),
{
    let mut heights: Vec<u32> = Vec::new();
    let mut i: usize = 0;
    while i < surfaces.len()
        invariant
            i <= surfaces@.len(),
            heights@.len() == i,
            forall|j: int|
                0 <= j < i ==> #[trigger] heights@[j] == views(surfaces@)[j].durable_height(),
        decreases surfaces.len() - i,
    {
        heights.push(surfaces[i].durable_height());
        i += 1;
    }
    proof {
        assert(heights@ =~= durable_heights(views(surfaces@)));
    }
    heights
}

/// Surfaces moved to their targets.
pub open spec fn moved_surfaces(
    surfaces: Seq<SurfaceView>,
    targets: Seq<LogicalPosition>,
) -> Seq<SurfaceView> {
    Seq::new(surfaces.len(), |i: int| surfaces[i].at(targets[i].x, targets[i].y))
}

/// What is to be stored of the windows of a layout once they are in place.
pub fn layout_surface_replacements(
    layout: &GroupLayout,
    notes: &Table<StoredNote>,
    timers: &TimerStore,
) -> (replacements: Result<Vec<StoredSurface>, GroupError>)
    ensures
        ({
            let members = members_of(layout@.snapshots);
            match replacements {
                Ok(replacements) => {
                    &&& surfaces_known(notes@, timers@, members, members.len() as int)
                    &&& views(replacements@) == layout_replacements(layout@, notes@, timers@)
                },
                Err(error) => exists|i: int|
                    {
                        &&& 0 <= i < members.len()
                        &&& surfaces_known(notes@, timers@, members, i)
                        &&& surface_of(notes@, timers@, #[trigger] members[i]) is None
                        &&& is_missing_surface(error, members[i])
                    },
            }
        }),
{
    let snapshots = layout.snapshots();
    let targets = layout.targets();
    surfaces_at_targets(snapshots, targets, notes, timers)
}

/// What is to be stored of windows once they are at their targets.
pub fn surfaces_at_targets(
    snapshots: &Vec<WindowSnapshot>,
    targets: &Vec<LogicalPosition>,
    notes: &Table<StoredNote>,
    timers: &TimerStore,
) -> (replacements: Result<Vec<StoredSurface>, GroupError>)
    requires
        snapshots@.len() == targets@.len(),
    ensures
        ({
            let members = members_of(views(snapshots@));
            match replacements {
                Ok(replacements) => {
                    &&& surfaces_known(notes@, timers@, members, members.len() as int)
                    &&& views(replacements@) == moved_surfaces(
                        surfaces_of(notes@, timers@, members),
                        targets@,
                    )
                },
                Err(error) => exists|i: int|
                    {
                        &&& 0 <= i < members.len()
                        &&& surfaces_known(notes@, timers@, members, i)
                        &&& surface_of(notes@, timers@, #[trigger] members[i]) is None
                        &&& is_missing_surface(error, members[i])
                    },
            }
        }),
{
    let ghost members = members_of(views(snapshots@));
    let mut replacements: Vec<StoredSurface> = Vec::new();
    let mut i: usize = 0;
    while i < snapshots.len()
        invariant
            members == members_of(views(snapshots@)),
            snapshots@.len() == targets@.len(),
            i <= snapshots@.len(),
            surfaces_known(notes@, timers@, members, i as int),
            replacements@.len() == i,
            forall|j: int|
                0 <= j < i ==> (#[trigger] replacements@[j])@ == moved_surfaces(
                    surfaces_of(notes@, timers@, members),
                    targets@,
                )[j],
        decreases snapshots.len() - i,
    {
        proof {
            assert(members[i as int] == snapshots@[i as int].member@);
        }
        match stored_surface(notes, timers, &snapshots[i].member) {
            Ok(surface) => {
                let mut moved = surface;
                moved.set_position(targets[i].x, targets[i].y);
                replacements.push(moved);
            },
            Err(error) => {
                return Err(error);
            },
        }
        i += 1;
    }
    proof {
        assert(views(replacements@) =~= moved_surfaces(
            surfaces_of(notes@, timers@, members),
            targets@,
        ));
    }
    Ok(replacements)
}

/// The effects that bring one window back to where it was found. A window that
/// could not be brought back is not awaited there.
pub open spec fn restoring_one(snapshot: SnapshotView) -> Seq<UndoView> {
    seq![
        UndoView {
            effect: EffectView::Window(
                snapshot.member,
                WindowAction::ResizePhysical(snapshot.size),
            ),
            on_failure: OnFailure::Skip(0),
        },
        UndoView {
            effect: EffectView::Window(
                snapshot.member,
                WindowAction::MoveToPhysical(snapshot.position),
            ),
            on_failure: OnFailure::Skip(1),
        },
        UndoView {
            effect: EffectView::Cache(
                snapshot.member,
                CacheAction::RecordPosition(snapshot.position),
            ),
            on_failure: OnFailure::Skip(0),
        },
        UndoView {
            effect: EffectView::Cache(
                snapshot.member,
                CacheAction::Geometry(snapshot.geometry()),
            ),
            on_failure: OnFailure::Skip(0),
        },
    ]
}

/// The effects that bring windows back to where they were found, in order.
pub open spec fn restoring(snapshots: Seq<SnapshotView>) -> Seq<UndoView>
    decreases snapshots.len(),
{
    if snapshots.len() == 0 {
        Seq::empty()
    } else {
        restoring(snapshots.drop_last()) + restoring_one(snapshots.last())
    }
}

/// The effects that bring the first `n` windows of a list back to where they
/// were found.
pub fn restore_snapshots(snapshots: &Vec<WindowSnapshot>, n: usize) -> (undos: Vec<Undo>)
    requires
        n <= snapshots@.len(),
    ensures
        views(undos@) == restoring(views(snapshots@).take(n as int)),
{
    broadcast use group_views;

    let ghost viewed = views(snapshots@);
    let mut undos: Vec<Undo> = Vec::new();
    let mut i: usize = 0;
    proof {
        assert(viewed.take(0) =~= Seq::empty());
    }
    while i < n
        invariant
            viewed == views(snapshots@),
            i <= n <= snapshots@.len(),
            views(undos@) == restoring(viewed.take(i as int)),
        decreases n - i,
    {
        let snapshot = &snapshots[i];
        let ghost before = views(undos@);
        undos.push(
            Undo {
                effect: Effect::Window(
                    snapshot.member.clone(),
                    WindowAction::ResizePhysical(snapshot.size),
                ),
                on_failure: OnFailure::Skip(0),
            },
        );
        undos.push(
            Undo {
                effect: Effect::Window(
                    snapshot.member.clone(),
                    WindowAction::MoveToPhysical(snapshot.position),
                ),
                on_failure: OnFailure::Skip(1),
            },
        );
        undos.push(
            Undo {
                effect: Effect::Cache(
                    snapshot.member.clone(),
                    CacheAction::RecordPosition(snapshot.position),
                ),
                on_failure: OnFailure::Skip(0),
            },
        );
        undos.push(
            Undo {
                effect: Effect::Cache(
                    snapshot.member.clone(),
                    CacheAction::Geometry(
                        NoteGeometry { position: snapshot.position, size: snapshot.size },
                    ),
                ),
                on_failure: OnFailure::Skip(0),
            },
        );
        proof {
            assert(viewed.take(i + 1).drop_last() =~= viewed.take(i as int));
            assert(viewed.take(i + 1).last() == snapshot@);
            assert(views(undos@) =~= before + restoring_one(snapshot@));
        }
        i += 1;
    }
    undos
}

/// Two lists of undoing effects, one after the other.
pub fn join_undos(first: Vec<Undo>, second: &Vec<Undo>) -> (joined: Vec<Undo>)
    ensures
        views(joined@) == views(first@) + views(second@),
{
    broadcast use group_views;

    let mut joined = first;
    let mut rest = copy_undos(second);
    joined.append(&mut rest);
    joined
}

/// One of the four steps that take window `i` of a layout to its target. What
/// follows `suffix` in every undoing is the affair of the caller.
pub open spec fn placing_step(
    layout: LayoutView,
    suffix: Seq<UndoView>,
    i: int,
    part: int,
) -> StepView {
    let member = layout.snapshots[i].member;
    if part == 0 {
        StepView {
            effect: EffectView::Window(
                member,
                WindowAction::ReadScale {
                    position: layout.snapshots[i].position,
                    target: layout.targets[i],
                },
            ),
            only_if_moving: false,
            unwind: suffix,
        }
    } else if part == 1 {
        StepView {
            effect: EffectView::Window(member, WindowAction::MoveTo(layout.targets[i])),
            only_if_moving: true,
            unwind: restoring(layout.snapshots.take(i)) + suffix,
        }
    } else if part == 2 {
        StepView {
            effect: EffectView::Cache(member, CacheAction::RequestedPosition),
            only_if_moving: false,
            unwind: restoring(layout.snapshots.take(i + 1)) + suffix,
        }
    } else {
        StepView {
            effect: EffectView::Cache(member, CacheAction::RecordRequested),
            only_if_moving: true,
            unwind: restoring(layout.snapshots.take(i + 1)) + suffix,
        }
    }
}

/// The steps that take the windows of a layout to their targets, window by
/// window: read the scale, move the window unless it is there already, cache
/// where it went, and await it there if it moved.
pub open spec fn applying(layout: LayoutView, suffix: Seq<UndoView>) -> Seq<StepView> {
    Seq::new(
        4 * layout.snapshots.len(),
        |k: int| placing_step(layout, suffix, k / 4, k % 4),
    )
}

/// The steps that take the windows of a layout to their targets.
pub fn apply_layout(layout: &GroupLayout, suffix: &Vec<Undo>) -> (steps: Vec<Step>)
    ensures
        views(steps@) == applying(layout@, views(suffix@)),
{
    let snapshots = layout.snapshots();
    let targets = layout.targets();
    let ghost all = applying(layout@, views(suffix@));
    let mut steps: Vec<Step> = Vec::new();
    let mut i: usize = 0;
    while i < snapshots.len()
        invariant
            views(snapshots@) == layout@.snapshots,
            targets@ == layout@.targets,
            snapshots@.len() == targets@.len(),
            all == applying(layout@, views(suffix@)),
            i <= snapshots@.len(),
            steps@.len() == 4 * i,
            views(steps@) =~= all.take(4 * i),
        decreases snapshots.len() - i,
    {
        broadcast use group_views;

        let ghost before = views(steps@);
        let member = &snapshots[i].member;
        steps.push(
            Step {
                effect: Effect::Window(
                    member.clone(),
                    WindowAction::ReadScale { position: snapshots[i].position, target: targets[i] },
                ),
                only_if_moving: false,
                unwind: copy_undos(suffix),
            },
        );
        steps.push(
            Step {
                effect: Effect::Window(member.clone(), WindowAction::MoveTo(targets[i])),
                only_if_moving: true,
                unwind: join_undos(restore_snapshots(snapshots, i), suffix),
            },
        );
        steps.push(
            Step {
                effect: Effect::Cache(member.clone(), CacheAction::RequestedPosition),
                only_if_moving: false,
                unwind: join_undos(restore_snapshots(snapshots, i + 1), suffix),
            },
        );
        steps.push(
            Step {
                effect: Effect::Cache(member.clone(), CacheAction::RecordRequested),
                only_if_moving: true,
                unwind: join_undos(restore_snapshots(snapshots, i + 1), suffix),
            },
        );
        proof {
            let added = seq![
                placing_step(layout@, views(suffix@), i as int, 0),
                placing_step(layout@, views(suffix@), i as int, 1),
                placing_step(layout@, views(suffix@), i as int, 2),
                placing_step(layout@, views(suffix@), i as int, 3),
            ];
            assert(layout@.snapshots[i as int] == snapshots@[i as int]@);
            assert(views(steps@) =~= before + added);
            assert(before + added =~= all.take(4 * (i + 1)));
        }
        i += 1;
    }
    proof {
        assert(all.take(4 * snapshots@.len() as int) =~= all);
    }
    steps
}

/// Whether a world shows windows as their snapshots have them.
pub open spec fn shows(world: World, snapshots: Seq<SnapshotView>) -> bool {
    forall|i: int|
        0 <= i < snapshots.len() ==> {
            let label = (#[trigger] snapshots[i]).member.window_label();
            let id = snapshots[i].member.id;
            &&& world.windows.contains_key(label)
            &&& world.windows[label].position == Spot::Physical(snapshots[i].position)
            &&& world.windows[label].size == Extent::Physical(snapshots[i].size)
            &&& world.geometries.contains_key(id)
            &&& world.geometries[id] == snapshots[i].geometry()
        }
}

/// Whether no window occurs twice.
pub open spec fn windows_are_distinct(snapshots: Seq<SnapshotView>) -> bool {
    forall|i: int, j: int|
        0 <= i < j < snapshots.len() ==> (#[trigger] snapshots[i]).member.window_label() != (
        #[trigger] snapshots[j]).member.window_label()
}

/// Whether `label` is the label of one of the windows.
pub open spec fn is_label_of(snapshots: Seq<SnapshotView>, label: Seq<char>) -> bool {
    exists|i: int|
        0 <= i < snapshots.len() && (#[trigger] snapshots[i]).member.window_label() == label
}

/// Whether `id` is the identifier of one of the windows.
pub open spec fn is_id_of(snapshots: Seq<SnapshotView>, id: Seq<char>) -> bool {
    exists|i: int| 0 <= i < snapshots.len() && (#[trigger] snapshots[i]).member.id == id
}

/// Whether two worlds have the same windows and geometries.
pub open spec fn same_desktop(a: World, b: World) -> bool {
    a.windows == b.windows && a.geometries == b.geometries
}

/// Whether two worlds have the same stored notes, groups and timers.
pub open spec fn same_records(a: World, b: World) -> bool {
    a.store == b.store && a.timers == b.timers
}

/// Whether only the positions and sizes of the given windows differ between
/// two worlds, of all windows and cached geometries.
pub open spec fn differs_only_at(now: World, before: World, snapshots: Seq<SnapshotView>) -> bool {
    &&& now.windows.dom() == before.windows.dom()
    &&& now.geometries.dom() == before.geometries.dom()
    &&& forall|label: Seq<char>|
        #![trigger now.windows[label]]
        now.windows[label].resizable == before.windows[label].resizable
    &&& forall|label: Seq<char>|
        #![trigger now.windows[label]]
        !is_label_of(snapshots, label) ==> now.windows[label] == before.windows[label]
    &&& forall|id: Seq<char>|
        #![trigger now.geometries[id]]
        !is_id_of(snapshots, id) ==> now.geometries[id] == before.geometries[id]
}

/// What bringing one window back does.
pub proof fn lemma_restored_one(world: World, snapshot: SnapshotView)
    ensures
        ({
            let label = snapshot.member.window_label();
            let after = undone(world, restoring_one(snapshot));
            &&& same_records(after, world)
            &&& after.windows == world.windows.insert(
                label,
                WindowState {
                    position: Spot::Physical(snapshot.position),
                    size: Extent::Physical(snapshot.size),
                    ..world.windows[label]
                },
            )
            &&& after.geometries == world.geometries.insert(
                snapshot.member.id,
                snapshot.geometry(),
            )
            &&& after.runtime == world.runtime.move_recorded(label, snapshot.position)
        }),
{
    reveal_with_fuel(undone, 5);
    let undos = restoring_one(snapshot);
    let three = undos.drop_last();
    let two = three.drop_last();
    let one = two.drop_last();
    assert(one.drop_last() =~= Seq::empty());
    assert(one.last() == undos[0] && two.last() == undos[1] && three.last() == undos[2]
        && undos.last() == undos[3]);
    let after = undone(world, undos);
    let label = snapshot.member.window_label();
    assert(after.windows =~= world.windows.insert(
        label,
        WindowState {
            position: Spot::Physical(snapshot.position),
            size: Extent::Physical(snapshot.size),
            ..world.windows[label]
        },
    ));
}

/// Bringing windows back to where they were found leaves only the others where
/// they are.
pub proof fn lemma_restored_some(
    now: World,
    before: World,
    snapshots: Seq<SnapshotView>,
    others: Seq<SnapshotView>,
)
    requires
        shows(before, snapshots),
        differs_only_at(now, before, others + snapshots),
    ensures
        differs_only_at(undone(now, restoring(snapshots)), before, others),
        same_records(undone(now, restoring(snapshots)), now),
{
    let all = others + snapshots;
    lemma_restored_labels(now, before, all, snapshots);
    let after = undone(now, restoring(snapshots));
    assert forall|label: Seq<char>|
        #![trigger after.windows[label]]
        after.windows[label].resizable == before.windows[label].resizable && (!is_label_of(
            others,
            label,
        ) ==> after.windows[label] == before.windows[label]) by {
        let window = now.windows[label];
        if is_label_of(all, label) && !is_label_of(others, label) {
            let i = choose|i: int|
                0 <= i < all.len() && (#[trigger] all[i]).member.window_label() == label;
            if i < others.len() {
                assert(others[i].member.window_label() == label);
            } else {
                assert(snapshots[i - others.len()].member.window_label() == label);
            }
        }
    }
    assert forall|id: Seq<char>|
        #![trigger after.geometries[id]]
        !is_id_of(others, id) ==> after.geometries[id] == before.geometries[id] by {
        let geometry = now.geometries[id];
        if is_id_of(all, id) && !is_id_of(others, id) {
            let i = choose|i: int| 0 <= i < all.len() && (#[trigger] all[i]).member.id == id;
            if i < others.len() {
                assert(others[i].member.id == id);
            } else {
                assert(snapshots[i - others.len()].member.id == id);
            }
        }
    }
}

/// Worlds that differ at no window have the same windows and geometries.
pub proof fn lemma_differs_nowhere(now: World, before: World)
    ensures
        differs_only_at(now, before, Seq::empty()) ==> same_desktop(now, before),
        same_desktop(now, before) ==> differs_only_at(now, before, Seq::empty()),
{
    let none = Seq::<SnapshotView>::empty();
    if differs_only_at(now, before, none) {
        assert forall|label: Seq<char>| before.windows.contains_key(label) implies #[trigger] now.windows[label]
            == before.windows[label] by {
            assert(!is_label_of(none, label));
        }
        assert(now.windows =~= before.windows);
        assert forall|id: Seq<char>| before.geometries.contains_key(id) implies #[trigger] now.geometries[id]
            == before.geometries[id] by {
            assert(!is_id_of(none, id));
        }
        assert(now.geometries =~= before.geometries);
    }
}

/// Bringing windows back to where they were found leaves every window and every
/// cached geometry as it was, if nothing else was touched.
pub proof fn lemma_restored(now: World, before: World, snapshots: Seq<SnapshotView>)
    requires
        shows(before, snapshots),
        differs_only_at(now, before, snapshots),
    ensures
        same_desktop(undone(now, restoring(snapshots)), before),
        same_records(undone(now, restoring(snapshots)), now),
{
    assert(Seq::<SnapshotView>::empty() + snapshots =~= snapshots);
    lemma_restored_some(now, before, snapshots, Seq::empty());
    lemma_differs_nowhere(undone(now, restoring(snapshots)), before);
}

proof fn lemma_restored_labels(
    now: World,
    before: World,
    all: Seq<SnapshotView>,
    snapshots: Seq<SnapshotView>,
)
    requires
        shows(before, snapshots),
        differs_only_at(now, before, all),
    ensures
        ({
            let after = undone(now, restoring(snapshots));
            &&& same_records(after, now)
            &&& after.windows.dom() == before.windows.dom()
            &&& after.geometries.dom() == before.geometries.dom()
            &&& forall|label: Seq<char>|
                #![trigger after.windows[label]]
                after.windows[label] == if is_label_of(snapshots, label) {
                    before.windows[label]
                } else {
                    now.windows[label]
                }
            &&& forall|id: Seq<char>|
                #![trigger after.geometries[id]]
                after.geometries[id] == if is_id_of(snapshots, id) {
                    before.geometries[id]
                } else {
                    now.geometries[id]
                }
        }),
    decreases snapshots.len(),
{
    if snapshots.len() > 0 {
        let shorter = snapshots.drop_last();
        let last = snapshots.last();
        assert(shows(before, shorter)) by {
            assert forall|i: int| 0 <= i < shorter.len() implies {
                let label = (#[trigger] shorter[i]).member.window_label();
                let id = shorter[i].member.id;
                &&& before.windows.contains_key(label)
                &&& before.windows[label].position == Spot::Physical(shorter[i].position)
                &&& before.windows[label].size == Extent::Physical(shorter[i].size)
                &&& before.geometries.contains_key(id)
                &&& before.geometries[id] == shorter[i].geometry()
            } by {
                assert(shorter[i] == snapshots[i]);
            }
        }
        lemma_restored_labels(now, before, all, shorter);
        lemma_undone_add(now, restoring(shorter), restoring_one(last));
        let middle = undone(now, restoring(shorter));
        lemma_restored_one(middle, last);
        let after = undone(now, restoring(snapshots));
        let last_label = last.member.window_label();
        assert(last == snapshots[snapshots.len() - 1]);
        assert(after.windows.dom() =~= before.windows.dom());
        assert(after.geometries.dom() =~= before.geometries.dom());
        assert forall|label: Seq<char>|
            #![trigger after.windows[label]]
            after.windows[label] == if is_label_of(snapshots, label) {
                before.windows[label]
            } else {
                now.windows[label]
            } by {
            let middle_window = middle.windows[label];
            let now_window = now.windows[label];
            lemma_label_of_last(snapshots, label);
            if label == last_label {
                assert(after.windows[label].resizable == middle_window.resizable);
                assert(now_window.resizable == before.windows[label].resizable);
            }
        }
        assert forall|id: Seq<char>|
            #![trigger after.geometries[id]]
            after.geometries[id] == if is_id_of(snapshots, id) {
                before.geometries[id]
            } else {
                now.geometries[id]
            } by {
            let middle_geometry = middle.geometries[id];
            lemma_id_of_last(snapshots, id);
        }
    }
}

proof fn lemma_label_of_last(snapshots: Seq<SnapshotView>, label: Seq<char>)
    requires
        snapshots.len() > 0,
    ensures
        is_label_of(snapshots, label) <==> is_label_of(snapshots.drop_last(), label)
            || snapshots.last().member.window_label() == label,
{
    let shorter = snapshots.drop_last();
    if is_label_of(shorter, label) {
        let i = choose|i: int|
            0 <= i < shorter.len() && (#[trigger] shorter[i]).member.window_label() == label;
        assert(snapshots[i] == shorter[i]);
    }
    if is_label_of(snapshots, label) && snapshots.last().member.window_label() != label {
        let i = choose|i: int|
            0 <= i < snapshots.len() && (#[trigger] snapshots[i]).member.window_label() == label;
        assert(shorter[i] == snapshots[i]);
    }
    if snapshots.last().member.window_label() == label {
        assert(snapshots[snapshots.len() - 1].member.window_label() == label);
    }
}

proof fn lemma_id_of_last(snapshots: Seq<SnapshotView>, id: Seq<char>)
    requires
        snapshots.len() > 0,
    ensures
        is_id_of(snapshots, id) <==> is_id_of(snapshots.drop_last(), id)
            || snapshots.last().member.id == id,
{
    let shorter = snapshots.drop_last();
    if is_id_of(shorter, id) {
        let i = choose|i: int| 0 <= i < shorter.len() && (#[trigger] shorter[i]).member.id == id;
        assert(snapshots[i] == shorter[i]);
    }
    if is_id_of(snapshots, id) && snapshots.last().member.id != id {
        let i = choose|i: int| 0 <= i < snapshots.len() && (#[trigger] snapshots[i]).member.id
            == id;
        assert(shorter[i] == snapshots[i]);
    }
    if snapshots.last().member.id == id {
        assert(snapshots[snapshots.len() - 1].member.id == id);
    }
}

/// Worlds that differ only at some windows differ only at more.
pub proof fn lemma_differs_at_more(
    now: World,
    before: World,
    fewer: Seq<SnapshotView>,
    more: Seq<SnapshotView>,
)
    requires
        differs_only_at(now, before, fewer),
        forall|i: int| 0 <= i < fewer.len() ==> more.contains(#[trigger] fewer[i]),
    ensures
        differs_only_at(now, before, more),
{
    assert forall|label: Seq<char>| is_label_of(fewer, label) implies is_label_of(more, label) by {
        let i = choose|i: int|
            0 <= i < fewer.len() && (#[trigger] fewer[i]).member.window_label() == label;
        let j = more.index_of(fewer[i]);
        assert(more[j] == fewer[i]);
    }
    assert forall|id: Seq<char>| is_id_of(fewer, id) implies is_id_of(more, id) by {
        let i = choose|i: int| 0 <= i < fewer.len() && (#[trigger] fewer[i]).member.id == id;
        let j = more.index_of(fewer[i]);
        assert(more[j] == fewer[i]);
    }
}

/// Moving a window, or noting its position, touches no other window.
pub proof fn lemma_differs_after(
    now: World,
    before: World,
    snapshots: Seq<SnapshotView>,
    i: int,
    effect: EffectView,
)
    requires
        0 <= i < snapshots.len(),
        before.windows.contains_key(snapshots[i].member.window_label()),
        before.geometries.contains_key(snapshots[i].member.id),
        differs_only_at(now, before, snapshots),
        match effect {
            EffectView::Window(member, WindowAction::MoveTo(_)) => member == snapshots[i].member,
            EffectView::Window(member, WindowAction::MoveToPhysical(_)) => member
                == snapshots[i].member,
            EffectView::Cache(member, CacheAction::Position(_)) => member == snapshots[i].member,
            EffectView::Cache(_, CacheAction::RecordPosition(_)) => true,
            _ => false,
        },
    ensures
        differs_only_at(performed(now, effect), before, snapshots),
        same_records(performed(now, effect), now),
{
    assert(is_label_of(snapshots, snapshots[i].member.window_label()));
    assert(is_id_of(snapshots, snapshots[i].member.id));
    let after = performed(now, effect);
    assert(after.windows.dom() =~= before.windows.dom());
    assert(after.geometries.dom() =~= before.geometries.dom());
    assert forall|label: Seq<char>|
        #![trigger after.windows[label]]
        after.windows[label].resizable == before.windows[label].resizable && (!is_label_of(
            snapshots,
            label,
        ) ==> after.windows[label] == before.windows[label]) by {
        let window = now.windows[label];
        let own = now.windows[snapshots[i].member.window_label()];
    }
    assert forall|id: Seq<char>|
        #![trigger after.geometries[id]]
        !is_id_of(snapshots, id) ==> after.geometries[id] == before.geometries[id] by {
        let geometry = now.geometries[id];
    }
}

/// A beginning of a list of windows that a world shows.
pub proof fn lemma_shows_some(world: World, snapshots: Seq<SnapshotView>, n: int)
    requires
        0 <= n <= snapshots.len(),
        shows(world, snapshots),
    ensures
        shows(world, snapshots.take(n)),
{
    let some = snapshots.take(n);
    assert forall|i: int| 0 <= i < some.len() implies {
        let label = (#[trigger] some[i]).member.window_label();
        let id = some[i].member.id;
        &&& world.windows.contains_key(label)
        &&& world.windows[label].position == Spot::Physical(some[i].position)
        &&& world.windows[label].size == Extent::Physical(some[i].size)
        &&& world.geometries.contains_key(id)
        &&& world.geometries[id] == some[i].geometry()
    } by {
        assert(some[i] == snapshots[i]);
    }
}

/// Whether an effect reads a scale factor or the clock.
pub open spec fn is_reading(effect: EffectView) -> bool {
    match effect {
        EffectView::Window(_, WindowAction::ReadScale { .. }) => true,
        EffectView::ReadClock => true,
        _ => false,
    }
}

/// Taking windows to their targets, after `earlier` ones were moved, keeps a
/// promise, if bringing them back leads home, and if it is kept wherever the
/// windows have come to.
pub proof fn lemma_applying_keeps(
    layout: LayoutView,
    earlier: Seq<SnapshotView>,
    suffix: Seq<UndoView>,
    k: int,
    before: World,
    now: World,
    promise: Promise,
)
    requires
        layout.snapshots.len() == layout.targets.len(),
        0 <= k <= 4 * layout.snapshots.len(),
        shows(before, layout.snapshots),
        same_records(now, before),
        differs_only_at(
            now,
            before,
            earlier + layout.snapshots.take(
                if k % 4 <= 1 {
                    k / 4
                } else {
                    k / 4 + 1
                },
            ),
        ),
        forall|w: World|
            same_records(w, before) && differs_only_at(w, before, earlier)
                ==> #[trigger] (promise.home)(undone(w, suffix)),
        forall|w: World|
            same_records(w, before) ==> (promise.home)(#[trigger] undone(w, suffix)) || (forall|
                effect: EffectView,
            | #[trigger]
                is_reading(effect) ==> (promise.exempt)(effect)),
        forall|w: World|
            same_records(w, before) && differs_only_at(w, before, earlier + layout.snapshots)
                ==> #[trigger] (promise.done)(w),
    ensures
        keeps(applying(layout, suffix), k, now, promise),
    decreases 4 * layout.snapshots.len() - k,
{
    let steps = applying(layout, suffix);
    let snapshots = layout.snapshots;
    if k == 4 * snapshots.len() {
        assert(snapshots.take(snapshots.len() as int) =~= snapshots);
    } else {
        let i = k / 4;
        let part = k % 4;
        let step = steps[k];
        assert(step == placing_step(layout, suffix, i, part));
        lemma_shows_some(before, snapshots, i);
        lemma_shows_some(before, snapshots, i + 1);
        let touched = if part <= 1 {
            i
        } else {
            i + 1
        };
        // What a failure here is followed by.
        if part == 0 {
            assert(is_reading(step.effect));
            assert((promise.home)(undone(now, suffix)) || (promise.exempt)(step.effect));
        } else {
            let back = snapshots.take(touched);
            lemma_restored_some(now, before, back, earlier);
            lemma_undone_add(now, restoring(back), suffix);
            assert((promise.home)(undone(undone(now, restoring(back)), suffix)));
        }
        // What a success here is followed by.
        let next_touched = if (k + 1) % 4 <= 1 {
            (k + 1) / 4
        } else {
            (k + 1) / 4 + 1
        };
        assert(touched <= next_touched);
        lemma_more_taken(earlier, snapshots, touched, next_touched);
        lemma_differs_at_more(
            now,
            before,
            earlier + snapshots.take(touched),
            earlier + snapshots.take(next_touched),
        );
        assert forall|registers: Registers|
            keeps(
                steps,
                k + 1,
                performed(now, #[trigger] resolved(step.effect, registers)),
                promise,
            ) by {
            let effect = resolved(step.effect, registers);
            let after = performed(now, effect);
            if part == 0 {
                assert(after =~= now);
            } else {
                let all = earlier + snapshots.take(i + 1);
                lemma_more_taken(earlier, snapshots, touched, i + 1);
                lemma_differs_at_more(now, before, earlier + snapshots.take(touched), all);
                assert(all[earlier.len() + i] == snapshots[i]);
                lemma_differs_after(now, before, all, earlier.len() + i, effect);
                assert(next_touched == i + 1);
            }
            lemma_applying_keeps(layout, earlier, suffix, k + 1, before, after, promise);
        }
        if step.only_if_moving {
            lemma_applying_keeps(layout, earlier, suffix, k + 1, before, now, promise);
        }
    }
}

proof fn lemma_more_taken(
    earlier: Seq<SnapshotView>,
    snapshots: Seq<SnapshotView>,
    m: int,
    n: int,
)
    requires
        0 <= m <= n <= snapshots.len(),
    ensures
        ({
            let fewer = earlier + snapshots.take(m);
            let more = earlier + snapshots.take(n);
            forall|i: int| 0 <= i < fewer.len() ==> more.contains(#[trigger] fewer[i])
        }),
{
    let fewer = earlier + snapshots.take(m);
    let more = earlier + snapshots.take(n);
    assert forall|i: int| 0 <= i < fewer.len() implies more.contains(#[trigger] fewer[i]) by {
        assert(more[i] == fewer[i]);
    }
}

/// Whether the steps from `from` on begin with those that apply a layout.
pub open spec fn holds_layout(
    steps: Seq<StepView>,
    from: int,
    layout: LayoutView,
    suffix: Seq<UndoView>,
) -> bool {
    let all = applying(layout, suffix);
    &&& 0 <= from <= from + all.len() <= steps.len()
    &&& forall|k: int| 0 <= k < all.len() ==> steps[from + k] == #[trigger] all[k]
}

/// What happens to one window of a layout while nothing fails. If the scale
/// reading finds it away from its target, it is moved there, and awaited there;
/// if it is at its target already, it is not touched. Either way its target in
/// device pixels is cached as its position, nothing else changes, and the next
/// window follows.
pub proof fn law_layout_puts_windows_in_place(
    layout: LayoutView,
    suffix: Seq<UndoView>,
    from: int,
    i: int,
    transaction: TransactionView,
    world: World,
    current: LogicalPosition,
    requested: PhysicalPosition,
)
    requires
        layout.snapshots.len() == layout.targets.len(),
        0 <= i < layout.snapshots.len(),
        transaction.steps.len() <= usize::MAX,
        holds_layout(transaction.steps, from, layout, suffix),
        transaction.stage == (Stage::Forward { at: (from + 4 * i) as usize }),
        world.windows.contains_key(layout.snapshots[i].member.window_label()),
        world.geometries.contains_key(layout.snapshots[i].member.id),
    ensures
        ({
            let member = layout.snapshots[i].member;
            let label = member.window_label();
            let target = layout.targets[i];
            let reading = Event::Scale { current, requested };
            let events = if current != target {
                seq![reading, Event::Done, Event::Done, Event::Done]
            } else {
                seq![reading, Event::Done]
            };
            let (then, after) = played(transaction, world, events);
            &&& then.stage == (TransactionView {
                registers: registers_after(
                    transaction.registers,
                    transaction.steps[from + 4 * i].effect,
                    reading,
                ),
                ..transaction
            }).proceeded(from + 4 * i + 4).stage
            &&& same_records(after, world)
            &&& after.windows == (if current != target {
                world.windows.insert(
                    label,
                    WindowState { position: Spot::Logical(target), ..world.windows[label] },
                )
            } else {
                world.windows
            })
            &&& after.geometries == world.geometries.insert(
                member.id,
                NoteGeometry { position: requested, ..world.geometries[member.id] },
            )
            &&& after.runtime == (if current != target {
                world.runtime.move_recorded(label, requested)
            } else {
                world.runtime
            })
        }),
{
    if current != layout.targets[i] {
        lemma_moving_played(layout, suffix, from, i, transaction, world, current, requested);
    } else {
        lemma_staying_played(layout, suffix, from, i, transaction, world, current, requested);
    }
}

/// A transaction after the reading of step `at` was put into its registers,
/// about to do what follows the four steps that begin there.
spec fn past_window(transaction: TransactionView, at: int, reading: Event) -> TransactionView {
    (TransactionView {
        registers: registers_after(
            transaction.registers,
            transaction.steps[at].effect,
            reading,
        ),
        ..transaction
    }).proceeded(at + 4)
}

/// The world after a window was moved to its target and awaited there.
spec fn with_window_moved(
    world: World,
    member: MemberView,
    target: LogicalPosition,
    requested: PhysicalPosition,
) -> World {
    let moved = performed(world, EffectView::Window(member, WindowAction::MoveTo(target)));
    let cached = performed(moved, EffectView::Cache(member, CacheAction::Position(requested)));
    performed(cached, EffectView::Cache(member, CacheAction::RecordPosition(requested)))
}

proof fn lemma_moving_played(
    layout: LayoutView,
    suffix: Seq<UndoView>,
    from: int,
    i: int,
    transaction: TransactionView,
    world: World,
    current: LogicalPosition,
    requested: PhysicalPosition,
)
    requires
        0 <= i < layout.snapshots.len(),
        transaction.steps.len() <= usize::MAX,
        holds_layout(transaction.steps, from, layout, suffix),
        transaction.stage == (Stage::Forward { at: (from + 4 * i) as usize }),
        current != layout.targets[i],
    ensures
        ({
            let reading = Event::Scale { current, requested };
            played(transaction, world, seq![reading, Event::Done, Event::Done, Event::Done]) == (
                past_window(transaction, from + 4 * i, reading),
                with_window_moved(
                    world,
                    layout.snapshots[i].member,
                    layout.targets[i],
                    requested,
                ),
            )
        }),
{
    let reading = Event::Scale { current, requested };
    let one = seq![reading];
    let two = seq![reading, Event::Done];
    let three = seq![reading, Event::Done, Event::Done];
    assert(one.push(Event::Done) =~= two);
    assert(two.push(Event::Done) =~= three);
    assert(three.push(Event::Done) =~= seq![reading, Event::Done, Event::Done, Event::Done]);
    lemma_moving_run(layout, suffix, from, i, transaction, current, requested);
    lemma_played_first(transaction, world, reading);
    lemma_played_last(transaction, world, one, Event::Done);
    lemma_played_last(transaction, world, two, Event::Done);
    lemma_played_last(transaction, world, three, Event::Done);
}

proof fn lemma_staying_played(
    layout: LayoutView,
    suffix: Seq<UndoView>,
    from: int,
    i: int,
    transaction: TransactionView,
    world: World,
    current: LogicalPosition,
    requested: PhysicalPosition,
)
    requires
        0 <= i < layout.snapshots.len(),
        transaction.steps.len() <= usize::MAX,
        holds_layout(transaction.steps, from, layout, suffix),
        transaction.stage == (Stage::Forward { at: (from + 4 * i) as usize }),
        current == layout.targets[i],
    ensures
        ({
            let reading = Event::Scale { current, requested };
            played(transaction, world, seq![reading, Event::Done]) == (
                past_window(transaction, from + 4 * i, reading),
                performed(
                    world,
                    EffectView::Cache(
                        layout.snapshots[i].member,
                        CacheAction::Position(requested),
                    ),
                ),
            )
        }),
{
    let reading = Event::Scale { current, requested };
    assert(seq![reading].push(Event::Done) =~= seq![reading, Event::Done]);
    lemma_staying_run(layout, suffix, from, i, transaction, current, requested);
    lemma_played_first(transaction, world, reading);
    lemma_played_last(transaction, world, seq![reading], Event::Done);
}

/// The effects that follow a reading which finds window `i` away from its target.
proof fn lemma_moving_run(
    layout: LayoutView,
    suffix: Seq<UndoView>,
    from: int,
    i: int,
    transaction: TransactionView,
    current: LogicalPosition,
    requested: PhysicalPosition,
)
    requires
        0 <= i < layout.snapshots.len(),
        transaction.steps.len() <= usize::MAX,
        holds_layout(transaction.steps, from, layout, suffix),
        transaction.stage == (Stage::Forward { at: (from + 4 * i) as usize }),
        current != layout.targets[i],
    ensures
        ({
            let member = layout.snapshots[i].member;
            let target = layout.targets[i];
            let reading = Event::Scale { current, requested };
            let read = transaction.advanced(reading);
            let moved = read.advanced(Event::Done);
            let cached = moved.advanced(Event::Done);
            &&& transaction.next_effect() matches Some(
                EffectView::Window(_, WindowAction::ReadScale { .. }),
            )
            &&& read.next_effect() == Some(
                EffectView::Window(member, WindowAction::MoveTo(target)),
            )
            &&& moved.next_effect() == Some(
                EffectView::Cache(member, CacheAction::Position(requested)),
            )
            &&& cached.next_effect() == Some(
                EffectView::Cache(member, CacheAction::RecordPosition(requested)),
            )
            &&& cached.advanced(Event::Done) == past_window(transaction, from + 4 * i, reading)
        }),
{
    lemma_placing_steps(layout, suffix, from, i, transaction);
    let read = transaction.advanced(Event::Scale { current, requested });
    assert(read.stage == (Stage::Forward { at: (from + 4 * i + 1) as usize }));
    let moved = read.advanced(Event::Done);
    assert(moved.stage == (Stage::Forward { at: (from + 4 * i + 2) as usize }));
    let cached = moved.advanced(Event::Done);
    assert(cached.stage == (Stage::Forward { at: (from + 4 * i + 3) as usize }));
}

/// The effects that follow a reading which finds window `i` at its target.
proof fn lemma_staying_run(
    layout: LayoutView,
    suffix: Seq<UndoView>,
    from: int,
    i: int,
    transaction: TransactionView,
    current: LogicalPosition,
    requested: PhysicalPosition,
)
    requires
        0 <= i < layout.snapshots.len(),
        transaction.steps.len() <= usize::MAX,
        holds_layout(transaction.steps, from, layout, suffix),
        transaction.stage == (Stage::Forward { at: (from + 4 * i) as usize }),
        current == layout.targets[i],
    ensures
        ({
            let member = layout.snapshots[i].member;
            let reading = Event::Scale { current, requested };
            let read = transaction.advanced(reading);
            &&& transaction.next_effect() matches Some(
                EffectView::Window(_, WindowAction::ReadScale { .. }),
            )
            &&& read.next_effect() == Some(
                EffectView::Cache(member, CacheAction::Position(requested)),
            )
            &&& read.advanced(Event::Done) == past_window(transaction, from + 4 * i, reading)
        }),
{
    lemma_placing_steps(layout, suffix, from, i, transaction);
    let steps = transaction.steps;
    assert(due(steps, from + 4 * i + 1, false) == due(steps, from + 4 * i + 2, false));
    assert(due(steps, from + 4 * i + 2, false) == from + 4 * i + 2);
    assert(due(steps, from + 4 * i + 3, false) == due(steps, from + 4 * i + 4, false));
    let read = transaction.advanced(Event::Scale { current, requested });
    assert(read.stage == (Stage::Forward { at: (from + 4 * i + 2) as usize }));
}

/// The steps of a transaction that take window `i` to its target.
proof fn lemma_placing_steps(
    layout: LayoutView,
    suffix: Seq<UndoView>,
    from: int,
    i: int,
    transaction: TransactionView,
)
    requires
        0 <= i < layout.snapshots.len(),
        holds_layout(transaction.steps, from, layout, suffix),
    ensures
        from + 4 * i + 3 < transaction.steps.len(),
        transaction.steps[from + 4 * i] == placing_step(layout, suffix, i, 0),
        transaction.steps[from + 4 * i + 1] == placing_step(layout, suffix, i, 1),
        transaction.steps[from + 4 * i + 2] == placing_step(layout, suffix, i, 2),
        transaction.steps[from + 4 * i + 3] == placing_step(layout, suffix, i, 3),
{
    let steps = applying(layout, suffix);
    assert(forall|k: int|
        0 <= k < steps.len() ==> transaction.steps[from + k] == #[trigger] steps[k]);
    assert(steps[4 * i] == placing_step(layout, suffix, i, 0));
    assert(steps[4 * i + 1] == placing_step(layout, suffix, i, 1));
    assert(steps[4 * i + 2] == placing_step(layout, suffix, i, 2));
    assert(steps[4 * i + 3] == placing_step(layout, suffix, i, 3));
}

/// What one event does to a transaction and the world.
proof fn lemma_played_first(transaction: TransactionView, world: World, event: Event)
    requires
        event != Event::Failed,
    ensures
        played(transaction, world, seq![event]) == (
            transaction.advanced(event),
            match transaction.next_effect() {
                Some(effect) => performed(world, effect),
                None => world,
            },
        ),
{
    assert(Seq::<Event>::empty().push(event) =~= seq![event]);
    lemma_played_last(transaction, world, Seq::empty(), event);
}

/// What one more event does.
proof fn lemma_played_last(
    transaction: TransactionView,
    world: World,
    events: Seq<Event>,
    event: Event,
)
    requires
        event != Event::Failed,
    ensures
        ({
            let (before, then) = played(transaction, world, events);
            played(transaction, world, events.push(event)) == (
                before.advanced(event),
                match before.next_effect() {
                    Some(effect) => performed(then, effect),
                    None => then,
                },
            )
        }),
{
    assert(events.push(event).drop_last() =~= events);
}

/// What a scale reading gave: where the window is in logical pixels, and where
/// its target is in device pixels.
pub struct ScaleReading {
    pub current: LogicalPosition,
    pub requested: PhysicalPosition,
}

/// The events while one window is taken to its target and nothing fails.
pub open spec fn window_events(target: LogicalPosition, reading: ScaleReading) -> Seq<Event> {
    let answer = Event::Scale { current: reading.current, requested: reading.requested };
    if reading.current != target {
        seq![answer, Event::Done, Event::Done, Event::Done]
    } else {
        seq![answer, Event::Done]
    }
}

/// The events while the first `n` windows of a layout are taken to their targets
/// and nothing fails, where `readings` are what the scale readings give.
pub open spec fn layout_events(
    layout: LayoutView,
    readings: Seq<ScaleReading>,
    n: int,
) -> Seq<Event>
    decreases n,
{
    if n <= 0 {
        Seq::empty()
    } else {
        layout_events(layout, readings, n - 1) + window_events(
            layout.targets[n - 1],
            readings[n - 1],
        )
    }
}

/// A window after it was taken to its target: moved there if its reading found
/// it elsewhere, and not touched if it was found there.
pub open spec fn placed_window(
    window: WindowState,
    target: LogicalPosition,
    reading: ScaleReading,
) -> WindowState {
    if reading.current != target {
        WindowState { position: Spot::Logical(target), ..window }
    } else {
        window
    }
}

/// Whether the first `n` windows of a layout are at their targets, or were found
/// there, and all other windows are as they were.
pub open spec fn windows_placed(
    layout: LayoutView,
    readings: Seq<ScaleReading>,
    n: int,
    before: World,
    now: World,
) -> bool {
    &&& now.windows.dom() == before.windows.dom()
    &&& forall|i: int|
        0 <= i < n ==> {
            let label = (#[trigger] layout.snapshots[i]).member.window_label();
            now.windows[label] == placed_window(
                before.windows[label],
                layout.targets[i],
                readings[i],
            )
        }
    &&& forall|other: Seq<char>|
        !is_label_of(layout.snapshots.take(n), other) ==> #[trigger] now.windows[other]
            == before.windows[other]
}

/// Whether no window after window `i`, of the first `n`, has its identifier.
pub open spec fn is_last_of_id(snapshots: Seq<SnapshotView>, i: int, n: int) -> bool {
    forall|j: int|
        i < j < n ==> (#[trigger] snapshots[j]).member.id != snapshots[i].member.id
}

/// Whether the targets of the first `n` windows of a layout are cached as their
/// positions, and no other geometry has changed, nor any size. Of windows that
/// share an identifier the last one counts.
pub open spec fn targets_cached(
    layout: LayoutView,
    readings: Seq<ScaleReading>,
    n: int,
    before: World,
    now: World,
) -> bool {
    &&& now.geometries.dom() == before.geometries.dom()
    &&& forall|id: Seq<char>|
        (#[trigger] now.geometries[id]).size == before.geometries[id].size
    &&& forall|i: int|
        0 <= i < n && #[trigger] is_last_of_id(layout.snapshots, i, n)
            ==> now.geometries[layout.snapshots[i].member.id].position == readings[i].requested
    &&& forall|other: Seq<char>|
        !is_id_of(layout.snapshots.take(n), other) ==> #[trigger] now.geometries[other]
            == before.geometries[other]
}

/// Whether each of the first `n` windows of a layout that was moved is awaited
/// at its target.
pub open spec fn moves_awaited(
    layout: LayoutView,
    readings: Seq<ScaleReading>,
    n: int,
    now: World,
) -> bool {
    forall|i: int|
        0 <= i < n && readings[i].current != layout.targets[i] ==> {
            let label = (#[trigger] layout.snapshots[i]).member.window_label();
            now.runtime.pending.contains_key(label) && now.runtime.pending[label]
                == readings[i].requested
        }
}

/// What a layout comes to. Once all its steps are done and nothing has failed,
/// each of its windows was moved to its target and is awaited there, or was
/// found there by its reading and not touched; the targets are cached; no other
/// window, no other geometry and nothing that is stored has changed.
pub proof fn law_applied_layout_is_in_place(
    layout: LayoutView,
    suffix: Seq<UndoView>,
    from: int,
    transaction: TransactionView,
    world: World,
    readings: Seq<ScaleReading>,
)
    requires
        layout.snapshots.len() == layout.targets.len(),
        layout.snapshots.len() == readings.len(),
        transaction.steps.len() <= usize::MAX,
        holds_layout(transaction.steps, from, layout, suffix),
        layout.snapshots.len() > 0 ==> transaction.stage == (Stage::Forward {
            at: from as usize,
        }),
        windows_are_distinct(layout.snapshots),
        forall|i: int|
            0 <= i < layout.snapshots.len() ==> world.windows.contains_key(
                (#[trigger] layout.snapshots[i]).member.window_label(),
            ) && world.geometries.contains_key(layout.snapshots[i].member.id),
    ensures
        ({
            let n = layout.snapshots.len() as int;
            let (then, after) = played(transaction, world, layout_events(layout, readings, n));
            &&& n > 0 ==> then.stage == then.proceeded(from + 4 * n).stage
            &&& then.steps == transaction.steps
            &&& windows_placed(layout, readings, n, world, after)
            &&& targets_cached(layout, readings, n, world, after)
            &&& moves_awaited(layout, readings, n, after)
            &&& same_records(after, world)
        }),
{
    lemma_layout_played(
        layout,
        suffix,
        from,
        transaction,
        world,
        readings,
        layout.snapshots.len() as int,
    );
}

proof fn lemma_layout_played(
    layout: LayoutView,
    suffix: Seq<UndoView>,
    from: int,
    transaction: TransactionView,
    world: World,
    readings: Seq<ScaleReading>,
    n: int,
)
    requires
        0 <= n <= layout.snapshots.len(),
        layout.snapshots.len() == layout.targets.len(),
        layout.snapshots.len() == readings.len(),
        transaction.steps.len() <= usize::MAX,
        holds_layout(transaction.steps, from, layout, suffix),
        layout.snapshots.len() > 0 ==> transaction.stage == (Stage::Forward {
            at: from as usize,
        }),
        windows_are_distinct(layout.snapshots),
        forall|i: int|
            0 <= i < layout.snapshots.len() ==> world.windows.contains_key(
                (#[trigger] layout.snapshots[i]).member.window_label(),
            ) && world.geometries.contains_key(layout.snapshots[i].member.id),
    ensures
        ({
            let (then, after) = played(transaction, world, layout_events(layout, readings, n));
            &&& then.steps == transaction.steps
            &&& n > 0 ==> then.stage == then.proceeded(from + 4 * n).stage
            &&& n < layout.snapshots.len() ==> then.stage == (Stage::Forward {
                at: (from + 4 * n) as usize,
            })
            &&& windows_placed(layout, readings, n, world, after)
            &&& targets_cached(layout, readings, n, world, after)
            &&& moves_awaited(layout, readings, n, after)
            &&& same_records(after, world)
        }),
    decreases n,
{
    if n == 0 {
        assert(layout.snapshots.take(0) =~= Seq::empty());
    } else {
        let i = n - 1;
        let earlier = layout_events(layout, readings, i);
        let events = window_events(layout.targets[i], readings[i]);
        lemma_layout_played(layout, suffix, from, transaction, world, readings, i);
        let (before, then) = played(transaction, world, earlier);
        lemma_played_add(transaction, world, earlier, events);
        law_layout_puts_windows_in_place(
            layout,
            suffix,
            from,
            i,
            before,
            then,
            readings[i].current,
            readings[i].requested,
        );
        lemma_window_played(
            layout,
            suffix,
            from,
            i,
            before,
            then,
            readings[i].current,
            readings[i].requested,
        );
        let (last, after) = played(before, then, events);
        if n < layout.snapshots.len() {
            lemma_placing_steps(layout, suffix, from, n, last);
        }
        lemma_one_more_placed(layout, readings, i, world, then, after);
        lemma_one_more_cached(layout, readings, i, world, then, after);
        lemma_one_more_awaited(layout, readings, i, then, after);
    }
}

/// Where the transaction is after one window.
proof fn lemma_window_played(
    layout: LayoutView,
    suffix: Seq<UndoView>,
    from: int,
    i: int,
    transaction: TransactionView,
    world: World,
    current: LogicalPosition,
    requested: PhysicalPosition,
)
    requires
        0 <= i < layout.snapshots.len(),
        transaction.steps.len() <= usize::MAX,
        holds_layout(transaction.steps, from, layout, suffix),
        transaction.stage == (Stage::Forward { at: (from + 4 * i) as usize }),
    ensures
        ({
            let reading = ScaleReading { current, requested };
            let then = played(transaction, world, window_events(layout.targets[i], reading)).0;
            &&& then.steps == transaction.steps
            &&& then.stage == then.proceeded(from + 4 * i + 4).stage
        }),
{
    if current != layout.targets[i] {
        lemma_moving_played(layout, suffix, from, i, transaction, world, current, requested);
    } else {
        lemma_staying_played(layout, suffix, from, i, transaction, world, current, requested);
    }
}

proof fn lemma_one_more_placed(
    layout: LayoutView,
    readings: Seq<ScaleReading>,
    i: int,
    before: World,
    now: World,
    after: World,
)
    requires
        0 <= i < layout.snapshots.len(),
        windows_are_distinct(layout.snapshots),
        before.windows.contains_key(layout.snapshots[i].member.window_label()),
        windows_placed(layout, readings, i, before, now),
        after.windows == (if readings[i].current != layout.targets[i] {
            let label = layout.snapshots[i].member.window_label();
            now.windows.insert(
                label,
                WindowState {
                    position: Spot::Logical(layout.targets[i]),
                    ..now.windows[label]
                },
            )
        } else {
            now.windows
        }),
    ensures
        windows_placed(layout, readings, i + 1, before, after),
{
    let snapshots = layout.snapshots;
    let moved = snapshots[i].member.window_label();
    assert(!is_label_of(snapshots.take(i), moved)) by {
        if is_label_of(snapshots.take(i), moved) {
            let j = choose|j: int|
                0 <= j < i && (#[trigger] snapshots.take(i)[j]).member.window_label() == moved;
            assert(snapshots[j].member.window_label() != snapshots[i].member.window_label());
        }
    }
    let window = now.windows[moved];
    assert(after.windows.dom() =~= before.windows.dom());
    assert forall|j: int| 0 <= j < i + 1 implies {
        let label = (#[trigger] snapshots[j]).member.window_label();
        after.windows[label] == placed_window(
            before.windows[label],
            layout.targets[j],
            readings[j],
        )
    } by {
        if j < i {
            assert(snapshots[j].member.window_label() != snapshots[i].member.window_label());
        }
    }
    assert forall|other: Seq<char>| !is_label_of(snapshots.take(i + 1), other) implies
        #[trigger] after.windows[other] == before.windows[other] by {
        assert(snapshots.take(i + 1)[i] == snapshots[i]);
        if is_label_of(snapshots.take(i), other) {
            let j = choose|j: int|
                0 <= j < i && (#[trigger] snapshots.take(i)[j]).member.window_label() == other;
            assert(snapshots.take(i + 1)[j] == snapshots.take(i)[j]);
        }
        let window = now.windows[other];
    }
}

proof fn lemma_one_more_cached(
    layout: LayoutView,
    readings: Seq<ScaleReading>,
    i: int,
    before: World,
    now: World,
    after: World,
)
    requires
        0 <= i < layout.snapshots.len(),
        before.geometries.contains_key(layout.snapshots[i].member.id),
        targets_cached(layout, readings, i, before, now),
        after.geometries == now.geometries.insert(
            layout.snapshots[i].member.id,
            NoteGeometry {
                position: readings[i].requested,
                ..now.geometries[layout.snapshots[i].member.id]
            },
        ),
    ensures
        targets_cached(layout, readings, i + 1, before, after),
{
    let snapshots = layout.snapshots;
    let own = snapshots[i].member.id;
    assert(after.geometries.dom() =~= before.geometries.dom());
    assert forall|id: Seq<char>| (#[trigger] after.geometries[id]).size
        == before.geometries[id].size by {
        let geometry = now.geometries[id];
        let cached = now.geometries[own];
    }
    assert forall|j: int| 0 <= j < i + 1 && #[trigger] is_last_of_id(snapshots, j, i + 1) implies
        after.geometries[snapshots[j].member.id].position == readings[j].requested by {
        if j < i {
            assert(snapshots[i].member.id != snapshots[j].member.id);
            assert(is_last_of_id(snapshots, j, i));
        }
    }
    assert forall|other: Seq<char>| !is_id_of(snapshots.take(i + 1), other) implies
        #[trigger] after.geometries[other] == before.geometries[other] by {
        assert(snapshots.take(i + 1)[i] == snapshots[i]);
        if is_id_of(snapshots.take(i), other) {
            let j = choose|j: int|
                0 <= j < i && (#[trigger] snapshots.take(i)[j]).member.id == other;
            assert(snapshots.take(i + 1)[j] == snapshots.take(i)[j]);
        }
        let geometry = now.geometries[other];
    }
}

proof fn lemma_one_more_awaited(
    layout: LayoutView,
    readings: Seq<ScaleReading>,
    i: int,
    now: World,
    after: World,
)
    requires
        0 <= i < layout.snapshots.len(),
        windows_are_distinct(layout.snapshots),
        moves_awaited(layout, readings, i, now),
        after.runtime == (if readings[i].current != layout.targets[i] {
            now.runtime.move_recorded(
                layout.snapshots[i].member.window_label(),
                readings[i].requested,
            )
        } else {
            now.runtime
        }),
    ensures
        moves_awaited(layout, readings, i + 1, after),
{
    assert forall|j: int|
        0 <= j < i + 1 && readings[j].current != layout.targets[j] implies {
        let label = (#[trigger] layout.snapshots[j]).member.window_label();
        after.runtime.pending.contains_key(label) && after.runtime.pending[label]
            == readings[j].requested
    } by {
        if j < i {
            assert(layout.snapshots[j].member.window_label()
                != layout.snapshots[i].member.window_label());
        }
    }
}

/// What is stored of the windows of a layout once they are in place.
pub open spec fn layout_replacements(
    layout: LayoutView,
    notes: Map<Seq<char>, NoteView>,
    timers: Map<Seq<char>, TimerView>,
) -> Seq<SurfaceView> {
    moved_surfaces(surfaces_of(notes, timers, members_of(layout.snapshots)), layout.targets)
}

} // verus!
