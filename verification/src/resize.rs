//! Folding, unfolding and resizing windows, and moving the windows below them
//! in their group.
use vstd::prelude::*;

use crate::arrange::{is_arranged, positions_after_changed_note, stack_fits};
use crate::effect::{CacheAction, Effect, EffectView, NoteAction, NoteActionView, WindowAction};
use crate::error::GroupError;
use crate::geometry::{
    GeometryIndex, LogicalPosition, LogicalSize, NoteGeometry, PhysicalPosition, PhysicalSize,
};
use crate::groups::{
    active_group_members, active_members, first_group_of, group_of, is_in_group, is_linked,
};
use crate::layout::{
    differs_only_at, durable_heights, is_id_of, is_label_of, join_undos, lemma_restored,
    lemma_restored_one, lemma_restored_some, members_of, moved_surfaces, restore_snapshots,
    restoring, restoring_one, same_desktop, same_records, shows, snapshots_for_members,
    snapshots_of, surface_heights, surfaces_at_targets, windows_are_distinct, windows_known,
    SnapshotView, WindowSnapshot,
};
use crate::member::{
    label_member, law_labels_name_their_window, note_id_from_label, GroupMemberKind, MemberView,
    StoredGroupMember,
};
use crate::member_set::MemberSet;
use crate::persist::{
    are_replaceable, is_write, lemma_moved_members, lemma_writing_keeps, names_missing_surface,
    originals_of, persist_surface_changes, rollback, stored_originals, surface_members, writing,
    written,
};
use crate::store::{
    is_missing_surface, stored_surface, stored_surfaces, surface_of, surfaces_known, surfaces_of,
    GroupView, StoredGroup, TimerStore,
};
use crate::surface::{
    at_least, raised_to, COLLAPSED_HEIGHT, MIN_NOTE_HEIGHT, MIN_NOTE_WIDTH, NoteView, StoredNote,
    StoredSurface, SurfaceView, TimerView,
};
use crate::table::Table;
use crate::transaction::{
    begun, copy_undos, resolved, OnFailure, Registers, Step, StepView, Transaction, Undo, UndoView,
};
use crate::views::{group_views, views};
use crate::world::{
    keeps, lemma_keeps_add, lemma_undone_add, lemma_undone_one, performed, undone, Extent, Promise,
    Spot, WindowState, World,
};

verus! {

/// A window of a group that is to be resized, folded or unfolded.
pub struct Resizing {
    pub member: StoredGroupMember,
    pub group: StoredGroup,
    /// What is stored of the window.
    pub old: StoredSurface,
    pub target: LogicalSize,
    /// Whether the window is to be folded or unfolded; `None` to leave that.
    pub collapsed: Option<bool>,
    /// The target size in device pixels.
    pub target_physical: PhysicalSize,
    /// The stored size in device pixels.
    pub previous_physical: PhysicalSize,
}

/// A window of a group that is to be resized, as contracts speak of it.
pub struct ResizingView {
    pub member: MemberView,
    pub group: GroupView,
    pub old: SurfaceView,
    pub target: LogicalSize,
    pub collapsed: Option<bool>,
    pub target_physical: PhysicalSize,
    pub previous_physical: PhysicalSize,
}

impl View for Resizing {
    type V = ResizingView;

    open spec fn view(&self) -> ResizingView {
        ResizingView {
            member: self.member@,
            group: self.group@,
            old: self.old@,
            target: self.target,
            collapsed: self.collapsed,
            target_physical: self.target_physical,
            previous_physical: self.previous_physical,
        }
    }
}

/// Whether the user may resize a window: a note that is not folded.
pub open spec fn may_resize(member: MemberView, collapsed: bool) -> bool {
    member.kind == GroupMemberKind::Note && !collapsed
}

impl ResizingView {
    /// What is stored of the window afterwards.
    pub open spec fn new_surface(self) -> SurfaceView {
        match self.collapsed {
            Some(collapsed) => self.old.folded(collapsed, self.old.durable_size()),
            None => self.old.seen_with_size(self.target),
        }
    }

    /// The window as it is brought back: where it is, with its stored size.
    pub open spec fn snapshot(self, position: PhysicalPosition) -> SnapshotView {
        SnapshotView { member: self.member, position, size: self.previous_physical }
    }
}

/// The effects that take back a resizing: the windows below first, then the
/// window itself, then whether the user may resize it.
pub open spec fn unresizing(
    request: ResizingView,
    position: PhysicalPosition,
    later: Seq<SnapshotView>,
) -> Seq<UndoView> {
    restoring(later) + restoring(seq![request.snapshot(position)]) + seq![
        UndoView {
            effect: EffectView::Window(
                request.member,
                WindowAction::SetResizable(may_resize(request.member, request.old.collapsed())),
            ),
            on_failure: OnFailure::Skip(0),
        },
    ]
}

/// A step that is taken back by `unwind`.
pub open spec fn step_of(effect: EffectView, unwind: Seq<UndoView>) -> StepView {
    StepView { effect, only_if_moving: false, unwind }
}

/// The steps that change the window itself.
pub open spec fn resizing_self(request: ResizingView, unwind: Seq<UndoView>) -> Seq<StepView> {
    (if request.collapsed == Some(true) {
        seq![step_of(EffectView::Window(request.member, WindowAction::LeaveMaximized), unwind)]
    } else {
        Seq::empty()
    }) + (match request.collapsed {
        Some(collapsed) => seq![
            step_of(
                EffectView::Window(
                    request.member,
                    WindowAction::SetResizable(may_resize(request.member, collapsed)),
                ),
                unwind,
            ),
        ],
        None => Seq::empty(),
    }) + seq![
        step_of(EffectView::Window(request.member, WindowAction::Resize(request.target)), unwind),
        step_of(
            EffectView::Cache(request.member, CacheAction::Size(request.target_physical)),
            unwind,
        ),
    ]
}

/// One of the four steps that move window `i` of the windows below.
pub open spec fn shifting_step(
    later: Seq<SnapshotView>,
    targets: Seq<LogicalPosition>,
    unwind: Seq<UndoView>,
    i: int,
    part: int,
) -> StepView {
    let member = later[i].member;
    if part == 0 {
        step_of(EffectView::Window(member, WindowAction::MoveTo(targets[i])), unwind)
    } else if part == 1 {
        step_of(
            EffectView::Window(
                member,
                WindowAction::ReadScale { position: later[i].position, target: targets[i] },
            ),
            unwind,
        )
    } else if part == 2 {
        step_of(EffectView::Cache(member, CacheAction::RequestedPosition), unwind)
    } else {
        step_of(EffectView::Cache(member, CacheAction::RecordRequested), unwind)
    }
}

/// The steps that move the windows below to their targets.
pub open spec fn shifting(
    later: Seq<SnapshotView>,
    targets: Seq<LogicalPosition>,
    unwind: Seq<UndoView>,
) -> Seq<StepView> {
    Seq::new(4 * later.len(), |k: int| shifting_step(later, targets, unwind, k / 4, k % 4))
}

/// What is stored of the window and of those below it afterwards.
pub open spec fn resize_replacements(
    request: ResizingView,
    later: Seq<SnapshotView>,
    targets: Seq<LogicalPosition>,
    notes: Map<Seq<char>, NoteView>,
    timers: Map<Seq<char>, TimerView>,
) -> Seq<SurfaceView> {
    seq![request.new_surface()] + moved_surfaces(
        surfaces_of(notes, timers, members_of(later)),
        targets,
    )
}

/// The steps that resize a window of a group: change it, move the windows below
/// it, and store all of them.
pub open spec fn resize_plan(
    request: ResizingView,
    position: PhysicalPosition,
    later: Seq<SnapshotView>,
    targets: Seq<LogicalPosition>,
    notes: Map<Seq<char>, NoteView>,
    timers: Map<Seq<char>, TimerView>,
) -> Seq<StepView> {
    let unwind = unresizing(request, position, later);
    let replacements = resize_replacements(request, later, targets, notes, timers);
    resizing_self(request, unwind) + shifting(later, targets, unwind) + writing(
        replacements,
        rollback(originals_of(notes, timers, replacements)) + unwind,
    )
}

/// The first place of a window in a list.
pub open spec fn place_in(members: Seq<MemberView>, member: MemberView, i: int) -> bool {
    &&& 0 <= i < members.len()
    &&& members[i] == member
    &&& forall|j: int| 0 <= j < i ==> #[trigger] members[j] != member
}

/// The first place of a window in a list.
fn place_of_member(members: &Vec<StoredGroupMember>, member: &StoredGroupMember) -> (place: Option<
    usize,
>)
    ensures
        match place {
            Some(i) => place_in(views(members@), member@, i as int),
            None => !views(members@).contains(member@),
        },
{
    let mut i: usize = 0;
    while i < members.len()
        invariant
            i <= members@.len(),
            forall|j: int| 0 <= j < i ==> #[trigger] views(members@)[j] != member@,
        decreases members.len() - i,
    {
        if members[i].same_window(member) {
            return Some(i);
        }
        proof {
            assert(views(members@)[i as int] != member@);
        }
        i += 1;
    }
    None
}

/// The part of a list from `from` on.
fn members_from(members: &Vec<StoredGroupMember>, from: usize) -> (rest: Vec<StoredGroupMember>)
    requires
        from <= members@.len(),
    ensures
        views(rest@) == views(members@).skip(from as int),
{
    let mut rest: Vec<StoredGroupMember> = Vec::new();
    let mut i: usize = from;
    while i < members.len()
        invariant
            from <= i <= members@.len(),
            rest@.len() == i - from,
            forall|j: int|
                0 <= j < rest@.len() ==> (#[trigger] rest@[j])@ == views(members@)[from + j],
        decreases members.len() - i,
    {
        rest.push(members[i].clone());
        i += 1;
    }
    proof {
        assert(views(rest@) =~= views(members@).skip(from as int));
    }
    rest
}

/// What a resizing is worked out from: the windows below the resized one, and
/// where they go.
pub struct ResizeView {
    pub position: PhysicalPosition,
    pub later: Seq<SnapshotView>,
    pub targets: Seq<LogicalPosition>,
}

/// Whether the windows below a resized one are those of its group that follow
/// it, and go where its new height leaves them.
pub open spec fn is_resize(
    resize: ResizeView,
    request: ResizingView,
    active: Seq<MemberView>,
    geometries: Map<Seq<char>, NoteGeometry>,
    notes: Map<Seq<char>, NoteView>,
    timers: Map<Seq<char>, TimerView>,
) -> bool {
    let below = active.skip(active.index_of_first(request.member)->0 + 1);
    &&& geometries.contains_key(request.member.id)
    &&& resize.position == geometries[request.member.id].position
    &&& resize.later == snapshots_of(geometries, below)
    &&& is_arranged(
        request.old.position(),
        seq![request.target.height] + durable_heights(surfaces_of(notes, timers, below)),
        seq![request.old.position()] + resize.targets,
    )
}

/// The steps that resize a window of a group.
pub fn resize_group_member(
    request: &Resizing,
    active_notes: &Vec<String>,
    open_timers: &Vec<String>,
    open_labels: &Vec<String>,
    geometries: &GeometryIndex,
    notes: &Table<StoredNote>,
    timers: &TimerStore,
) -> (steps: Result<Vec<Step>, GroupError>)
    ensures
        ({
            let active = active_members(
                views(active_notes@),
                views(open_timers@),
                request@.group.members,
                Set::empty(),
            );
            let below = active.skip(active.index_of_first(request@.member)->0 + 1);
            let heights = seq![request@.target.height] + durable_heights(
                surfaces_of(notes@, timers@, below),
            );
            let owners = seq![request@.old.member()] + surface_members(
                surfaces_of(notes@, timers@, below),
            );
            let placed = geometries@.contains_key(request@.member.id);
            match steps {
                Ok(steps) => {
                    &&& active.contains(request@.member)
                    &&& surfaces_known(notes@, timers@, owners, owners.len() as int)
                    &&& windows_known(
                        views(open_labels@),
                        geometries@,
                        below,
                        below.len() as int,
                    )
                    &&& surfaces_known(notes@, timers@, below, below.len() as int)
                    &&& stack_fits(request@.old.y() as int, heights)
                    &&& exists|resize: ResizeView|
                        {
                            &&& #[trigger] is_resize(
                                resize,
                                request@,
                                active,
                                geometries@,
                                notes@,
                                timers@,
                            )
                            &&& views(steps@) == resize_plan(
                                request@,
                                resize.position,
                                resize.later,
                                resize.targets,
                                notes@,
                                timers@,
                            )
                        }
                },
                Err(GroupError::NotActive) => !active.contains(request@.member),
                Err(GroupError::MissingWindow(missing)) => {
                    &&& active.contains(request@.member)
                    &&& placed
                    &&& below.contains(missing@)
                    &&& !views(open_labels@).contains(missing@.window_label())
                },
                Err(GroupError::MissingGeometry(id)) => {
                    &&& active.contains(request@.member)
                    &&& !geometries@.contains_key(id@)
                    &&& id@ == request@.member.id || exists|i: int|
                        0 <= i < below.len() && (#[trigger] below[i]).id == id@
                },
                Err(GroupError::PositionOutOfRange) => {
                    &&& active.contains(request@.member)
                    &&& surfaces_known(notes@, timers@, below, below.len() as int)
                    &&& !stack_fits(request@.old.y() as int, heights)
                },
                Err(error) => {
                    &&& active.contains(request@.member)
                    &&& !(surfaces_known(notes@, timers@, below, below.len() as int)
                        && surfaces_known(notes@, timers@, owners, owners.len() as int))
                    &&& names_missing_surface(error, notes@, timers@)
                },
            }
        }),
{
    broadcast use group_views;

    let active = active_group_members(
        active_notes,
        open_timers,
        &request.group,
        &MemberSet::new(),
    );
    let ghost viewed = views(active@);
    let index = match place_of_member(&active, &request.member) {
        Some(index) => index,
        None => {
            return Err(GroupError::NotActive);
        },
    };
    proof {
        lemma_index_of_first(viewed, request@.member, index as int);
    }
    let geometry = match geometries.get(request.member.id.as_str()) {
        Ok(geometry) => geometry,
        Err(missing) => {
            return Err(GroupError::MissingGeometry(missing.id));
        },
    };
    assert(index < active.len());
    let below = members_from(&active, index + 1);
    let ghost rest = views(below@);
    proof {
        assert(rest == viewed.skip(viewed.index_of_first(request@.member)->0 + 1));
    }
    let later = match snapshots_for_members(open_labels, geometries, &below) {
        Ok(later) => later,
        Err(error) => {
            proof {
                if error is MissingGeometry {
                    let id = error->MissingGeometry_0;
                    let i = choose|i: int|
                        {
                            &&& 0 <= i < below@.len()
                            &&& windows_known(views(open_labels@), geometries@, rest, i)
                            &&& views(open_labels@).contains(
                                (#[trigger] below@[i])@.window_label(),
                            )
                            &&& !geometries@.contains_key(below@[i]@.id)
                            &&& id@ == below@[i]@.id
                        };
                    assert(rest[i].id == id@);
                    assert(exists|i: int| 0 <= i < rest.len() && (#[trigger] rest[i]).id == id@);
                } else {
                    let missing = error->MissingWindow_0;
                    let i = choose|i: int|
                        {
                            &&& 0 <= i < below@.len()
                            &&& windows_known(views(open_labels@), geometries@, rest, i)
                            &&& missing@ == (#[trigger] below@[i])@
                            &&& !views(open_labels@).contains(below@[i]@.window_label())
                        };
                    assert(rest[i] == missing@);
                    assert(rest.contains(missing@));
                }
            }
            return Err(error);
        },
    };
    proof {
        assert(members_of(views(later@)) =~= rest);
    }
    let surfaces = match stored_surfaces(notes, timers, &below) {
        Ok(surfaces) => surfaces,
        Err(error) => {
            proof {
                let i = choose|i: int|
                    {
                        &&& 0 <= i < below@.len()
                        &&& surfaces_known(notes@, timers@, rest, i)
                        &&& surface_of(notes@, timers@, (#[trigger] below@[i])@) is None
                        &&& is_missing_surface(error, below@[i]@)
                    };
                assert(surface_of(notes@, timers@, rest[i]) is None);
            }
            return Err(error);
        },
    };
    let heights = surface_heights(&surfaces);
    let targets = match positions_after_changed_note(
        request.old.position(),
        request.target.height,
        &heights,
    ) {
        Ok(targets) => targets,
        Err(error) => {
            return Err(error);
        },
    };
    let mut shifted = match surfaces_at_targets(&later, &targets, notes, timers) {
        Ok(shifted) => shifted,
        Err(error) => {
            return Err(error);
        },
    };
    let mut replacements: Vec<StoredSurface> = Vec::new();
    replacements.push(resized_surface(request));
    replacements.append(&mut shifted);
    proof {
        assert(views(replacements@) =~= resize_replacements(
            request@,
            views(later@),
            targets@,
            notes@,
            timers@,
        ));
    }
    proof {
        lemma_moved_members(surfaces_of(notes@, timers@, rest), targets@);
        assert(surface_members(views(replacements@)) =~= seq![request@.old.member()]
            + surface_members(surfaces_of(notes@, timers@, rest)));
    }
    let originals = match stored_originals(notes, timers, &replacements) {
        Ok(originals) => originals,
        Err(error) => {
            return Err(error);
        },
    };
    let unwind = undo_resizing(request, geometry.position, &later);
    let mut steps = resize_window(request, &unwind);
    let mut moves = shift_windows(&later, &targets, &unwind);
    let mut writes = persist_surface_changes(&replacements, &originals, &unwind);
    steps.append(&mut moves);
    steps.append(&mut writes);
    proof {
        let resize = ResizeView {
            position: geometry.position,
            later: views(later@),
            targets: targets@,
        };
        assert(is_resize(resize, request@, viewed, geometries@, notes@, timers@));
    }
    Ok(steps)
}

/// The first place of a window in a list is the one that `index_of_first` gives.
pub proof fn lemma_index_of_first(members: Seq<MemberView>, member: MemberView, i: int)
    requires
        place_in(members, member, i),
    ensures
        members.contains(member),
        members.index_of_first(member) == Some(i),
{
    members.index_of_first_ensures(member);
    let first = members.index_of_first(member)->0;
    if first < i {
        assert(members[first] != member);
    }
}

/// What is stored of a resized window.
fn resized_surface(request: &Resizing) -> (surface: StoredSurface)
    ensures
        surface@ == request@.new_surface(),
{
    let mut surface = request.old.clone();
    match request.collapsed {
        Some(collapsed) => {
            let size = request.old.durable_size();
            surface.set_collapsed_and_size(collapsed, size);
        },
        None => {
            surface.adopt_size(request.target);
        },
    }
    surface
}

/// The effects that take back a resizing.
fn undo_resizing(
    request: &Resizing,
    position: PhysicalPosition,
    later: &Vec<WindowSnapshot>,
) -> (undos: Vec<Undo>)
    ensures
        views(undos@) == unresizing(request@, position, views(later@)),
{
    broadcast use group_views;

    let mut own: Vec<WindowSnapshot> = Vec::new();
    own.push(
        WindowSnapshot {
            member: request.member.clone(),
            position,
            size: request.previous_physical,
        },
    );
    proof {
        assert(views(own@).take(1) =~= seq![request@.snapshot(position)]);
        assert(views(later@).take(later@.len() as int) =~= views(later@));
    }
    let mut undos = join_undos(
        restore_snapshots(later, later.len()),
        &restore_snapshots(&own, 1),
    );
    let resizable = request.member.kind == GroupMemberKind::Note && !request.old.collapsed();
    undos.push(
        Undo {
            effect: Effect::Window(
                request.member.clone(),
                WindowAction::SetResizable(resizable),
            ),
            on_failure: OnFailure::Skip(0),
        },
    );
    proof {
        assert(views(undos@) =~= unresizing(request@, position, views(later@)));
    }
    undos
}

/// The steps that change the window itself.
fn resize_window(request: &Resizing, unwind: &Vec<Undo>) -> (steps: Vec<Step>)
    ensures
        views(steps@) == resizing_self(request@, views(unwind@)),
{
    broadcast use group_views;

    let mut steps: Vec<Step> = Vec::new();
    if let Some(collapsed) = request.collapsed {
        if collapsed {
            steps.push(
                Step {
                    effect: Effect::Window(request.member.clone(), WindowAction::LeaveMaximized),
                    only_if_moving: false,
                    unwind: copy_undos(unwind),
                },
            );
        }
        let resizable = request.member.kind == GroupMemberKind::Note && !collapsed;
        steps.push(
            Step {
                effect: Effect::Window(
                    request.member.clone(),
                    WindowAction::SetResizable(resizable),
                ),
                only_if_moving: false,
                unwind: copy_undos(unwind),
            },
        );
    }
    steps.push(
        Step {
            effect: Effect::Window(request.member.clone(), WindowAction::Resize(request.target)),
            only_if_moving: false,
            unwind: copy_undos(unwind),
        },
    );
    steps.push(
        Step {
            effect: Effect::Cache(
                request.member.clone(),
                CacheAction::Size(request.target_physical),
            ),
            only_if_moving: false,
            unwind: copy_undos(unwind),
        },
    );
    proof {
        assert(views(steps@) =~= resizing_self(request@, views(unwind@)));
    }
    steps
}

/// The steps that move the windows below to their targets.
fn shift_windows(
    later: &Vec<WindowSnapshot>,
    targets: &Vec<LogicalPosition>,
    unwind: &Vec<Undo>,
) -> (steps: Vec<Step>)
    requires
        later@.len() == targets@.len(),
    ensures
        views(steps@) == shifting(views(later@), targets@, views(unwind@)),
{
    let ghost all = shifting(views(later@), targets@, views(unwind@));
    let mut steps: Vec<Step> = Vec::new();
    let mut i: usize = 0;
    while i < later.len()
        invariant
            later@.len() == targets@.len(),
            all == shifting(views(later@), targets@, views(unwind@)),
            i <= later@.len(),
            steps@.len() == 4 * i,
            views(steps@) =~= all.take(4 * i),
        decreases later.len() - i,
    {
        broadcast use group_views;

        let ghost before = views(steps@);
        let member = &later[i].member;
        steps.push(
            Step {
                effect: Effect::Window(member.clone(), WindowAction::MoveTo(targets[i])),
                only_if_moving: false,
                unwind: copy_undos(unwind),
            },
        );
        steps.push(
            Step {
                effect: Effect::Window(
                    member.clone(),
                    WindowAction::ReadScale { position: later[i].position, target: targets[i] },
                ),
                only_if_moving: false,
                unwind: copy_undos(unwind),
            },
        );
        steps.push(
            Step {
                effect: Effect::Cache(member.clone(), CacheAction::RequestedPosition),
                only_if_moving: false,
                unwind: copy_undos(unwind),
            },
        );
        steps.push(
            Step {
                effect: Effect::Cache(member.clone(), CacheAction::RecordRequested),
                only_if_moving: false,
                unwind: copy_undos(unwind),
            },
        );
        proof {
            let added = seq![
                shifting_step(views(later@), targets@, views(unwind@), i as int, 0),
                shifting_step(views(later@), targets@, views(unwind@), i as int, 1),
                shifting_step(views(later@), targets@, views(unwind@), i as int, 2),
                shifting_step(views(later@), targets@, views(unwind@), i as int, 3),
            ];
            assert(views(later@)[i as int] == later@[i as int]@);
            assert(views(steps@) =~= before + added);
            assert(before + added =~= all.take(4 * (i + 1)));
        }
        i += 1;
    }
    proof {
        assert(all.take(4 * later@.len() as int) =~= all);
    }
    steps
}

/// The step that gives a window the focus once it is unfolded. A failure of it
/// takes nothing back.
pub open spec fn focusing(request: ResizingView) -> Seq<StepView> {
    if request.collapsed == Some(false) {
        seq![step_of(EffectView::Window(request.member, WindowAction::Focus), Seq::empty())]
    } else {
        Seq::empty()
    }
}

/// The transaction that carries out the steps of a resizing. A window that is
/// unfolded gets the focus in the end.
pub fn resize_transaction(request: &Resizing, steps: Vec<Step>) -> (transaction: Transaction)
    ensures
        transaction@ == begun(views(steps@) + focusing(request@)),
{
    broadcast use group_views;

    let mut all = steps;
    let unfolding = match request.collapsed {
        Some(collapsed) => !collapsed,
        None => false,
    };
    if unfolding {
        all.push(
            Step {
                effect: Effect::Window(request.member.clone(), WindowAction::Focus),
                only_if_moving: false,
                unwind: Vec::new(),
            },
        );
    }
    proof {
        assert(views(all@) =~= views(steps@) + focusing(request@));
    }
    Transaction::begin(all)
}

/// A window of a group that is to be folded or unfolded.
pub struct Folding {
    pub member: StoredGroupMember,
    pub group: StoredGroup,
    /// What is stored of the window.
    pub current: StoredSurface,
}

/// Decides what folding or unfolding the window of a group with the given label
/// concerns; nothing if it is folded or unfolded already.
pub fn set_group_member_collapsed(
    label: &str,
    collapsed: bool,
    notes: &Table<StoredNote>,
    timers: &TimerStore,
    groups: &Vec<StoredGroup>,
) -> (folding: Result<Option<Folding>, GroupError>)
    ensures
        match label_member(label@) {
            Some(member) => match surface_of(notes@, timers@, member) {
                Some(surface) => match folding {
                    Ok(None) => surface.collapsed() == collapsed,
                    Ok(Some(folding)) => {
                        &&& surface.collapsed() != collapsed
                        &&& folding.member@ == member
                        &&& folding.current@ == surface
                        &&& first_group_of(views(groups@), member) == Some(folding.group@)
                    },
                    Err(error) => {
                        &&& surface.collapsed() != collapsed
                        &&& first_group_of(views(groups@), member) is None
                        &&& error == GroupError::NotLinked
                    },
                },
                None => folding matches Err(error) && is_missing_surface(error, member),
            },
            None => folding matches Err(GroupError::UnknownWindow(unknown)) && unknown@ == label@,
        },
{
    let member = match StoredGroupMember::from_window_label(label) {
        Ok(member) => member,
        Err(unknown) => {
            return Err(GroupError::UnknownWindow(unknown.label));
        },
    };
    let current = match stored_surface(notes, timers, &member) {
        Ok(current) => current,
        Err(error) => {
            return Err(error);
        },
    };
    if current.collapsed() == collapsed {
        return Ok(None);
    }
    match group_of(groups, &member) {
        Some(group) => Ok(Some(Folding { member, group, current })),
        None => Err(GroupError::NotLinked),
    }
}

/// The size that a folded or unfolded window gets: no narrower than it is, and
/// as high as a folded window, or as it was before it was folded.
pub open spec fn fold_size(
    current: SurfaceView,
    size: LogicalSize,
    collapsed: bool,
) -> LogicalSize {
    LogicalSize {
        width: at_least(current.width(), size.width),
        height: if collapsed {
            COLLAPSED_HEIGHT
        } else {
            current.expanded_height()
        },
    }
}

/// The size that a folded or unfolded window gets, where `size` is its present one.
pub fn fold_target(current: &StoredSurface, size: LogicalSize, collapsed: bool) -> (target:
    LogicalSize)
    ensures
        target == fold_size(current@, size, collapsed),
{
    LogicalSize {
        width: raised_to(current.width(), size.width),
        height: if collapsed {
            COLLAPSED_HEIGHT
        } else {
            current.expanded_height()
        },
    }
}

/// How a window is folded or unfolded.
#[derive(Debug, Clone, Copy, PartialEq, Eq, Structural)]
pub enum FoldRoute {
    /// The window is in a group, whose other windows move.
    Grouped,
    /// The window is a note in no group.
    Note,
    /// The window is a timer in no group.
    Timer,
}

/// Decides how the window with the given label is folded or unfolded.
pub fn set_window_collapsed(label: &str, groups: &Vec<StoredGroup>) -> (route: Result<
    FoldRoute,
    GroupError,
>)
    ensures
        match label_member(label@) {
            Some(member) => route == Ok::<FoldRoute, GroupError>(
                if is_linked(views(groups@), member) {
                    FoldRoute::Grouped
                } else {
                    match member.kind {
                        GroupMemberKind::Note => FoldRoute::Note,
                        GroupMemberKind::Timer => FoldRoute::Timer,
                    }
                },
            ),
            None => route matches Err(GroupError::UnknownWindow(unknown)) && unknown@ == label@,
        },
{
    let member = match StoredGroupMember::from_window_label(label) {
        Ok(member) => member,
        Err(unknown) => {
            return Err(GroupError::UnknownWindow(unknown.label));
        },
    };
    Ok(
        if is_in_group(groups, &member) {
            FoldRoute::Grouped
        } else {
            match member.kind {
                GroupMemberKind::Note => FoldRoute::Note,
                GroupMemberKind::Timer => FoldRoute::Timer,
            }
        },
    )
}

/// The note whose window is to be resized; nothing if it is folded.
pub fn note_to_resize(label: &str, notes: &Table<StoredNote>) -> (note: Result<
    Option<StoredNote>,
    GroupError,
>)
    ensures
        match note {
            Ok(note) => {
                &&& label_member(label@) matches Some(member)
                &&& member.kind == GroupMemberKind::Note
                &&& notes@.contains_key(member.id)
                &&& match note {
                    Some(note) => note@ == notes@[member.id] && !note@.collapsed,
                    None => notes@[member.id].collapsed,
                }
            },
            Err(GroupError::UnknownWindow(unknown)) => {
                &&& unknown@ == label@
                &&& match label_member(label@) {
                    Some(member) => member.kind != GroupMemberKind::Note,
                    None => true,
                }
            },
            Err(GroupError::MissingNote(id)) => {
                &&& label_member(label@) matches Some(member)
                &&& member.kind == GroupMemberKind::Note
                &&& member.id == id@
                &&& !notes@.contains_key(id@)
            },
            Err(_) => false,
        },
{
    let id = match note_id_from_label(label) {
        Ok(id) => id,
        Err(unknown) => {
            return Err(GroupError::UnknownWindow(unknown.label));
        },
    };
    match notes.get(id.as_str()) {
        Some(note) => if note.collapsed {
            Ok(None)
        } else {
            Ok(Some(note.clone()))
        },
        None => Err(GroupError::MissingNote(id)),
    }
}

/// The steps that resize a note that is in no group: resize the window, measure
/// it, cache the measured size and store it. Only if it cannot be stored is the
/// window brought back.
pub open spec fn resize_note_plan(snapshot: SnapshotView, target: LogicalSize) -> Seq<StepView> {
    let member = snapshot.member;
    seq![
        step_of(EffectView::Window(member, WindowAction::Resize(target)), Seq::empty()),
        step_of(EffectView::Window(member, WindowAction::MeasureSize), Seq::empty()),
        step_of(EffectView::Cache(member, CacheAction::MeasuredSize), Seq::empty()),
        step_of(EffectView::Window(member, WindowAction::ConvertMeasured), Seq::empty()),
        step_of(
            EffectView::Notes(NoteActionView::SetMeasuredSize(member.id)),
            restoring(seq![snapshot]),
        ),
    ]
}

/// How a note gets a new height.
pub enum NoteResize {
    /// The note is in a group: the windows below it move.
    Grouped { group: StoredGroup, target: LogicalSize },
    /// The note is in no group.
    Alone(Transaction),
}

/// The size of a note whose height is to be `height`, where `size` is its
/// present size.
pub open spec fn note_target(size: LogicalSize, height: u32) -> LogicalSize {
    LogicalSize {
        width: at_least(size.width, MIN_NOTE_WIDTH),
        height: at_least(height, MIN_NOTE_HEIGHT),
    }
}

/// Gives the note with the identifier `id` a new height. `size` is its present
/// size in logical pixels, `geometry` its cached one.
pub fn resize_note_height(
    id: &str,
    height: u32,
    size: LogicalSize,
    geometry: NoteGeometry,
    groups: &Vec<StoredGroup>,
) -> (resize: NoteResize)
    ensures
        ({
            let member = MemberView { kind: GroupMemberKind::Note, id: id@ };
            let target = note_target(size, height);
            match first_group_of(views(groups@), member) {
                Some(group) => {
                    &&& resize matches NoteResize::Grouped { group: found, target: wanted }
                    &&& found@ == group
                    &&& wanted == target
                },
                None => {
                    &&& resize matches NoteResize::Alone(transaction)
                    &&& transaction@ == begun(
                        resize_note_plan(
                            SnapshotView {
                                member,
                                position: geometry.position,
                                size: geometry.size,
                            },
                            target,
                        ),
                    )
                },
            }
        }),
{
    broadcast use group_views;

    let target = LogicalSize {
        width: raised_to(size.width, MIN_NOTE_WIDTH),
        height: raised_to(height, MIN_NOTE_HEIGHT),
    };
    let member = StoredGroupMember::note(id);
    if let Some(group) = group_of(groups, &member) {
        return NoteResize::Grouped { group, target };
    }
    let mut own: Vec<WindowSnapshot> = Vec::new();
    own.push(
        WindowSnapshot {
            member: member.clone(),
            position: geometry.position,
            size: geometry.size,
        },
    );
    let ghost snapshot = SnapshotView {
        member: member@,
        position: geometry.position,
        size: geometry.size,
    };
    proof {
        assert(views(own@).take(1) =~= seq![snapshot]);
    }
    let mut steps: Vec<Step> = Vec::new();
    steps.push(plain_step(Effect::Window(member.clone(), WindowAction::Resize(target))));
    steps.push(plain_step(Effect::Window(member.clone(), WindowAction::MeasureSize)));
    steps.push(plain_step(Effect::Cache(member.clone(), CacheAction::MeasuredSize)));
    steps.push(plain_step(Effect::Window(member, WindowAction::ConvertMeasured)));
    steps.push(
        Step {
            effect: Effect::Notes(NoteAction::SetMeasuredSize(id.to_owned())),
            only_if_moving: false,
            unwind: restore_snapshots(&own, 1),
        },
    );
    proof {
        assert(views(steps@) =~= resize_note_plan(snapshot, target));
    }
    NoteResize::Alone(Transaction::begin(steps))
}

/// A step that nothing takes back.
pub fn plain_step(effect: Effect) -> (step: Step)
    ensures
        step@ == step_of(effect@, Seq::empty()),
{
    broadcast use group_views;

    Step { effect, only_if_moving: false, unwind: Vec::new() }
}

/// A note that could not be stored with its new size has its old place and size
/// again.
pub proof fn law_unstored_note_size_is_taken_back(
    snapshot: SnapshotView,
    target: LogicalSize,
    before: World,
    measured: PhysicalSize,
)
    requires
        shows(before, seq![snapshot]),
    ensures
        ({
            let member = snapshot.member;
            let resized = performed(
                before,
                EffectView::Window(member, WindowAction::Resize(target)),
            );
            let cached = performed(
                resized,
                EffectView::Cache(member, CacheAction::Size(measured)),
            );
            let after = undone(cached, resize_note_plan(snapshot, target)[4].unwind);
            same_desktop(after, before) && same_records(after, before)
        }),
{
    let member = snapshot.member;
    let all = seq![snapshot];
    let resized = performed(before, EffectView::Window(member, WindowAction::Resize(target)));
    let cached = performed(resized, EffectView::Cache(member, CacheAction::Size(measured)));
    assert(all[0] == snapshot);
    assert(is_label_of(all, member.window_label()));
    assert(is_id_of(all, member.id));
    assert(cached.windows.dom() =~= before.windows.dom());
    assert(cached.geometries.dom() =~= before.geometries.dom());
    lemma_restored(cached, before, all);
}

/// A world with the resized window as it is brought back: where it is, with its
/// stored size.
pub open spec fn brought_back(
    request: ResizingView,
    position: PhysicalPosition,
    before: World,
    resizable: bool,
) -> World {
    let snapshot = request.snapshot(position);
    World {
        windows: before.windows.insert(
            request.member.window_label(),
            WindowState {
                position: Spot::Physical(snapshot.position),
                size: Extent::Physical(snapshot.size),
                resizable,
            },
        ),
        geometries: before.geometries.insert(request.member.id, snapshot.geometry()),
        ..before
    }
}

/// What resizing a window of a group promises: it is stored as it was resized,
/// and the windows below where they were moved; or, after a failure, what is
/// stored is as before, the windows below are where they were, and the window
/// itself has its stored size.
pub open spec fn resize_promise(
    request: ResizingView,
    position: PhysicalPosition,
    later: Seq<SnapshotView>,
    targets: Seq<LogicalPosition>,
    before: World,
) -> Promise {
    Promise {
        done: |w: World|
            same_records(
                w,
                written(
                    before,
                    resize_replacements(
                        request,
                        later,
                        targets,
                        before.store.notes,
                        before.timers,
                    ),
                ),
            ),
        home: |w: World|
            {
                &&& same_records(w, before)
                &&& same_desktop(
                    w,
                    brought_back(
                        request,
                        position,
                        before,
                        may_resize(request.member, request.old.collapsed()),
                    ),
                )
            },
        exempt: |effect: EffectView| false,
    }
}

/// A world in which the user may resize a window or not, otherwise unchanged.
spec fn with_resizable(world: World, label: Seq<char>, resizable: bool) -> World {
    World {
        windows: world.windows.insert(
            label,
            WindowState { resizable, ..world.windows[label] },
        ),
        ..world
    }
}

/// Whether a world on the way differs from the one before only in what
/// `unresizing` takes back.
spec fn is_midway(
    request: ResizingView,
    position: PhysicalPosition,
    later: Seq<SnapshotView>,
    before: World,
    now: World,
) -> bool {
    let label = request.member.window_label();
    &&& same_records(now, before)
    &&& differs_only_at(
        now,
        with_resizable(before, label, now.windows[label].resizable),
        seq![request.snapshot(position)] + later,
    )
}

/// Whether an effect concerns the resized window or one below it.
spec fn is_resizing_effect(
    request: ResizingView,
    later: Seq<SnapshotView>,
    effect: EffectView,
) -> bool {
    match effect {
        EffectView::Window(member, action) => match action {
            WindowAction::LeaveMaximized => true,
            WindowAction::ReadScale { .. } => true,
            WindowAction::SetResizable(_) => member == request.member,
            WindowAction::Resize(_) => member == request.member,
            WindowAction::MoveTo(_) => members_of(later).contains(member),
            _ => false,
        },
        EffectView::Cache(member, action) => match action {
            CacheAction::Size(_) => member == request.member,
            CacheAction::Position(_) => members_of(later).contains(member),
            CacheAction::RequestedPosition => members_of(later).contains(member),
            CacheAction::RecordPosition(_) => true,
            CacheAction::RecordRequested => true,
            _ => false,
        },
        _ => false,
    }
}

proof fn lemma_midway_after(
    request: ResizingView,
    position: PhysicalPosition,
    later: Seq<SnapshotView>,
    before: World,
    now: World,
    effect: EffectView,
)
    requires
        before.windows.contains_key(request.member.window_label()),
        before.geometries.contains_key(request.member.id),
        shows(before, later),
        is_midway(request, position, later, before, now),
        is_resizing_effect(request, later, effect),
    ensures
        is_midway(request, position, later, before, performed(now, effect)),
{
    let label = request.member.window_label();
    let all = seq![request.snapshot(position)] + later;
    let after = performed(now, effect);
    let target = with_resizable(before, label, after.windows[label].resizable);
    assert(all[0].member == request.member);
    assert(is_label_of(all, label));
    assert(is_id_of(all, request.member.id));
    assert forall|member: MemberView| members_of(later).contains(member) implies is_label_of(
        all,
        member.window_label(),
    ) && is_id_of(all, member.id) && before.windows.contains_key(member.window_label())
        && before.geometries.contains_key(member.id) by {
        let i = members_of(later).index_of(member);
        assert(later[i].member == member);
        assert(all[i + 1] == later[i]);
    }
    assert(after.windows.dom() =~= target.windows.dom());
    assert(after.geometries.dom() =~= target.geometries.dom());
    assert forall|other: Seq<char>|
        #![trigger after.windows[other]]
        after.windows[other].resizable == target.windows[other].resizable && (!is_label_of(
            all,
            other,
        ) ==> after.windows[other] == target.windows[other]) by {
        let window = now.windows[other];
        let own = now.windows[label];
    }
    assert forall|id: Seq<char>|
        #![trigger after.geometries[id]]
        !is_id_of(all, id) ==> after.geometries[id] == target.geometries[id] by {
        let geometry = now.geometries[id];
    }
}

/// From midway, `unresizing` leads back. The resized window is brought back
/// last, so that its geometry is the one that stays cached, whether or not a
/// window below has the same identifier.
proof fn lemma_unresized(
    request: ResizingView,
    position: PhysicalPosition,
    later: Seq<SnapshotView>,
    targets: Seq<LogicalPosition>,
    before: World,
    now: World,
)
    requires
        before.windows.contains_key(request.member.window_label()),
        before.geometries.contains_key(request.member.id),
        shows(before, later),
        is_midway(request, position, later, before, now),
    ensures
        (resize_promise(request, position, later, targets, before).home)(
            undone(now, unresizing(request, position, later)),
        ),
{
    let label = request.member.window_label();
    let own = request.snapshot(position);
    let reference = with_resizable(before, label, now.windows[label].resizable);
    let flag = may_resize(request.member, request.old.collapsed());
    let home = brought_back(request, position, before, flag);
    assert(shows(reference, later)) by {
        assert forall|i: int| 0 <= i < later.len() implies {
            let other = (#[trigger] later[i]).member.window_label();
            let id = later[i].member.id;
            &&& reference.windows.contains_key(other)
            &&& reference.windows[other].position == Spot::Physical(later[i].position)
            &&& reference.windows[other].size == Extent::Physical(later[i].size)
            &&& reference.geometries.contains_key(id)
            &&& reference.geometries[id] == later[i].geometry()
        } by {}
    }
    lemma_restored_some(now, reference, later, seq![own]);
    let lifted = undone(now, restoring(later));
    assert(seq![own].drop_last() =~= Seq::empty());
    reveal_with_fuel(restoring, 2);
    assert(restoring(seq![own]) =~= restoring_one(own));
    lemma_undone_add(now, restoring(later), restoring(seq![own]));
    lemma_restored_one(lifted, own);
    let middle = undone(lifted, restoring_one(own));
    let last = UndoView {
        effect: EffectView::Window(request.member, WindowAction::SetResizable(flag)),
        on_failure: OnFailure::Skip(0),
    };
    lemma_undone_add(now, restoring(later) + restoring(seq![own]), seq![last]);
    lemma_undone_one(middle, last);
    let end = performed(middle, last.effect);
    assert forall|other: Seq<char>| home.windows.contains_key(other) implies
        #[trigger] end.windows[other] == home.windows[other] by {
        let window = lifted.windows[other];
        if other != label {
            assert(!is_label_of(seq![own], other));
        }
    }
    assert(end.windows =~= home.windows);
    assert forall|id: Seq<char>| home.geometries.contains_key(id) implies
        #[trigger] end.geometries[id] == home.geometries[id] by {
        let geometry = lifted.geometries[id];
        if id != request.member.id {
            assert(!is_id_of(seq![own], id));
        }
    }
    assert(end.geometries =~= home.geometries);
}

/// Steps that are all taken back by `unresizing` and concern only the resized
/// window and those below it keep the promise.
proof fn lemma_resizing_keeps(
    request: ResizingView,
    position: PhysicalPosition,
    later: Seq<SnapshotView>,
    targets: Seq<LogicalPosition>,
    before: World,
    steps: Seq<StepView>,
    k: int,
    now: World,
    promise: Promise,
)
    requires
        before.windows.contains_key(request.member.window_label()),
        before.geometries.contains_key(request.member.id),
        shows(before, later),
        0 <= k <= steps.len(),
        forall|i: int|
            0 <= i < steps.len() ==> {
                &&& (#[trigger] steps[i]).unwind == unresizing(request, position, later)
                &&& is_resizing_effect(request, later, steps[i].effect)
                &&& !steps[i].only_if_moving
            },
        is_midway(request, position, later, before, now),
        promise.home == resize_promise(request, position, later, targets, before).home,
        forall|w: World|
            is_midway(request, position, later, before, w) ==> #[trigger] (promise.done)(w),
    ensures
        keeps(steps, k, now, promise),
    decreases steps.len() - k,
{
    if k < steps.len() {
        lemma_unresized(request, position, later, targets, before, now);
        assert forall|registers: Registers|
            keeps(
                steps,
                k + 1,
                performed(now, #[trigger] resolved(steps[k].effect, registers)),
                promise,
            ) by {
            let effect = resolved(steps[k].effect, registers);
            assert(is_resizing_effect(request, later, effect));
            lemma_midway_after(request, position, later, before, now, effect);
            lemma_resizing_keeps(
                request,
                position,
                later,
                targets,
                before,
                steps,
                k + 1,
                performed(now, effect),
                promise,
            );
        }
    }
}

/// Resizing a window of a group is done as a whole or not at all: see
/// `resize_promise`.
pub proof fn law_resizing_is_all_or_nothing(
    request: ResizingView,
    position: PhysicalPosition,
    later: Seq<SnapshotView>,
    targets: Seq<LogicalPosition>,
    before: World,
)
    requires
        later.len() == targets.len(),
        before.windows.contains_key(request.member.window_label()),
        before.geometries.contains_key(request.member.id),
        shows(before, later),
        are_replaceable(
            before,
            resize_replacements(request, later, targets, before.store.notes, before.timers),
        ),
    ensures
        keeps(
            resize_plan(
                request,
                position,
                later,
                targets,
                before.store.notes,
                before.timers,
            ),
            0,
            before,
            resize_promise(request, position, later, targets, before),
        ),
{
    let notes = before.store.notes;
    let timers = before.timers;
    let label = request.member.window_label();
    let unwind = unresizing(request, position, later);
    let promise = resize_promise(request, position, later, targets, before);
    let replacements = resize_replacements(request, later, targets, notes, timers);
    let own = resizing_self(request, unwind);
    let below = shifting(later, targets, unwind);
    let first = own + below;
    let second = writing(
        replacements,
        rollback(originals_of(notes, timers, replacements)) + unwind,
    );
    let moved = Promise {
        done: |w: World| is_midway(request, position, later, before, w),
        ..promise
    };
    assert forall|i: int| 0 <= i < first.len() implies {
        &&& (#[trigger] first[i]).unwind == unwind
        &&& is_resizing_effect(request, later, first[i].effect)
        &&& !first[i].only_if_moving
    } by {
        if i >= own.len() {
            let k = i - own.len();
            assert(first[i] == below[k]);
            assert(below[k] == shifting_step(later, targets, unwind, k / 4, k % 4));
            assert(members_of(later)[k / 4] == later[k / 4].member);
        } else {
            assert(first[i] == own[i]);
        }
    }
    assert(is_midway(request, position, later, before, before)) by {
        assert(with_resizable(before, label, before.windows[label].resizable).windows
            =~= before.windows);
    }
    lemma_resizing_keeps(
        request,
        position,
        later,
        targets,
        before,
        first,
        0,
        before,
        moved,
    );
    assert forall|w: World| #[trigger] (moved.done)(w) implies keeps(second, 0, w, promise) by {
        lemma_unresized(request, position, later, targets, before, w);
        lemma_writing_keeps(w, replacements, unwind, promise);
    }
    lemma_keeps_add(first, second, 0, before, moved, promise);
}

/// A resized window: where it was, with its new size, and open to the user's
/// resizing as a folded or unfolded window is.
pub open spec fn resized_window(request: ResizingView, window: WindowState) -> WindowState {
    WindowState {
        size: Extent::Logical(request.target),
        resizable: match request.collapsed {
            Some(collapsed) => may_resize(request.member, collapsed),
            None => window.resizable,
        },
        ..window
    }
}

/// Whether a window is resized, the first `n` of those below it are at their
/// targets with the size they had, and no other window has changed; and whether
/// no geometry is cached anew but of those windows.
pub open spec fn is_resized(
    request: ResizingView,
    later: Seq<SnapshotView>,
    targets: Seq<LogicalPosition>,
    n: int,
    before: World,
    now: World,
) -> bool {
    let label = request.member.window_label();
    let own = request.member.id;
    &&& now.windows.dom() == before.windows.dom()
    &&& now.windows[label] == resized_window(request, before.windows[label])
    &&& forall|i: int|
        0 <= i < n ==> {
            let below = (#[trigger] later[i]).member.window_label();
            now.windows[below] == (WindowState {
                position: Spot::Logical(targets[i]),
                ..before.windows[below]
            })
        }
    &&& forall|other: Seq<char>|
        other != label && !is_label_of(later.take(n), other) ==> #[trigger] now.windows[other]
            == before.windows[other]
    &&& now.geometries.dom() == before.geometries.dom()
    &&& now.geometries[own] == (NoteGeometry {
        size: request.target_physical,
        ..before.geometries[own]
    })
    &&& forall|id: Seq<char>|
        id != own && !is_id_of(later, id) ==> #[trigger] now.geometries[id]
            == before.geometries[id]
}

/// What resizing a window of a group comes to on the desktop.
pub open spec fn resized_promise(
    request: ResizingView,
    later: Seq<SnapshotView>,
    targets: Seq<LogicalPosition>,
    n: int,
    before: World,
) -> Promise {
    Promise {
        done: |w: World| is_resized(request, later, targets, n, before, w),
        home: |w: World| true,
        exempt: |effect: EffectView| true,
    }
}

/// A step that is always done, and whose failure is not asked about, leads to
/// where it leads.
proof fn lemma_sure_step(steps: Seq<StepView>, at: int, world: World, promise: Promise)
    requires
        0 <= at < steps.len(),
        !steps[at].only_if_moving,
        (promise.exempt)(steps[at].effect),
        forall|registers: Registers| #[trigger]
            resolved(steps[at].effect, registers) == steps[at].effect,
        keeps(steps, at + 1, performed(world, steps[at].effect), promise),
    ensures
        keeps(steps, at, world, promise),
{
}

proof fn lemma_self_resized(
    request: ResizingView,
    unwind: Seq<UndoView>,
    later: Seq<SnapshotView>,
    targets: Seq<LogicalPosition>,
    before: World,
)
    requires
        before.windows.contains_key(request.member.window_label()),
        before.geometries.contains_key(request.member.id),
    ensures
        keeps(
            resizing_self(request, unwind),
            0,
            before,
            resized_promise(request, later, targets, 0, before),
        ),
{
    let steps = resizing_self(request, unwind);
    let promise = resized_promise(request, later, targets, 0, before);
    let label = request.member.window_label();
    let count = steps.len() as int;
    let may = match request.collapsed {
        Some(collapsed) => performed(
            before,
            EffectView::Window(
                request.member,
                WindowAction::SetResizable(may_resize(request.member, collapsed)),
            ),
        ),
        None => before,
    };
    let wide = performed(may, steps[count - 2].effect);
    let end = performed(wide, steps[count - 1].effect);
    assert(end.windows.dom() =~= before.windows.dom());
    assert(end.geometries.dom() =~= before.geometries.dom());
    assert(later.take(0) =~= Seq::empty());
    assert(is_resized(request, later, targets, 0, before, end));
    assert(keeps(steps, count, end, promise));
    lemma_sure_step(steps, count - 1, wide, promise);
    lemma_sure_step(steps, count - 2, may, promise);
    if request.collapsed is Some {
        lemma_sure_step(steps, count - 3, before, promise);
    }
    if request.collapsed == Some(true) {
        assert(performed(before, steps[0].effect) =~= before);
        lemma_sure_step(steps, 0, before, promise);
    }
}

proof fn lemma_shifted(
    request: ResizingView,
    unwind: Seq<UndoView>,
    later: Seq<SnapshotView>,
    targets: Seq<LogicalPosition>,
    k: int,
    before: World,
    now: World,
)
    requires
        later.len() == targets.len(),
        0 <= k <= 4 * later.len(),
        shows(before, later),
        windows_are_distinct(later),
        !is_id_of(later, request.member.id),
        is_resized(
            request,
            later,
            targets,
            if k % 4 == 0 {
                k / 4
            } else {
                k / 4 + 1
            },
            before,
            now,
        ),
    ensures
        keeps(
            shifting(later, targets, unwind),
            k,
            now,
            resized_promise(request, later, targets, later.len() as int, before),
        ),
    decreases 4 * later.len() - k,
{
    let steps = shifting(later, targets, unwind);
    let promise = resized_promise(request, later, targets, later.len() as int, before);
    if k < 4 * later.len() {
        let i = k / 4;
        let part = k % 4;
        let member = later[i].member;
        assert(steps[k] == shifting_step(later, targets, unwind, i, part));
        assert(is_id_of(later, member.id));
        law_labels_name_their_window(member, request.member);
        assert forall|registers: Registers|
            keeps(
                steps,
                k + 1,
                performed(now, #[trigger] resolved(steps[k].effect, registers)),
                promise,
            ) by {
            let after = performed(now, resolved(steps[k].effect, registers));
            assert(after.windows.dom() =~= before.windows.dom());
            assert(after.geometries.dom() =~= before.geometries.dom());
            if part == 0 {
                lemma_one_more_shifted(request, later, targets, i, before, now, after);
            }
            lemma_shifted(request, unwind, later, targets, k + 1, before, after);
        }
    }
}

proof fn lemma_one_more_shifted(
    request: ResizingView,
    later: Seq<SnapshotView>,
    targets: Seq<LogicalPosition>,
    i: int,
    before: World,
    now: World,
    after: World,
)
    requires
        later.len() == targets.len(),
        0 <= i < later.len(),
        windows_are_distinct(later),
        later[i].member.window_label() != request.member.window_label(),
        before.windows.contains_key(later[i].member.window_label()),
        is_resized(request, later, targets, i, before, now),
        after == performed(
            now,
            EffectView::Window(later[i].member, WindowAction::MoveTo(targets[i])),
        ),
    ensures
        is_resized(request, later, targets, i + 1, before, after),
{
    let moved = later[i].member.window_label();
    assert(!is_label_of(later.take(i), moved)) by {
        if is_label_of(later.take(i), moved) {
            let j = choose|j: int|
                0 <= j < i && (#[trigger] later.take(i)[j]).member.window_label() == moved;
            assert(later[j].member.window_label() != later[i].member.window_label());
        }
    }
    let window = now.windows[moved];
    assert(after.windows.dom() =~= before.windows.dom());
    assert forall|j: int| 0 <= j < i + 1 implies {
        let below = (#[trigger] later[j]).member.window_label();
        after.windows[below] == (WindowState {
            position: Spot::Logical(targets[j]),
            ..before.windows[below]
        })
    } by {
        if j < i {
            assert(later[j].member.window_label() != later[i].member.window_label());
        }
    }
    assert forall|other: Seq<char>|
        other != request.member.window_label() && !is_label_of(later.take(i + 1), other) implies
        #[trigger] after.windows[other] == before.windows[other] by {
        assert(later.take(i + 1)[i] == later[i]);
        if is_label_of(later.take(i), other) {
            let j = choose|j: int|
                0 <= j < i && (#[trigger] later.take(i)[j]).member.window_label() == other;
            assert(later.take(i + 1)[j] == later.take(i)[j]);
        }
        let window = now.windows[other];
    }
}

/// Resizing a window of a group gives it its new size where it is, takes each
/// of the windows below to its target, and changes no other window.
pub proof fn law_resizing_moves_only_the_windows_below(
    request: ResizingView,
    position: PhysicalPosition,
    later: Seq<SnapshotView>,
    targets: Seq<LogicalPosition>,
    before: World,
)
    requires
        later.len() == targets.len(),
        before.windows.contains_key(request.member.window_label()),
        before.geometries.contains_key(request.member.id),
        shows(before, later),
        windows_are_distinct(later),
        !is_id_of(later, request.member.id),
    ensures
        keeps(
            resize_plan(
                request,
                position,
                later,
                targets,
                before.store.notes,
                before.timers,
            ),
            0,
            before,
            resized_promise(request, later, targets, later.len() as int, before),
        ),
{
    let notes = before.store.notes;
    let timers = before.timers;
    let unwind = unresizing(request, position, later);
    let replacements = resize_replacements(request, later, targets, notes, timers);
    let own = resizing_self(request, unwind);
    let below = shifting(later, targets, unwind);
    let second = writing(
        replacements,
        rollback(originals_of(notes, timers, replacements)) + unwind,
    );
    let alone = resized_promise(request, later, targets, 0, before);
    let promise = resized_promise(request, later, targets, later.len() as int, before);
    lemma_self_resized(request, unwind, later, targets, before);
    assert forall|w: World| #[trigger] (alone.done)(w) implies keeps(below, 0, w, promise) by {
        lemma_shifted(request, unwind, later, targets, 0, before, w);
    }
    assert(alone.home == promise.home && alone.exempt == promise.exempt);
    lemma_keeps_add(own, below, 0, before, alone, promise);
    assert forall|w: World| #[trigger] (promise.done)(w) implies keeps(second, 0, w, promise) by {
        lemma_writes_change_no_window(request, later, targets, before, second, 0, w);
    }
    lemma_keeps_add(own + below, second, 0, before, promise, promise);
}

proof fn lemma_writes_change_no_window(
    request: ResizingView,
    later: Seq<SnapshotView>,
    targets: Seq<LogicalPosition>,
    before: World,
    steps: Seq<StepView>,
    at: int,
    now: World,
)
    requires
        0 <= at <= steps.len(),
        forall|i: int|
            0 <= i < steps.len() ==> is_write((#[trigger] steps[i]).effect)
                && !steps[i].only_if_moving,
        is_resized(request, later, targets, later.len() as int, before, now),
    ensures
        keeps(
            steps,
            at,
            now,
            resized_promise(request, later, targets, later.len() as int, before),
        ),
    decreases steps.len() - at,
{
    if at < steps.len() {
        assert forall|registers: Registers|
            keeps(
                steps,
                at + 1,
                performed(now, #[trigger] resolved(steps[at].effect, registers)),
                resized_promise(request, later, targets, later.len() as int, before),
            ) by {
            lemma_writes_change_no_window(
                request,
                later,
                targets,
                before,
                steps,
                at + 1,
                performed(now, resolved(steps[at].effect, registers)),
            );
        }
    }
}

} // verus!
