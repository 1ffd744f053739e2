//! Linking windows into one group below a parent.
use vstd::prelude::*;

use crate::effect::{notes_after, Effect, EffectView, NoteAction, NoteActionView};
use crate::error::GroupError;
use crate::geometry::{
    geometry_rect, law_reported_rectangles_are_computable, GeometryIndex, LogicalPosition,
    NoteGeometry, WindowRect,
};
use crate::groups::{
    first_group_of, group_of, groups_are_sound, is_linked, lemma_first_group_is_found,
    members_without, without,
};
use crate::in_place::{ends_in_place, lemma_first_layout_ends_in_place, spares};
use crate::layout::{
    applying, can_stack, differs_only_at, is_reading, is_stack_of, join_undos, layout_events,
    layout_replacements, lemma_restored, lemma_stack_members, restore_snapshots, restoring,
    same_desktop, same_records, says_why_not_stacked, shows, stack_members, windows_are_distinct,
    GroupLayout, LayoutView, ScaleReading,
};
use crate::member::{
    copy_members, get_focused_window, label_member, GroupMemberKind, MemberView, StoredGroupMember,
};
use crate::member_set::MemberSet;
use crate::persist::{
    are_stored, is_keyed, is_placeable, layout_originals, lemma_placing_keeps, lemma_rolled_back,
    names_missing_surface, place_windows, placing, rollback, written,
};
use crate::placement::{
    geometry_known, is_visual_order, members_on_anchor_monitor_side, members_on_side, sides_fit,
    visual_order,
};
use crate::relink::{
    durable_relink_order, first_active, groups_are_apart, law_relinking_loses_no_window,
    law_relinking_repeats_no_window, relinked_order,
};
use crate::store::{GroupView, StoredGroup, TimerStore};
use crate::surface::{NoteView, StoredNote, TimerView};
use crate::table::Table;
use crate::transaction::{begun, resolved, Event, Registers, Step, StepView, Transaction, Undo};
use crate::views::{group_views, option_view, views};
use crate::world::{
    keeps, lemma_keeps_add, lemma_undone_add, performed, played, undone, Promise, World,
};

verus! {

/// A display, and the part of it that the menu bar and the dock leave free.
#[derive(Debug, Clone, Copy, PartialEq, Eq, Structural)]
pub struct Monitor {
    pub bounds: NoteGeometry,
    pub work_area: NoteGeometry,
}

/// The active notes and timers, as windows.
pub open spec fn active_windows_of(
    active_notes: Seq<Seq<char>>,
    open_timers: Seq<Seq<char>>,
) -> Seq<MemberView> {
    Seq::new(
        active_notes.len(),
        |i: int| MemberView { kind: GroupMemberKind::Note, id: active_notes[i] },
    ) + Seq::new(
        open_timers.len(),
        |i: int| MemberView { kind: GroupMemberKind::Timer, id: open_timers[i] },
    )
}

/// The active notes and timers, as windows.
pub fn active_windows(active_notes: &Vec<String>, open_timers: &Vec<String>) -> (windows: Vec<
    StoredGroupMember,
>)
    ensures
        views(windows@) == active_windows_of(views(active_notes@), views(open_timers@)),
{
    let ghost all = active_windows_of(views(active_notes@), views(open_timers@));
    let mut windows: Vec<StoredGroupMember> = Vec::new();
    let mut i: usize = 0;
    while i < active_notes.len()
        invariant
            all == active_windows_of(views(active_notes@), views(open_timers@)),
            i <= active_notes@.len(),
            windows@.len() == i,
            forall|j: int| 0 <= j < i ==> (#[trigger] windows@[j])@ == all[j],
        decreases active_notes.len() - i,
    {
        windows.push(StoredGroupMember::note(active_notes[i].as_str()));
        i += 1;
    }
    let mut i: usize = 0;
    while i < open_timers.len()
        invariant
            all == active_windows_of(views(active_notes@), views(open_timers@)),
            i <= open_timers@.len(),
            windows@.len() == active_notes@.len() + i,
            forall|j: int|
                0 <= j < active_notes@.len() + i ==> (#[trigger] windows@[j])@ == all[j],
        decreases open_timers.len() - i,
    {
        windows.push(StoredGroupMember::timer(open_timers[i].as_str()));
        i += 1;
    }
    proof {
        assert(views(windows@) =~= all);
    }
    windows
}

/// Whether a group has a window of a set.
pub open spec fn touches(selected: Set<MemberView>) -> spec_fn(GroupView) -> bool {
    |group: GroupView|
        exists|i: int|
            0 <= i < group.members.len() && selected.contains(#[trigger] group.members[i])
}

/// The groups that have a window of a set.
pub open spec fn touched_groups(groups: Seq<GroupView>, selected: Set<MemberView>) -> Seq<
    GroupView,
> {
    groups.filter(touches(selected))
}

/// The windows that are chosen to be linked below a parent: itself and the
/// active ones on its side of its display.
pub open spec fn selected_windows(
    parent: MemberView,
    active: Seq<MemberView>,
    geometries: Map<Seq<char>, NoteGeometry>,
    monitor: Monitor,
) -> Set<MemberView> {
    members_on_side(
        parent,
        without(active, parent),
        geometries,
        geometry_rect(monitor.bounds),
        geometry_rect(monitor.work_area),
    ).insert(parent)
}

/// The windows that are linked below a parent: the chosen ones, and the active
/// ones of every group that one of those is in.
pub open spec fn linked_windows(
    parent: MemberView,
    groups: Seq<GroupView>,
    active: Seq<MemberView>,
    geometries: Map<Seq<char>, NoteGeometry>,
    monitor: Monitor,
) -> Set<MemberView> {
    let selected = selected_windows(parent, active, geometries, monitor);
    Set::new(
        |m: MemberView|
            m != parent && (selected.contains(m) || (active.contains(m) && is_linked(
                touched_groups(groups, selected),
                m,
            ))),
    )
}

/// What is to be linked.
pub struct LinkSelection {
    pub parent: StoredGroupMember,
    /// The windows of the new group that are open, parent first.
    pub order: Vec<StoredGroupMember>,
    /// The groups that the new group replaces.
    pub absorbed: Vec<StoredGroup>,
    /// The identifier of the group that the parent is in.
    pub existing: Option<String>,
}

/// The identifier of the first group that a window is in.
pub open spec fn group_id_of(groups: Seq<GroupView>, member: MemberView) -> Option<Seq<char>> {
    match first_group_of(groups, member) {
        Some(group) => Some(group.id),
        None => None,
    }
}

/// The identifier of the first group that a window is in.
fn group_id_for(groups: &Vec<StoredGroup>, member: &StoredGroupMember) -> (id: Option<String>)
    ensures
        option_view(id) == group_id_of(views(groups@), member@),
{
    match group_of(groups, member) {
        Some(group) => Some(group.id),
        None => None,
    }
}

/// Whether a selection is what is linked below its parent: the parent, and below
/// it the linked windows in reading order; the groups that have a chosen window;
/// and the identifier of the parent's group.
pub open spec fn selects(
    selection: SelectionView,
    groups: Seq<GroupView>,
    active: Seq<MemberView>,
    geometries: Map<Seq<char>, NoteGeometry>,
    monitor: Monitor,
) -> bool {
    let parent = selection.parent;
    &&& selection.absorbed == touched_groups(
        groups,
        selected_windows(parent, active, geometries, monitor),
    )
    &&& selection.existing == group_id_of(groups, parent)
    &&& selection.order.len() >= 2
    &&& selection.order[0] == parent
    &&& is_visual_order(
        linked_windows(parent, groups, active, geometries, monitor),
        geometries,
        selection.order.drop_first(),
    )
}

/// Chooses what is to be linked below `parent`.
pub fn link_selection(
    parent: &StoredGroupMember,
    groups: &Vec<StoredGroup>,
    active: &Vec<StoredGroupMember>,
    geometries: &GeometryIndex,
    monitor: Monitor,
) -> (selection: Result<LinkSelection, GroupError>)
    ensures
        ({
            let candidates = without(views(active@), parent@);
            let known = geometries@.contains_key(parent@.id);
            let here = known && geometry_rect(monitor.bounds).spec_contains_center_twice(
                geometry_rect(geometries@[parent@.id]).spec_center_twice(),
            );
            let placed = geometry_known(candidates, geometries@, candidates.len() as int);
            let linked = linked_windows(
                parent@,
                views(groups@),
                views(active@),
                geometries@,
                monitor,
            );
            match selection {
                Ok(selection) => {
                    &&& here
                    &&& placed
                    &&& selection.parent@ == parent@
                    &&& selects(
                        selection@,
                        views(groups@),
                        views(active@),
                        geometries@,
                        monitor,
                    )
                },
                Err(GroupError::ParentOutsideMonitor) => known && !here,
                Err(GroupError::NothingToLink) => here && placed && linked == Set::<
                    MemberView,
                >::empty(),
                Err(GroupError::MissingGeometry(id)) => {
                    ||| !known && id@ == parent@.id
                    ||| here && exists|i: int|
                        {
                            &&& 0 <= i < candidates.len()
                            &&& geometry_known(candidates, geometries@, i)
                            &&& !geometries@.contains_key((#[trigger] candidates[i]).id)
                            &&& id@ == candidates[i].id
                        }
                    ||| here && placed && exists|m: MemberView| #[trigger]
                        linked.contains(m) && !geometries@.contains_key(m.id) && id@ == m.id
                },
                Err(_) => false,
            }
        }),
{
    let ghost viewed = views(groups@);
    let ghost everything = views(active@);
    let candidates = members_without(active, parent);
    let bounds = WindowRect::from_physical(monitor.bounds.position, monitor.bounds.size);
    let work_area = WindowRect::from_physical(monitor.work_area.position, monitor.work_area.size);
    proof {
        assert(bounds == geometry_rect(monitor.bounds));
        assert(work_area == geometry_rect(monitor.work_area));
        law_reported_rectangles_are_computable(monitor.bounds, geometries@[parent@.id]);
        assert forall|i: int|
            #![trigger views(candidates@)[i]]
            0 <= i < candidates@.len() implies bounds.containment_fits(
            geometry_rect(geometries@[views(candidates@)[i].id]).spec_center_twice(),
        ) by {
            law_reported_rectangles_are_computable(
                monitor.bounds,
                geometries@[views(candidates@)[i].id],
            );
        }
        assert(sides_fit(parent@, views(candidates@), geometries@, bounds, work_area));
    }
    let eligible = match members_on_anchor_monitor_side(
        parent,
        &candidates,
        geometries,
        bounds,
        work_area,
    ) {
        Ok(eligible) => eligible,
        Err(error) => {
            proof {
                if error is MissingGeometry {
                    let id = error->MissingGeometry_0;
                    if geometries@.contains_key(parent@.id) {
                        let i = choose|i: int|
                            {
                                &&& 0 <= i < candidates@.len()
                                &&& geometry_known(views(candidates@), geometries@, i)
                                &&& !geometries@.contains_key((#[trigger] candidates@[i])@.id)
                                &&& id@ == candidates@[i]@.id
                            };
                        assert(without(views(active@), parent@)[i] == candidates@[i]@);
                    }
                }
            }
            return Err(error);
        },
    };
    let mut selected = MemberSet::from_members(&eligible);
    selected.insert(parent.clone());
    let ghost chosen = selected_windows(parent@, everything, geometries@, monitor);
    proof {
        assert(selected@ == chosen);
    }
    let absorbed = groups_touching(groups, &selected);
    let globally_active = MemberSet::from_members(active);
    let mut others = selected;
    add_active_members(&mut others, &absorbed, &globally_active);
    others.remove(parent);
    let ghost linked = linked_windows(parent@, viewed, everything, geometries@, monitor);
    proof {
        assert(others@ =~= linked);
    }
    let below = match visual_order(&others, geometries) {
        Ok(below) => below,
        Err(error) => {
            return Err(error);
        },
    };
    if below.len() == 0 {
        proof {
            assert(views(below@).to_set() =~= Set::empty());
        }
        return Err(GroupError::NothingToLink);
    }
    let existing = group_id_for(groups, parent);
    let mut order: Vec<StoredGroupMember> = Vec::new();
    order.push(parent.clone());
    let mut rest = copy_members(&below);
    order.append(&mut rest);
    proof {
        assert(views(order@).drop_first() =~= views(below@));
    }
    Ok(LinkSelection { parent: parent.clone(), order, absorbed, existing })
}

/// The groups that have a window of a set.
fn groups_touching(groups: &Vec<StoredGroup>, selected: &MemberSet) -> (touched: Vec<StoredGroup>)
    ensures
        views(touched@) == touched_groups(views(groups@), selected@),
{
    broadcast use group_views;

    let ghost viewed = views(groups@);
    let mut touched: Vec<StoredGroup> = Vec::new();
    let mut i: usize = 0;
    proof {
        reveal(Seq::filter);
        assert(viewed.take(0) =~= Seq::empty());
    }
    while i < groups.len()
        invariant
            viewed == views(groups@),
            i <= groups@.len(),
            views(touched@) == touched_groups(viewed.take(i as int), selected@),
        decreases groups.len() - i,
    {
        let touching = has_member_of(&groups[i], selected);
        proof {
            reveal(Seq::filter);
            assert(viewed.take(i + 1).drop_last() =~= viewed.take(i as int));
            assert(viewed.take(i + 1).last() == groups@[i as int]@);
        }
        if touching {
            touched.push(groups[i].clone());
        }
        i += 1;
    }
    proof {
        assert(viewed.take(groups@.len() as int) =~= viewed);
    }
    touched
}

/// Whether a group has a window of a set.
fn has_member_of(group: &StoredGroup, selected: &MemberSet) -> (touching: bool)
    ensures
        touching == touches(selected@)(group@),
{
    let mut i: usize = 0;
    while i < group.members.len()
        invariant
            i <= group.members@.len(),
            forall|j: int| 0 <= j < i ==> !selected@.contains(#[trigger] group@.members[j]),
        decreases group.members.len() - i,
    {
        if selected.contains(&group.members[i]) {
            proof {
                assert(selected@.contains(group@.members[i as int]));
            }
            return true;
        }
        i += 1;
    }
    false
}

/// Adds the active windows of some groups to a set.
fn add_active_members(members: &mut MemberSet, groups: &Vec<StoredGroup>, active: &MemberSet)
    ensures
        forall|m: MemberView| #[trigger]
            final(members)@.contains(m) <==> old(members)@.contains(m) || (active@.contains(m)
                && is_linked(views(groups@), m)),
{
    let ghost viewed = views(groups@);
    let mut g: usize = 0;
    while g < groups.len()
        invariant
            viewed == views(groups@),
            g <= groups@.len(),
            forall|m: MemberView| #[trigger]
                members@.contains(m) <==> old(members)@.contains(m) || (active@.contains(m)
                    && is_linked(viewed.take(g as int), m)),
        decreases groups.len() - g,
    {
        let ghost before = members@;
        let ghost group = groups@[g as int]@;
        let mut i: usize = 0;
        while i < groups[g].members.len()
            invariant
                g < groups@.len(),
                group == groups@[g as int]@,
                i <= groups@[g as int].members@.len(),
                forall|m: MemberView| #[trigger]
                    members@.contains(m) <==> before.contains(m) || (active@.contains(m)
                        && group.members.take(i as int).contains(m)),
            decreases groups@[g as int].members.len() - i,
        {
            let ghost so_far = members@;
            let ghost next = group.members[i as int];
            proof {
                lemma_take_contains(group.members, i as int);
            }
            if active.contains(&groups[g].members[i]) {
                members.insert(groups[g].members[i].clone());
            }
            i += 1;
        }
        proof {
            assert(group.members.take(group.members.len() as int) =~= group.members);
            assert(viewed[g as int] == group);
            assert forall|m: MemberView| #[trigger] is_linked(viewed.take(g + 1), m) <==> (
            is_linked(viewed.take(g as int), m) || group.members.contains(m)) by {
                lemma_in_some_group(viewed, g as int, m);
            }
        }
        g += 1;
    }
    proof {
        assert(viewed.take(groups@.len() as int) =~= viewed);
    }
}

proof fn lemma_take_contains(members: Seq<MemberView>, i: int)
    requires
        0 <= i < members.len(),
    ensures
        forall|m: MemberView| #[trigger]
            members.take(i + 1).contains(m) <==> members.take(i).contains(m) || m == members[i],
{
    assert forall|m: MemberView| #[trigger] members.take(i + 1).contains(m) <==> members.take(
        i,
    ).contains(m) || m == members[i] by {
        if members.take(i).contains(m) {
            let j = members.take(i).index_of(m);
            assert(members.take(i + 1)[j] == m);
        }
        if m == members[i] {
            assert(members.take(i + 1)[i] == m);
        }
        if members.take(i + 1).contains(m) && m != members[i] {
            let j = members.take(i + 1).index_of(m);
            assert(members.take(i)[j] == m);
        }
    }
}

proof fn lemma_in_some_group(groups: Seq<GroupView>, g: int, m: MemberView)
    requires
        0 <= g < groups.len(),
    ensures
        is_linked(groups.take(g + 1), m) <==> (is_linked(groups.take(g), m)
            || groups[g].members.contains(m)),
{
    let fewer = groups.take(g);
    let more = groups.take(g + 1);
    if is_linked(fewer, m) {
        let h = choose|h: int| 0 <= h < fewer.len() && (#[trigger] fewer[h]).members.contains(m);
        assert(more[h].members.contains(m));
    }
    if groups[g].members.contains(m) {
        assert(more[g].members.contains(m));
    }
    if is_linked(more, m) && !groups[g].members.contains(m) {
        let h = choose|h: int| 0 <= h < more.len() && (#[trigger] more[h]).members.contains(m);
        assert(fewer[h].members.contains(m));
    }
}

/// Whether a character is a lower-case hexadecimal digit.
pub open spec fn is_hex_digit(c: char) -> bool {
    ('0' <= c && c <= '9') || ('a' <= c && c <= 'f')
}

/// Whether a text is a random identifier in its usual notation: five runs of
/// hexadecimal digits with hyphens between them, the third run starting with
/// the digit that stands for random identifiers, the fourth with one of four.
pub open spec fn is_random_id(id: Seq<char>) -> bool {
    &&& id.len() == 36
    &&& forall|i: int|
        0 <= i < 36 ==> if i == 8 || i == 13 || i == 18 || i == 23 {
            #[trigger] id[i] == '-'
        } else {
            is_hex_digit(id[i])
        }
    &&& id[14] == '4'
    &&& id[19] == '8' || id[19] == '9' || id[19] == 'a' || id[19] == 'b'
}

/// A random identifier: `uuid::Uuid::new_v4`, written out by its `to_string`.
/// The claim is the notation only: the digits are random, and that no
/// identifier comes twice is likely but not certain.
#[verifier::external_body]
fn random_id() -> (id: String)
    ensures
        is_random_id(id@),
{
    uuid::Uuid::new_v4().to_string()
}

/// The identifiers of groups.
pub open spec fn group_ids(groups: Seq<GroupView>) -> Seq<Seq<char>> {
    Seq::new(groups.len(), |i: int| groups[i].id)
}

/// The identifiers of groups.
fn ids_of_groups(groups: &Vec<StoredGroup>) -> (ids: Vec<String>)
    ensures
        views(ids@) == group_ids(views(groups@)),
{
    let mut ids: Vec<String> = Vec::new();
    let mut i: usize = 0;
    while i < groups.len()
        invariant
            i <= groups@.len(),
            ids@.len() == i,
            forall|j: int| 0 <= j < i ==> (#[trigger] ids@[j])@ == views(groups@)[j].id,
        decreases groups.len() - i,
    {
        ids.push(groups[i].id.clone());
        i += 1;
    }
    proof {
        assert(views(ids@) =~= group_ids(views(groups@)));
    }
    ids
}

/// What is to be linked, as contracts speak of it.
pub struct SelectionView {
    pub parent: MemberView,
    pub order: Seq<MemberView>,
    pub absorbed: Seq<GroupView>,
    pub existing: Option<Seq<char>>,
}

impl View for LinkSelection {
    type V = SelectionView;

    open spec fn view(&self) -> SelectionView {
        SelectionView {
            parent: self.parent@,
            order: views(self.order@),
            absorbed: views(self.absorbed@),
            existing: option_view(self.existing),
        }
    }
}

impl SelectionView {
    /// The group that the windows are linked into. The closed notes of the
    /// groups that it replaces keep their slots.
    pub open spec fn new_group(self, id: Seq<char>) -> GroupView {
        GroupView {
            id,
            members: relinked_order(
                self.parent,
                self.order,
                self.absorbed,
                self.order.len() as int,
            ),
        }
    }

    /// The change of the stored groups.
    pub open spec fn relinking(self, id: Seq<char>) -> NoteActionView {
        NoteActionView::Relink { absorbed: group_ids(self.absorbed), group: self.new_group(id) }
    }
}

/// The steps that link windows: place them below each other, store where they
/// are, and replace their groups by the new one.
pub open spec fn link_plan(
    selection: SelectionView,
    layout: LayoutView,
    notes: Map<Seq<char>, NoteView>,
    timers: Map<Seq<char>, TimerView>,
    id: Seq<char>,
) -> Seq<StepView> {
    placing(layout, notes, timers, Seq::empty(), restoring(layout.snapshots)).push(
        StepView {
            effect: EffectView::Notes(selection.relinking(id)),
            only_if_moving: false,
            unwind: rollback(layout_originals(layout, notes, timers)) + restoring(
                layout.snapshots,
            ),
        },
    )
}

/// Whether `id` may be the identifier of the new group: the one of the group
/// that the parent is in, or a random one if it is in none.
pub open spec fn may_identify(selection: SelectionView, id: Seq<char>) -> bool {
    match selection.existing {
        Some(existing) => id == existing,
        None => is_random_id(id),
    }
}

/// The transaction that links windows into a group with the identifier `id`.
pub fn link_transaction(
    selection: &LinkSelection,
    layout: &GroupLayout,
    notes: &Table<StoredNote>,
    timers: &TimerStore,
    id: String,
) -> (transaction: Result<Transaction, GroupError>)
    ensures
        match transaction {
            Ok(transaction) => {
                &&& is_placeable(layout@, notes@, timers@)
                &&& transaction@ == begun(
                    link_plan(selection@, layout@, notes@, timers@, id@),
                )
            },
            Err(error) => !is_placeable(layout@, notes@, timers@) && names_missing_surface(
                error,
                notes@,
                timers@,
            ),
        },
{
    broadcast use group_views;

    let snapshots = layout.snapshots();
    let restore = restore_snapshots(snapshots, snapshots.len());
    proof {
        assert(layout@.snapshots.take(snapshots@.len() as int) =~= layout@.snapshots);
    }
    let nothing: Vec<Undo> = Vec::new();
    let compaction = match place_windows(layout, notes, timers, &nothing, &restore) {
        Ok(compaction) => compaction,
        Err(error) => {
            return Err(error);
        },
    };
    let group = StoredGroup {
        id,
        members: durable_relink_order(&selection.parent, &selection.order, &selection.absorbed),
    };
    let mut steps = compaction.steps;
    steps.push(
        Step {
            effect: Effect::Notes(
                NoteAction::Relink { absorbed: ids_of_groups(&selection.absorbed), group },
            ),
            only_if_moving: false,
            unwind: join_undos(compaction.rollback, &restore),
        },
    );
    Ok(Transaction::begin(steps))
}

/// Links windows into one group: stacks them from `origin` downwards, parent
/// first, and replaces their groups by one. The new group keeps the identifier
/// of the parent's group, or gets a random one.
pub fn link_windows_on_this_side_below(
    selection: &LinkSelection,
    open_labels: &Vec<String>,
    geometries: &GeometryIndex,
    origin: LogicalPosition,
    notes: &Table<StoredNote>,
    timers: &TimerStore,
) -> (transaction: Result<Transaction, GroupError>)
    ensures
        match transaction {
            Ok(transaction) => {
                &&& can_stack(
                    selection@.order,
                    views(open_labels@),
                    geometries@,
                    origin,
                    notes@,
                    timers@,
                )
                &&& are_stored(selection@.order, notes@, timers@)
                &&& exists|layout: LayoutView, id: Seq<char>|
                    {
                        &&& is_stack_of(
                            layout,
                            selection@.order,
                            geometries@,
                            origin,
                            notes@,
                            timers@,
                        )
                        &&& may_identify(selection@, id)
                        &&& transaction@ == begun(
                            #[trigger] link_plan(selection@, layout, notes@, timers@, id),
                        )
                    }
            },
            Err(error) => {
                ||| says_why_not_stacked(
                        error,
                        selection@.order,
                        views(open_labels@),
                        geometries@,
                        origin,
                        notes@,
                        timers@,
                    )
                ||| !are_stored(selection@.order, notes@, timers@) && names_missing_surface(
                        error,
                        notes@,
                        timers@,
                    )
            },
        },
{
    let layout = match stack_members(
        &selection.order,
        open_labels,
        geometries,
        origin,
        notes,
        timers,
    ) {
        Ok(layout) => layout,
        Err(error) => {
            return Err(error);
        },
    };
    proof {
        lemma_stack_members(layout@, selection@.order, geometries@, origin, notes@, timers@);
    }
    let id = match &selection.existing {
        Some(existing) => existing.clone(),
        None => random_id(),
    };
    let ghost chosen = id@;
    match link_transaction(selection, &layout, notes, timers, id) {
        Ok(transaction) => {
            proof {
                assert(may_identify(selection@, chosen));
                assert(transaction@ == begun(
                    link_plan(selection@, layout@, notes@, timers@, chosen),
                ));
            }
            Ok(transaction)
        },
        Err(error) => Err(error),
    }
}

/// What linking promises: the windows are stored where they were placed and
/// linked into the new group; or, after a failure, what is stored is as before,
/// and, if `whole`, the windows are too. A scale factor that cannot be read does
/// not bring the windows back.
pub open spec fn link_promise(
    selection: SelectionView,
    layout: LayoutView,
    before: World,
    id: Seq<char>,
    whole: bool,
) -> Promise {
    Promise {
        done: |w: World|
            {
                let stored = written(
                    before,
                    layout_replacements(layout, before.store.notes, before.timers),
                );
                &&& differs_only_at(w, before, layout.snapshots)
                &&& w.timers == stored.timers
                &&& w.store == notes_after(stored.store, selection.relinking(id))
            },
        home: |w: World| same_records(w, before) && (whole ==> same_desktop(w, before)),
        exempt: |effect: EffectView| whole && is_reading(effect),
    }
}

/// Linking is done as a whole or not at all: see `link_promise`.
pub proof fn law_linking_is_all_or_nothing(
    selection: SelectionView,
    layout: LayoutView,
    before: World,
    id: Seq<char>,
    whole: bool,
)
    requires
        layout.snapshots.len() == layout.targets.len(),
        shows(before, layout.snapshots),
        is_keyed(before.store.notes, before.timers),
        is_placeable(layout, before.store.notes, before.timers),
    ensures
        keeps(
            link_plan(selection, layout, before.store.notes, before.timers, id),
            0,
            before,
            link_promise(selection, layout, before, id, whole),
        ),
{
    let notes = before.store.notes;
    let timers = before.timers;
    let promise = link_promise(selection, layout, before, id, whole);
    let replacements = layout_replacements(layout, notes, timers);
    let stored = written(before, replacements);
    let restore = restoring(layout.snapshots);
    let first = placing(layout, notes, timers, Seq::empty(), restore);
    let last = StepView {
        effect: EffectView::Notes(selection.relinking(id)),
        only_if_moving: false,
        unwind: rollback(layout_originals(layout, notes, timers)) + restore,
    };
    let placed = Promise {
        done: |w: World|
            exists|v: World|
                {
                    &&& same_records(v, before)
                    &&& differs_only_at(v, before, layout.snapshots)
                    &&& w == #[trigger] written(v, replacements)
                },
        ..promise
    };
    assert forall|w: World| #[trigger] undone(w, Seq::empty()) == w by {}
    assert forall|w: World|
        same_records(w, before) && differs_only_at(w, before, layout.snapshots) implies {
        &&& (promise.home)(#[trigger] undone(w, restore))
        &&& (placed.done)(written(w, replacements))
    } by {
        lemma_restored(w, before, layout.snapshots);
        assert(same_records(undone(w, restore), w));
    }
    lemma_placing_keeps(layout, Seq::empty(), restore, before, placed);
    assert forall|w: World| #[trigger] (placed.done)(w) implies keeps(seq![last], 0, w, promise) by {
        let v = choose|v: World|
            {
                &&& same_records(v, before)
                &&& differs_only_at(v, before, layout.snapshots)
                &&& w == #[trigger] written(v, replacements)
            };
        lemma_rolled_back(v, replacements, true, true);
        lemma_undone_add(w, rollback(layout_originals(layout, notes, timers)), restore);
        lemma_restored(v, before, layout.snapshots);
        assert((promise.home)(undone(w, last.unwind)));
        assert forall|registers: Registers|
            keeps(
                seq![last],
                1,
                performed(w, #[trigger] resolved(last.effect, registers)),
                promise,
            ) by {
            assert(differs_only_at(performed(w, last.effect), before, layout.snapshots));
        }
    }
    lemma_keeps_add(first, seq![last], 0, before, placed, promise);
    assert(first + seq![last] =~= first.push(last));
}

/// The window that has the focus.
pub open spec fn focused_member(windows: Seq<(String, bool)>) -> Option<MemberView>
    decreases windows.len(),
{
    if windows.len() == 0 {
        None
    } else {
        match focused_member(windows.drop_last()) {
            Some(member) => Some(member),
            None => if windows.last().1 {
                label_member(windows.last().0@)
            } else {
                None
            },
        }
    }
}

proof fn lemma_focused_member(windows: Seq<(String, bool)>, i: int)
    requires
        0 <= i <= windows.len(),
        forall|j: int|
            0 <= j < i ==> !((#[trigger] windows[j]).1 && label_member(windows[j].0@) is Some),
        i < windows.len() ==> windows[i].1 && label_member(windows[i].0@) is Some,
    ensures
        focused_member(windows) == (if i < windows.len() {
            label_member(windows[i].0@)
        } else {
            None
        }),
    decreases windows.len(),
{
    if windows.len() > 0 {
        let shorter = windows.drop_last();
        assert forall|j: int| 0 <= j < shorter.len() && j < i implies !((#[trigger] shorter[j]).1
            && label_member(shorter[j].0@) is Some) by {
            assert(shorter[j] == windows[j]);
        }
        if i < shorter.len() {
            assert(shorter[i] == windows[i]);
            lemma_focused_member(shorter, i);
        } else {
            lemma_focused_member(shorter, shorter.len() as int);
            if i == windows.len() {
                assert(!(windows[windows.len() - 1].1 && label_member(
                    windows[windows.len() - 1].0@,
                ) is Some));
            }
        }
    }
}

/// The window that the others are linked below: the one that has the focus.
/// `windows` has the labels of the open windows, each with whether it has it.
pub fn link_windows_on_this_side_below_focused(windows: &Vec<(String, bool)>) -> (parent: Result<
    StoredGroupMember,
    GroupError,
>)
    ensures
        match parent {
            Ok(parent) => focused_member(windows@) == Some(parent@),
            Err(error) => focused_member(windows@) is None && error == GroupError::NothingFocused,
        },
{
    match get_focused_window(windows) {
        Some(i) => {
            proof {
                lemma_focused_member(windows@, i as int);
            }
            match StoredGroupMember::from_window_label(windows[i].0.as_str()) {
                Ok(member) => Ok(member),
                Err(unknown) => Err(GroupError::NothingFocused),
            }
        },
        None => {
            proof {
                lemma_focused_member(windows@, windows@.len() as int);
            }
            Err(GroupError::NothingFocused)
        },
    }
}

/// Unlinks the group of the window that has the focus.
pub fn unlink_group_for_focused(windows: &Vec<(String, bool)>, groups: &Vec<StoredGroup>) -> (
    transaction: Result<Transaction, GroupError>)
    ensures
        match transaction {
            Ok(transaction) => {
                &&& focused_member(windows@) matches Some(member)
                &&& group_id_of(views(groups@), member) matches Some(id)
                &&& transaction@ == begun(
                    seq![
                        StepView {
                            effect: EffectView::Notes(NoteActionView::RemoveGroup(id)),
                            only_if_moving: false,
                            unwind: Seq::empty(),
                        },
                    ],
                )
            },
            Err(GroupError::NothingFocused) => focused_member(windows@) is None,
            Err(GroupError::NotLinked) => {
                &&& focused_member(windows@) matches Some(member)
                &&& group_id_of(views(groups@), member) is None
            },
            Err(_) => false,
        },
{
    broadcast use group_views;

    let member = match link_windows_on_this_side_below_focused(windows) {
        Ok(member) => member,
        Err(error) => {
            return Err(error);
        },
    };
    let id = match group_id_for(groups, &member) {
        Some(id) => id,
        None => {
            return Err(GroupError::NotLinked);
        },
    };
    let mut steps: Vec<Step> = Vec::new();
    steps.push(
        Step {
            effect: Effect::Notes(NoteAction::RemoveGroup(id)),
            only_if_moving: false,
            unwind: Vec::new(),
        },
    );
    proof {
        let effect = EffectView::Notes(NoteActionView::RemoveGroup(id@));
        assert(views(steps@) =~= seq![
            StepView { effect, only_if_moving: false, unwind: Seq::empty() },
        ]);
    }
    Ok(Transaction::begin(steps))
}

/// Whether a list has every stored group once.
pub open spec fn lists_groups(listed: Seq<GroupView>, groups: Map<Seq<char>, GroupView>) -> bool {
    &&& forall|i: int|
        0 <= i < listed.len() ==> groups.contains_key((#[trigger] listed[i]).id)
            && groups[listed[i].id] == listed[i]
    &&& forall|i: int, j: int|
        0 <= i < listed.len() && 0 <= j < listed.len() && (#[trigger] listed[i]).id == (
        #[trigger] listed[j]).id ==> i == j
    &&& forall|id: Seq<char>| #[trigger]
        groups.contains_key(id) ==> exists|i: int|
            0 <= i < listed.len() && (#[trigger] listed[i]).id == id
}

/// Whether a selection is one that `link_selection` makes, of the stored groups.
pub open spec fn is_selection(
    selection: SelectionView,
    groups: Map<Seq<char>, GroupView>,
    active: Seq<MemberView>,
    geometries: Map<Seq<char>, NoteGeometry>,
    monitor: Monitor,
) -> bool {
    exists|listed: Seq<GroupView>|
        #[trigger] lists_groups(listed, groups) && selects(
            selection,
            listed,
            active,
            geometries,
            monitor,
        )
}

/// What a filter keeps of a list of groups is a part of it.
pub proof fn lemma_filtered_groups(groups: Seq<GroupView>, keep: spec_fn(GroupView) -> bool)
    ensures
        forall|i: int|
            0 <= i < groups.filter(keep).len() ==> keep(#[trigger] groups.filter(keep)[i])
                && groups.contains(groups.filter(keep)[i]),
        forall|i: int|
            0 <= i < groups.len() && keep(#[trigger] groups[i]) ==> groups.filter(keep).contains(
                groups[i],
            ),
        groups.no_duplicates() ==> groups.filter(keep).no_duplicates(),
    decreases groups.len(),
{
    reveal(Seq::filter);
    if groups.len() > 0 {
        let shorter = groups.drop_last();
        let last = groups.last();
        lemma_filtered_groups(shorter, keep);
        let kept = shorter.filter(keep);
        let all = groups.filter(keep);
        assert forall|i: int| 0 <= i < all.len() implies keep(#[trigger] all[i])
            && groups.contains(all[i]) by {
            if i < kept.len() {
                assert(all[i] == kept[i]);
                let j = shorter.index_of(kept[i]);
                assert(groups[j] == kept[i]);
            } else {
                assert(groups[groups.len() - 1] == last);
            }
        }
        assert forall|i: int| 0 <= i < groups.len() && keep(#[trigger] groups[i]) implies all.contains(
            groups[i],
        ) by {
            if i < shorter.len() {
                assert(shorter[i] == groups[i]);
                let j = kept.index_of(groups[i]);
                assert(all[j] == groups[i]);
            } else {
                assert(all[kept.len() as int] == last);
            }
        }
        if groups.no_duplicates() {
            assert(shorter.no_duplicates());
            assert forall|i: int, j: int|
                0 <= i < all.len() && 0 <= j < all.len() && i != j implies all[i] != all[j] by {
                if i < kept.len() && j < kept.len() {
                    assert(all[i] == kept[i] && all[j] == kept[j]);
                } else if i < kept.len() {
                    assert(all[i] == kept[i] && all[j] == last);
                    let k = shorter.index_of(kept[i]);
                    assert(groups[k] == kept[i]);
                } else {
                    assert(all[j] == kept[j] && all[i] == last);
                    let k = shorter.index_of(kept[j]);
                    assert(groups[k] == kept[j]);
                }
            }
        }
    }
}

/// Linking windows keeps the groups sound, takes no window out of its slot but
/// those it links, and leaves every group alone that has none of them.
pub proof fn law_linking_keeps_groups_sound(
    selection: SelectionView,
    groups: Map<Seq<char>, GroupView>,
    active: Seq<MemberView>,
    geometries: Map<Seq<char>, NoteGeometry>,
    monitor: Monitor,
    id: Seq<char>,
)
    requires
        groups_are_sound(groups),
        is_selection(selection, groups, active, geometries, monitor),
        match selection.existing {
            Some(existing) => id == existing,
            None => !groups.contains_key(id),
        },
    ensures
        ({
            let after = groups.remove_keys(group_ids(selection.absorbed).to_set()).insert(
                id,
                selection.new_group(id),
            );
            &&& groups_are_sound(after)
            &&& forall|m: MemberView| #[trigger]
                after[id].members.contains(m) <==> selection.order.contains(m) || is_linked(
                    selection.absorbed,
                    m,
                )
            &&& forall|k: Seq<char>|
                k != id && #[trigger] after.contains_key(k) ==> groups.contains_key(k) && after[k]
                    == groups[k]
            &&& forall|k: Seq<char>|
                #![trigger groups.contains_key(k)]
                groups.contains_key(k) && !after.contains_key(k) ==> exists|m: MemberView|
                    groups[k].members.contains(m) && #[trigger] after[id].members.contains(m)
        }),
{
    let parent = selection.parent;
    let order = selection.order;
    let absorbed = selection.absorbed;
    let listed = choose|listed: Seq<GroupView>|
        #[trigger] lists_groups(listed, groups) && selects(
            selection,
            listed,
            active,
            geometries,
            monitor,
        );
    let selected = selected_windows(parent, active, geometries, monitor);
    let linked = linked_windows(parent, listed, active, geometries, monitor);
    let below = order.drop_first();
    let ids = group_ids(absorbed).to_set();
    let new_group = selection.new_group(id);
    let after = groups.remove_keys(ids).insert(id, new_group);
    // The windows of the order: the parent, and each linked window once.
    assert forall|m: MemberView| #[trigger] order.contains(m) implies m == parent
        || linked.contains(m) by {
        let i = order.index_of(m);
        if i > 0 {
            assert(below[i - 1] == m);
            assert(below.to_set().contains(m));
        }
    }
    assert(order.no_duplicates()) by {
        assert forall|i: int, j: int|
            0 <= i < order.len() && 0 <= j < order.len() && i != j implies order[i] != order[j] by {
            if i > 0 && j > 0 {
                assert(below[i - 1] == order[i] && below[j - 1] == order[j]);
            } else if i > 0 {
                assert(below[i - 1] == order[i]);
                assert(below.to_set().contains(order[i]));
            } else {
                assert(below[j - 1] == order[j]);
                assert(below.to_set().contains(order[j]));
            }
        }
    }
    // The absorbed groups: some of the stored ones, each once.
    assert(listed.no_duplicates());
    lemma_filtered_groups(listed, touches(selected));
    assert forall|g: int| 0 <= g < absorbed.len() implies groups.contains_key(
        (#[trigger] absorbed[g]).id,
    ) && groups[absorbed[g].id] == absorbed[g] && ids.contains(absorbed[g].id) by {
        let i = listed.index_of(absorbed[g]);
        assert(listed[i] == absorbed[g]);
        assert(group_ids(absorbed)[g] == absorbed[g].id);
    }
    assert(groups_are_apart(absorbed)) by {
        assert forall|g: int, h: int, m: MemberView|
            #![trigger absorbed[g].members.contains(m), absorbed[h].members.contains(m)]
            0 <= g < absorbed.len() && 0 <= h < absorbed.len() && absorbed[g].members.contains(m)
                && absorbed[h].members.contains(m) implies g == h by {
            assert(groups[absorbed[g].id].members.contains(m));
            assert(groups[absorbed[h].id].members.contains(m));
            assert(absorbed[g].id == absorbed[h].id);
        }
    }
    // A group with a chosen window is absorbed.
    assert forall|k: Seq<char>, m: MemberView|
        groups.contains_key(k) && #[trigger] groups[k].members.contains(m) && selected.contains(
            m,
        ) implies ids.contains(k) by {
        let i = choose|i: int| 0 <= i < listed.len() && (#[trigger] listed[i]).id == k;
        let j = listed[i].members.index_of(m);
        assert(selected.contains(listed[i].members[j]));
        assert(touches(selected)(listed[i]));
        let g = absorbed.index_of(listed[i]);
        assert(absorbed[g].id == k);
    }
    // An absorbed group has an active window of the order.
    assert forall|g: int| 0 <= g < absorbed.len() implies first_active(
        (#[trigger] absorbed[g]).members,
        order.to_set(),
    ) is Some by {
        assert(touches(selected)(absorbed[g]));
        let i = choose|i: int|
            0 <= i < absorbed[g].members.len() && selected.contains(
                #[trigger] absorbed[g].members[i],
            );
        let m = absorbed[g].members[i];
        lemma_selected_is_ordered(selection, listed, active, geometries, monitor, m);
        lemma_first_active(absorbed[g].members, order.to_set(), i);
    }
    assert forall|m: MemberView| #[trigger] new_group.members.contains(m) <==> order.contains(m)
        || is_linked(absorbed, m) by {
        law_relinking_loses_no_window(parent, order, absorbed, m);
        if is_linked(absorbed, m) {
            let g = choose|g: int|
                0 <= g < absorbed.len() && (#[trigger] absorbed[g]).members.contains(m);
            assert(first_active(absorbed[g].members, order.to_set()) is Some);
        }
    }
    law_relinking_repeats_no_window(parent, order, absorbed);
    // Two different windows are in the new group.
    assert(new_group.members.len() >= 2) by {
        assert(order.contains(order[0]) && order.contains(order[1]));
        assert(new_group.members.contains(order[0]) && new_group.members.contains(order[1]));
        let a = new_group.members.index_of(order[0]);
        let b = new_group.members.index_of(order[1]);
        assert(a != b);
    }
    // No window of the new group is in a group that is left.
    assert forall|k: Seq<char>, m: MemberView|
        groups.contains_key(k) && !ids.contains(k) && #[trigger] groups[k].members.contains(
            m,
        ) implies !new_group.members.contains(m) by {
        if is_linked(absorbed, m) {
            let g = choose|g: int|
                0 <= g < absorbed.len() && (#[trigger] absorbed[g]).members.contains(m);
            assert(groups[absorbed[g].id].members.contains(m));
            assert(k == absorbed[g].id);
        }
        if order.contains(m) {
            if m != parent && !selected.contains(m) {
                assert(linked.contains(m));
                assert(is_linked(touched_groups(listed, selected), m));
            }
            assert(selected.contains(m));
        }
    }
    // The identifier is the one of an absorbed group, or new.
    match selection.existing {
        Some(existing) => {
            lemma_first_group_is_found(listed, parent);
            let i = listed.index_of(first_group_of(listed, parent)->0);
            assert(listed[i].id == existing);
            assert(groups[existing].members.contains(parent));
            assert(selected.contains(parent));
            assert(ids.contains(id));
        },
        None => {},
    }
    assert(groups_are_sound(after)) by {
        assert forall|k: Seq<char>, l: Seq<char>, m: MemberView|
            #![trigger after[k].members.contains(m), after[l].members.contains(m)]
            after.contains_key(k) && after.contains_key(l) && after[k].members.contains(m)
                && after[l].members.contains(m) implies k == l by {
            if k != id && l != id {
                assert(groups[k].members.contains(m) && groups[l].members.contains(m));
            } else if k != id {
                assert(groups[k].members.contains(m));
            } else if l != id {
                assert(groups[l].members.contains(m));
            }
        }
    }
    assert forall|k: Seq<char>|
        #![trigger groups.contains_key(k)]
        groups.contains_key(k) && !after.contains_key(k) implies exists|m: MemberView|
        groups[k].members.contains(m) && #[trigger] after[id].members.contains(m) by {
        let g = group_ids(absorbed).index_of(k);
        assert(absorbed[g].id == k);
        let m = absorbed[g].members[0];
        assert(groups[k].members.contains(m));
        assert(is_linked(absorbed, m));
        assert(after[id].members.contains(m));
    }
}

/// A chosen window is one of the order.
proof fn lemma_selected_is_ordered(
    selection: SelectionView,
    listed: Seq<GroupView>,
    active: Seq<MemberView>,
    geometries: Map<Seq<char>, NoteGeometry>,
    monitor: Monitor,
    m: MemberView,
)
    requires
        selection.order.len() >= 2,
        selection.order[0] == selection.parent,
        is_visual_order(
            linked_windows(selection.parent, listed, active, geometries, monitor),
            geometries,
            selection.order.drop_first(),
        ),
        selected_windows(selection.parent, active, geometries, monitor).contains(m),
    ensures
        selection.order.contains(m),
{
    let linked = linked_windows(selection.parent, listed, active, geometries, monitor);
    let below = selection.order.drop_first();
    if m == selection.parent {
        assert(selection.order[0] == m);
    } else {
        assert(linked.contains(m));
        assert(below.to_set().contains(m));
        let i = below.index_of(m);
        assert(selection.order[i + 1] == m);
    }
}

/// A list with an active window has a first active one.
proof fn lemma_first_active(members: Seq<MemberView>, active: Set<MemberView>, i: int)
    requires
        0 <= i < members.len(),
        active.contains(members[i]),
    ensures
        first_active(members, active) is Some,
    decreases members.len(),
{
    if i < members.len() - 1 {
        lemma_first_active(members.drop_last(), active, i);
    }
}

/// While nothing fails, linking leaves each window where its layout puts it:
/// moved to its target, or found there and not touched.
pub proof fn law_linked_windows_end_in_place(
    selection: SelectionView,
    id: Seq<char>,
    layout: LayoutView,
    before: World,
    readings: Seq<ScaleReading>,
    more: Seq<Event>,
)
    requires
        layout.snapshots.len() == layout.targets.len(),
        layout.snapshots.len() == readings.len(),
        windows_are_distinct(layout.snapshots),
        shows(before, layout.snapshots),
        forall|i: int| 0 <= i < more.len() ==> #[trigger] more[i] != Event::Failed,
        link_plan(selection, layout, before.store.notes, before.timers, id).len()
            <= usize::MAX,
    ensures
        ends_in_place(
            layout,
            readings,
            before,
            played(
                begun(link_plan(selection, layout, before.store.notes, before.timers, id)),
                before,
                layout_events(layout, readings, layout.snapshots.len() as int) + more,
            ).1,
        ),
{
    let notes = before.store.notes;
    let timers = before.timers;
    let plan = link_plan(selection, layout, notes, timers, id);
    let first = applying(layout, Seq::empty());
    let rest = plan.skip(first.len() as int);
    assert(plan =~= first + rest);
    assert forall|k: int| 0 <= k < rest.len() implies spares(
        (#[trigger] rest[k]).effect,
        layout.snapshots,
    ) by {
        assert(rest[k] == plan[first.len() + k]);
    }
    lemma_first_layout_ends_in_place(layout, Seq::empty(), rest, before, readings, more);
}

} // verus!
