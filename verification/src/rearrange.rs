//! Packing all windows from the upper right corner of the primary display, and
//! unlinking them.
use vstd::prelude::*;

use crate::effect::{CacheAction, Effect, EffectView, NoteAction, NoteActionView, WindowAction};
use crate::error::GroupError;
use crate::geometry::{
    geometry_rect, GeometryIndex, LogicalPosition, LogicalSize, NoteGeometry, PhysicalPosition,
    PhysicalSize, WindowRect,
};
use crate::layout::{
    differs_only_at, is_label_of, join_undos, lemma_differs_after, lemma_differs_at_more,
    lemma_differs_nowhere, lemma_restored, lemma_shows_some, members_of, moved_surfaces,
    restore_snapshots, restoring, same_desktop, same_records, shows, snapshots_for_members,
    snapshots_of, surfaces_at_targets, windows_are_distinct, windows_known, SnapshotView,
    WindowSnapshot,
};
use crate::link::{active_windows, active_windows_of};
use crate::groups::{active_and_kept, lemma_filtered};
use crate::member::{copy_members, GroupMemberKind, MemberView, StoredGroupMember};
use crate::member_set::MemberSet;
use crate::ordering::{lemma_stable_order_is_permutation, lists, stable_order, stands_before};
use crate::persist::{
    are_replaceable, is_write, lemma_rolled_back, lemma_writing_keeps, names_missing_surface,
    originals_of, persist_surface_changes, restore_surface_changes, rollback, stored_originals,
    surface_members, writing, written,
};
use crate::placement::{place_before, place_of, PlaceKey};
use crate::reset::{
    law_reset_windows_stay_inside_and_apart, reset_positions, reset_positions_in_work_area,
    window_sizes, ResetError,
};
use crate::resize::{plain_step, step_of};
use crate::restore::{member_lists, open_groups, open_groups_of};
use crate::store::{
    is_missing_surface, stored_surfaces, surface_of, surfaces_known, surfaces_of, GroupView,
    StoredGroup, TimerStore,
};
use crate::surface::{NoteView, StoredNote, TimerView};
use crate::table::Table;
use crate::transaction::{begun, resolved, Registers, Stage, Step, StepView, Transaction, Verdict};
use crate::views::{group_views, views};
use crate::world::{
    keeps, lemma_keeps_add, lemma_undone_add, performed, undone, Promise, Spot, WindowState, World,
};

verus! {

/// The gap between reset windows and the display's edges to the left and below,
/// in logical pixels.
pub const RESET_EDGE_MARGIN: u32 = 20;

/// The gap between reset windows and the right edge, in logical pixels.
pub const RESET_RIGHT_MARGIN: u32 = 64;

/// The gap between reset windows and the upper edge, in logical pixels.
pub const RESET_TOP_MARGIN: u32 = 64;

/// Whether a window is in one of some lists.
pub open spec fn is_listed(blocks: Seq<Seq<MemberView>>, member: MemberView) -> bool {
    exists|b: int| 0 <= b < blocks.len() && (#[trigger] blocks[b]).contains(member)
}

/// The test for windows that are in none of some lists.
pub open spec fn is_unlisted(blocks: Seq<Seq<MemberView>>) -> spec_fn(MemberView) -> bool {
    |member: MemberView| !is_listed(blocks, member)
}

/// Each window of a list by itself.
pub open spec fn each_alone(members: Seq<MemberView>) -> Seq<Seq<MemberView>> {
    Seq::new(members.len(), |i: int| seq![members[i]])
}

/// The active windows, those of a group together and the others by themselves.
pub open spec fn window_blocks(
    groups: Seq<GroupView>,
    active_notes: Seq<Seq<char>>,
    open_timers: Seq<Seq<char>>,
) -> Seq<Seq<MemberView>> {
    let linked = open_groups_of(groups, active_notes, open_timers);
    linked + each_alone(
        active_windows_of(active_notes, open_timers).filter(is_unlisted(linked)),
    )
}

/// Whether one block comes before another: by where its first window is.
pub open spec fn block_before(
    geometries: Map<Seq<char>, NoteGeometry>,
    a: Seq<MemberView>,
    b: Seq<MemberView>,
) -> bool {
    place_before(place_of(geometries, a[0]), place_of(geometries, b[0]))
}

/// Whether `order` lists the places of blocks, each once, in reading order;
/// blocks at the same place stay in order.
pub open spec fn is_block_order(
    geometries: Map<Seq<char>, NoteGeometry>,
    blocks: Seq<Seq<MemberView>>,
    order: Seq<usize>,
) -> bool {
    &&& order.len() == blocks.len()
    &&& order.no_duplicates()
    &&& forall|a: int| 0 <= a < order.len() ==> (#[trigger] order[a]) < blocks.len()
    &&& forall|a: int, b: int|
        0 <= a < b < order.len() ==> {
            let first = blocks[#[trigger] order[a] as int];
            let second = blocks[#[trigger] order[b] as int];
            block_before(geometries, first, second) || (!block_before(geometries, second, first)
                && order[a] < order[b])
        }
}

/// The windows of the first `n` listed blocks, one after the other.
pub open spec fn in_order(
    blocks: Seq<Seq<MemberView>>,
    order: Seq<usize>,
    n: int,
) -> Seq<MemberView>
    decreases n,
{
    if n <= 0 {
        Seq::empty()
    } else {
        in_order(blocks, order, n - 1) + blocks[order[n - 1] as int]
    }
}

/// Whether the first windows of the first `n` blocks have a cached geometry.
pub open spec fn blocks_placed(
    geometries: Map<Seq<char>, NoteGeometry>,
    blocks: Seq<Seq<MemberView>>,
    n: int,
) -> bool {
    forall|i: int| 0 <= i < n ==> geometries.contains_key((#[trigger] blocks[i])[0].id)
}

/// The active windows, those of a group together and the others by themselves.
fn blocks_of_windows(
    groups: &Vec<StoredGroup>,
    active_notes: &Vec<String>,
    open_timers: &Vec<String>,
) -> (blocks: Vec<Vec<StoredGroupMember>>)
    ensures
        member_lists(blocks@) == window_blocks(
            views(groups@),
            views(active_notes@),
            views(open_timers@),
        ),
        forall|i: int| 0 <= i < blocks@.len() ==> (#[trigger] blocks@[i])@.len() > 0,
{
    let mut blocks = open_groups(groups, active_notes, open_timers);
    let active = active_windows(active_notes, open_timers);
    let ghost linked = member_lists(blocks@);
    let ghost all = views(active@);
    let count: usize = blocks.len();
    let grouped = members_of_lists(&blocks);
    proof {
        lemma_open_groups_are_nonempty(views(groups@), views(active_notes@), views(open_timers@));
        assert forall|i: int| 0 <= i < blocks@.len() implies (#[trigger] blocks@[i])@.len() > 0 by {
            assert(linked[i].len() == blocks@[i]@.len());
        }
        reveal(Seq::filter);
        assert(all.take(0) =~= Seq::empty());
        assert(member_lists(blocks@) =~= linked + each_alone(
            all.take(0).filter(is_unlisted(linked)),
        ));
    }
    let mut i: usize = 0;
    while i < active.len()
        invariant
            all == views(active@),
            i <= active@.len(),
            forall|m: MemberView| #[trigger] grouped@.contains(m) == is_listed(linked, m),
            member_lists(blocks@) == linked + each_alone(
                all.take(i as int).filter(is_unlisted(linked)),
            ),
            forall|j: int| 0 <= j < blocks@.len() ==> (#[trigger] blocks@[j])@.len() > 0,
        decreases active.len() - i,
    {
        let ghost before = blocks@;
        let ghost kept = all.take(i as int).filter(is_unlisted(linked));
        proof {
            reveal(Seq::filter);
            assert(all.take(i + 1).drop_last() =~= all.take(i as int));
            assert(all.take(i + 1).last() == active@[i as int]@);
        }
        if !grouped.contains(&active[i]) {
            let mut alone: Vec<StoredGroupMember> = Vec::new();
            alone.push(active[i].clone());
            proof {
                assert(views(alone@) =~= seq![active@[i as int]@]);
                assert(each_alone(kept.push(active@[i as int]@)) =~= each_alone(kept).push(
                    seq![active@[i as int]@],
                ));
            }
            blocks.push(alone);
            proof {
                assert(member_lists(blocks@) =~= member_lists(before).push(views(alone@)));
                assert(member_lists(blocks@) =~= linked + each_alone(
                    kept.push(active@[i as int]@),
                ));
            }
        }
        i += 1;
    }
    proof {
        assert(all.take(active@.len() as int) =~= all);
    }
    blocks
}

/// Every block of a group has a window.
proof fn lemma_open_groups_are_nonempty(
    groups: Seq<GroupView>,
    active_notes: Seq<Seq<char>>,
    open_timers: Seq<Seq<char>>,
)
    ensures
        forall|i: int|
            0 <= i < open_groups_of(groups, active_notes, open_timers).len() ==> (
            #[trigger] open_groups_of(groups, active_notes, open_timers)[i]).len() > 0,
    decreases groups.len(),
{
    if groups.len() > 0 {
        lemma_open_groups_are_nonempty(groups.drop_last(), active_notes, open_timers);
        let rest = open_groups_of(groups.drop_last(), active_notes, open_timers);
        let all = open_groups_of(groups, active_notes, open_timers);
        assert forall|i: int| 0 <= i < all.len() implies (#[trigger] all[i]).len() > 0 by {
            if i < rest.len() {
                assert(all[i] == rest[i]);
            }
        }
    }
}

/// The windows of some lists.
fn members_of_lists(blocks: &Vec<Vec<StoredGroupMember>>) -> (members: MemberSet)
    ensures
        forall|m: MemberView| #[trigger]
            members@.contains(m) == is_listed(member_lists(blocks@), m),
{
    let ghost viewed = member_lists(blocks@);
    let mut members = MemberSet::new();
    let mut b: usize = 0;
    while b < blocks.len()
        invariant
            viewed == member_lists(blocks@),
            b <= blocks@.len(),
            forall|m: MemberView| #[trigger]
                members@.contains(m) == is_listed(viewed.take(b as int), m),
        decreases blocks.len() - b,
    {
        let ghost before = members@;
        let ghost block = views(blocks@[b as int]@);
        let mut i: usize = 0;
        while i < blocks[b].len()
            invariant
                b < blocks@.len(),
                block == views(blocks@[b as int]@),
                i <= blocks@[b as int]@.len(),
                forall|m: MemberView| #[trigger]
                    members@.contains(m) == (before.contains(m) || block.take(i as int).contains(
                        m,
                    )),
            decreases blocks@[b as int].len() - i,
        {
            let ghost so_far = members@;
            members.insert(blocks[b][i].clone());
            proof {
                assert forall|m: MemberView| #[trigger] members@.contains(m) == (before.contains(m)
                    || block.take(i + 1).contains(m)) by {
                    let more = block.take(i + 1);
                    let fewer = block.take(i as int);
                    if fewer.contains(m) {
                        let j = fewer.index_of(m);
                        assert(more[j] == m);
                    }
                    assert(more[i as int] == block[i as int]);
                    if more.contains(m) && m != block[i as int] {
                        let j = more.index_of(m);
                        assert(fewer[j] == m);
                    }
                }
            }
            i += 1;
        }
        proof {
            assert(block.take(block.len() as int) =~= block);
            assert forall|m: MemberView| #[trigger] members@.contains(m) == is_listed(
                viewed.take(b + 1),
                m,
            ) by {
                let fewer = viewed.take(b as int);
                let more = viewed.take(b + 1);
                if is_listed(fewer, m) {
                    let c = choose|c: int| 0 <= c < fewer.len() && (#[trigger] fewer[c]).contains(m);
                    assert(more[c].contains(m));
                }
                if block.contains(m) {
                    assert(more[b as int] == block);
                }
                if is_listed(more, m) && !block.contains(m) {
                    let c = choose|c: int| 0 <= c < more.len() && (#[trigger] more[c]).contains(m);
                    assert(fewer[c].contains(m));
                }
            }
        }
        b += 1;
    }
    proof {
        assert(viewed.take(blocks@.len() as int) =~= viewed);
    }
    members
}

/// The active windows in the order in which they are packed: in reading order,
/// the windows of a group together where its first one is.
pub fn reset_order(
    groups: &Vec<StoredGroup>,
    active_notes: &Vec<String>,
    open_timers: &Vec<String>,
    geometries: &GeometryIndex,
) -> (ordered: Result<Vec<StoredGroupMember>, GroupError>)
    ensures
        ({
            let blocks = window_blocks(
                views(groups@),
                views(active_notes@),
                views(open_timers@),
            );
            match ordered {
                Ok(ordered) => {
                    &&& blocks_placed(geometries@, blocks, blocks.len() as int)
                    &&& exists|order: Seq<usize>|
                        {
                            &&& #[trigger] is_block_order(geometries@, blocks, order)
                            &&& views(ordered@) == in_order(blocks, order, order.len() as int)
                        }
                },
                Err(error) => exists|i: int|
                    {
                        &&& 0 <= i < blocks.len()
                        &&& blocks_placed(geometries@, blocks, i)
                        &&& !geometries@.contains_key((#[trigger] blocks[i])[0].id)
                        &&& error matches GroupError::MissingGeometry(id) && id@
                            == blocks[i][0].id
                    },
            }
        }),
        active_notes@.len() == 0 && open_timers@.len() == 0 ==> (ordered matches Ok(ordered)
            && ordered@.len() == 0),
{
    proof {
        if active_notes@.len() == 0 && open_timers@.len() == 0 {
            lemma_nothing_to_pack(
                views(groups@),
                views(active_notes@),
                views(open_timers@),
            );
        }
    }
    let blocks = blocks_of_windows(groups, active_notes, open_timers);
    let ghost viewed = member_lists(blocks@);
    let mut keys: Vec<PlaceKey> = Vec::new();
    let mut i: usize = 0;
    while i < blocks.len()
        invariant
            viewed == member_lists(blocks@),
            viewed == window_blocks(
                views(groups@),
                views(active_notes@),
                views(open_timers@),
            ),
            active_notes@.len() == 0 && open_timers@.len() == 0 ==> viewed.len() == 0,
            forall|j: int| 0 <= j < blocks@.len() ==> (#[trigger] blocks@[j])@.len() > 0,
            i <= blocks@.len(),
            keys@.len() == i,
            blocks_placed(geometries@, viewed, i as int),
            forall|j: int|
                0 <= j < i ==> ((#[trigger] keys@[j]).position, keys@[j].member@) == place_of(
                    geometries@,
                    viewed[j][0],
                ),
        decreases blocks.len() - i,
    {
        let first = &blocks[i][0];
        proof {
            assert(viewed[i as int][0] == first@);
        }
        match geometries.get(first.id.as_str()) {
            Ok(geometry) => {
                keys.push(PlaceKey { position: geometry.position, member: first.clone() });
            },
            Err(missing) => {
                return Err(GroupError::MissingGeometry(missing.id));
            },
        }
        i += 1;
    }
    let order = stable_order(&keys);
    proof {
        lemma_stable_order_is_permutation(keys@, order@);
        assert forall|a: int, b: int| 0 <= a < b < order@.len() implies {
            let first = viewed[#[trigger] order@[a] as int];
            let second = viewed[#[trigger] order@[b] as int];
            block_before(geometries@, first, second) || (!block_before(
                geometries@,
                second,
                first,
            ) && order@[a] < order@[b])
        } by {
            assert(stands_before(keys@, order@[a] as int, order@[b] as int));
        }
        assert(is_block_order(geometries@, viewed, order@));
    }
    let mut ordered: Vec<StoredGroupMember> = Vec::new();
    let mut i: usize = 0;
    while i < order.len()
        invariant
            viewed == member_lists(blocks@),
            is_block_order(geometries@, viewed, order@),
            i <= order@.len(),
            views(ordered@) == in_order(viewed, order@, i as int),
        decreases order.len() - i,
    {
        broadcast use group_views;

        let mut block = copy_members(&blocks[order[i]]);
        ordered.append(&mut block);
        i += 1;
    }
    Ok(ordered)
}

/// If no window is active, there is no block.
proof fn lemma_nothing_to_pack(
    groups: Seq<GroupView>,
    active_notes: Seq<Seq<char>>,
    open_timers: Seq<Seq<char>>,
)
    requires
        active_notes.len() == 0,
        open_timers.len() == 0,
    ensures
        window_blocks(groups, active_notes, open_timers).len() == 0,
{
    lemma_no_open_group(groups, active_notes, open_timers);
    let linked = open_groups_of(groups, active_notes, open_timers);
    let active = active_windows_of(active_notes, open_timers);
    assert(active =~= Seq::empty());
    reveal(Seq::filter);
    assert(active.filter(is_unlisted(linked)).len() == 0);
}

proof fn lemma_no_open_group(
    groups: Seq<GroupView>,
    active_notes: Seq<Seq<char>>,
    open_timers: Seq<Seq<char>>,
)
    requires
        active_notes.len() == 0,
        open_timers.len() == 0,
    ensures
        open_groups_of(groups, active_notes, open_timers).len() == 0,
    decreases groups.len(),
{
    if groups.len() > 0 {
        lemma_no_open_group(groups.drop_last(), active_notes, open_timers);
        let members = groups.last().members;
        let keep = active_and_kept(active_notes, open_timers, Set::empty());
        lemma_filtered(members, keep);
        let active = members.filter(keep);
        if active.len() > 0 {
            assert(active.contains(active[0]));
            assert(keep(active[0]));
        }
    }
}

/// Every active window is packed, and no other.
pub proof fn law_every_active_window_is_packed(
    groups: Seq<GroupView>,
    active_notes: Seq<Seq<char>>,
    open_timers: Seq<Seq<char>>,
    geometries: Map<Seq<char>, NoteGeometry>,
    order: Seq<usize>,
    m: MemberView,
)
    requires
        is_block_order(
            geometries,
            window_blocks(groups, active_notes, open_timers),
            order,
        ),
    ensures
        in_order(
            window_blocks(groups, active_notes, open_timers),
            order,
            order.len() as int,
        ).contains(m) <==> active_windows_of(active_notes, open_timers).contains(m),
{
    let blocks = window_blocks(groups, active_notes, open_timers);
    let linked = open_groups_of(groups, active_notes, open_timers);
    let active = active_windows_of(active_notes, open_timers);
    let alone = active.filter(is_unlisted(linked));
    lemma_in_order(blocks, order, order.len() as int, m);
    lemma_order_is_onto(order, blocks.len() as int);
    lemma_filtered(active, is_unlisted(linked));
    lemma_listed_are_active(groups, active_notes, open_timers, m);
    if active.contains(m) {
        if is_listed(linked, m) {
            let b = choose|b: int| 0 <= b < linked.len() && (#[trigger] linked[b]).contains(m);
            assert(blocks[b] == linked[b]);
            assert(lists(order, b));
        } else {
            assert(alone.contains(m));
            let i = alone.index_of(m);
            let b = linked.len() + i;
            assert(blocks[b] == seq![m]);
            assert(seq![m][0] == m);
            assert(lists(order, b));
        }
    }
    if in_order(blocks, order, order.len() as int).contains(m) {
        let k = choose|k: int|
            0 <= k < order.len() && blocks[#[trigger] order[k] as int].contains(m);
        let b = order[k] as int;
        if b < linked.len() {
            assert(linked[b].contains(m));
        } else {
            assert(blocks[b] == seq![alone[b - linked.len()]]);
            assert(alone.contains(alone[b - linked.len()]));
        }
    }
}

proof fn lemma_in_order(blocks: Seq<Seq<MemberView>>, order: Seq<usize>, n: int, m: MemberView)
    requires
        0 <= n <= order.len(),
    ensures
        in_order(blocks, order, n).contains(m) <==> exists|k: int|
            0 <= k < n && blocks[#[trigger] order[k] as int].contains(m),
    decreases n,
{
    if n > 0 {
        lemma_in_order(blocks, order, n - 1, m);
        let before = in_order(blocks, order, n - 1);
        let added = blocks[order[n - 1] as int];
        let all = before + added;
        if before.contains(m) {
            let i = before.index_of(m);
            assert(all[i] == m);
        }
        if added.contains(m) {
            let i = added.index_of(m);
            assert(all[before.len() + i] == m);
        }
        if all.contains(m) {
            let i = all.index_of(m);
            if i < before.len() {
                assert(before[i] == m);
            } else {
                assert(added[i - before.len()] == m);
            }
        }
    }
}

/// A list of as many different places as there are lists every place.
pub proof fn lemma_order_is_onto(order: Seq<usize>, n: int)
    requires
        order.len() == n,
        order.no_duplicates(),
        forall|a: int| 0 <= a < order.len() ==> (#[trigger] order[a]) < n,
    ensures
        forall|p: int| 0 <= p < n ==> #[trigger] lists(order, p),
{
    let places = order.map_values(|place: usize| place as int);
    assert(places.no_duplicates()) by {
        assert forall|i: int, j: int|
            0 <= i < places.len() && 0 <= j < places.len() && i != j implies places[i]
            != places[j] by {
            assert(order[i] != order[j]);
        }
    }
    places.unique_seq_to_set();
    let all = vstd::set_lib::set_int_range(0, n);
    vstd::set_lib::lemma_int_range(0, n);
    assert(places.to_set().subset_of(all)) by {
        assert forall|p: int| places.to_set().contains(p) implies all.contains(p) by {
            let i = places.index_of(p);
            assert(order[i] < n);
        }
    }
    vstd::set_lib::lemma_subset_equality(places.to_set(), all);
    assert forall|p: int| 0 <= p < n implies #[trigger] lists(order, p) by {
        assert(places.to_set().contains(p));
        let i = places.index_of(p);
        assert(order[i] == p);
    }
}

/// A window that is listed with its group is active.
proof fn lemma_listed_are_active(
    groups: Seq<GroupView>,
    active_notes: Seq<Seq<char>>,
    open_timers: Seq<Seq<char>>,
    m: MemberView,
)
    ensures
        is_listed(open_groups_of(groups, active_notes, open_timers), m) ==> active_windows_of(
            active_notes,
            open_timers,
        ).contains(m),
    decreases groups.len(),
{
    let lists = open_groups_of(groups, active_notes, open_timers);
    if is_listed(lists, m) {
        let rest = open_groups_of(groups.drop_last(), active_notes, open_timers);
        lemma_listed_are_active(groups.drop_last(), active_notes, open_timers, m);
        let b = choose|b: int| 0 <= b < lists.len() && (#[trigger] lists[b]).contains(m);
        if b < rest.len() {
            assert(rest[b].contains(m));
        } else {
            let keep = active_and_kept(active_notes, open_timers, Set::empty());
            lemma_filtered(groups.last().members, keep);
            let active = active_windows_of(active_notes, open_timers);
            match m.kind {
                GroupMemberKind::Note => {
                    let i = active_notes.index_of(m.id);
                    assert(active[i] == m);
                },
                GroupMemberKind::Timer => {
                    let i = open_timers.index_of(m.id);
                    assert(active[active_notes.len() + i] == m);
                },
            }
        }
    }
}

/// The sizes that windows have according to what is stored of them.
pub fn reset_sizes(
    ordered: &Vec<StoredGroupMember>,
    notes: &Table<StoredNote>,
    timers: &TimerStore,
) -> (sizes: Result<Vec<LogicalSize>, GroupError>)
    ensures
        ({
            let members = views(ordered@);
            match sizes {
                Ok(sizes) => {
                    &&& surfaces_known(notes@, timers@, members, members.len() as int)
                    &&& sizes@ == Seq::new(
                        members.len(),
                        |i: int| surfaces_of(notes@, timers@, members)[i].durable_size(),
                    )
                },
                Err(error) => names_missing_surface(error, notes@, timers@) && !surfaces_known(
                    notes@,
                    timers@,
                    members,
                    members.len() as int,
                ),
            }
        }),
{
    let surfaces = match stored_surfaces(notes, timers, ordered) {
        Ok(surfaces) => surfaces,
        Err(error) => {
            proof {
                let i = choose|i: int|
                    {
                        &&& 0 <= i < ordered@.len()
                        &&& surfaces_known(notes@, timers@, views(ordered@), i)
                        &&& surface_of(notes@, timers@, (#[trigger] ordered@[i])@) is None
                        &&& is_missing_surface(error, ordered@[i]@)
                    };
                assert(surface_of(notes@, timers@, views(ordered@)[i]) is None);
            }
            return Err(error);
        },
    };
    let mut sizes: Vec<LogicalSize> = Vec::new();
    let mut i: usize = 0;
    while i < surfaces.len()
        invariant
            i <= surfaces@.len(),
            sizes@.len() == i,
            forall|j: int|
                0 <= j < i ==> #[trigger] sizes@[j] == views(surfaces@)[j].durable_size(),
        decreases surfaces.len() - i,
    {
        sizes.push(surfaces[i].durable_size());
        i += 1;
    }
    proof {
        let stored = surfaces_of(notes@, timers@, views(ordered@));
        assert(views(surfaces@) == stored);
        assert forall|j: int| 0 <= j < sizes@.len() implies #[trigger] sizes@[j]
            == stored[j].durable_size() by {}
        assert(sizes@.len() == stored.len());
        assert(sizes@ =~= Seq::new(
            views(ordered@).len(),
            |i: int| surfaces_of(notes@, timers@, views(ordered@))[i].durable_size(),
        ));
    }
    Ok(sizes)
}

/// Each window of a list as a group by itself.
pub open spec fn sizes_alone(sizes: Seq<PhysicalSize>) -> Seq<Seq<PhysicalSize>> {
    Seq::new(sizes.len(), |i: int| seq![sizes[i]])
}

proof fn lemma_sizes_alone(sizes: Seq<PhysicalSize>, n: int)
    requires
        0 <= n <= sizes.len(),
    ensures
        window_sizes(sizes_alone(sizes), 0, n) == sizes.take(n),
    decreases n,
{
    if n > 0 {
        lemma_sizes_alone(sizes, n - 1);
        assert(sizes.take(n) =~= sizes.take(n - 1) + seq![sizes[n - 1]]);
    } else {
        assert(sizes.take(n) =~= Seq::empty());
    }
}

/// The position of every window when they are packed one by one into a work
/// area, each as a group by itself. Sizes, gap and margins are in device pixels.
pub fn reset_targets(
    work_area: NoteGeometry,
    sizes: &Vec<PhysicalSize>,
    gap: i32,
    left: i32,
    right: i32,
    top: i32,
) -> (targets: Result<Vec<PhysicalPosition>, GroupError>)
    ensures
        ({
            let packed = reset_positions(
                geometry_rect(work_area),
                sizes_alone(sizes@),
                gap as int,
                left as int,
                right as int,
                top as int,
            );
            match targets {
                Ok(targets) => {
                    &&& targets@.len() == sizes@.len()
                    &&& packed == Ok::<Seq<PhysicalPosition>, ResetError>(targets@)
                },
                Err(GroupError::Reset(error)) => packed == Err::<
                    Seq<PhysicalPosition>,
                    ResetError,
                >(error),
                Err(_) => false,
            }
        }),
{
    let mut blocks: Vec<Vec<PhysicalSize>> = Vec::new();
    let mut i: usize = 0;
    while i < sizes.len()
        invariant
            i <= sizes@.len(),
            blocks@.len() == i,
            forall|j: int| 0 <= j < i ==> (#[trigger] blocks@[j])@ == seq![sizes@[j]],
        decreases sizes.len() - i,
    {
        let mut block: Vec<PhysicalSize> = Vec::new();
        block.push(sizes[i]);
        proof {
            assert(block@ =~= seq![sizes@[i as int]]);
        }
        blocks.push(block);
        i += 1;
    }
    proof {
        assert(views(blocks@) =~= sizes_alone(sizes@));
    }
    let area = WindowRect::from_physical(work_area.position, work_area.size);
    match reset_positions_in_work_area(area, &blocks, gap, left, right, top) {
        Ok(targets) => {
            proof {
                law_reset_windows_stay_inside_and_apart(
                    area,
                    sizes_alone(sizes@),
                    gap as int,
                    left as int,
                    right as int,
                    top as int,
                );
                lemma_sizes_alone(sizes@, sizes@.len() as int);
            }
            Ok(targets)
        },
        Err(error) => Err(GroupError::Reset(error)),
    }
}

/// The steps that show windows. Nothing of that is taken back.
pub open spec fn revealing(snapshots: Seq<SnapshotView>) -> Seq<StepView> {
    Seq::new(
        snapshots.len(),
        |i: int|
            step_of(
                EffectView::Window(snapshots[i].member, WindowAction::Reveal),
                Seq::empty(),
            ),
    )
}

/// One of the three steps that take window `i` to its target.
pub open spec fn packing_step(
    snapshots: Seq<SnapshotView>,
    targets: Seq<PhysicalPosition>,
    i: int,
    part: int,
) -> StepView {
    let member = snapshots[i].member;
    if part == 0 {
        step_of(
            EffectView::Window(member, WindowAction::MoveToPhysical(targets[i])),
            restoring(snapshots.take(i)),
        )
    } else if part == 1 {
        step_of(
            EffectView::Cache(member, CacheAction::Position(targets[i])),
            restoring(snapshots.take(i + 1)),
        )
    } else {
        step_of(
            EffectView::Cache(member, CacheAction::RecordPosition(targets[i])),
            restoring(snapshots.take(i + 1)),
        )
    }
}

/// The steps that take windows to their targets.
pub open spec fn packing(
    snapshots: Seq<SnapshotView>,
    targets: Seq<PhysicalPosition>,
) -> Seq<StepView> {
    Seq::new(3 * snapshots.len(), |k: int| packing_step(snapshots, targets, k / 3, k % 3))
}

/// The steps that follow when windows are at their targets: store where they
/// are, unlink all groups, and give the first window the focus.
pub open spec fn reset_tail(
    snapshots: Seq<SnapshotView>,
    logical: Seq<LogicalPosition>,
    notes: Map<Seq<char>, NoteView>,
    timers: Map<Seq<char>, TimerView>,
) -> Seq<StepView> {
    let replacements = moved_surfaces(
        surfaces_of(notes, timers, members_of(snapshots)),
        logical,
    );
    let back = rollback(originals_of(notes, timers, replacements)) + restoring(snapshots);
    writing(replacements, back) + seq![
        step_of(EffectView::Notes(NoteActionView::ClearGroups), back),
        step_of(
            EffectView::Window(snapshots[0].member, WindowAction::Focus),
            Seq::empty(),
        ),
    ]
}

/// The steps that pack windows: show them, take them to their targets, store
/// where they are, unlink all groups, and give the first window the focus. If
/// there is no window, nothing is done, and the groups stay.
pub open spec fn reset_plan(
    snapshots: Seq<SnapshotView>,
    targets: Seq<PhysicalPosition>,
    logical: Seq<LogicalPosition>,
    notes: Map<Seq<char>, NoteView>,
    timers: Map<Seq<char>, TimerView>,
) -> Seq<StepView> {
    if snapshots.len() == 0 {
        Seq::empty()
    } else {
        revealing(snapshots) + packing(snapshots, targets) + reset_tail(
            snapshots,
            logical,
            notes,
            timers,
        )
    }
}

/// Packs windows: takes each to its target, which is `logical` in logical
/// pixels, and unlinks all groups. Without a window nothing is done.
pub fn reset_window_positions(
    ordered: &Vec<StoredGroupMember>,
    open_labels: &Vec<String>,
    geometries: &GeometryIndex,
    targets: &Vec<PhysicalPosition>,
    logical: &Vec<LogicalPosition>,
    notes: &Table<StoredNote>,
    timers: &TimerStore,
) -> (transaction: Result<Transaction, GroupError>)
    requires
        ordered@.len() == targets@.len(),
        ordered@.len() == logical@.len(),
    ensures
        ({
            let members = views(ordered@);
            let stored = surface_members(
                moved_surfaces(surfaces_of(notes@, timers@, members), logical@),
            );
            let open = windows_known(
                views(open_labels@),
                geometries@,
                members,
                members.len() as int,
            );
            let known = surfaces_known(notes@, timers@, members, members.len() as int)
                && surfaces_known(notes@, timers@, stored, stored.len() as int);
            match transaction {
                Ok(transaction) => open && known && transaction@ == begun(
                    reset_plan(
                        snapshots_of(geometries@, members),
                        targets@,
                        logical@,
                        notes@,
                        timers@,
                    ),
                ),
                Err(GroupError::MissingWindow(missing)) => members.contains(missing@) && !views(
                    open_labels@,
                ).contains(missing@.window_label()),
                Err(GroupError::MissingGeometry(id)) => !geometries@.contains_key(id@) && exists|
                    i: int,
                |
                    0 <= i < members.len() && (#[trigger] members[i]).id == id@,
                Err(error) => open && !known && names_missing_surface(error, notes@, timers@),
            }
        }),
        ordered@.len() == 0 ==> (transaction matches Ok(transaction) && transaction@ == begun(
            Seq::empty(),
        )),
{
    broadcast use group_views;

    if ordered.len() == 0 {
        return Ok(Transaction::begin(Vec::new()));
    }
    let ghost members = views(ordered@);
    let snapshots = &match snapshots_for_members(open_labels, geometries, ordered) {
        Ok(snapshots) => snapshots,
        Err(error) => {
            proof {
                assert forall|i: int| 0 <= i < ordered@.len() implies members.contains(
                    (#[trigger] ordered@[i])@,
                ) && members[i] == ordered@[i]@ by {
                    assert(members[i] == ordered@[i]@);
                }
            }
            return Err(error);
        },
    };
    proof {
        assert(members_of(views(snapshots@)) =~= members);
    }
    let replacements = match surfaces_at_targets(snapshots, logical, notes, timers) {
        Ok(replacements) => replacements,
        Err(error) => {
            return Err(error);
        },
    };
    let originals = match stored_originals(notes, timers, &replacements) {
        Ok(originals) => originals,
        Err(error) => {
            return Err(error);
        },
    };
    let restore = restore_snapshots(snapshots, snapshots.len());
    proof {
        assert(views(snapshots@).take(snapshots@.len() as int) =~= views(snapshots@));
    }
    let mut steps = reveal_all(snapshots);
    let mut moves = pack_windows(snapshots, targets);
    let mut writes = persist_surface_changes(&replacements, &originals, &restore);
    steps.append(&mut moves);
    steps.append(&mut writes);
    let ghost first = views(steps@);
    steps.push(
        Step {
            effect: Effect::Notes(NoteAction::ClearGroups),
            only_if_moving: false,
            unwind: join_undos(restore_surface_changes(&originals), &restore),
        },
    );
    steps.push(plain_step(Effect::Window(snapshots[0].member.clone(), WindowAction::Focus)));
    proof {
        assert(views(snapshots@) == snapshots_of(geometries@, members));
        assert(views(steps@) =~= reset_plan(
            views(snapshots@),
            targets@,
            logical@,
            notes@,
            timers@,
        ));
    }
    Ok(Transaction::begin(steps))
}

/// The steps that show windows.
fn reveal_all(snapshots: &Vec<WindowSnapshot>) -> (steps: Vec<Step>)
    ensures
        views(steps@) == revealing(views(snapshots@)),
{
    let mut steps: Vec<Step> = Vec::new();
    let mut i: usize = 0;
    while i < snapshots.len()
        invariant
            i <= snapshots@.len(),
            steps@.len() == i,
            forall|j: int|
                0 <= j < i ==> (#[trigger] steps@[j])@ == revealing(views(snapshots@))[j],
        decreases snapshots.len() - i,
    {
        steps.push(plain_step(Effect::Window(snapshots[i].member.clone(), WindowAction::Reveal)));
        i += 1;
    }
    proof {
        assert(views(steps@) =~= revealing(views(snapshots@)));
    }
    steps
}

/// The steps that take windows to their targets.
fn pack_windows(snapshots: &Vec<WindowSnapshot>, targets: &Vec<PhysicalPosition>) -> (steps: Vec<
    Step,
>)
    requires
        snapshots@.len() == targets@.len(),
    ensures
        views(steps@) == packing(views(snapshots@), targets@),
{
    let ghost viewed = views(snapshots@);
    let ghost all = packing(viewed, targets@);
    let mut steps: Vec<Step> = Vec::new();
    let mut i: usize = 0;
    while i < snapshots.len()
        invariant
            viewed == views(snapshots@),
            snapshots@.len() == targets@.len(),
            all == packing(viewed, targets@),
            i <= snapshots@.len(),
            steps@.len() == 3 * i,
            views(steps@) =~= all.take(3 * i),
        decreases snapshots.len() - i,
    {
        broadcast use group_views;

        let ghost before = views(steps@);
        let member = &snapshots[i].member;
        steps.push(
            Step {
                effect: Effect::Window(member.clone(), WindowAction::MoveToPhysical(targets[i])),
                only_if_moving: false,
                unwind: restore_snapshots(snapshots, i),
            },
        );
        steps.push(
            Step {
                effect: Effect::Cache(member.clone(), CacheAction::Position(targets[i])),
                only_if_moving: false,
                unwind: restore_snapshots(snapshots, i + 1),
            },
        );
        steps.push(
            Step {
                effect: Effect::Cache(member.clone(), CacheAction::RecordPosition(targets[i])),
                only_if_moving: false,
                unwind: restore_snapshots(snapshots, i + 1),
            },
        );
        proof {
            let added = seq![
                packing_step(viewed, targets@, i as int, 0),
                packing_step(viewed, targets@, i as int, 1),
                packing_step(viewed, targets@, i as int, 2),
            ];
            assert(viewed[i as int] == snapshots@[i as int]@);
            assert(views(steps@) =~= before + added);
            assert(before + added =~= all.take(3 * (i + 1)));
        }
        i += 1;
    }
    proof {
        assert(all.take(3 * snapshots@.len() as int) =~= all);
    }
    steps
}

/// What packing promises: every window is stored where it was packed and no
/// group is left; or, after a failure, what is stored is as before and every
/// window is where it was. Only the focus, which comes last, is not taken back.
pub open spec fn reset_promise(
    snapshots: Seq<SnapshotView>,
    logical: Seq<LogicalPosition>,
    before: World,
) -> Promise {
    Promise {
        done: |w: World|
            {
                let stored = written(
                    before,
                    moved_surfaces(
                        surfaces_of(before.store.notes, before.timers, members_of(snapshots)),
                        logical,
                    ),
                );
                &&& differs_only_at(w, before, snapshots)
                &&& w.timers == stored.timers
                &&& w.store.notes == stored.store.notes
                &&& w.store.groups == Map::<Seq<char>, GroupView>::empty()
            },
        home: |w: World| same_records(w, before) && same_desktop(w, before),
        exempt: |effect: EffectView|
            match effect {
                EffectView::Window(_, WindowAction::Focus) => true,
                _ => false,
            },
    }
}

proof fn lemma_packing_keeps(
    snapshots: Seq<SnapshotView>,
    targets: Seq<PhysicalPosition>,
    k: int,
    before: World,
    now: World,
    promise: Promise,
)
    requires
        snapshots.len() == targets.len(),
        0 <= k <= 3 * snapshots.len(),
        shows(before, snapshots),
        same_records(now, before),
        differs_only_at(
            now,
            before,
            snapshots.take(
                if k % 3 == 0 {
                    k / 3
                } else {
                    k / 3 + 1
                },
            ),
        ),
        forall|w: World|
            same_desktop(w, before) && same_records(w, before) ==> #[trigger] (promise.home)(w),
        forall|w: World|
            same_records(w, before) && differs_only_at(w, before, snapshots)
                ==> #[trigger] (promise.done)(w),
    ensures
        keeps(packing(snapshots, targets), k, now, promise),
    decreases 3 * snapshots.len() - k,
{
    let steps = packing(snapshots, targets);
    if k == 3 * snapshots.len() {
        assert(snapshots.take(snapshots.len() as int) =~= snapshots);
    } else {
        let i = k / 3;
        let part = k % 3;
        let step = steps[k];
        assert(step == packing_step(snapshots, targets, i, part));
        let touched = if part == 0 {
            i
        } else {
            i + 1
        };
        let some = snapshots.take(touched);
        let more = snapshots.take(i + 1);
        lemma_shows_some(before, snapshots, touched);
        lemma_restored(now, before, some);
        assert((promise.home)(undone(now, restoring(some))));
        assert forall|j: int| 0 <= j < some.len() implies more.contains(#[trigger] some[j]) by {
            assert(more[j] == some[j]);
        }
        lemma_differs_at_more(now, before, some, more);
        assert(more[i] == snapshots[i]);
        assert forall|registers: Registers|
            keeps(
                steps,
                k + 1,
                performed(now, #[trigger] resolved(step.effect, registers)),
                promise,
            ) by {
            lemma_differs_after(now, before, more, i, step.effect);
            lemma_packing_keeps(
                snapshots,
                targets,
                k + 1,
                before,
                performed(now, step.effect),
                promise,
            );
        }
    }
}

proof fn lemma_revealing_keeps(
    snapshots: Seq<SnapshotView>,
    k: int,
    before: World,
    promise: Promise,
)
    requires
        0 <= k <= snapshots.len(),
        (promise.home)(before),
        (promise.done)(before),
    ensures
        keeps(revealing(snapshots), k, before, promise),
    decreases snapshots.len() - k,
{
    if k < snapshots.len() {
        lemma_revealing_keeps(snapshots, k + 1, before, promise);
        let steps = revealing(snapshots);
        assert(undone(before, steps[k].unwind) == before);
        assert forall|registers: Registers|
            keeps(
                steps,
                k + 1,
                performed(before, #[trigger] resolved(steps[k].effect, registers)),
                promise,
            ) by {
            assert(performed(before, steps[k].effect) =~= before);
        }
    }
}

/// Packing windows is done as a whole or not at all: see `reset_promise`.
pub proof fn law_packing_is_all_or_nothing(
    snapshots: Seq<SnapshotView>,
    targets: Seq<PhysicalPosition>,
    logical: Seq<LogicalPosition>,
    before: World,
)
    requires
        snapshots.len() > 0,
        snapshots.len() == targets.len(),
        snapshots.len() == logical.len(),
        shows(before, snapshots),
        are_replaceable(
            before,
            moved_surfaces(
                surfaces_of(before.store.notes, before.timers, members_of(snapshots)),
                logical,
            ),
        ),
    ensures
        keeps(
            reset_plan(snapshots, targets, logical, before.store.notes, before.timers),
            0,
            before,
            reset_promise(snapshots, logical, before),
        ),
{
    let notes = before.store.notes;
    let timers = before.timers;
    let promise = reset_promise(snapshots, logical, before);
    let replacements = moved_surfaces(
        surfaces_of(notes, timers, members_of(snapshots)),
        logical,
    );
    let restore = restoring(snapshots);
    let unwrite = rollback(originals_of(notes, timers, replacements));
    let back = unwrite + restore;
    let shown = Promise { done: |w: World| w == before, ..promise };
    let moved = Promise {
        done: |w: World| same_records(w, before) && differs_only_at(w, before, snapshots),
        ..promise
    };
    let stored = Promise {
        done: |w: World|
            exists|v: World|
                {
                    &&& same_records(v, before)
                    &&& differs_only_at(v, before, snapshots)
                    &&& w == #[trigger] written(v, replacements)
                },
        ..promise
    };
    let first = revealing(snapshots);
    let second = packing(snapshots, targets);
    let third = writing(replacements, back);
    let clear = step_of(EffectView::Notes(NoteActionView::ClearGroups), back);
    let focus = step_of(
        EffectView::Window(snapshots[0].member, WindowAction::Focus),
        Seq::empty(),
    );
    let last = seq![clear, focus];
    lemma_revealing_keeps(snapshots, 0, before, shown);
    assert(snapshots.take(0) =~= Seq::empty());
    lemma_differs_nowhere(before, before);
    lemma_packing_keeps(snapshots, targets, 0, before, before, moved);
    lemma_keeps_add(first, second, 0, before, shown, moved);
    assert forall|w: World| #[trigger] (moved.done)(w) implies keeps(third, 0, w, stored) by {
        lemma_restored(w, before, snapshots);
        assert((stored.done)(written(w, replacements)));
        lemma_writing_keeps(w, replacements, restore, stored);
    }
    lemma_keeps_add(first + second, third, 0, before, moved, stored);
    assert forall|w: World| #[trigger] (stored.done)(w) implies keeps(last, 0, w, promise) by {
        let v = choose|v: World|
            {
                &&& same_records(v, before)
                &&& differs_only_at(v, before, snapshots)
                &&& w == #[trigger] written(v, replacements)
            };
        lemma_rolled_back(v, replacements, true, true);
        lemma_undone_add(w, unwrite, restore);
        lemma_restored(v, before, snapshots);
        let cleared = performed(w, clear.effect);
        assert(differs_only_at(cleared, before, snapshots));
        assert forall|registers: Registers|
            keeps(last, 2, performed(cleared, #[trigger] resolved(focus.effect, registers)), promise) by {
            assert(performed(cleared, focus.effect) =~= cleared);
        }
        assert(keeps(last, 1, cleared, promise));
        assert forall|registers: Registers|
            keeps(last, 1, performed(w, #[trigger] resolved(clear.effect, registers)), promise) by {}
    }
    lemma_keeps_add(first + second + third, last, 0, before, stored, promise);
    assert(first + second + third + last =~= reset_plan(
        snapshots,
        targets,
        logical,
        notes,
        timers,
    ));
}

/// Packing without a window ends at once and hands out no effect: no window
/// moves, and what is stored stays, the groups too.
pub proof fn law_packing_no_window_does_nothing(
    targets: Seq<PhysicalPosition>,
    logical: Seq<LogicalPosition>,
    before: World,
)
    ensures
        ({
            let plan = reset_plan(
                Seq::empty(),
                targets,
                logical,
                before.store.notes,
                before.timers,
            );
            &&& begun(plan).stage == Stage::Ended(Verdict::Committed)
            &&& begun(plan).next_effect() is None
            &&& keeps(
                plan,
                0,
                before,
                Promise {
                    done: |w: World| w == before,
                    home: |w: World| w == before,
                    exempt: |effect: EffectView| false,
                },
            )
        }),
{
}

/// Whether the first `n` windows are at their targets with the size they had,
/// and no window but the given ones has changed.
pub open spec fn are_packed(
    snapshots: Seq<SnapshotView>,
    targets: Seq<PhysicalPosition>,
    n: int,
    before: World,
    now: World,
) -> bool {
    &&& now.windows.dom() == before.windows.dom()
    &&& forall|i: int|
        0 <= i < n ==> {
            let label = (#[trigger] snapshots[i]).member.window_label();
            now.windows[label] == (WindowState {
                position: Spot::Physical(targets[i]),
                ..before.windows[label]
            })
        }
    &&& forall|other: Seq<char>|
        !is_label_of(snapshots.take(n), other) ==> #[trigger] now.windows[other]
            == before.windows[other]
}

/// What packing comes to on the desktop.
pub open spec fn packed_promise(
    snapshots: Seq<SnapshotView>,
    targets: Seq<PhysicalPosition>,
    before: World,
) -> Promise {
    Promise {
        done: |w: World|
            are_packed(snapshots, targets, snapshots.len() as int, before, w),
        home: |w: World| true,
        exempt: |effect: EffectView| true,
    }
}

/// Packing takes every window to its target and leaves its size, and changes no
/// other window.
pub proof fn law_packed_windows_are_at_their_targets(
    snapshots: Seq<SnapshotView>,
    targets: Seq<PhysicalPosition>,
    logical: Seq<LogicalPosition>,
    before: World,
)
    requires
        snapshots.len() > 0,
        snapshots.len() == targets.len(),
        snapshots.len() == logical.len(),
        shows(before, snapshots),
        windows_are_distinct(snapshots),
    ensures
        keeps(
            reset_plan(snapshots, targets, logical, before.store.notes, before.timers),
            0,
            before,
            packed_promise(snapshots, targets, before),
        ),
{
    let tail = reset_tail(snapshots, logical, before.store.notes, before.timers);
    let promise = packed_promise(snapshots, targets, before);
    lemma_shown_and_moved(snapshots, targets, before);
    assert forall|w: World| #[trigger] (promise.done)(w) implies keeps(tail, 0, w, promise) by {
        lemma_tail_moves_nothing(snapshots, targets, logical, before, w);
    }
    lemma_keeps_add(
        revealing(snapshots) + packing(snapshots, targets),
        tail,
        0,
        before,
        promise,
        promise,
    );
}

/// Showing windows and taking them to their targets takes them there.
proof fn lemma_shown_and_moved(
    snapshots: Seq<SnapshotView>,
    targets: Seq<PhysicalPosition>,
    before: World,
)
    requires
        snapshots.len() == targets.len(),
        shows(before, snapshots),
        windows_are_distinct(snapshots),
    ensures
        keeps(
            revealing(snapshots) + packing(snapshots, targets),
            0,
            before,
            packed_promise(snapshots, targets, before),
        ),
{
    let shown = revealing(snapshots);
    let moves = packing(snapshots, targets);
    let promise = packed_promise(snapshots, targets, before);
    let untouched = Promise {
        done: |w: World| are_packed(snapshots, targets, 0, before, w),
        ..promise
    };
    assert(snapshots.take(0) =~= Seq::empty());
    lemma_idle_steps(shown, 0, before, snapshots, targets, 0, before, untouched);
    assert forall|w: World| #[trigger] (untouched.done)(w) implies keeps(moves, 0, w, promise) by {
        lemma_packing_moves(snapshots, targets, 0, before, w);
    }
    lemma_keeps_add(shown, moves, 0, before, untouched, promise);
}

/// Windows that are at their targets stay there while the rest is done.
proof fn lemma_tail_moves_nothing(
    snapshots: Seq<SnapshotView>,
    targets: Seq<PhysicalPosition>,
    logical: Seq<LogicalPosition>,
    before: World,
    now: World,
)
    requires
        are_packed(snapshots, targets, snapshots.len() as int, before, now),
    ensures
        keeps(
            reset_tail(snapshots, logical, before.store.notes, before.timers),
            0,
            now,
            packed_promise(snapshots, targets, before),
        ),
{
    lemma_idle_steps(
        reset_tail(snapshots, logical, before.store.notes, before.timers),
        0,
        now,
        snapshots,
        targets,
        snapshots.len() as int,
        before,
        packed_promise(snapshots, targets, before),
    );
}

/// Whether an effect moves or resizes no window.
spec fn is_idle(effect: EffectView) -> bool {
    match effect {
        EffectView::Window(_, WindowAction::Reveal) => true,
        EffectView::Window(_, WindowAction::Focus) => true,
        EffectView::Notes(NoteActionView::ClearGroups) => true,
        _ => is_write(effect),
    }
}

proof fn lemma_idle_steps(
    steps: Seq<StepView>,
    at: int,
    now: World,
    snapshots: Seq<SnapshotView>,
    targets: Seq<PhysicalPosition>,
    n: int,
    before: World,
    promise: Promise,
)
    requires
        0 <= at <= steps.len(),
        forall|i: int|
            0 <= i < steps.len() ==> is_idle((#[trigger] steps[i]).effect)
                && !steps[i].only_if_moving,
        are_packed(snapshots, targets, n, before, now),
        forall|effect: EffectView| #[trigger] (promise.exempt)(effect),
        forall|w: World|
            are_packed(snapshots, targets, n, before, w) ==> #[trigger] (promise.done)(w),
    ensures
        keeps(steps, at, now, promise),
    decreases steps.len() - at,
{
    if at < steps.len() {
        assert forall|registers: Registers|
            keeps(
                steps,
                at + 1,
                performed(now, #[trigger] resolved(steps[at].effect, registers)),
                promise,
            ) by {
            let after = performed(now, resolved(steps[at].effect, registers));
            assert(after.windows == now.windows);
            lemma_idle_steps(steps, at + 1, after, snapshots, targets, n, before, promise);
        }
    }
}

proof fn lemma_packing_moves(
    snapshots: Seq<SnapshotView>,
    targets: Seq<PhysicalPosition>,
    k: int,
    before: World,
    now: World,
)
    requires
        snapshots.len() == targets.len(),
        0 <= k <= 3 * snapshots.len(),
        shows(before, snapshots),
        windows_are_distinct(snapshots),
        are_packed(
            snapshots,
            targets,
            if k % 3 == 0 {
                k / 3
            } else {
                k / 3 + 1
            },
            before,
            now,
        ),
    ensures
        keeps(packing(snapshots, targets), k, now, packed_promise(snapshots, targets, before)),
    decreases 3 * snapshots.len() - k,
{
    let steps = packing(snapshots, targets);
    let promise = packed_promise(snapshots, targets, before);
    if k < 3 * snapshots.len() {
        let i = k / 3;
        let part = k % 3;
        assert(steps[k] == packing_step(snapshots, targets, i, part));
        assert(before.windows.contains_key(snapshots[i].member.window_label()));
        assert forall|registers: Registers|
            keeps(
                steps,
                k + 1,
                performed(now, #[trigger] resolved(steps[k].effect, registers)),
                promise,
            ) by {
            let after = performed(now, resolved(steps[k].effect, registers));
            if part == 0 {
                lemma_one_more_packed(snapshots, targets, i, before, now, after);
            } else {
                assert(after.windows == now.windows);
            }
            lemma_packing_moves(snapshots, targets, k + 1, before, after);
        }
    }
}

proof fn lemma_one_more_packed(
    snapshots: Seq<SnapshotView>,
    targets: Seq<PhysicalPosition>,
    i: int,
    before: World,
    now: World,
    after: World,
)
    requires
        snapshots.len() == targets.len(),
        0 <= i < snapshots.len(),
        windows_are_distinct(snapshots),
        before.windows.contains_key(snapshots[i].member.window_label()),
        are_packed(snapshots, targets, i, before, now),
        after == performed(
            now,
            EffectView::Window(snapshots[i].member, WindowAction::MoveToPhysical(targets[i])),
        ),
    ensures
        are_packed(snapshots, targets, i + 1, before, after),
{
    let moved = snapshots[i].member.window_label();
    assert(!is_label_of(snapshots.take(i), moved)) by {
        if is_label_of(snapshots.take(i), moved) {
            let j = choose|j: int|
                0 <= j < i && (#[trigger] snapshots.take(i)[j]).member.window_label() == moved;
            assert(snapshots[j].member.window_label() != snapshots[i].member.window_label());
        }
    }
    let window = now.windows[moved];
    assert(after.windows.dom() =~= before.windows.dom());
    assert forall|j: int| 0 <= j < i + 1 implies {
        let label = (#[trigger] snapshots[j]).member.window_label();
        after.windows[label] == (WindowState {
            position: Spot::Physical(targets[j]),
            ..before.windows[label]
        })
    } by {
        if j < i {
            assert(snapshots[j].member.window_label() != snapshots[i].member.window_label());
        }
    }
    assert forall|other: Seq<char>| !is_label_of(snapshots.take(i + 1), other) implies
        #[trigger] after.windows[other] == before.windows[other] by {
        assert(snapshots.take(i + 1)[i] == snapshots[i]);
        if is_label_of(snapshots.take(i), other) {
            let j = choose|j: int|
                0 <= j < i && (#[trigger] snapshots.take(i)[j]).member.window_label() == other;
            assert(snapshots.take(i + 1)[j] == snapshots.take(i)[j]);
        }
        let window = now.windows[other];
    }
}

} // verus!
