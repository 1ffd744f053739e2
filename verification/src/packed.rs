//! In what order windows are packed.
use vstd::prelude::*;

use crate::geometry::NoteGeometry;
use crate::groups::{active_and_kept, active_members, lemma_filtered};
use crate::link::active_windows_of;
use crate::member::{GroupMemberKind, MemberView};
use crate::ordering::{lemma_text_order, lemma_text_order_is_total, lists, text_before};
use crate::rearrange::{
    in_order, is_block_order, is_listed, is_unlisted, lemma_order_is_onto, window_blocks,
};
use crate::restore::open_groups_of;
use crate::stack::{is_in_order_of, is_open, lemma_filtered_in_order};
use crate::store::GroupView;

verus! {

/// Whether a list has the open windows of a group, in the order of the group.
pub open spec fn is_open_part(
    part: Seq<MemberView>,
    group: GroupView,
    active_notes: Seq<Seq<char>>,
    open_timers: Seq<Seq<char>>,
) -> bool {
    &&& is_in_order_of(part, group.members)
    &&& forall|m: MemberView| #[trigger]
        part.contains(m) <==> group.members.contains(m) && is_open(active_notes, open_timers, m)
}

/// Every list is the open part of some group, and every group with an open window has
/// its open part among the lists.
proof fn lemma_open_groups(
    groups: Seq<GroupView>,
    active_notes: Seq<Seq<char>>,
    open_timers: Seq<Seq<char>>,
)
    ensures
        forall|b: int|
            0 <= b < open_groups_of(groups, active_notes, open_timers).len() ==> {
                &&& (#[trigger] open_groups_of(groups, active_notes, open_timers)[b]).len() > 0
                &&& is_part_of_some(
                    open_groups_of(groups, active_notes, open_timers)[b],
                    groups,
                    active_notes,
                    open_timers,
                )
            },
        forall|g: int, m: MemberView|
            0 <= g < groups.len() && #[trigger] groups[g].members.contains(m) && is_open(
                active_notes,
                open_timers,
                m,
            ) ==> has_part(
                open_groups_of(groups, active_notes, open_timers),
                groups[g],
                active_notes,
                open_timers,
            ),
    decreases groups.len(),
{
    if groups.len() > 0 {
        let fewer = groups.drop_last();
        let last = groups.last();
        lemma_open_groups(fewer, active_notes, open_timers);
        let keep = active_and_kept(active_notes, open_timers, Set::empty());
        let active = active_members(active_notes, open_timers, last.members, Set::empty());
        let rest = open_groups_of(fewer, active_notes, open_timers);
        let all = open_groups_of(groups, active_notes, open_timers);
        lemma_filtered(last.members, keep);
        lemma_filtered_in_order(last.members, keep);
        assert forall|m: MemberView| #[trigger] active.contains(m) <==> last.members.contains(m)
            && is_open(active_notes, open_timers, m) by {
            assert(keep(m) <==> is_open(active_notes, open_timers, m));
        }
        assert(is_open_part(active, last, active_notes, open_timers));
        assert forall|b: int| 0 <= b < all.len() implies (#[trigger] all[b]).len() > 0
            && is_part_of_some(all[b], groups, active_notes, open_timers) by {
            if b < rest.len() {
                assert(all[b] == rest[b]);
                let g = choose|g: int|
                    0 <= g < fewer.len() && is_open_part(
                        rest[b],
                        #[trigger] fewer[g],
                        active_notes,
                        open_timers,
                    );
                assert(groups[g] == fewer[g]);
            } else {
                assert(groups[groups.len() - 1] == last);
            }
        }
        assert forall|g: int, m: MemberView|
            0 <= g < groups.len() && #[trigger] groups[g].members.contains(m) && is_open(
                active_notes,
                open_timers,
                m,
            ) implies has_part(all, groups[g], active_notes, open_timers) by {
            if g < fewer.len() {
                assert(fewer[g].members.contains(m));
                let b = choose|b: int|
                    0 <= b < rest.len() && is_open_part(
                        #[trigger] rest[b],
                        fewer[g],
                        active_notes,
                        open_timers,
                    );
                assert(all[b] == rest[b]);
            } else {
                assert(active.contains(m));
                assert(all[rest.len() as int] == active);
            }
        }
    }
}

/// Whether a list is the open part of one of the groups.
pub open spec fn is_part_of_some(
    part: Seq<MemberView>,
    groups: Seq<GroupView>,
    active_notes: Seq<Seq<char>>,
    open_timers: Seq<Seq<char>>,
) -> bool {
    exists|g: int|
        0 <= g < groups.len() && is_open_part(part, #[trigger] groups[g], active_notes, open_timers)
}

/// Whether the open part of a group is one of some lists.
spec fn has_part(
    parts: Seq<Seq<MemberView>>,
    group: GroupView,
    active_notes: Seq<Seq<char>>,
    open_timers: Seq<Seq<char>>,
) -> bool {
    exists|b: int|
        0 <= b < parts.len() && is_open_part(#[trigger] parts[b], group, active_notes, open_timers)
}

/// What is packed as one block: the open windows of a group, in the order of the
/// group; or one open window that is in no group.
pub proof fn law_blocks_are_groups_or_lone_windows(
    groups: Seq<GroupView>,
    active_notes: Seq<Seq<char>>,
    open_timers: Seq<Seq<char>>,
    b: int,
)
    requires
        0 <= b < window_blocks(groups, active_notes, open_timers).len(),
    ensures
        ({
            let block = window_blocks(groups, active_notes, open_timers)[b];
            &&& block.len() > 0
            &&& {
                ||| is_part_of_some(block, groups, active_notes, open_timers)
                ||| {
                    &&& block.len() == 1
                    &&& is_open(active_notes, open_timers, block[0])
                    &&& forall|g: int|
                        0 <= g < groups.len() ==> !(#[trigger] groups[g]).members.contains(
                            block[0],
                        )
                }
            }
        }),
{
    let linked = open_groups_of(groups, active_notes, open_timers);
    let active = active_windows_of(active_notes, open_timers);
    let alone = active.filter(is_unlisted(linked));
    lemma_open_groups(groups, active_notes, open_timers);
    if b >= linked.len() {
        let m = alone[b - linked.len()];
        assert(window_blocks(groups, active_notes, open_timers)[b] == seq![m]);
        lemma_filtered(active, is_unlisted(linked));
        assert(alone.contains(m));
        law_every_open_window_is_active(active_notes, open_timers, m);
        assert forall|g: int| 0 <= g < groups.len() implies !(
        #[trigger] groups[g]).members.contains(m) by {
            if groups[g].members.contains(m) {
                assert(has_part(linked, groups[g], active_notes, open_timers));
                let c = choose|c: int|
                    0 <= c < linked.len() && is_open_part(
                        #[trigger] linked[c],
                        groups[g],
                        active_notes,
                        open_timers,
                    );
                assert(linked[c].contains(m));
                assert(is_listed(linked, m));
            }
        }
    } else {
        assert(window_blocks(groups, active_notes, open_timers)[b] == linked[b]);
    }
}

/// A block stands in the packed order as it is.
proof fn lemma_block_in_order(
    blocks: Seq<Seq<MemberView>>,
    order: Seq<usize>,
    a: int,
    n: int,
)
    requires
        0 <= a < n <= order.len(),
    ensures
        ({
            let start = in_order(blocks, order, a).len() as int;
            let block = blocks[order[a] as int];
            let packed = in_order(blocks, order, n);
            &&& start + block.len() <= packed.len()
            &&& packed.subrange(start, start + block.len()) == block
        }),
    decreases n,
{
    let start = in_order(blocks, order, a).len() as int;
    let block = blocks[order[a] as int];
    let packed = in_order(blocks, order, n);
    if a < n - 1 {
        lemma_block_in_order(blocks, order, a, n - 1);
        let fewer = in_order(blocks, order, n - 1);
        assert(packed.subrange(start, start + block.len()) =~= fewer.subrange(
            start,
            start + block.len(),
        ));
    } else {
        assert(packed.subrange(start, start + block.len()) =~= block);
    }
}

/// The open windows of a group are packed one after the other, in the order of the
/// group, with no other window between them.
pub proof fn law_windows_of_a_group_are_packed_together(
    groups: Seq<GroupView>,
    active_notes: Seq<Seq<char>>,
    open_timers: Seq<Seq<char>>,
    geometries: Map<Seq<char>, NoteGeometry>,
    order: Seq<usize>,
    g: int,
    m: MemberView,
)
    requires
        is_block_order(geometries, window_blocks(groups, active_notes, open_timers), order),
        0 <= g < groups.len(),
        groups[g].members.contains(m),
        is_open(active_notes, open_timers, m),
    ensures
        ({
            let packed = in_order(
                window_blocks(groups, active_notes, open_timers),
                order,
                order.len() as int,
            );
            exists|start: int, end: int|
                0 <= start < end <= packed.len() && is_open_part(
                    #[trigger] packed.subrange(start, end),
                    groups[g],
                    active_notes,
                    open_timers,
                )
        }),
{
    let blocks = window_blocks(groups, active_notes, open_timers);
    let linked = open_groups_of(groups, active_notes, open_timers);
    lemma_open_groups(groups, active_notes, open_timers);
    assert(has_part(linked, groups[g], active_notes, open_timers));
    let b = choose|b: int|
        0 <= b < linked.len() && is_open_part(
            #[trigger] linked[b],
            groups[g],
            active_notes,
            open_timers,
        );
    assert(blocks[b] == linked[b]);
    lemma_order_is_onto(order, blocks.len() as int);
    assert(lists(order, b));
    let a = choose|a: int| 0 <= a < order.len() && #[trigger] order[a] == b;
    lemma_block_in_order(blocks, order, a, order.len() as int);
    let packed = in_order(blocks, order, order.len() as int);
    let start = in_order(blocks, order, a).len() as int;
    let end = start + linked[b].len();
    assert(packed.subrange(start, end) == linked[b]);
    assert(linked[b].contains(m));
}

/// Blocks are packed by where their first windows are: from the highest to the
/// lowest, those of one height from left to right, and those of one place notes first
/// and by identifier.
pub proof fn law_blocks_are_packed_in_reading_order(
    geometries: Map<Seq<char>, NoteGeometry>,
    blocks: Seq<Seq<MemberView>>,
    order: Seq<usize>,
    a: int,
    b: int,
)
    requires
        is_block_order(geometries, blocks, order),
        0 <= a < b < order.len(),
    ensures
        ({
            let first = geometries[blocks[order[a] as int][0].id].position;
            let second = geometries[blocks[order[b] as int][0].id].position;
            &&& first.y <= second.y
            &&& first.y == second.y ==> first.x <= second.x
            &&& order[a] != order[b]
            &&& first.y == second.y && first.x == second.x ==> {
                let (m, n) = (blocks[order[a] as int][0], blocks[order[b] as int][0]);
                &&& m.kind != n.kind ==> m.kind is Note
                &&& m.kind == n.kind && m.id != n.id ==> text_before(m.id, n.id)
                &&& m == n ==> order[a] < order[b]
            }
        }),
{
    lemma_text_order_is_total(
        blocks[order[a] as int][0].id,
        blocks[order[b] as int][0].id,
    );
    lemma_text_order(
        blocks[order[a] as int][0].id,
        blocks[order[b] as int][0].id,
        blocks[order[a] as int][0].id,
    );
}

/// The active windows are the open ones: the notes that are not archived, and the timers
/// whose windows are open.
pub proof fn law_every_open_window_is_active(
    active_notes: Seq<Seq<char>>,
    open_timers: Seq<Seq<char>>,
    m: MemberView,
)
    ensures
        active_windows_of(active_notes, open_timers).contains(m) <==> is_open(
            active_notes,
            open_timers,
            m,
        ),
{
    let active = active_windows_of(active_notes, open_timers);
    if active.contains(m) {
        let i = active.index_of(m);
        if i < active_notes.len() {
            assert(active_notes[i] == m.id);
        } else {
            assert(open_timers[i - active_notes.len()] == m.id);
        }
    }
    if is_open(active_notes, open_timers, m) {
        match m.kind {
            GroupMemberKind::Note => {
                let i = active_notes.index_of(m.id);
                assert(active[i] == m);
            },
            GroupMemberKind::Timer => {
                let i = open_timers.index_of(m.id);
                assert(active[active_notes.len() + i] == m);
            },
        }
    }
}

} // verus!
