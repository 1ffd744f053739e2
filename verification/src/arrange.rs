//! Where the windows of a linked group stand: below each other, with a gap.
use vstd::prelude::*;

use crate::error::GroupError;
use crate::geometry::{fits_i32, LogicalPosition};

verus! {

/// The gap between two windows of a group, in logical pixels.
pub const GROUP_GAP: u32 = 12;

/// The row in which window number `i` of a group begins, when the first one
/// begins in row `top` and the windows have the given heights.
pub open spec fn stacked_row(top: int, heights: Seq<u32>, i: int) -> int
    decreases i,
{
    if i <= 0 {
        top
    } else {
        stacked_row(top, heights, i - 1) + heights[i - 1] + GROUP_GAP
    }
}

/// Whether every window of a group begins in a row that is a value of `i32`.
pub open spec fn stack_fits(top: int, heights: Seq<u32>) -> bool {
    forall|i: int| 0 <= i < heights.len() ==> fits_i32(#[trigger] stacked_row(top, heights, i))
}

/// Whether `positions` are those of a group that begins at `origin`.
pub open spec fn is_arranged(
    origin: LogicalPosition,
    heights: Seq<u32>,
    positions: Seq<LogicalPosition>,
) -> bool {
    &&& positions.len() == heights.len()
    &&& forall|i: int|
        0 <= i < heights.len() ==> (#[trigger] positions[i]).x == origin.x && positions[i].y
            == stacked_row(origin.y as int, heights, i)
}

/// The positions of the windows of a group that begins at `origin`.
pub fn arranged_positions(origin: LogicalPosition, heights: &Vec<u32>) -> (positions: Result<
    Vec<LogicalPosition>,
    GroupError,
>)
    ensures
        match positions {
            Ok(positions) => stack_fits(origin.y as int, heights@) && is_arranged(
                origin,
                heights@,
                positions@,
            ),
            Err(error) => !stack_fits(origin.y as int, heights@) && error
                == GroupError::PositionOutOfRange,
        },
{
    let mut positions: Vec<LogicalPosition> = Vec::new();
    let mut y: i64 = origin.y as i64;
    let mut i: usize = 0;
    while i < heights.len()
        invariant
            i <= heights@.len(),
            i32::MIN <= y <= i32::MAX + u32::MAX + GROUP_GAP,
            y == stacked_row(origin.y as int, heights@, i as int),
            positions@.len() == i,
            forall|j: int|
                0 <= j < i ==> (#[trigger] positions@[j]).x == origin.x && positions@[j].y
                    == stacked_row(origin.y as int, heights@, j),
        decreases heights.len() - i,
    {
        if y > i32::MAX as i64 {
            proof {
                assert(!fits_i32(stacked_row(origin.y as int, heights@, i as int)));
            }
            return Err(GroupError::PositionOutOfRange);
        }
        positions.push(LogicalPosition { x: origin.x, y: y as i32 });
        y = y + heights[i] as i64 + GROUP_GAP as i64;
        i += 1;
    }
    proof {
        assert forall|j: int| 0 <= j < heights@.len() implies fits_i32(
            #[trigger] stacked_row(origin.y as int, heights@, j),
        ) by {
            assert(positions@[j].y == stacked_row(origin.y as int, heights@, j));
        }
    }
    Ok(positions)
}

/// The positions of the windows below a window that stands at `origin` and
/// whose height is now `changed_height`.
pub fn positions_after_changed_note(
    origin: LogicalPosition,
    changed_height: u32,
    later_heights: &Vec<u32>,
) -> (positions: Result<Vec<LogicalPosition>, GroupError>)
    ensures
        match positions {
            Ok(positions) => {
                &&& stack_fits(origin.y as int, seq![changed_height] + later_heights@)
                &&& is_arranged(
                    origin,
                    seq![changed_height] + later_heights@,
                    seq![origin] + positions@,
                )
            },
            Err(error) => {
                &&& !stack_fits(origin.y as int, seq![changed_height] + later_heights@)
                &&& error == GroupError::PositionOutOfRange
            },
        },
{
    let mut heights: Vec<u32> = Vec::new();
    heights.push(changed_height);
    let mut i: usize = 0;
    while i < later_heights.len()
        invariant
            i <= later_heights@.len(),
            heights@ == seq![changed_height] + later_heights@.take(i as int),
        decreases later_heights.len() - i,
    {
        heights.push(later_heights[i]);
        proof {
            assert(heights@ =~= seq![changed_height] + later_heights@.take(i + 1));
        }
        i += 1;
    }
    proof {
        assert(later_heights@.take(later_heights@.len() as int) =~= later_heights@);
    }
    match arranged_positions(origin, &heights) {
        Ok(mut positions) => {
            let ghost all = positions@;
            let first = positions.remove(0);
            proof {
                assert(first == origin);
                assert(seq![origin] + positions@ =~= all);
            }
            Ok(positions)
        },
        Err(error) => Err(error),
    }
}

/// Each window of a group begins exactly one gap below the end of the one
/// before it.
pub proof fn law_stacked_windows_leave_one_gap(top: int, heights: Seq<u32>, i: int)
    requires
        0 <= i < heights.len(),
    ensures
        stacked_row(top, heights, i + 1) == stacked_row(top, heights, i) + heights[i] + GROUP_GAP,
{
}

/// Of two windows of a group the later one begins below the earlier one and
/// never overlaps it.
pub proof fn law_stacked_windows_never_overlap(top: int, heights: Seq<u32>, i: int, j: int)
    requires
        0 <= i < j <= heights.len(),
    ensures
        stacked_row(top, heights, i) + heights[i] + GROUP_GAP <= stacked_row(top, heights, j),
    decreases j - i,
{
    if i + 1 < j {
        law_stacked_windows_never_overlap(top, heights, i, j - 1);
    }
}

/// A window stands where the heights of the windows above it put it: heights
/// from its own on have no influence, so only later windows move when the
/// height of one changes.
pub proof fn law_only_later_windows_move(top: int, before: Seq<u32>, after: Seq<u32>, i: int)
    requires
        0 <= i <= before.len(),
        i <= after.len(),
        before.take(i) == after.take(i),
    ensures
        stacked_row(top, before, i) == stacked_row(top, after, i),
    decreases i,
{
    if i > 0 {
        assert(before.take(i - 1) =~= before.take(i).take(i - 1));
        assert(after.take(i - 1) =~= after.take(i).take(i - 1));
        assert(before[i - 1] == before.take(i)[i - 1]);
        assert(after[i - 1] == after.take(i)[i - 1]);
        law_only_later_windows_move(top, before, after, i - 1);
    }
}

/// Laying out the windows from number `k` on, starting where window `k` stands,
/// puts them where laying out the whole group puts them.
pub proof fn law_partial_layout_agrees_with_whole(top: int, heights: Seq<u32>, k: int, i: int)
    requires
        0 <= k <= heights.len(),
        0 <= i <= heights.len() - k,
    ensures
        stacked_row(stacked_row(top, heights, k), heights.skip(k), i) == stacked_row(
            top,
            heights,
            k + i,
        ),
    decreases i,
{
    if i > 0 {
        law_partial_layout_agrees_with_whole(top, heights, k, i - 1);
        assert(heights.skip(k)[i - 1] == heights[k + i - 1]);
    }
}

/// The windows of a group stand below each other from its origin down: the first
/// one at the origin, each next one in the same column of pixels, a gap below the
/// end of the one before it.
pub proof fn law_group_stands_from_its_origin_down(
    origin: LogicalPosition,
    heights: Seq<u32>,
    positions: Seq<LogicalPosition>,
)
    requires
        is_arranged(origin, heights, positions),
    ensures
        positions.len() == heights.len(),
        positions.len() > 0 ==> positions[0] == origin,
        forall|i: int|
            0 <= i < positions.len() - 1 ==> {
                &&& (#[trigger] positions[i + 1]).x == positions[i].x
                &&& positions[i + 1].y == positions[i].y + heights[i] + 12
            },
{
    assert forall|i: int| 0 <= i < positions.len() - 1 implies {
        &&& (#[trigger] positions[i + 1]).x == positions[i].x
        &&& positions[i + 1].y == positions[i].y + heights[i] + 12
    } by {
        assert(positions[i].y == stacked_row(origin.y as int, heights, i));
    }
}

/// A group can be arranged exactly if the last of its windows can: rows only grow
/// from one window to the next.
pub proof fn law_group_fits_if_its_last_window_does(top: i32, heights: Seq<u32>)
    requires
        heights.len() > 0,
    ensures
        stack_fits(top as int, heights) <==> stacked_row(top as int, heights, heights.len() - 1)
            <= i32::MAX,
{
    if stacked_row(top as int, heights, heights.len() - 1) <= i32::MAX {
        assert forall|i: int| 0 <= i < heights.len() implies fits_i32(
            #[trigger] stacked_row(top as int, heights, i),
        ) by {
            if i < heights.len() - 1 {
                law_stacked_windows_never_overlap(top as int, heights, i, heights.len() - 1);
            }
            if i > 0 {
                law_stacked_windows_never_overlap(top as int, heights, 0, i);
            }
        }
    }
}

} // verus!
