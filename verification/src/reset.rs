//! Packing windows into the work area of the primary display.
//!
//! Windows are placed in columns. The first column ends at the right margin,
//! each further one a gap to the left of the one before it; a column is filled
//! from the top margin down until the next window group would cross the bottom
//! margin. Windows of a column are aligned at its right edge.
use vstd::prelude::*;

use crate::geometry::{fits_i32, fits_i64, PhysicalPosition, PhysicalSize, WindowRect};
use crate::views::views;

verus! {

/// Why windows could not be packed.
#[derive(Debug, Clone, Copy, PartialEq, Eq, Structural)]
pub enum ResetError {
    /// The margins leave nothing of the work area.
    AreaTooSmall,
    /// A window group without windows.
    EmptyGroup,
    /// The height of a window group is no value of `i64`.
    GroupHeightOverflow,
    /// A window group is wider or higher than what the margins leave.
    GroupTooLarge,
    /// The bottom of a window group is no value of `i64`.
    LayoutHeightOverflow,
    /// The row below a window group and its gap is no value of `i64`.
    LinkedPositionOverflow,
    /// The left edge of a column is no value of `i64`.
    LayoutWidthOverflow,
    /// The columns need more width than what the margins leave.
    DoesNotFit,
    /// A column position is no value of `i32`.
    XOutOfRange,
    /// A row position is no value of `i32`.
    YOutOfRange,
    /// The right edge of a further column is no value of `i64`.
    ColumnGapOverflow,
}

/// What the margins leave of a work area, and the gap between windows in it.
pub struct ResetArea {
    pub left: int,
    pub right: int,
    pub top: int,
    pub bottom: int,
    pub gap: int,
}

/// The larger of two integers.
pub open spec fn larger(a: int, b: int) -> int {
    if a < b {
        b
    } else {
        a
    }
}

/// The smaller of two integers.
pub open spec fn smaller(a: int, b: int) -> int {
    if a < b {
        a
    } else {
        b
    }
}

/// What the preferred margins leave of a work area.
///
/// A negative preference counts as none. A margin never takes the last pixel
/// of the width or height by itself; the bottom margin is the left margin, as
/// far as the height below the top margin allows.
pub open spec fn reset_area(
    work_area: WindowRect,
    gap: int,
    left_margin: int,
    right_margin: int,
    top_margin: int,
) -> ResetArea {
    let widest = larger(work_area.width - 1, 0);
    let left = smaller(larger(left_margin, 0), widest);
    let right = smaller(larger(right_margin, 0), widest);
    let top = smaller(larger(top_margin, 0), larger(work_area.height - 1, 0));
    let bottom = smaller(left, larger(work_area.height - top - 1, 0));
    ResetArea {
        left: work_area.x + left,
        right: work_area.spec_right() - right,
        top: work_area.y + top,
        bottom: work_area.spec_bottom() - bottom,
        gap: larger(gap, 0),
    }
}

/// The extent that a window is given: at least one pixel.
pub open spec fn extent(length: u32) -> int {
    larger(length as int, 1)
}

/// The width of the widest window of a group.
pub open spec fn group_width(group: Seq<PhysicalSize>) -> int
    decreases group.len(),
{
    if group.len() == 0 {
        0
    } else {
        larger(group_width(group.drop_last()), extent(group.last().width))
    }
}

/// How far below the top of a group its window number `i` begins.
pub open spec fn group_offset(group: Seq<PhysicalSize>, gap: int, i: int) -> int
    decreases i,
{
    if i <= 0 {
        0
    } else {
        group_offset(group, gap, i - 1) + extent(group[i - 1].height) + gap
    }
}

/// The height of a group: its windows below each other with a gap between two.
pub open spec fn group_height(group: Seq<PhysicalSize>, gap: int) -> int {
    group_offset(group, gap, group.len() as int) - gap
}

/// How many groups there are before the column that begins with group `start`
/// is full, when the groups `start..i` are in it and the next would begin in
/// row `y`.
pub open spec fn column_end(
    area: ResetArea,
    groups: Seq<Seq<PhysicalSize>>,
    start: int,
    i: int,
    y: int,
) -> Result<int, ResetError>
    decreases groups.len() - i,
{
    if i >= groups.len() {
        Ok(i)
    } else {
        let height = group_height(groups[i], area.gap);
        if groups[i].len() == 0 {
            Err(ResetError::EmptyGroup)
        } else if height > i64::MAX {
            Err(ResetError::GroupHeightOverflow)
        } else if group_width(groups[i]) > area.right - area.left || height > area.bottom
            - area.top {
            Err(ResetError::GroupTooLarge)
        } else if y + height > i64::MAX {
            Err(ResetError::LayoutHeightOverflow)
        } else if i > start && y + height > area.bottom {
            Ok(i)
        } else if y + height + area.gap > i64::MAX {
            Err(ResetError::LinkedPositionOverflow)
        } else {
            column_end(area, groups, start, i + 1, y + height + area.gap)
        }
    }
}

/// A column ends behind its first group and no later than the last.
pub proof fn lemma_column_end(
    area: ResetArea,
    groups: Seq<Seq<PhysicalSize>>,
    start: int,
    i: int,
    y: int,
)
    requires
        start <= i <= groups.len(),
        start < groups.len(),
    ensures
        match column_end(area, groups, start, i, y) {
            Ok(end) => start < end && i <= end <= groups.len(),
            Err(_) => true,
        },
    decreases groups.len() - i,
{
    if i < groups.len() {
        lemma_column_end(
            area,
            groups,
            start,
            i + 1,
            y + group_height(groups[i], area.gap) + area.gap,
        );
    }
}

/// The row in which group `i` of the column that begins with group `start` begins.
pub open spec fn group_top(
    area: ResetArea,
    groups: Seq<Seq<PhysicalSize>>,
    start: int,
    i: int,
) -> int
    decreases i - start,
{
    if i <= start {
        area.top
    } else {
        group_top(area, groups, start, i - 1) + group_height(groups[i - 1], area.gap) + area.gap
    }
}

/// The width of a column that holds the groups `start..end`.
pub open spec fn column_width(groups: Seq<Seq<PhysicalSize>>, start: int, end: int) -> int
    decreases end - start,
{
    if end <= start {
        0
    } else {
        larger(column_width(groups, start, end - 1), group_width(groups[end - 1]))
    }
}

/// The width of every window of a group and the row in which it begins, for a
/// group that begins in row `y`.
pub open spec fn group_windows(group: Seq<PhysicalSize>, gap: int, y: int) -> Seq<(int, int)> {
    Seq::new(
        group.len(),
        |k: int| (extent(group[k].width), y + group_offset(group, gap, k)),
    )
}

/// The width of every window of the groups `start..end` of a column and the
/// row in which it begins.
pub open spec fn column_windows(
    area: ResetArea,
    groups: Seq<Seq<PhysicalSize>>,
    start: int,
    end: int,
) -> Seq<(int, int)>
    decreases end - start,
{
    if end <= start {
        Seq::empty()
    } else {
        column_windows(area, groups, start, end - 1) + group_windows(
            groups[end - 1],
            area.gap,
            group_top(area, groups, start, end - 1),
        )
    }
}

/// The positions of the windows of a column that ends at `right`.
pub open spec fn column_positions(windows: Seq<(int, int)>, right: int) -> Result<
    Seq<PhysicalPosition>,
    ResetError,
>
    decreases windows.len(),
{
    if windows.len() == 0 {
        Ok(Seq::empty())
    } else {
        match column_positions(windows.drop_last(), right) {
            Err(error) => Err(error),
            Ok(positions) => {
                let x = right - windows.last().0;
                let y = windows.last().1;
                if !fits_i32(x) {
                    Err(ResetError::XOutOfRange)
                } else if !fits_i32(y) {
                    Err(ResetError::YOutOfRange)
                } else {
                    Ok(positions.push(PhysicalPosition { x: x as i32, y: y as i32 }))
                }
            },
        }
    }
}

/// The positions of the windows of the groups from `start` on, when they are
/// packed into columns of which the first ends at `right`.
pub open spec fn packed(
    area: ResetArea,
    groups: Seq<Seq<PhysicalSize>>,
    start: int,
    right: int,
) -> Result<Seq<PhysicalPosition>, ResetError>
    decreases groups.len() - start,
{
    if start >= groups.len() {
        Ok(Seq::empty())
    } else {
        match column_end(area, groups, start, start, area.top) {
            Err(error) => Err(error),
            Ok(end) => {
                let left = right - column_width(groups, start, end);
                if left < i64::MIN {
                    Err(ResetError::LayoutWidthOverflow)
                } else if left < area.left {
                    Err(ResetError::DoesNotFit)
                } else {
                    match column_positions(column_windows(area, groups, start, end), right) {
                        Err(error) => Err(error),
                        Ok(positions) => if left - area.gap < i64::MIN {
                            Err(ResetError::ColumnGapOverflow)
                        } else {
                            proof {
                                lemma_column_end(area, groups, start, start, area.top);
                            }
                            prepended(positions, packed(area, groups, end, left - area.gap))
                        },
                    }
                }
            },
        }
    }
}

/// The result `rest` with `positions` put before it.
pub open spec fn prepended(
    positions: Seq<PhysicalPosition>,
    rest: Result<Seq<PhysicalPosition>, ResetError>,
) -> Result<Seq<PhysicalPosition>, ResetError> {
    match rest {
        Ok(rest) => Ok(positions + rest),
        Err(error) => Err(error),
    }
}

/// The positions of all windows of all groups in a work area.
pub open spec fn reset_positions(
    work_area: WindowRect,
    groups: Seq<Seq<PhysicalSize>>,
    gap: int,
    left_margin: int,
    right_margin: int,
    top_margin: int,
) -> Result<Seq<PhysicalPosition>, ResetError> {
    let area = reset_area(work_area, gap, left_margin, right_margin, top_margin);
    if groups.len() == 0 {
        Ok(Seq::empty())
    } else if area.right <= area.left || area.bottom <= area.top {
        Err(ResetError::AreaTooSmall)
    } else {
        packed(area, groups, 0, area.right)
    }
}

/// The offset of a window of a group is not negative and grows by at least the
/// height of each window and a gap.
pub proof fn lemma_group_offset(group: Seq<PhysicalSize>, gap: int, i: int, j: int)
    requires
        0 <= i <= j,
        0 <= gap,
    ensures
        0 <= group_offset(group, gap, i) <= group_offset(group, gap, j),
        i < j ==> group_offset(group, gap, i) + extent(group[i].height) + gap <= group_offset(
            group,
            gap,
            j,
        ),
    decreases j,
{
    if i < j {
        lemma_group_offset(group, gap, i, j - 1);
    } else if i > 0 {
        lemma_group_offset(group, gap, i - 1, j - 1);
    }
}

/// The value of `length` as an extent.
fn to_extent(length: u32) -> (e: i64)
    ensures
        e == extent(length),
        1 <= e <= u32::MAX,
{
    if length == 0 {
        1
    } else {
        length as i64
    }
}

/// The width and height of a window group.
fn group_extent(group: &Vec<PhysicalSize>, gap: i64) -> (size: Result<(i64, i64), ResetError>)
    requires
        0 <= gap <= i32::MAX,
    ensures
        match size {
            Ok((width, height)) => {
                &&& group@.len() > 0
                &&& group_height(group@, gap as int) <= i64::MAX
                &&& width == group_width(group@)
                &&& height == group_height(group@, gap as int)
            },
            Err(error) => {
                ||| error == ResetError::EmptyGroup && group@.len() == 0
                ||| error == ResetError::GroupHeightOverflow && group@.len() > 0 && group_height(
                    group@,
                    gap as int,
                ) > i64::MAX
            },
        },
{
    if group.len() == 0 {
        return Err(ResetError::EmptyGroup);
    }
    let mut width: i64 = 0;
    let mut height: i64 = 0;
    let mut i: usize = 0;
    while i < group.len()
        invariant
            0 <= gap <= i32::MAX,
            i <= group@.len(),
            0 <= width <= u32::MAX,
            width == group_width(group@.take(i as int)),
            0 <= height,
            height == group_offset(group@, gap as int, i as int) - if i == 0 {
                0
            } else {
                gap as int
            },
        decreases group.len() - i,
    {
        proof {
            assert(group@.take(i + 1).drop_last() =~= group@.take(i as int));
            lemma_group_offset(group@, gap as int, i + 1, group@.len() as int);
            lemma_group_offset(group@, gap as int, 0, i as int);
        }
        let window_width: i64 = to_extent(group[i].width);
        if window_width > width {
            width = window_width;
        }
        if i > 0 {
            match height.checked_add(gap) {
                Some(sum) => {
                    height = sum;
                },
                None => {
                    return Err(ResetError::GroupHeightOverflow);
                },
            }
        }
        match height.checked_add(to_extent(group[i].height)) {
            Some(sum) => {
                height = sum;
            },
            None => {
                return Err(ResetError::GroupHeightOverflow);
            },
        }
        i += 1;
    }
    proof {
        assert(group@.take(group@.len() as int) =~= group@);
    }
    Ok((width, height))
}

/// Appends to a column the windows of a group that begins in row `y`, each by
/// its width and the row in which it begins.
fn push_group(column: &mut Vec<(i64, i64)>, group: &Vec<PhysicalSize>, gap: i64, y: i64)
    requires
        0 <= gap <= i32::MAX,
        y + group_offset(group@, gap as int, group@.len() as int) <= i64::MAX,
    ensures
        pairs(final(column)@) == pairs(old(column)@) + group_windows(group@, gap as int, y as int),
{
    let mut member_y: i64 = y;
    let mut i: usize = 0;
    proof {
        assert(group_windows(group@, gap as int, y as int).take(0) =~= Seq::empty());
        assert(pairs(column@) =~= pairs(old(column)@) + Seq::empty());
    }
    while i < group.len()
        invariant
            0 <= gap <= i32::MAX,
            y + group_offset(group@, gap as int, group@.len() as int) <= i64::MAX,
            i <= group@.len(),
            member_y == y + group_offset(group@, gap as int, i as int),
            pairs(column@) == pairs(old(column)@) + group_windows(
                group@,
                gap as int,
                y as int,
            ).take(i as int),
        decreases group.len() - i,
    {
        let ghost before = column@;
        column.push((to_extent(group[i].width), member_y));
        proof {
            let windows = group_windows(group@, gap as int, y as int);
            assert(windows.take(i + 1) =~= windows.take(i as int).push(windows[i as int]));
            assert(pairs(column@) =~= pairs(before).push(windows[i as int]));
            assert(pairs(column@) =~= pairs(old(column)@) + windows.take(i + 1));
            lemma_group_offset(group@, gap as int, i + 1, group@.len() as int);
            lemma_group_offset(group@, gap as int, 0, i as int);
        }
        member_y = member_y + to_extent(group[i].height) + gap;
        i += 1;
    }
    proof {
        let windows = group_windows(group@, gap as int, y as int);
        assert(windows.take(group@.len() as int) =~= windows);
    }
}

/// Fills one column from group `start` on: where it ends, its width, and its
/// windows, each by its width and the row in which it begins.
fn fill_column(
    size_blocks: &Vec<Vec<PhysicalSize>>,
    start: usize,
    bounds: &ResetBounds,
) -> (column: Result<(usize, i64, Vec<(i64, i64)>), ResetError>)
    requires
        bounds.are_sound(),
        start < size_blocks@.len(),
    ensures
        match column {
            Ok((end, width, windows)) => {
                &&& column_end(
                    bounds@,
                    views(size_blocks@),
                    start as int,
                    start as int,
                    bounds.top as int,
                ) == Ok::<int, ResetError>(end as int)
                &&& start < end <= size_blocks@.len()
                &&& width == column_width(views(size_blocks@), start as int, end as int)
                &&& 0 <= width <= u32::MAX
                &&& pairs(windows@) == column_windows(
                    bounds@,
                    views(size_blocks@),
                    start as int,
                    end as int,
                )
            },
            Err(error) => column_end(
                bounds@,
                views(size_blocks@),
                start as int,
                start as int,
                bounds.top as int,
            ) == Err::<int, ResetError>(error),
        },
{
    let ghost groups = views(size_blocks@);
    let ghost area = bounds@;
    let gap: i64 = bounds.gap;
    let mut end: usize = start;
    let mut width: i64 = 0;
    let mut y: i64 = bounds.top;
    let mut windows: Vec<(i64, i64)> = Vec::new();
    proof {
        assert(pairs(windows@) =~= Seq::empty());
        lemma_column_end(area, groups, start as int, start as int, area.top);
    }
    while end < size_blocks.len()
        invariant
            groups == views(size_blocks@),
            area == bounds@,
            bounds.are_sound(),
            gap == bounds.gap,
            start <= end <= size_blocks@.len(),
            end > start || y == bounds.top,
            y == group_top(area, groups, start as int, end as int),
            0 <= width <= u32::MAX,
            width == column_width(groups, start as int, end as int),
            pairs(windows@) == column_windows(area, groups, start as int, end as int),
            column_end(area, groups, start as int, start as int, area.top) == column_end(
                area,
                groups,
                start as int,
                end as int,
                y as int,
            ),
        ensures
            column_end(area, groups, start as int, start as int, area.top) == Ok::<int, ResetError>(
                end as int,
            ),
        decreases size_blocks.len() - end,
    {
        let (block_width, block_height) = match group_extent(&size_blocks[end], gap) {
            Ok(size) => size,
            Err(error) => {
                return Err(error);
            },
        };
        proof {
            let group = groups[end as int];
            lemma_group_offset(group, gap as int, 0, group.len() as int);
            lemma_group_width(group);
        }
        if block_width > bounds.right - bounds.left || block_height > bounds.bottom - bounds.top {
            return Err(ResetError::GroupTooLarge);
        }
        let block_bottom: i64 = match y.checked_add(block_height) {
            Some(sum) => sum,
            None => {
                return Err(ResetError::LayoutHeightOverflow);
            },
        };
        if end > start && block_bottom > bounds.bottom {
            break;
        }
        let next_y: i64 = match block_bottom.checked_add(gap) {
            Some(sum) => sum,
            None => {
                return Err(ResetError::LinkedPositionOverflow);
            },
        };
        if block_width > width {
            width = block_width;
        }
        push_group(&mut windows, &size_blocks[end], gap, y);
        y = next_y;
        end += 1;
    }
    Ok((end, width, windows))
}

/// Appends the positions of the windows of a column that ends at `right`.
fn push_positions(
    positions: &mut Vec<PhysicalPosition>,
    windows: &Vec<(i64, i64)>,
    right: i64,
) -> (placed: Result<(), ResetError>)
    requires
        forall|i: int|
            0 <= i < windows@.len() ==> 0 <= (#[trigger] windows@[i]).0 && fits_i64(
                right - windows@[i].0,
            ),
    ensures
        match placed {
            Ok(()) => {
                &&& column_positions(pairs(windows@), right as int) is Ok
                &&& final(positions)@ == old(positions)@ + column_positions(
                    pairs(windows@),
                    right as int,
                )->Ok_0
            },
            Err(error) => column_positions(pairs(windows@), right as int) == Err::<
                Seq<PhysicalPosition>,
                ResetError,
            >(error),
        },
{
    let ghost all = pairs(windows@);
    let mut i: usize = 0;
    proof {
        assert(all.take(0) =~= Seq::empty());
        assert(positions@ =~= old(positions)@ + Seq::<PhysicalPosition>::empty());
    }
    while i < windows.len()
        invariant
            all == pairs(windows@),
            i <= windows@.len(),
            forall|i: int|
                0 <= i < windows@.len() ==> 0 <= (#[trigger] windows@[i]).0 && fits_i64(
                    right - windows@[i].0,
                ),
            column_positions(all.take(i as int), right as int) is Ok,
            positions@ == old(positions)@ + column_positions(
                all.take(i as int),
                right as int,
            )->Ok_0,
        decreases windows.len() - i,
    {
        proof {
            assert(all.take(i + 1).drop_last() =~= all.take(i as int));
            assert(all.take(i + 1).last() == all[i as int]);
        }
        let x: i64 = right - windows[i].0;
        let y: i64 = windows[i].1;
        if x < i32::MIN as i64 || x > i32::MAX as i64 {
            proof {
                lemma_failed_prefix(all, right as int, i + 1);
            }
            return Err(ResetError::XOutOfRange);
        }
        if y < i32::MIN as i64 || y > i32::MAX as i64 {
            proof {
                lemma_failed_prefix(all, right as int, i + 1);
            }
            return Err(ResetError::YOutOfRange);
        }
        let ghost before = positions@;
        positions.push(PhysicalPosition { x: x as i32, y: y as i32 });
        proof {
            let so_far = column_positions(all.take(i as int), right as int)->Ok_0;
            let placed = PhysicalPosition { x: x as i32, y: y as i32 };
            assert(positions@ =~= old(positions)@ + so_far.push(placed));
        }
        i += 1;
    }
    proof {
        assert(all.take(windows@.len() as int) =~= all);
    }
    Ok(())
}

/// A column fails as its shortest failing prefix does.
pub proof fn lemma_failed_prefix(windows: Seq<(int, int)>, right: int, n: int)
    requires
        0 <= n <= windows.len(),
        column_positions(windows.take(n), right) is Err,
    ensures
        column_positions(windows, right) == column_positions(windows.take(n), right),
    decreases windows.len(),
{
    if n == windows.len() {
        assert(windows.take(n) =~= windows);
    } else {
        assert(windows.drop_last().take(n) =~= windows.take(n));
        lemma_failed_prefix(windows.drop_last(), right, n);
    }
}

/// A group is no wider than a window can be, and as wide as each of its windows.
pub proof fn lemma_group_width(group: Seq<PhysicalSize>)
    ensures
        0 <= group_width(group) <= u32::MAX,
        forall|k: int|
            0 <= k < group.len() ==> extent((#[trigger] group[k]).width) <= group_width(group),
    decreases group.len(),
{
    if group.len() > 0 {
        lemma_group_width(group.drop_last());
        assert forall|k: int| 0 <= k < group.len() implies extent((#[trigger] group[k]).width)
            <= group_width(group) by {
            if k < group.len() - 1 {
                assert(group.drop_last()[k] == group[k]);
            }
        }
    }
}

/// Every window of a column is at least one pixel wide and fits its width.
pub proof fn lemma_column_widths(
    area: ResetArea,
    groups: Seq<Seq<PhysicalSize>>,
    start: int,
    end: int,
)
    requires
        0 <= start <= end <= groups.len(),
    ensures
        0 <= column_width(groups, start, end),
        forall|k: int|
            0 <= k < column_windows(area, groups, start, end).len() ==> 1 <= (
            #[trigger] column_windows(area, groups, start, end)[k]).0 <= column_width(
                groups,
                start,
                end,
            ),
    decreases end - start,
{
    if start < end {
        lemma_column_widths(area, groups, start, end - 1);
        lemma_group_width(groups[end - 1]);
        let earlier = column_windows(area, groups, start, end - 1);
        let all = column_windows(area, groups, start, end);
        assert forall|k: int| 0 <= k < all.len() implies 1 <= (#[trigger] all[k]).0
            <= column_width(groups, start, end) by {
            if k < earlier.len() {
                assert(all[k] == earlier[k]);
            } else {
                assert(extent(groups[end - 1][k - earlier.len()].width) <= group_width(
                    groups[end - 1],
                ));
            }
        }
    }
}

/// What the margins leave of a work area, in machine integers.
struct ResetBounds {
    left: i64,
    right: i64,
    top: i64,
    bottom: i64,
    gap: i64,
}

impl View for ResetBounds {
    type V = ResetArea;

    closed spec fn view(&self) -> ResetArea {
        ResetArea {
            left: self.left as int,
            right: self.right as int,
            top: self.top as int,
            bottom: self.bottom as int,
            gap: self.gap as int,
        }
    }
}

impl ResetBounds {
    /// Whether the bounds enclose something and their width and height are
    /// values of `i64`.
    spec fn are_sound(&self) -> bool {
        &&& 0 <= self.gap <= i32::MAX
        &&& self.left < self.right
        &&& self.top < self.bottom
        &&& self.right - self.left <= i64::MAX
        &&& self.bottom - self.top <= i64::MAX
    }
}

/// The preferred margin `preferred`, at least none and at most `limit`.
fn bounded_margin(preferred: i32, limit: i64) -> (margin: i64)
    requires
        0 <= limit,
    ensures
        margin == smaller(larger(preferred as int, 0), limit as int),
{
    let margin: i64 = if preferred < 0 {
        0
    } else {
        preferred as i64
    };
    if margin < limit {
        margin
    } else {
        limit
    }
}

/// One less than `length`, but not negative.
fn all_but_one(length: i64) -> (limit: i64)
    ensures
        limit == larger(length - 1, 0),
{
    if length <= 1 {
        0
    } else {
        length - 1
    }
}

/// Packs window groups into a work area and gives the position of each window.
///
/// `size_blocks` are the window groups, in the order in which they are placed;
/// the positions come in the same order, group by group.
pub fn reset_positions_in_work_area(
    work_area: WindowRect,
    size_blocks: &Vec<Vec<PhysicalSize>>,
    preferred_gap: i32,
    preferred_left_margin: i32,
    preferred_right_margin: i32,
    preferred_top_margin: i32,
) -> (positions: Result<Vec<PhysicalPosition>, ResetError>)
    requires
        size_blocks@.len() > 0 ==> fits_i64(work_area.spec_right()) && fits_i64(
            work_area.spec_bottom(),
        ),
    ensures
        match positions {
            Ok(positions) => reset_positions(
                work_area,
                views(size_blocks@),
                preferred_gap as int,
                preferred_left_margin as int,
                preferred_right_margin as int,
                preferred_top_margin as int,
            ) == Ok::<Seq<PhysicalPosition>, ResetError>(positions@),
            Err(error) => reset_positions(
                work_area,
                views(size_blocks@),
                preferred_gap as int,
                preferred_left_margin as int,
                preferred_right_margin as int,
                preferred_top_margin as int,
            ) == Err::<Seq<PhysicalPosition>, ResetError>(error),
        },
{
    let mut positions: Vec<PhysicalPosition> = Vec::new();
    if size_blocks.len() == 0 {
        return Ok(positions);
    }
    let widest: i64 = all_but_one(work_area.width);
    let left_margin: i64 = bounded_margin(preferred_left_margin, widest);
    let right_margin: i64 = bounded_margin(preferred_right_margin, widest);
    let top_margin: i64 = bounded_margin(preferred_top_margin, all_but_one(work_area.height));
    let below: i64 = if work_area.height <= top_margin {
        0
    } else {
        all_but_one(work_area.height - top_margin)
    };
    let bottom_margin: i64 = if left_margin < below {
        left_margin
    } else {
        below
    };
    let gap: i64 = if preferred_gap < 0 {
        0
    } else {
        preferred_gap as i64
    };
    let bounds = ResetBounds {
        left: work_area.x + left_margin,
        right: work_area.right() - right_margin,
        top: work_area.y + top_margin,
        bottom: work_area.bottom() - bottom_margin,
        gap,
    };
    let ghost area = reset_area(
        work_area,
        preferred_gap as int,
        preferred_left_margin as int,
        preferred_right_margin as int,
        preferred_top_margin as int,
    );
    assert(bounds@ == area);
    if bounds.right <= bounds.left || bounds.bottom <= bounds.top {
        return Err(ResetError::AreaTooSmall);
    }
    let ghost groups = views(size_blocks@);
    let mut start: usize = 0;
    let mut right: i64 = bounds.right;
    proof {
        lemma_prepended_nothing(packed(area, groups, 0, area.right));
    }
    while start < size_blocks.len()
        invariant
            area == reset_area(
                work_area,
                preferred_gap as int,
                preferred_left_margin as int,
                preferred_right_margin as int,
                preferred_top_margin as int,
            ),
            bounds@ == area,
            bounds.are_sound(),
            gap == bounds.gap,
            groups == views(size_blocks@),
            groups.len() > 0,
            start <= size_blocks@.len(),
            packed(area, groups, 0, area.right) == prepended(
                positions@,
                packed(area, groups, start as int, right as int),
            ),
        decreases size_blocks.len() - start,
    {
        let (end, width, windows) = match fill_column(size_blocks, start, &bounds) {
            Ok(column) => column,
            Err(error) => {
                return Err(error);
            },
        };
        let left: i64 = match right.checked_sub(width) {
            Some(difference) => difference,
            None => {
                return Err(ResetError::LayoutWidthOverflow);
            },
        };
        if left < bounds.left {
            return Err(ResetError::DoesNotFit);
        }
        proof {
            lemma_column_widths(area, groups, start as int, end as int);
            assert forall|i: int| 0 <= i < windows@.len() implies 0 <= (#[trigger] windows@[i]).0
                && fits_i64(right - windows@[i].0) by {
                assert(pairs(windows@)[i] == (windows@[i].0 as int, windows@[i].1 as int));
            }
        }
        let ghost before = positions@;
        match push_positions(&mut positions, &windows, right) {
            Ok(()) => {},
            Err(error) => {
                return Err(error);
            },
        }
        let next_right: i64 = match left.checked_sub(gap) {
            Some(difference) => difference,
            None => {
                return Err(ResetError::ColumnGapOverflow);
            },
        };
        proof {
            let column = column_positions(pairs(windows@), right as int)->Ok_0;
            lemma_prepended_twice(
                before,
                column,
                packed(area, groups, end as int, next_right as int),
            );
        }
        start = end;
        right = next_right;
    }
    proof {
        assert(positions@ + Seq::<PhysicalPosition>::empty() =~= positions@);
    }
    Ok(positions)
}

proof fn lemma_prepended_nothing(rest: Result<Seq<PhysicalPosition>, ResetError>)
    ensures
        prepended(Seq::empty(), rest) == rest,
{
    if rest is Ok {
        assert(Seq::empty() + rest->Ok_0 =~= rest->Ok_0);
    }
}

proof fn lemma_prepended_twice(
    a: Seq<PhysicalPosition>,
    b: Seq<PhysicalPosition>,
    rest: Result<Seq<PhysicalPosition>, ResetError>,
)
    ensures
        prepended(a, prepended(b, rest)) == prepended(a + b, rest),
{
    if rest is Ok {
        assert(a + (b + rest->Ok_0) =~= (a + b) + rest->Ok_0);
    }
}

/// Pairs of machine integers as pairs of integers.
spec fn pairs(s: Seq<(i64, i64)>) -> Seq<(int, int)> {
    Seq::new(s.len(), |i: int| (s[i].0 as int, s[i].1 as int))
}

/// The sizes of the windows of the groups `start..end`, group by group.
pub open spec fn window_sizes(groups: Seq<Seq<PhysicalSize>>, start: int, end: int) -> Seq<
    PhysicalSize,
>
    decreases end - start,
{
    if end <= start {
        Seq::empty()
    } else {
        window_sizes(groups, start, end - 1) + groups[end - 1]
    }
}

/// Whether a window of the given size lies between the margins.
pub open spec fn lies_inside(
    area: ResetArea,
    position: PhysicalPosition,
    size: PhysicalSize,
) -> bool {
    &&& area.left <= position.x
    &&& position.x + extent(size.width) <= area.right
    &&& area.top <= position.y
    &&& position.y + extent(size.height) <= area.bottom
}

/// Whether a later window stands clear of an earlier one by a gap: below it in
/// its column, or in a column to the left.
pub open spec fn stands_clear(
    gap: int,
    earlier: (PhysicalPosition, PhysicalSize),
    later: (PhysicalPosition, PhysicalSize),
) -> bool {
    ||| earlier.0.y + extent(earlier.1.height) + gap <= later.0.y
    ||| later.0.x + extent(later.1.width) + gap <= earlier.0.x
}

pub proof fn lemma_window_sizes_split(
    groups: Seq<Seq<PhysicalSize>>,
    start: int,
    middle: int,
    end: int,
)
    requires
        start <= middle <= end,
    ensures
        window_sizes(groups, start, end) == window_sizes(groups, start, middle) + window_sizes(
            groups,
            middle,
            end,
        ),
    decreases end - middle,
{
    if middle < end {
        lemma_window_sizes_split(groups, start, middle, end - 1);
        assert(window_sizes(groups, start, end) =~= window_sizes(groups, start, middle) + (
        window_sizes(groups, middle, end - 1) + groups[end - 1]));
    } else {
        assert(window_sizes(groups, start, end) =~= window_sizes(groups, start, middle)
            + Seq::empty());
    }
}

/// Every group that a column takes ends above the bottom margin.
pub proof fn lemma_column_is_high_enough(
    area: ResetArea,
    groups: Seq<Seq<PhysicalSize>>,
    start: int,
    i: int,
    end: int,
    g: int,
)
    requires
        0 <= start <= i <= g < end <= groups.len(),
        column_end(area, groups, start, i, group_top(area, groups, start, i)) == Ok::<
            int,
            ResetError,
        >(end),
    ensures
        groups[g].len() > 0,
        group_top(area, groups, start, g) + group_height(groups[g], area.gap) <= area.bottom,
    decreases g - i,
{
    if i < g {
        lemma_column_is_high_enough(area, groups, start, i + 1, end, g);
    }
}

/// Whether the windows of a column, given by width and row, stand below each
/// other between the top margin and `limit`, with a gap after each.
spec fn is_stacked(
    area: ResetArea,
    windows: Seq<(int, int)>,
    sizes: Seq<PhysicalSize>,
    limit: int,
) -> bool {
    &&& windows.len() == sizes.len()
    &&& forall|k: int|
        0 <= k < windows.len() ==> {
            &&& (#[trigger] windows[k]).0 == extent(sizes[k].width)
            &&& area.top <= windows[k].1
            &&& windows[k].1 + extent(sizes[k].height) + area.gap <= limit
            &&& windows[k].1 + extent(sizes[k].height) <= area.bottom
        }
    &&& forall|k: int, l: int|
        0 <= k < l < windows.len() ==> (#[trigger] windows[k]).1 + extent(sizes[k].height)
            + area.gap <= (#[trigger] windows[l]).1
}

proof fn lemma_column_is_stacked(
    area: ResetArea,
    groups: Seq<Seq<PhysicalSize>>,
    start: int,
    end: int,
    full: int,
)
    requires
        0 <= area.gap,
        0 <= start <= end <= full <= groups.len(),
        column_end(area, groups, start, start, area.top) == Ok::<int, ResetError>(full),
    ensures
        area.top <= group_top(area, groups, start, end),
        is_stacked(
            area,
            column_windows(area, groups, start, end),
            window_sizes(groups, start, end),
            group_top(area, groups, start, end),
        ),
    decreases end - start,
{
    if start < end {
        lemma_column_is_stacked(area, groups, start, end - 1, full);
        lemma_column_is_high_enough(area, groups, start, start, full, end - 1);
        let group = groups[end - 1];
        let top = group_top(area, groups, start, end - 1);
        let earlier = column_windows(area, groups, start, end - 1);
        let earlier_sizes = window_sizes(groups, start, end - 1);
        let added = group_windows(group, area.gap, top);
        let windows = column_windows(area, groups, start, end);
        let sizes = window_sizes(groups, start, end);
        lemma_group_offset(group, area.gap, 0, group.len() as int);
        assert forall|k: int| 0 <= k < windows.len() implies {
            &&& (#[trigger] windows[k]).0 == extent(sizes[k].width)
            &&& area.top <= windows[k].1
            &&& windows[k].1 + extent(sizes[k].height) + area.gap <= group_top(
                area,
                groups,
                start,
                end,
            )
            &&& windows[k].1 + extent(sizes[k].height) <= area.bottom
        } by {
            if k < earlier.len() {
                assert(windows[k] == earlier[k]);
            } else {
                let m = k - earlier.len();
                assert(windows[k] == added[m]);
                lemma_group_offset(group, area.gap, 0, m);
                lemma_group_offset(group, area.gap, m, group.len() as int);
            }
        }
        assert forall|k: int, l: int| 0 <= k < l < windows.len() implies (
        #[trigger] windows[k]).1 + extent(sizes[k].height) + area.gap <= (
        #[trigger] windows[l]).1 by {
            if l < earlier.len() {
                assert(windows[k] == earlier[k] && windows[l] == earlier[l]);
            } else {
                let m = l - earlier.len();
                assert(windows[l] == added[m]);
                lemma_group_offset(group, area.gap, 0, m);
                if k < earlier.len() {
                    assert(windows[k] == earlier[k]);
                } else {
                    assert(windows[k] == added[k - earlier.len()]);
                    lemma_group_offset(group, area.gap, k - earlier.len(), m);
                }
            }
        }
    }
}

pub proof fn lemma_column_positions(windows: Seq<(int, int)>, right: int)
    requires
        column_positions(windows, right) is Ok,
    ensures
        ({
            let positions = column_positions(windows, right)->Ok_0;
            &&& positions.len() == windows.len()
            &&& forall|k: int|
                0 <= k < windows.len() ==> (#[trigger] positions[k]).x == right - windows[k].0
                    && positions[k].y == windows[k].1
        }),
    decreases windows.len(),
{
    if windows.len() > 0 {
        lemma_column_positions(windows.drop_last(), right);
    }
}

proof fn lemma_packed(
    area: ResetArea,
    groups: Seq<Seq<PhysicalSize>>,
    start: int,
    right: int,
)
    requires
        0 <= area.gap,
        0 <= start <= groups.len(),
        right <= area.right,
        packed(area, groups, start, right) is Ok,
    ensures
        ({
            let positions = packed(area, groups, start, right)->Ok_0;
            let sizes = window_sizes(groups, start, groups.len() as int);
            &&& positions.len() == sizes.len()
            &&& forall|i: int|
                0 <= i < positions.len() ==> lies_inside(area, #[trigger] positions[i], sizes[i])
                    && positions[i].x + extent(sizes[i].width) <= right
            &&& forall|i: int, j: int|
                0 <= i < j < positions.len() ==> stands_clear(
                    area.gap,
                    (#[trigger] positions[i], sizes[i]),
                    (#[trigger] positions[j], sizes[j]),
                )
        }),
    decreases groups.len() - start,
{
    if start < groups.len() {
        let end = column_end(area, groups, start, start, area.top)->Ok_0;
        lemma_column_end(area, groups, start, start, area.top);
        lemma_column_is_stacked(area, groups, start, end, end);
        lemma_column_widths(area, groups, start, end);
        let windows = column_windows(area, groups, start, end);
        lemma_column_positions(windows, right);
        let left = right - column_width(groups, start, end);
        let column = column_positions(windows, right)->Ok_0;
        lemma_packed(area, groups, end, left - area.gap);
        lemma_window_sizes_split(groups, start, end, groups.len() as int);
        let rest = packed(area, groups, end, left - area.gap)->Ok_0;
        let rest_sizes = window_sizes(groups, end, groups.len() as int);
        let positions = packed(area, groups, start, right)->Ok_0;
        let sizes = window_sizes(groups, start, groups.len() as int);
        assert(positions == column + rest);
        assert forall|i: int| 0 <= i < positions.len() implies lies_inside(
            area,
            #[trigger] positions[i],
            sizes[i],
        ) && positions[i].x + extent(sizes[i].width) <= right by {
            if i < column.len() {
                assert(positions[i] == column[i]);
                assert(1 <= windows[i].0);
            } else {
                assert(positions[i] == rest[i - column.len()]);
            }
        }
        assert forall|i: int, j: int| 0 <= i < j < positions.len() implies stands_clear(
            area.gap,
            (#[trigger] positions[i], sizes[i]),
            (#[trigger] positions[j], sizes[j]),
        ) by {
            if j < column.len() {
                assert(positions[i] == column[i] && positions[j] == column[j]);
                assert(windows[i].1 + extent(sizes[i].height) + area.gap <= windows[j].1);
            } else if i < column.len() {
                assert(positions[i] == column[i] && positions[j] == rest[j - column.len()]);
                assert(windows[i].0 <= column_width(groups, start, end));
                assert(lies_inside(area, rest[j - column.len()], rest_sizes[j - column.len()]));
            } else {
                assert(positions[i] == rest[i - column.len()] && positions[j] == rest[j
                    - column.len()]);
            }
        }
    }
}

/// Every window that is reset lies between the margins of the work area, and
/// no two of them are nearer to each other than the gap: of two windows the
/// later one stands below the earlier one or in a column to its left.
pub proof fn law_reset_windows_stay_inside_and_apart(
    work_area: WindowRect,
    groups: Seq<Seq<PhysicalSize>>,
    gap: int,
    left_margin: int,
    right_margin: int,
    top_margin: int,
)
    requires
        reset_positions(
            work_area,
            groups,
            gap,
            left_margin,
            right_margin,
            top_margin,
        ) is Ok,
    ensures
        ({
            let area = reset_area(work_area, gap, left_margin, right_margin, top_margin);
            let positions = reset_positions(
                work_area,
                groups,
                gap,
                left_margin,
                right_margin,
                top_margin,
            )->Ok_0;
            let sizes = window_sizes(groups, 0, groups.len() as int);
            &&& positions.len() == sizes.len()
            &&& forall|i: int|
                0 <= i < positions.len() ==> lies_inside(area, #[trigger] positions[i], sizes[i])
            &&& forall|i: int, j: int|
                0 <= i < j < positions.len() ==> stands_clear(
                    area.gap,
                    (#[trigger] positions[i], sizes[i]),
                    (#[trigger] positions[j], sizes[j]),
                )
        }),
{
    if groups.len() > 0 {
        let area = reset_area(work_area, gap, left_margin, right_margin, top_margin);
        lemma_packed(area, groups, 0, area.right);
    }
}

/// The first window of a layout that succeeds stands in the upper right corner
/// that the margins leave.
pub proof fn law_first_reset_window_is_upper_right(
    work_area: WindowRect,
    groups: Seq<Seq<PhysicalSize>>,
    gap: int,
    left_margin: int,
    right_margin: int,
    top_margin: int,
)
    requires
        groups.len() > 0,
        reset_positions(
            work_area,
            groups,
            gap,
            left_margin,
            right_margin,
            top_margin,
        ) is Ok,
    ensures
        ({
            let area = reset_area(work_area, gap, left_margin, right_margin, top_margin);
            let positions = reset_positions(
                work_area,
                groups,
                gap,
                left_margin,
                right_margin,
                top_margin,
            )->Ok_0;
            &&& groups[0].len() > 0
            &&& positions.len() > 0
            &&& positions[0].x + extent(groups[0][0].width) == area.right
            &&& positions[0].y == area.top
        }),
{
    let area = reset_area(work_area, gap, left_margin, right_margin, top_margin);
    let end = column_end(area, groups, 0, 0, area.top)->Ok_0;
    lemma_column_end(area, groups, 0, 0, area.top);
    let windows = column_windows(area, groups, 0, end);
    lemma_column_positions(windows, area.right);
    lemma_column_begins(area, groups, end);
    lemma_column_is_high_enough(area, groups, 0, 0, end, 0);
}

proof fn lemma_column_begins(area: ResetArea, groups: Seq<Seq<PhysicalSize>>, end: int)
    requires
        1 <= end <= groups.len(),
        groups[0].len() > 0,
    ensures
        column_windows(area, groups, 0, end).len() > 0,
        column_windows(area, groups, 0, end)[0] == (extent(groups[0][0].width), area.top),
    decreases end,
{
    if end > 1 {
        lemma_column_begins(area, groups, end - 1);
    } else {
        assert(group_offset(groups[0], area.gap, 0) == 0);
        assert(column_windows(area, groups, 0, 0) =~= Seq::empty());
    }
}

} // verus!
