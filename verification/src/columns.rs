//! How packed windows follow each other: what one more window group adds to a
//! layout, and when a layout succeeds.
use vstd::prelude::*;

use crate::geometry::{fits_i32, PhysicalPosition, PhysicalSize, WindowRect};
use crate::reset::{
    column_end, column_positions, column_width, column_windows, extent, group_height, group_offset,
    group_top, group_width, group_windows, larger, lemma_column_end, lemma_column_is_high_enough,
    lemma_column_positions, lemma_column_widths, lemma_failed_prefix, lemma_group_offset,
    lemma_group_width, lemma_window_sizes_split, packed, prepended, reset_area, reset_positions,
    window_sizes, ResetArea, ResetError,
};

verus! {

/// Margins and a gap that leave room in a work area, all of it in the range of
/// window positions.
pub open spec fn leaves_room(
    work_area: WindowRect,
    gap: int,
    left_margin: int,
    right_margin: int,
    top_margin: int,
) -> bool {
    &&& 0 <= gap <= i32::MAX
    &&& 0 <= left_margin
    &&& 0 <= right_margin
    &&& 0 <= top_margin
    &&& left_margin + right_margin < work_area.width
    &&& top_margin + left_margin < work_area.height
    &&& i32::MIN <= work_area.x
    &&& work_area.x + work_area.width <= i32::MAX
    &&& i32::MIN <= work_area.y
    &&& work_area.y + work_area.height <= i32::MAX
}

/// The pixels that a window takes in one direction: at least one.
pub open spec fn pixels(length: u32) -> int {
    if length == 0 {
        1
    } else {
        length as int
    }
}

/// The height that windows take below each other, with a gap between two.
pub open spec fn piled_height(sizes: Seq<PhysicalSize>, gap: int) -> int
    decreases sizes.len(),
{
    if sizes.len() == 0 {
        0
    } else if sizes.len() == 1 {
        pixels(sizes[0].height)
    } else {
        piled_height(sizes.drop_last(), gap) + gap + pixels(sizes.last().height)
    }
}

/// Whether windows stand below each other from row `top` on, one gap apart, each
/// ending at the column `edge`.
pub open spec fn is_pile(
    positions: Seq<PhysicalPosition>,
    sizes: Seq<PhysicalSize>,
    gap: int,
    edge: int,
    top: int,
) -> bool {
    &&& positions.len() == sizes.len()
    &&& forall|k: int|
        0 <= k < sizes.len() ==> (#[trigger] positions[k]).x + pixels(sizes[k].width) == edge
    &&& sizes.len() > 0 ==> positions[0].y == top
    &&& forall|k: int|
        0 <= k < sizes.len() - 1 ==> #[trigger] positions[k + 1].y == positions[k].y + pixels(
            sizes[k].height,
        ) + gap
}

/// Whether no window is wider than `width`.
pub open spec fn are_within(sizes: Seq<PhysicalSize>, width: int) -> bool {
    forall|k: int| 0 <= k < sizes.len() ==> pixels((#[trigger] sizes[k]).width) <= width
}

/// Whether `left` is the left edge of the column that the last window is in. The
/// windows of a column end at the same column of pixels.
pub open spec fn is_left_of_last_column(
    positions: Seq<PhysicalPosition>,
    sizes: Seq<PhysicalSize>,
    left: int,
) -> bool {
    let edge = positions.last().x + pixels(sizes.last().width);
    &&& forall|i: int|
        0 <= i < positions.len() && (#[trigger] positions[i]).x + pixels(sizes[i].width) == edge
            ==> left <= positions[i].x
    &&& exists|i: int|
        0 <= i < positions.len() && (#[trigger] positions[i]).x == left && positions[i].x
            + pixels(sizes[i].width) == edge
}

proof fn lemma_area(
    work_area: WindowRect,
    gap: int,
    left_margin: int,
    right_margin: int,
    top_margin: int,
)
    requires
        leaves_room(work_area, gap, left_margin, right_margin, top_margin),
    ensures
        ({
            let area = reset_area(work_area, gap, left_margin, right_margin, top_margin);
            &&& area.left == work_area.x + left_margin
            &&& area.right == work_area.x + work_area.width - right_margin
            &&& area.top == work_area.y + top_margin
            &&& area.bottom == work_area.y + work_area.height - left_margin
            &&& area.gap == gap
        }),
{
}

/// A group has the height of its windows piled up, and its offsets are those of
/// the pile.
proof fn lemma_piled_height(group: Seq<PhysicalSize>, gap: int)
    ensures
        group.len() > 0 ==> group_height(group, gap) == piled_height(group, gap),
    decreases group.len(),
{
    if group.len() > 1 {
        let shorter = group.drop_last();
        lemma_piled_height(shorter, gap);
        lemma_same_offset(group, shorter, gap, shorter.len() as int);
    } else if group.len() == 1 {
        assert(group_offset(group, gap, 0) == 0);
        assert(group_offset(group, gap, 1) == extent(group[0].height) + gap);
    }
}

proof fn lemma_same_offset(a: Seq<PhysicalSize>, b: Seq<PhysicalSize>, gap: int, i: int)
    requires
        0 <= i <= a.len(),
        i <= b.len(),
        forall|k: int| 0 <= k < i ==> #[trigger] a[k] == b[k],
    ensures
        group_offset(a, gap, i) == group_offset(b, gap, i),
    decreases i,
{
    if i > 0 {
        lemma_same_offset(a, b, gap, i - 1);
        assert(a[i - 1] == b[i - 1]);
    }
}

/// Columns that hold the same groups are the same.
proof fn lemma_same_column(
    area: ResetArea,
    a: Seq<Seq<PhysicalSize>>,
    b: Seq<Seq<PhysicalSize>>,
    start: int,
    i: int,
)
    requires
        0 <= start <= i <= a.len(),
        i <= b.len(),
        forall|k: int| start <= k < i ==> #[trigger] a[k] == b[k],
    ensures
        group_top(area, a, start, i) == group_top(area, b, start, i),
        column_width(a, start, i) == column_width(b, start, i),
        column_windows(area, a, start, i) == column_windows(area, b, start, i),
    decreases i - start,
{
    if i > start {
        lemma_same_column(area, a, b, start, i - 1);
        assert(a[i - 1] == b[i - 1]);
    }
}

/// One more group changes a column only if the column is the last one.
proof fn lemma_longer_column(
    area: ResetArea,
    groups: Seq<Seq<PhysicalSize>>,
    next: Seq<PhysicalSize>,
    start: int,
    i: int,
)
    requires
        0 <= start <= i <= groups.len(),
    ensures
        ({
            let more = groups.push(next);
            let n = groups.len() as int;
            let y = group_top(area, groups, start, i);
            match column_end(area, groups, start, i, y) {
                Ok(end) => if end < n {
                    column_end(area, more, start, i, y) == Ok::<int, ResetError>(end)
                } else {
                    column_end(area, more, start, i, y) == column_end(
                        area,
                        more,
                        start,
                        n,
                        group_top(area, groups, start, n),
                    )
                },
                Err(error) => column_end(area, more, start, i, y) == Err::<int, ResetError>(
                    error,
                ),
            }
        }),
    decreases groups.len() - i,
{
    let more = groups.push(next);
    if i < groups.len() {
        assert(more[i] == groups[i]);
        lemma_longer_column(area, groups, next, start, i + 1);
    }
}

/// The first group and the right edge of the last column.
spec fn last_column(
    area: ResetArea,
    groups: Seq<Seq<PhysicalSize>>,
    start: int,
    right: int,
) -> (int, int)
    decreases groups.len() - start,
    when 0 <= start
{
    match column_end(area, groups, start, start, area.top) {
        Ok(end) => if start < end < groups.len() {
            last_column(
                area,
                groups,
                end,
                right - column_width(groups, start, end) - area.gap,
            )
        } else {
            (start, right)
        },
        Err(_) => (start, right),
    }
}

/// The positions of a group that begins in row `y` and ends at `right`.
spec fn group_positions(group: Seq<PhysicalSize>, gap: int, right: int, y: int) -> Seq<
    PhysicalPosition,
> {
    Seq::new(
        group.len(),
        |k: int|
            PhysicalPosition {
                x: (right - extent(group[k].width)) as i32,
                y: (y + group_offset(group, gap, k)) as i32,
            },
    )
}

/// Whether the area is one that window positions can express.
spec fn is_small(area: ResetArea) -> bool {
    &&& i32::MIN <= area.left < area.right <= i32::MAX
    &&& i32::MIN <= area.top < area.bottom <= i32::MAX
    &&& 0 <= area.gap <= i32::MAX
}

/// Whether the position of window `k` of a group is made of values of `i32`.
spec fn is_expressible(
    group: Seq<PhysicalSize>,
    gap: int,
    right: int,
    y: int,
    k: int,
) -> bool {
    fits_i32(right - extent(group[k].width)) && fits_i32(y + group_offset(group, gap, k))
}

proof fn lemma_positions_added(
    windows: Seq<(int, int)>,
    group: Seq<PhysicalSize>,
    gap: int,
    right: int,
    y: int,
    n: int,
)
    requires
        0 <= n <= group.len(),
        column_positions(windows, right) is Ok,
        forall|k: int|
            0 <= k < group.len() ==> #[trigger] is_expressible(group, gap, right, y, k),
    ensures
        column_positions(windows + group_windows(group, gap, y).take(n), right) == Ok::<
            Seq<PhysicalPosition>,
            ResetError,
        >(column_positions(windows, right)->Ok_0 + group_positions(group, gap, right, y).take(n)),
    decreases n,
{
    let added = group_windows(group, gap, y);
    let positions = group_positions(group, gap, right, y);
    let first = column_positions(windows, right)->Ok_0;
    if n == 0 {
        assert(windows + added.take(0) =~= windows);
        assert(first + positions.take(0) =~= first);
    } else {
        lemma_positions_added(windows, group, gap, right, y, n - 1);
        let all = windows + added.take(n);
        assert(all.drop_last() =~= windows + added.take(n - 1));
        assert(all.last() == added[n - 1]);
        assert(is_expressible(group, gap, right, y, n - 1));
        assert((first + positions.take(n - 1)).push(positions[n - 1]) =~= first + positions.take(
            n,
        ));
    }
}

/// What one more group adds to the groups from `start` on.
proof fn lemma_one_more(
    area: ResetArea,
    groups: Seq<Seq<PhysicalSize>>,
    next: Seq<PhysicalSize>,
    start: int,
    right: int,
)
    requires
        is_small(area),
        0 <= start < groups.len(),
        right <= area.right,
        packed(area, groups, start, right) is Ok,
    ensures
        ({
            let n = groups.len() as int;
            let placed = packed(area, groups, start, right)->Ok_0;
            let with_next = packed(area, groups.push(next), start, right);
            let (s, r) = last_column(area, groups, start, right);
            let y = group_top(area, groups, s, n);
            let height = group_height(next, area.gap);
            let width = group_width(next);
            &&& 0 <= s < n
            &&& area.left <= r - column_width(groups, s, n)
            &&& r <= right
            &&& area.top <= y
            &&& next.len() == 0 ==> with_next == Err::<Seq<PhysicalPosition>, ResetError>(
                ResetError::EmptyGroup,
            )
            &&& next.len() > 0 && height <= i64::MAX && (width > area.right - area.left || height
                > area.bottom - area.top) ==> with_next == Err::<
                Seq<PhysicalPosition>,
                ResetError,
            >(ResetError::GroupTooLarge)
            &&& height > i64::MAX ==> with_next is Err
            &&& next.len() > 0 && width <= area.right - area.left && height <= area.bottom
                - area.top ==> if y + height <= area.bottom {
                if area.left <= r - width {
                    with_next == Ok::<Seq<PhysicalPosition>, ResetError>(
                        placed + group_positions(next, area.gap, r, y),
                    )
                } else {
                    with_next == Err::<Seq<PhysicalPosition>, ResetError>(
                        ResetError::DoesNotFit,
                    )
                }
            } else {
                let edge = r - column_width(groups, s, n) - area.gap;
                if area.left <= edge - width {
                    with_next == Ok::<Seq<PhysicalPosition>, ResetError>(
                        placed + group_positions(next, area.gap, edge, area.top),
                    )
                } else {
                    with_next == Err::<Seq<PhysicalPosition>, ResetError>(
                        ResetError::DoesNotFit,
                    )
                }
            }
        }),
    decreases groups.len() - start,
{
    let n = groups.len() as int;
    let more = groups.push(next);
    let end = column_end(area, groups, start, start, area.top)->Ok_0;
    lemma_column_end(area, groups, start, start, area.top);
    lemma_column_widths(area, groups, start, end);
    lemma_longer_column(area, groups, next, start, start);
    lemma_same_column(area, groups, more, start, end);
    let left = right - column_width(groups, start, end);
    let column = column_positions(column_windows(area, groups, start, end), right)->Ok_0;
    if end < n {
        lemma_one_more(area, groups, next, end, left - area.gap);
        let rest = packed(area, groups, end, left - area.gap)->Ok_0;
        let rest_more = packed(area, more, end, left - area.gap);
        assert(packed(area, groups, start, right) == Ok::<Seq<PhysicalPosition>, ResetError>(
            column + rest,
        ));
        assert(packed(area, more, start, right) == prepended(column, rest_more));
        if rest_more is Ok {
            let added = rest_more->Ok_0.skip(rest.len() as int);
            assert(rest_more->Ok_0 =~= rest + added);
            assert(column + (rest + added) =~= (column + rest) + added);
        }
        assert forall|a: Seq<PhysicalPosition>| column + (rest + a) == #[trigger] ((column + rest)
            + a) by {
            assert(column + (rest + a) =~= (column + rest) + a);
        }
    } else {
        lemma_last_column_grows(area, groups, next, start, right);
    }
}

/// One more group after a single column.
proof fn lemma_last_column_grows(
    area: ResetArea,
    groups: Seq<Seq<PhysicalSize>>,
    next: Seq<PhysicalSize>,
    start: int,
    right: int,
)
    requires
        is_small(area),
        0 <= start < groups.len(),
        right <= area.right,
        packed(area, groups, start, right) is Ok,
        column_end(area, groups, start, start, area.top) == Ok::<int, ResetError>(
            groups.len() as int,
        ),
    ensures
        ({
            let n = groups.len() as int;
            let placed = packed(area, groups, start, right)->Ok_0;
            let with_next = packed(area, groups.push(next), start, right);
            let y = group_top(area, groups, start, n);
            let height = group_height(next, area.gap);
            let width = group_width(next);
            &&& area.left <= right - column_width(groups, start, n)
            &&& area.top <= y
            &&& next.len() == 0 ==> with_next == Err::<Seq<PhysicalPosition>, ResetError>(
                ResetError::EmptyGroup,
            )
            &&& next.len() > 0 && height <= i64::MAX && (width > area.right - area.left || height
                > area.bottom - area.top) ==> with_next == Err::<
                Seq<PhysicalPosition>,
                ResetError,
            >(ResetError::GroupTooLarge)
            &&& height > i64::MAX ==> with_next is Err
            &&& next.len() > 0 && width <= area.right - area.left && height <= area.bottom
                - area.top ==> if y + height <= area.bottom {
                if area.left <= right - width {
                    with_next == Ok::<Seq<PhysicalPosition>, ResetError>(
                        placed + group_positions(next, area.gap, right, y),
                    )
                } else {
                    with_next == Err::<Seq<PhysicalPosition>, ResetError>(
                        ResetError::DoesNotFit,
                    )
                }
            } else {
                let edge = right - column_width(groups, start, n) - area.gap;
                if area.left <= edge - width {
                    with_next == Ok::<Seq<PhysicalPosition>, ResetError>(
                        placed + group_positions(next, area.gap, edge, area.top),
                    )
                } else {
                    with_next == Err::<Seq<PhysicalPosition>, ResetError>(
                        ResetError::DoesNotFit,
                    )
                }
            }
        }),
{
    let n = groups.len() as int;
    let more = groups.push(next);
    let windows = column_windows(area, groups, start, n);
    let column = column_positions(windows, right)->Ok_0;
    let y = group_top(area, groups, start, n);
    let width = group_width(next);
    let height = group_height(next, area.gap);
    let left = right - column_width(groups, start, n);
    lemma_column_widths(area, groups, start, n);
    lemma_group_width(next);
    lemma_longer_column(area, groups, next, start, start);
    lemma_same_column(area, groups, more, start, n);
    lemma_rows_below(area, groups, start, n, n);
    assert(more[n] == next);
    assert(packed(area, groups, n, left - area.gap) == Ok::<Seq<PhysicalPosition>, ResetError>(
        Seq::empty(),
    ));
    assert(packed(area, groups, start, right)->Ok_0 =~= column);
    if next.len() > 0 && width <= area.right - area.left && height <= area.bottom - area.top {
        lemma_group_rows(next, area.gap, area.top, area.bottom);
        if y + height <= area.bottom {
            lemma_group_rows(next, area.gap, y, area.bottom);
            assert(column_end(area, more, start, n + 1, y + height + area.gap) == Ok::<
                int,
                ResetError,
            >(n + 1));
            if area.left <= right - width {
                lemma_group_fits(area, next, right, y);
                lemma_positions_added(windows, next, area.gap, right, y, next.len() as int);
                let added = group_windows(next, area.gap, y);
                assert(added.take(next.len() as int) =~= added);
                let positions = group_positions(next, area.gap, right, y);
                assert(positions.take(next.len() as int) =~= positions);
                assert(column_windows(area, more, start, n + 1) == windows + added);
                assert(packed(
                    area,
                    more,
                    n + 1,
                    right - column_width(more, start, n + 1) - area.gap,
                ) == Ok::<Seq<PhysicalPosition>, ResetError>(Seq::empty()));
                assert((column + positions) + Seq::empty() =~= column + positions);
            }
        } else {
            let edge = left - area.gap;
            assert(column_end(area, more, start, n, y) == Ok::<int, ResetError>(n));
            assert(packed(area, more, start, right) == prepended(
                column,
                packed(area, more, n, edge),
            ));
            lemma_new_column(area, more, n, edge);
        }
    }
}

/// A column that holds the last group alone.
proof fn lemma_new_column(
    area: ResetArea,
    groups: Seq<Seq<PhysicalSize>>,
    n: int,
    edge: int,
)
    requires
        is_small(area),
        n == groups.len() - 1,
        n >= 0,
        edge <= area.right,
        groups[n].len() > 0,
        area.left - area.gap <= edge,
        group_width(groups[n]) <= area.right - area.left,
        group_height(groups[n], area.gap) <= area.bottom - area.top,
    ensures
        if area.left <= edge - group_width(groups[n]) {
            packed(area, groups, n, edge) == Ok::<Seq<PhysicalPosition>, ResetError>(
                group_positions(groups[n], area.gap, edge, area.top),
            )
        } else {
            packed(area, groups, n, edge) == Err::<Seq<PhysicalPosition>, ResetError>(
                ResetError::DoesNotFit,
            )
        },
{
    let group = groups[n];
    lemma_group_width(group);
    lemma_column_of_one(area, groups, n);
    if area.left <= edge - group_width(group) {
        lemma_group_fits(area, group, edge, area.top);
        lemma_positions_of_one(group, area.gap, edge, area.top);
        let positions = group_positions(group, area.gap, edge, area.top);
        assert(packed(area, groups, n + 1, edge - group_width(group) - area.gap) == Ok::<
            Seq<PhysicalPosition>,
            ResetError,
        >(Seq::empty()));
        assert(positions + Seq::empty() =~= positions);
    }
}

proof fn lemma_positions_of_one(group: Seq<PhysicalSize>, gap: int, right: int, y: int)
    requires
        forall|k: int|
            0 <= k < group.len() ==> #[trigger] is_expressible(group, gap, right, y, k),
    ensures
        column_positions(group_windows(group, gap, y), right) == Ok::<
            Seq<PhysicalPosition>,
            ResetError,
        >(group_positions(group, gap, right, y)),
{
    let none = Seq::<(int, int)>::empty();
    let added = group_windows(group, gap, y);
    let positions = group_positions(group, gap, right, y);
    lemma_positions_added(none, group, gap, right, y, group.len() as int);
    assert(none + added.take(group.len() as int) =~= added);
    assert(column_positions(none, right)->Ok_0 + positions.take(group.len() as int)
        =~= positions);
}

proof fn lemma_column_of_one(area: ResetArea, groups: Seq<Seq<PhysicalSize>>, n: int)
    requires
        is_small(area),
        n == groups.len() - 1,
        n >= 0,
        groups[n].len() > 0,
        group_width(groups[n]) <= area.right - area.left,
        group_height(groups[n], area.gap) <= area.bottom - area.top,
    ensures
        column_end(area, groups, n, n, area.top) == Ok::<int, ResetError>(n + 1),
        column_width(groups, n, n + 1) == group_width(groups[n]),
        column_windows(area, groups, n, n + 1) == group_windows(groups[n], area.gap, area.top),
{
    let below = area.top + group_height(groups[n], area.gap) + area.gap;
    lemma_group_width(groups[n]);
    assert(column_end(area, groups, n, n + 1, below) == Ok::<int, ResetError>(n + 1));
    assert(column_width(groups, n, n) == 0);
    assert(column_windows(area, groups, n, n) == Seq::<(int, int)>::empty());
    assert(group_top(area, groups, n, n) == area.top);
    assert(Seq::<(int, int)>::empty() + group_windows(groups[n], area.gap, area.top)
        =~= group_windows(groups[n], area.gap, area.top));
}

/// The windows of a group that fits have positions that are values of `i32`.
proof fn lemma_group_fits(area: ResetArea, group: Seq<PhysicalSize>, edge: int, y: int)
    requires
        is_small(area),
        edge <= area.right,
        area.left <= edge - group_width(group),
        area.top <= y,
        y + group_height(group, area.gap) <= area.bottom,
    ensures
        forall|k: int|
            0 <= k < group.len() ==> #[trigger] is_expressible(group, area.gap, edge, y, k),
{
    lemma_group_width(group);
    assert forall|k: int| 0 <= k < group.len() implies #[trigger] is_expressible(
        group,
        area.gap,
        edge,
        y,
        k,
    ) by {
        lemma_group_offset(group, area.gap, 0, k);
        lemma_group_offset(group, area.gap, k, group.len() as int);
        let width = extent(group[k].width);
        let row = y + group_offset(group, area.gap, k);
        assert(1 <= width <= group_width(group));
        assert(area.left <= edge - width <= area.right);
        assert(area.top <= row <= area.bottom);
    }
}

proof fn lemma_group_rows(group: Seq<PhysicalSize>, gap: int, y: int, bottom: int)
    requires
        0 <= gap,
        group.len() > 0,
        y + group_height(group, gap) <= bottom,
    ensures
        0 < group_height(group, gap),
{
    lemma_group_offset(group, gap, 0, group.len() as int);
}

/// The row below the groups of a column is no higher than its top.
proof fn lemma_rows_below(
    area: ResetArea,
    groups: Seq<Seq<PhysicalSize>>,
    start: int,
    i: int,
    end: int,
)
    requires
        is_small(area),
        0 <= start <= i <= end <= groups.len(),
        column_end(area, groups, start, start, area.top) == Ok::<int, ResetError>(end),
    ensures
        area.top <= group_top(area, groups, start, i),
        i > start ==> group_top(area, groups, start, i) <= area.bottom + area.gap,
    decreases i - start,
{
    if i > start {
        lemma_rows_below(area, groups, start, i - 1, end);
        lemma_column_is_high_enough(area, groups, start, start, end, i - 1);
        lemma_group_offset(groups[i - 1], area.gap, 0, groups[i - 1].len() as int);
    }
}

/// Some window of a column is as wide as the column.
proof fn lemma_widest(area: ResetArea, groups: Seq<Seq<PhysicalSize>>, start: int, end: int)
    requires
        0 <= start < end <= groups.len(),
        forall|g: int| start <= g < end ==> (#[trigger] groups[g]).len() > 0,
    ensures
        exists|k: int|
            0 <= k < column_windows(area, groups, start, end).len() && (
            #[trigger] column_windows(area, groups, start, end)[k]).0 == column_width(
                groups,
                start,
                end,
            ),
    decreases end - start,
{
    let windows = column_windows(area, groups, start, end);
    let earlier = column_windows(area, groups, start, end - 1);
    let group = groups[end - 1];
    let added = group_windows(group, area.gap, group_top(area, groups, start, end - 1));
    lemma_widest_of_group(group);
    if start < end - 1 {
        lemma_widest(area, groups, start, end - 1);
    } else {
        assert(column_width(groups, start, start) == 0);
    }
    if start < end - 1 && group_width(group) < column_width(groups, start, end - 1) {
        let k = choose|k: int|
            0 <= k < earlier.len() && (#[trigger] earlier[k]).0 == column_width(
                groups,
                start,
                end - 1,
            );
        assert(windows[k] == earlier[k]);
    } else {
        lemma_group_width(group);
        let k = choose|k: int|
            0 <= k < group.len() && extent((#[trigger] group[k]).width) == group_width(group);
        assert(windows[earlier.len() + k] == added[k]);
    }
}

proof fn lemma_widest_of_group(group: Seq<PhysicalSize>)
    requires
        group.len() > 0,
    ensures
        exists|k: int|
            0 <= k < group.len() && extent((#[trigger] group[k]).width) == group_width(group),
    decreases group.len(),
{
    let shorter = group.drop_last();
    let last = group.len() - 1;
    lemma_group_width(shorter);
    if shorter.len() > 0 && extent(group.last().width) < group_width(shorter) {
        lemma_widest_of_group(shorter);
        let k = choose|k: int|
            0 <= k < shorter.len() && extent((#[trigger] shorter[k]).width) == group_width(
                shorter,
            );
        assert(group[k] == shorter[k]);
    } else {
        assert(shorter.len() == 0 ==> group_width(shorter) == 0);
        assert(extent(group[last].width) == group_width(group));
    }
}

/// The windows of a column and their sizes go together.
proof fn lemma_column_sizes(
    area: ResetArea,
    groups: Seq<Seq<PhysicalSize>>,
    start: int,
    end: int,
)
    requires
        0 <= start <= end <= groups.len(),
    ensures
        ({
            let windows = column_windows(area, groups, start, end);
            let sizes = window_sizes(groups, start, end);
            &&& windows.len() == sizes.len()
            &&& forall|k: int|
                0 <= k < windows.len() ==> (#[trigger] windows[k]).0 == extent(sizes[k].width)
            &&& start < end && groups[end - 1].len() > 0 ==> windows.len() > 0
                && windows.last().1 + extent(sizes.last().height) + area.gap == group_top(
                area,
                groups,
                start,
                end,
            )
        }),
    decreases end - start,
{
    if start < end {
        lemma_column_sizes(area, groups, start, end - 1);
        let windows = column_windows(area, groups, start, end);
        let sizes = window_sizes(groups, start, end);
        let earlier = column_windows(area, groups, start, end - 1);
        let group = groups[end - 1];
        let top = group_top(area, groups, start, end - 1);
        let added = group_windows(group, area.gap, top);
        assert forall|k: int| 0 <= k < windows.len() implies (#[trigger] windows[k]).0 == extent(
            sizes[k].width,
        ) by {
            if k < earlier.len() {
                assert(windows[k] == earlier[k]);
            } else {
                assert(windows[k] == added[k - earlier.len()]);
            }
        }
        if group.len() > 0 {
            assert(windows.last() == added.last());
            assert(sizes.last() == group.last());
        }
    }
}

/// What the last column is, seen in the positions.
proof fn lemma_last_column(
    area: ResetArea,
    groups: Seq<Seq<PhysicalSize>>,
    start: int,
    right: int,
)
    requires
        is_small(area),
        0 <= start < groups.len(),
        packed(area, groups, start, right) is Ok,
    ensures
        ({
            let n = groups.len() as int;
            let positions = packed(area, groups, start, right)->Ok_0;
            let sizes = window_sizes(groups, start, n);
            let (s, r) = last_column(area, groups, start, right);
            let left = r - column_width(groups, s, n);
            &&& positions.len() == sizes.len()
            &&& positions.len() > 0
            &&& r <= right
            &&& positions.last().x + pixels(sizes.last().width) == r
            &&& positions.last().y + pixels(sizes.last().height) + area.gap == group_top(
                area,
                groups,
                s,
                n,
            )
            &&& is_left_of_last_column(positions, sizes, left)
            &&& forall|i: int|
                0 <= i < positions.len() ==> (#[trigger] positions[i]).x + pixels(sizes[i].width)
                    <= right
        }),
    decreases groups.len() - start,
{
    let n = groups.len() as int;
    let end = column_end(area, groups, start, start, area.top)->Ok_0;
    lemma_column_end(area, groups, start, start, area.top);
    let windows = column_windows(area, groups, start, end);
    let column = column_positions(windows, right)->Ok_0;
    let left = right - column_width(groups, start, end);
    lemma_column_positions(windows, right);
    lemma_column_sizes(area, groups, start, end);
    lemma_column_widths(area, groups, start, end);
    assert forall|g: int| start <= g < end implies (#[trigger] groups[g]).len() > 0 by {
        lemma_column_is_high_enough(area, groups, start, start, end, g);
    }
    lemma_widest(area, groups, start, end);
    let column_sizes = window_sizes(groups, start, end);
    let positions = packed(area, groups, start, right)->Ok_0;
    let sizes = window_sizes(groups, start, n);
    let widest = choose|k: int|
        0 <= k < windows.len() && (#[trigger] windows[k]).0 == column_width(groups, start, end);
    if end < n {
        lemma_last_column(area, groups, end, left - area.gap);
        lemma_window_sizes_split(groups, start, end, n);
        let rest = packed(area, groups, end, left - area.gap)->Ok_0;
        let rest_sizes = window_sizes(groups, end, n);
        let (s, r) = last_column(area, groups, end, left - area.gap);
        assert(positions == column + rest);
        assert(positions.last() == rest.last());
        assert(sizes.last() == rest_sizes.last());
        assert(windows[widest].0 >= 1);
        let edge = r - column_width(groups, s, n);
        assert forall|i: int| 0 <= i < positions.len() implies (#[trigger] positions[i]).x
            + pixels(sizes[i].width) <= right && (positions[i].x + pixels(sizes[i].width) == r
            ==> edge <= positions[i].x) by {
            if i < column.len() {
                assert(positions[i] == column[i]);
                assert(windows[i].0 == extent(column_sizes[i].width));
            } else {
                assert(positions[i] == rest[i - column.len()]);
            }
        }
        let i = choose|i: int|
            0 <= i < rest.len() && (#[trigger] rest[i]).x == edge && rest[i].x + pixels(
                rest_sizes[i].width,
            ) == r;
        assert(positions[column.len() + i] == rest[i]);
    } else {
        assert(packed(area, groups, n, left - area.gap) == Ok::<
            Seq<PhysicalPosition>,
            ResetError,
        >(Seq::empty()));
        assert(positions =~= column);
        assert forall|i: int| 0 <= i < positions.len() implies (#[trigger] positions[i]).x
            + pixels(sizes[i].width) == right && left <= positions[i].x by {
            assert(windows[i].0 == extent(sizes[i].width));
        }
        assert(positions[widest].x == left);
    }
}

/// The positions of a group are a pile.
proof fn lemma_group_is_pile(group: Seq<PhysicalSize>, gap: int, right: int, y: int)
    requires
        forall|k: int|
            0 <= k < group.len() ==> #[trigger] is_expressible(group, gap, right, y, k),
    ensures
        is_pile(group_positions(group, gap, right, y), group, gap, right, y),
{
    let positions = group_positions(group, gap, right, y);
    assert forall|k: int| 0 <= k < group.len() implies (#[trigger] positions[k]).x + pixels(
        group[k].width,
    ) == right && positions[k].y == y + group_offset(group, gap, k) by {
        assert(is_expressible(group, gap, right, y, k));
    }
    if group.len() > 0 {
        assert(positions[0].y == y + group_offset(group, gap, 0));
    }
    assert forall|k: int| 0 <= k < group.len() - 1 implies #[trigger] positions[k + 1].y
        == positions[k].y + pixels(group[k].height) + gap by {
        assert(group_offset(group, gap, k + 1) == group_offset(group, gap, k) + extent(
            group[k].height,
        ) + gap);
        assert(positions[k].y == y + group_offset(group, gap, k));
    }
}

proof fn lemma_within(group: Seq<PhysicalSize>, width: int)
    requires
        group.len() > 0,
    ensures
        are_within(group, width) <==> group_width(group) <= width,
{
    lemma_group_width(group);
    lemma_widest_of_group(group);
    let k = choose|k: int|
        0 <= k < group.len() && extent((#[trigger] group[k]).width) == group_width(group);
    assert(pixels(group[k].width) == group_width(group));
    if group_width(group) <= width {
        assert forall|j: int| 0 <= j < group.len() implies pixels((#[trigger] group[j]).width)
            <= width by {}
    }
}

/// What one more window group adds to a layout.
///
/// The windows that were packed before stay where they are. The group goes below
/// the last window if there is room for it above the bottom margin, and begins a
/// new column a gap to the left of the last one only if there is not. There its
/// windows stand below each other, a gap apart and with their right edges in
/// line. The layout fails exactly if the group is empty, if it is larger than
/// what the margins leave, or if it would cross the left margin in the column
/// that it goes to, and says which.
pub proof fn law_next_group_goes_below_or_to_the_left(
    work_area: WindowRect,
    groups: Seq<Seq<PhysicalSize>>,
    next: Seq<PhysicalSize>,
    gap: int,
    left_margin: int,
    right_margin: int,
    top_margin: int,
    left_edge: int,
)
    requires
        leaves_room(work_area, gap, left_margin, right_margin, top_margin),
        groups.len() > 0,
        reset_positions(work_area, groups, gap, left_margin, right_margin, top_margin) is Ok,
        is_left_of_last_column(
            reset_positions(work_area, groups, gap, left_margin, right_margin, top_margin)->Ok_0,
            window_sizes(groups, 0, groups.len() as int),
            left_edge,
        ),
    ensures
        ({
            let left = work_area.x + left_margin;
            let right = work_area.x + work_area.width - right_margin;
            let top = work_area.y + top_margin;
            let bottom = work_area.y + work_area.height - left_margin;
            let placed = reset_positions(
                work_area,
                groups,
                gap,
                left_margin,
                right_margin,
                top_margin,
            )->Ok_0;
            let sizes = window_sizes(groups, 0, groups.len() as int);
            let after = reset_positions(
                work_area,
                groups.push(next),
                gap,
                left_margin,
                right_margin,
                top_margin,
            );
            let height = piled_height(next, gap);
            let below = placed.last().y + pixels(sizes.last().height) + gap;
            let fits_below = below + height <= bottom;
            let edge = if fits_below {
                placed.last().x + pixels(sizes.last().width)
            } else {
                left_edge - gap
            };
            &&& after is Ok <==> {
                &&& next.len() > 0
                &&& are_within(next, right - left)
                &&& height <= bottom - top
                &&& are_within(next, edge - left)
            }
            &&& next.len() == 0 ==> after == Err::<Seq<PhysicalPosition>, ResetError>(
                ResetError::EmptyGroup,
            )
            &&& next.len() > 0 && height <= i64::MAX && !(are_within(next, right - left) && height
                <= bottom - top) ==> after == Err::<Seq<PhysicalPosition>, ResetError>(
                ResetError::GroupTooLarge,
            )
            &&& next.len() > 0 && are_within(next, right - left) && height <= bottom - top
                && !are_within(next, edge - left) ==> after == Err::<
                Seq<PhysicalPosition>,
                ResetError,
            >(ResetError::DoesNotFit)
            &&& after matches Ok(positions) ==> {
                &&& positions.len() == placed.len() + next.len()
                &&& positions.take(placed.len() as int) == placed
                &&& is_pile(
                    positions.skip(placed.len() as int),
                    next,
                    gap,
                    edge,
                    if fits_below {
                        below
                    } else {
                        top
                    },
                )
            }
        }),
{
    let area = reset_area(work_area, gap, left_margin, right_margin, top_margin);
    lemma_area(work_area, gap, left_margin, right_margin, top_margin);
    let n = groups.len() as int;
    let placed = packed(area, groups, 0, area.right)->Ok_0;
    let sizes = window_sizes(groups, 0, n);
    let (s, r) = last_column(area, groups, 0, area.right);
    let y = group_top(area, groups, s, n);
    lemma_one_more(area, groups, next, 0, area.right);
    lemma_last_column(area, groups, 0, area.right);
    lemma_same_left(placed, sizes, left_edge, r - column_width(groups, s, n));
    lemma_piled_height(next, gap);
    if next.len() > 0 {
        let below = y + group_height(next, gap) <= area.bottom;
        let edge = if below {
            r
        } else {
            left_edge - gap
        };
        let from = if below {
            y
        } else {
            area.top
        };
        lemma_within(next, area.right - area.left);
        lemma_within(next, edge - area.left);
        if group_width(next) <= area.right - area.left && group_height(next, gap) <= area.bottom
            - area.top && group_width(next) <= edge - area.left {
            lemma_column_widths(area, groups, s, n);
            lemma_group_fits(area, next, edge, from);
            lemma_group_is_pile(next, gap, edge, from);
            let added = group_positions(next, gap, edge, from);
            let positions = placed + added;
            assert(positions.take(placed.len() as int) =~= placed);
            assert(positions.skip(placed.len() as int) =~= added);
        }
    }
}

proof fn lemma_same_left(
    positions: Seq<PhysicalPosition>,
    sizes: Seq<PhysicalSize>,
    a: int,
    b: int,
)
    requires
        is_left_of_last_column(positions, sizes, a),
        is_left_of_last_column(positions, sizes, b),
    ensures
        a == b,
{
}

/// The first window group stands in the upper right corner that the margins
/// leave, and can be packed exactly if it has a window and is no larger than what
/// they leave.
pub proof fn law_first_group_is_upper_right(
    work_area: WindowRect,
    first: Seq<PhysicalSize>,
    gap: int,
    left_margin: int,
    right_margin: int,
    top_margin: int,
)
    requires
        leaves_room(work_area, gap, left_margin, right_margin, top_margin),
    ensures
        ({
            let left = work_area.x + left_margin;
            let right = work_area.x + work_area.width - right_margin;
            let top = work_area.y + top_margin;
            let bottom = work_area.y + work_area.height - left_margin;
            let after = reset_positions(
                work_area,
                seq![first],
                gap,
                left_margin,
                right_margin,
                top_margin,
            );
            &&& after is Ok <==> first.len() > 0 && are_within(first, right - left)
                && piled_height(first, gap) <= bottom - top
            &&& after matches Ok(positions) ==> is_pile(positions, first, gap, right, top)
        }),
{
    let area = reset_area(work_area, gap, left_margin, right_margin, top_margin);
    lemma_area(work_area, gap, left_margin, right_margin, top_margin);
    lemma_piled_height(first, gap);
    if first.len() > 0 {
        lemma_within(first, area.right - area.left);
        if group_width(first) <= area.right - area.left && group_height(first, gap) <= area.bottom
            - area.top {
            lemma_new_column(area, seq![first], 0, area.right);
            lemma_group_fits(area, first, area.right, area.top);
            lemma_group_is_pile(first, gap, area.right, area.top);
        }
    }
}

/// Without a window group there is nothing to pack, and that succeeds.
pub proof fn law_nothing_is_packed_without_groups(
    work_area: WindowRect,
    gap: int,
    left_margin: int,
    right_margin: int,
    top_margin: int,
)
    ensures
        reset_positions(work_area, Seq::empty(), gap, left_margin, right_margin, top_margin)
            == Ok::<Seq<PhysicalPosition>, ResetError>(Seq::empty()),
{
}

proof fn lemma_failure_stays(
    area: ResetArea,
    groups: Seq<Seq<PhysicalSize>>,
    next: Seq<PhysicalSize>,
    start: int,
    right: int,
)
    requires
        0 <= start < groups.len(),
        packed(area, groups, start, right) is Err,
    ensures
        packed(area, groups.push(next), start, right) is Err,
    decreases groups.len() - start,
{
    let n = groups.len() as int;
    let more = groups.push(next);
    lemma_longer_column(area, groups, next, start, start);
    if column_end(area, groups, start, start, area.top) is Ok {
        let end = column_end(area, groups, start, start, area.top)->Ok_0;
        lemma_column_end(area, groups, start, start, area.top);
        lemma_same_column(area, groups, more, start, end);
        let left = right - column_width(groups, start, end);
        let windows = column_windows(area, groups, start, end);
        if end < n {
            if left >= i64::MIN && left >= area.left && column_positions(windows, right) is Ok
                && left - area.gap >= i64::MIN {
                lemma_failure_stays(area, groups, next, end, left - area.gap);
            }
        } else {
            lemma_column_end(area, more, start, start, area.top);
            lemma_column_end(area, more, start, n, group_top(area, groups, start, n));
            assert(more[n] == next);
            if column_end(area, more, start, start, area.top) == Ok::<int, ResetError>(n + 1) {
                let longer = column_windows(area, more, start, n + 1);
                assert(longer.take(windows.len() as int) =~= windows);
                if column_positions(windows, right) is Err {
                    lemma_failed_prefix(longer, right, windows.len() as int);
                }
            }
        }
    }
}

/// Groups that cannot be packed cannot be packed with one more either.
pub proof fn law_failed_packing_stays_failed(
    work_area: WindowRect,
    groups: Seq<Seq<PhysicalSize>>,
    next: Seq<PhysicalSize>,
    gap: int,
    left_margin: int,
    right_margin: int,
    top_margin: int,
)
    requires
        reset_positions(work_area, groups, gap, left_margin, right_margin, top_margin) is Err,
    ensures
        reset_positions(
            work_area,
            groups.push(next),
            gap,
            left_margin,
            right_margin,
            top_margin,
        ) is Err,
{
    let area = reset_area(work_area, gap, left_margin, right_margin, top_margin);
    if area.right > area.left && area.bottom > area.top {
        lemma_failure_stays(area, groups, next, 0, area.right);
    }
}

proof fn lemma_piles_join(a: Seq<PhysicalSize>, b: Seq<PhysicalSize>, gap: int)
    requires
        a.len() > 0,
        b.len() > 0,
    ensures
        piled_height(a + b, gap) == piled_height(a, gap) + gap + piled_height(b, gap),
    decreases b.len(),
{
    let all = a + b;
    assert(all.last() == b.last());
    if b.len() == 1 {
        assert(all.drop_last() =~= a);
    } else {
        assert(all.drop_last() =~= a + b.drop_last());
        lemma_piles_join(a, b.drop_last(), gap);
    }
}

proof fn lemma_pile_ends(
    positions: Seq<PhysicalPosition>,
    sizes: Seq<PhysicalSize>,
    gap: int,
    edge: int,
    top: int,
)
    requires
        sizes.len() > 0,
        is_pile(positions, sizes, gap, edge, top),
    ensures
        positions.last().y + pixels(sizes.last().height) == top + piled_height(sizes, gap),
    decreases sizes.len(),
{
    if sizes.len() > 1 {
        let shorter = positions.drop_last();
        let shorter_sizes = sizes.drop_last();
        assert forall|k: int| 0 <= k < shorter_sizes.len() - 1 implies #[trigger] shorter[k + 1].y
            == shorter[k].y + pixels(shorter_sizes[k].height) + gap by {
            assert(positions[k + 1].y == positions[k].y + pixels(sizes[k].height) + gap);
        }
        lemma_pile_ends(shorter, shorter_sizes, gap, edge, top);
        let k = sizes.len() - 2;
        assert(positions[k + 1].y == positions[k].y + pixels(sizes[k].height) + gap);
    }
}

proof fn lemma_pile_grows(
    a: Seq<PhysicalPosition>,
    a_sizes: Seq<PhysicalSize>,
    b: Seq<PhysicalPosition>,
    b_sizes: Seq<PhysicalSize>,
    gap: int,
    edge: int,
    top: int,
)
    requires
        a_sizes.len() > 0,
        b_sizes.len() > 0,
        is_pile(a, a_sizes, gap, edge, top),
        is_pile(b, b_sizes, gap, edge, a.last().y + pixels(a_sizes.last().height) + gap),
    ensures
        is_pile(a + b, a_sizes + b_sizes, gap, edge, top),
{
    let positions = a + b;
    let sizes = a_sizes + b_sizes;
    assert forall|k: int| 0 <= k < sizes.len() implies (#[trigger] positions[k]).x + pixels(
        sizes[k].width,
    ) == edge by {
        if k < a.len() {
            assert(positions[k] == a[k]);
        } else {
            assert(positions[k] == b[k - a.len()]);
        }
    }
    assert forall|k: int| 0 <= k < sizes.len() - 1 implies #[trigger] positions[k + 1].y
        == positions[k].y + pixels(sizes[k].height) + gap by {
        if k + 1 < a.len() {
            assert(a[k + 1].y == a[k].y + pixels(a_sizes[k].height) + gap);
        } else if k + 1 == a.len() {
            assert(positions[k] == a.last());
            assert(positions[k + 1] == b[0]);
        } else {
            let j = k - a.len();
            assert(b[j + 1].y == b[j].y + pixels(b_sizes[j].height) + gap);
        }
    }
}

/// Windows that fit below each other between the top and the bottom margin are
/// packed into one column: in order from the top margin down, a gap apart, with
/// their right edges at the right margin.
pub proof fn law_one_column_if_it_holds_all(
    work_area: WindowRect,
    groups: Seq<Seq<PhysicalSize>>,
    gap: int,
    left_margin: int,
    right_margin: int,
    top_margin: int,
)
    requires
        leaves_room(work_area, gap, left_margin, right_margin, top_margin),
        groups.len() > 0,
        forall|g: int|
            0 <= g < groups.len() ==> (#[trigger] groups[g]).len() > 0 && are_within(
                groups[g],
                work_area.width - right_margin - left_margin,
            ),
        piled_height(window_sizes(groups, 0, groups.len() as int), gap) <= work_area.height
            - left_margin - top_margin,
    ensures
        reset_positions(
            work_area,
            groups,
            gap,
            left_margin,
            right_margin,
            top_margin,
        ) matches Ok(positions) && is_pile(
            positions,
            window_sizes(groups, 0, groups.len() as int),
            gap,
            work_area.x + work_area.width - right_margin,
            work_area.y + top_margin,
        ),
    decreases groups.len(),
{
    let n = groups.len() as int;
    let last = groups.last();
    let edge = work_area.x + work_area.width - right_margin;
    let top = work_area.y + top_margin;
    assert(groups[n - 1] == last);
    if n == 1 {
        assert(groups =~= seq![last]);
        assert(window_sizes(groups, 0, 0) == Seq::<PhysicalSize>::empty());
        assert(window_sizes(groups, 0, 1) =~= last);
        law_first_group_is_upper_right(
            work_area,
            last,
            gap,
            left_margin,
            right_margin,
            top_margin,
        );
    } else {
        let fewer = groups.drop_last();
        let sizes = window_sizes(fewer, 0, n - 1);
        lemma_same_sizes(fewer, groups, n - 1);
        assert(window_sizes(groups, 0, n) == sizes + last);
        assert forall|g: int| 0 <= g < fewer.len() implies (#[trigger] fewer[g]).len() > 0
            && are_within(fewer[g], work_area.width - right_margin - left_margin) by {
            assert(fewer[g] == groups[g]);
        }
        assert(fewer[0].len() > 0);
        lemma_sizes_begin(fewer, n - 1);
        lemma_piles_join(sizes, last, gap);
        lemma_piled_height(last, gap);
        lemma_group_offset(last, gap, 0, last.len() as int);
        law_one_column_if_it_holds_all(
            work_area,
            fewer,
            gap,
            left_margin,
            right_margin,
            top_margin,
        );
        let placed = reset_positions(
            work_area,
            fewer,
            gap,
            left_margin,
            right_margin,
            top_margin,
        )->Ok_0;
        lemma_pile_ends(placed, sizes, gap, edge, top);
        let area = reset_area(work_area, gap, left_margin, right_margin, top_margin);
        lemma_area(work_area, gap, left_margin, right_margin, top_margin);
        lemma_last_column(area, fewer, 0, area.right);
        let (s, r) = last_column(area, fewer, 0, area.right);
        law_next_group_goes_below_or_to_the_left(
            work_area,
            fewer,
            last,
            gap,
            left_margin,
            right_margin,
            top_margin,
            r - column_width(fewer, s, n - 1),
        );
        assert(fewer.push(last) =~= groups);
        let positions = reset_positions(
            work_area,
            groups,
            gap,
            left_margin,
            right_margin,
            top_margin,
        )->Ok_0;
        let added = positions.skip(placed.len() as int);
        lemma_pile_height_positive(sizes, gap);
        lemma_pile_grows(placed, sizes, added, last, gap, edge, top);
        assert(positions =~= placed + added);
    }
}

proof fn lemma_pile_height_positive(sizes: Seq<PhysicalSize>, gap: int)
    requires
        0 <= gap,
    ensures
        0 <= piled_height(sizes, gap),
    decreases sizes.len(),
{
    if sizes.len() > 1 {
        lemma_pile_height_positive(sizes.drop_last(), gap);
    }
}

proof fn lemma_same_sizes(a: Seq<Seq<PhysicalSize>>, b: Seq<Seq<PhysicalSize>>, n: int)
    requires
        0 <= n <= a.len(),
        n <= b.len(),
        forall|k: int| 0 <= k < n ==> #[trigger] a[k] == b[k],
    ensures
        window_sizes(a, 0, n) == window_sizes(b, 0, n),
    decreases n,
{
    if n > 0 {
        lemma_same_sizes(a, b, n - 1);
        assert(a[n - 1] == b[n - 1]);
    }
}

proof fn lemma_sizes_begin(groups: Seq<Seq<PhysicalSize>>, n: int)
    requires
        1 <= n <= groups.len(),
        groups[0].len() > 0,
    ensures
        window_sizes(groups, 0, n).len() > 0,
    decreases n,
{
    if n > 1 {
        lemma_sizes_begin(groups, n - 1);
    } else {
        assert(window_sizes(groups, 0, 0) == Seq::<PhysicalSize>::empty());
    }
}

/// A margin or gap below zero counts as none.
pub proof fn law_negative_margins_count_as_none(
    work_area: WindowRect,
    groups: Seq<Seq<PhysicalSize>>,
    gap: int,
    left_margin: int,
    right_margin: int,
    top_margin: int,
)
    ensures
        gap < 0 ==> reset_positions(
            work_area,
            groups,
            gap,
            left_margin,
            right_margin,
            top_margin,
        ) == reset_positions(work_area, groups, 0, left_margin, right_margin, top_margin),
        left_margin < 0 ==> reset_positions(
            work_area,
            groups,
            gap,
            left_margin,
            right_margin,
            top_margin,
        ) == reset_positions(work_area, groups, gap, 0, right_margin, top_margin),
        right_margin < 0 ==> reset_positions(
            work_area,
            groups,
            gap,
            left_margin,
            right_margin,
            top_margin,
        ) == reset_positions(work_area, groups, gap, left_margin, 0, top_margin),
        top_margin < 0 ==> reset_positions(
            work_area,
            groups,
            gap,
            left_margin,
            right_margin,
            top_margin,
        ) == reset_positions(work_area, groups, gap, left_margin, right_margin, 0),
{
}

/// A margin that is as large as the work area counts as one pixel less, and
/// margins that leave no column of pixels between them leave no room at all.
pub proof fn law_margins_are_bounded_by_the_work_area(
    work_area: WindowRect,
    groups: Seq<Seq<PhysicalSize>>,
    gap: int,
    left_margin: int,
    right_margin: int,
    top_margin: int,
)
    requires
        work_area.width > 0,
        work_area.height > 0,
    ensures
        left_margin >= work_area.width ==> reset_positions(
            work_area,
            groups,
            gap,
            left_margin,
            right_margin,
            top_margin,
        ) == reset_positions(
            work_area,
            groups,
            gap,
            work_area.width - 1,
            right_margin,
            top_margin,
        ),
        right_margin >= work_area.width ==> reset_positions(
            work_area,
            groups,
            gap,
            left_margin,
            right_margin,
            top_margin,
        ) == reset_positions(work_area, groups, gap, left_margin, work_area.width - 1, top_margin),
        top_margin >= work_area.height ==> reset_positions(
            work_area,
            groups,
            gap,
            left_margin,
            right_margin,
            top_margin,
        ) == reset_positions(
            work_area,
            groups,
            gap,
            left_margin,
            right_margin,
            work_area.height - 1,
        ),
        groups.len() > 0 && 0 <= left_margin < work_area.width && 0 <= right_margin
            < work_area.width ==> (left_margin + right_margin >= work_area.width <==>
            reset_positions(
            work_area,
            groups,
            gap,
            left_margin,
            right_margin,
            top_margin,
        ) == Err::<Seq<PhysicalPosition>, ResetError>(ResetError::AreaTooSmall)),
{
    let area = reset_area(work_area, gap, left_margin, right_margin, top_margin);
    if groups.len() > 0 && area.left < area.right && area.top < area.bottom {
        lemma_not_too_small(area, groups, 0, area.right);
    }
}

proof fn lemma_not_too_small(
    area: ResetArea,
    groups: Seq<Seq<PhysicalSize>>,
    start: int,
    right: int,
)
    requires
        0 <= start,
    ensures
        packed(area, groups, start, right) != Err::<Seq<PhysicalPosition>, ResetError>(
            ResetError::AreaTooSmall,
        ),
    decreases groups.len() - start,
{
    if start < groups.len() {
        lemma_column_not_too_small(area, groups, start, start, area.top);
        if column_end(area, groups, start, start, area.top) is Ok {
            let end = column_end(area, groups, start, start, area.top)->Ok_0;
            lemma_column_end(area, groups, start, start, area.top);
            let windows = column_windows(area, groups, start, end);
            lemma_positions_not_too_small(windows, right);
            lemma_not_too_small(
                area,
                groups,
                end,
                right - column_width(groups, start, end) - area.gap,
            );
        }
    }
}

proof fn lemma_column_not_too_small(
    area: ResetArea,
    groups: Seq<Seq<PhysicalSize>>,
    start: int,
    i: int,
    y: int,
)
    ensures
        column_end(area, groups, start, i, y) != Err::<int, ResetError>(ResetError::AreaTooSmall),
    decreases groups.len() - i,
{
    if i < groups.len() {
        lemma_column_not_too_small(
            area,
            groups,
            start,
            i + 1,
            y + group_height(groups[i], area.gap) + area.gap,
        );
    }
}

proof fn lemma_positions_not_too_small(windows: Seq<(int, int)>, right: int)
    ensures
        column_positions(windows, right) != Err::<Seq<PhysicalPosition>, ResetError>(
            ResetError::AreaTooSmall,
        ),
    decreases windows.len(),
{
    if windows.len() > 0 {
        lemma_positions_not_too_small(windows.drop_last(), right);
    }
}

} // verus!
