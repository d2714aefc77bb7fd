use vstd::prelude::*;

verus! {

/// How many rows the first `n` items of a list take, the items being `heights` rows tall.
pub open spec fn rows_before(heights: Seq<u16>, n: int) -> int
    decreases n,
{
    if n <= 0 {
        0
    } else {
        rows_before(heights, n - 1) + heights[n - 1]
    }
}

/// The item that a click `offset` rows below the top of a list hits: the first whose
/// last row lies at or below the click.
pub open spec fn hit_item(heights: Seq<u16>, offset: int, i: int) -> bool {
    &&& 0 <= i < heights.len()
    &&& offset < rows_before(heights, i + 1)
    &&& forall|k: int| 0 <= k < i ==> #[trigger] rows_before(heights, k + 1) <= offset
}

/// The index of the item of a list that a click on row `row` hits, when the list starts
/// on row `start_row` and its items are `heights` rows tall, in order; nothing when the
/// click is below the last item. The click must not be above the list, and the rows of
/// the items up to the one hit must add up to no more than `u16::MAX`.
pub fn clicked_item(start_row: u16, row: u16, heights: &Vec<u16>) -> (r: Option<usize>)
    requires
        start_row <= row,
        forall|i: int|
            0 <= i < heights@.len() && #[trigger] rows_before(heights@, i + 1) > u16::MAX ==> exists|k: int|
                0 <= k < i && #[trigger] rows_before(heights@, k + 1) > row - start_row,
    ensures
        match r {
            Some(i) => hit_item(heights@, row - start_row, i as int),
            None => forall|k: int| 0 <= k < heights@.len() ==> #[trigger] rows_before(heights@, k + 1) <= row - start_row,
        },
{
    let row_offset = row - start_row;
    let mut total: u16 = 0;
    let mut i: usize = 0;
    while i < heights.len()
        invariant
            start_row <= row,
            row_offset == row - start_row,
            i <= heights@.len(),
            total == rows_before(heights@, i as int),
            forall|k: int| 0 <= k < i ==> #[trigger] rows_before(heights@, k + 1) <= row_offset,
            forall|j: int|
                0 <= j < heights@.len() && #[trigger] rows_before(heights@, j + 1) > u16::MAX ==> exists|k: int|
                    0 <= k < j && #[trigger] rows_before(heights@, k + 1) > row - start_row,
        decreases heights@.len() - i,
    {
        let h = heights[i];
        proof {
            if rows_before(heights@, i as int + 1) > u16::MAX {
                let k = choose|k: int| 0 <= k < i && #[trigger] rows_before(heights@, k + 1) > row - start_row;
                assert(rows_before(heights@, k + 1) <= row_offset);
            }
        }
        if row_offset < total + h {
            return Some(i);
        }
        total = total + h;
        i = i + 1;
    }
    None
}

/// Fewer items take no more rows.
proof fn lemma_rows_before_mono(heights: Seq<u16>, a: int, b: int)
    requires
        0 <= a <= b,
    ensures
        rows_before(heights, a) <= rows_before(heights, b),
    decreases b - a,
{
    if a < b {
        lemma_rows_before_mono(heights, a, b - 1);
    }
}

/// A click on any row of item `i` hits item `i`.
pub proof fn lemma_click_on_item_rows(heights: Seq<u16>, offset: int, i: int)
    requires
        0 <= i < heights.len(),
        rows_before(heights, i) <= offset < rows_before(heights, i + 1),
    ensures
        hit_item(heights, offset, i),
{
    assert forall|k: int| 0 <= k < i implies #[trigger] rows_before(heights, k + 1) <= offset by {
        lemma_rows_before_mono(heights, k + 1, i);
    }
}

} // verus!
