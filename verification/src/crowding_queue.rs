//! Objects on a grid once more: the removable objects counted on rows of
//! any length, and the removal carried through with a queue, each object
//! waiting in it from the moment it has fewer than four neighbours.
use std::collections::VecDeque;
use vstd::prelude::*;
use crate::crowding::{
    columns, grid_of, has_object, is_core, lemma_grid_cleared, lemma_neighbours_mono, lines_view,
    neighbours, object_at, objects_in_rows, one_if, removable, removable_in_row, settled, view_of,
    wide_enough, within_grid, EMPTY, OBJECT,
};

verus! {

/// A width beyond every row.
pub open spec fn wide() -> int {
    usize::MAX as int
}

/// Removable objects in the first `r` rows, each row as long as it is.
pub open spec fn removable_ragged(grid: Seq<Seq<u8>>, r: int) -> nat
    decreases r,
{
    if r <= 0 {
        0
    } else {
        removable_ragged(grid, r - 1) + removable_in_row(grid, wide(), r - 1, grid[r - 1].len() as int)
    }
}

/// Tells whether the cell `dr` rows and `dc` columns from `(row, col)`
/// holds an object, on rows of any length; `dr` and `dc` stand for -1, 0
/// and 1 as 0, 1 and 2.
pub fn object_near(grid: &Vec<Vec<u8>>, row: usize, col: usize, dr: usize, dc: usize) -> (b: bool)
    requires
        row < grid.len(),
        col < grid[row as int].len(),
        dr <= 2,
        dc <= 2,
    ensures
        b == object_at(view_of(grid@), wide(), row + dr - 1, col + dc - 1),
{
    if (dr == 0 && row == 0) || (dc == 0 && col == 0) {
        return false;
    }
    let r: usize = if dr == 0 {
        row - 1
    } else {
        row + (dr - 1)
    };
    let c: usize = if dc == 0 {
        col - 1
    } else {
        col + (dc - 1)
    };
    if r >= grid.len() {
        return false;
    }
    proof {
        assert(view_of(grid@)[r as int] == grid@[r as int]@);
    }
    if c >= grid[r].len() {
        return false;
    }
    grid[r][c] == OBJECT
}

/// Tells whether a cell has fewer than `n` objects among its neighbours;
/// for `n` zero, whether it has none.
pub fn has_fewer_than_n_neighbors(grid: &Vec<Vec<u8>>, r: usize, c: usize, n: usize) -> (fewer: bool)
    requires
        r < grid.len(),
        c < grid[r as int].len(),
    ensures
        n >= 1 ==> fewer == (neighbours(view_of(grid@), wide(), r as int, c as int) < n),
        n == 0 ==> fewer == (neighbours(view_of(grid@), wide(), r as int, c as int) == 0),
{
    let mut count: usize = 0;
    if object_near(grid, r, c, 0, 0) {
        count = count + 1;
    }
    if object_near(grid, r, c, 0, 1) {
        count = count + 1;
    }
    if object_near(grid, r, c, 0, 2) {
        count = count + 1;
    }
    if object_near(grid, r, c, 1, 0) {
        count = count + 1;
    }
    if object_near(grid, r, c, 1, 2) {
        count = count + 1;
    }
    if object_near(grid, r, c, 2, 0) {
        count = count + 1;
    }
    if object_near(grid, r, c, 2, 1) {
        count = count + 1;
    }
    if object_near(grid, r, c, 2, 2) {
        count = count + 1;
    }
    if n == 0 {
        count == 0
    } else {
        count < n
    }
}

/// Counts the objects that have fewer than four objects among their
/// neighbours, each row as long as it is.
pub fn part1(inputs: &[String]) -> (total_count: usize)
    requires
        removable_ragged(lines_view(inputs@), inputs.len() as int) <= usize::MAX,
    ensures
        total_count == removable_ragged(lines_view(inputs@), inputs.len() as int),
{
    if inputs.len() == 0 {
        return 0;
    }
    let grid = grid_of(inputs);
    let ghost view = view_of(grid@);
    let rows: usize = grid.len();
    let mut total_count: usize = 0;
    let mut r: usize = 0;
    while r < rows
        invariant
            r <= rows,
            rows == grid.len(),
            view == view_of(grid@),
            view == lines_view(inputs@),
            rows == inputs.len(),
            total_count == removable_ragged(view, r as int),
            removable_ragged(view, rows as int) <= usize::MAX,
        decreases rows - r,
    {
        proof {
            lemma_ragged_mono(view, r as int + 1, rows as int);
            assert(view[r as int] == grid@[r as int]@);
        }
        let width: usize = grid[r].len();
        let ghost start = total_count;
        let mut c: usize = 0;
        while c < width
            invariant
                c <= width,
                r < rows,
                rows == grid.len(),
                view == view_of(grid@),
                width == grid[r as int].len(),
                width == view[r as int].len(),
                total_count == start + removable_in_row(view, wide(), r as int, c as int),
                start + removable_in_row(view, wide(), r as int, width as int) <= usize::MAX,
            decreases width - c,
        {
            proof {
                lemma_row_mono(view, wide(), r as int, c as int + 1, width as int);
            }
            if grid[r][c] == OBJECT {
                if has_fewer_than_n_neighbors(&grid, r, c, 4) {
                    total_count = total_count + 1;
                }
            }
            c = c + 1;
        }
        r = r + 1;
    }
    total_count
}

/// Counts over rows only grow.
pub proof fn lemma_ragged_mono(grid: Seq<Seq<u8>>, a: int, b: int)
    requires
        a <= b,
    ensures
        removable_ragged(grid, a) <= removable_ragged(grid, b),
    decreases b - a,
{
    if a < b {
        lemma_ragged_mono(grid, a, b - 1);
    }
}

/// Counts within a row only grow.
pub proof fn lemma_row_mono(grid: Seq<Seq<u8>>, cols: int, r: int, a: int, b: int)
    requires
        a <= b,
    ensures
        removable_in_row(grid, cols, r, a) <= removable_in_row(grid, cols, r, b),
    decreases b - a,
{
    if a < b {
        lemma_row_mono(grid, cols, r, a, b - 1);
    }
}


/// Cell `(a, b)` is one of the eight neighbours of cell `(r, c)`.
pub open spec fn adjacent(a: int, b: int, r: int, c: int) -> bool {
    r - 1 <= a <= r + 1 && c - 1 <= b <= c + 1 && !(a == r && b == c)
}

/// Cell `(a, b)` is a neighbour of `(r, c)` that comes before the
/// neighbour `dr` rows and `dc` columns from the upper left one.
pub open spec fn passed(a: int, b: int, r: int, c: int, dr: int, dc: int) -> bool {
    adjacent(a, b, r, c) && (a - r + 1 < dr || (a - r + 1 == dr && b - c + 1 < dc))
}

/// The tables have one entry per cell.
pub open spec fn shaped(counts: Seq<Vec<u8>>, queued: Seq<Vec<bool>>, rows: int, cols: int) -> bool {
    &&& counts.len() == rows
    &&& queued.len() == rows
    &&& forall|r: int| 0 <= r < rows ==> (#[trigger] counts[r]).len() == cols
    &&& forall|r: int| 0 <= r < rows ==> (#[trigger] queued[r]).len() == cols
}

/// The count of each object is the number of objects among its
/// neighbours in `before`, less one for each neighbour of `(r, c)` passed.
pub open spec fn counts_mid(
    before: Seq<Seq<u8>>,
    now: Seq<Seq<u8>>,
    counts: Seq<Vec<u8>>,
    cols: int,
    r: int,
    c: int,
    dr: int,
    dc: int,
) -> bool {
    forall|a: int, b: int|
        object_at(now, cols, a, b) ==> counts[a][b] == #[trigger] neighbours(before, cols, a, b) - (if passed(
            a,
            b,
            r,
            c,
            dr,
            dc,
        ) {
            1int
        } else {
            0int
        })
}

/// The count of each object is the number of objects among its neighbours.
pub open spec fn counts_ok(view: Seq<Seq<u8>>, counts: Seq<Vec<u8>>, cols: int) -> bool {
    forall|a: int, b: int| object_at(view, cols, a, b) ==> counts[a][b] == #[trigger] neighbours(view, cols, a, b)
}

/// Every object with a count below four has been queued.
pub open spec fn low_queued(view: Seq<Seq<u8>>, counts: Seq<Vec<u8>>, queued: Seq<Vec<bool>>, cols: int) -> bool {
    forall|a: int, b: int| #[trigger] object_at(view, cols, a, b) && counts[a][b] < 4 ==> queued[a][b]
}

/// Every object that has been queued waits in the queue.
pub open spec fn queued_wait(
    view: Seq<Seq<u8>>,
    queued: Seq<Vec<bool>>,
    queue: Seq<(usize, usize)>,
    cols: int,
) -> bool {
    forall|a: int, b: int|
        #[trigger] object_at(view, cols, a, b) && queued[a][b] ==> queue.contains((a as usize, b as usize))
}

/// The cell lies in the grid, is marked as queued, and holds an object
/// with a count below four or has been emptied.
pub open spec fn waiting(
    view: Seq<Seq<u8>>,
    counts: Seq<Vec<u8>>,
    queued: Seq<Vec<bool>>,
    rows: int,
    cols: int,
    a: int,
    b: int,
) -> bool {
    &&& 0 <= a < rows
    &&& 0 <= b < cols
    &&& queued[a][b]
    &&& view[a][b] == EMPTY || (view[a][b] == OBJECT && counts[a][b] < 4)
}

/// Every cell in the queue is waiting.
pub open spec fn queue_ok(
    view: Seq<Seq<u8>>,
    counts: Seq<Vec<u8>>,
    queued: Seq<Vec<bool>>,
    queue: Seq<(usize, usize)>,
    rows: int,
    cols: int,
) -> bool {
    forall|i: int|
        0 <= i < queue.len() ==> waiting(
            view,
            counts,
            queued,
            rows,
            cols,
            (#[trigger] queue[i]).0 as int,
            queue[i].1 as int,
        )
}

/// Cells among the first `c` of a row that have not been queued.
pub open spec fn fresh_in_row(row: Seq<bool>, c: int) -> nat
    decreases c,
{
    if c <= 0 {
        0
    } else {
        fresh_in_row(row, c - 1) + (if row[c - 1] { 0nat } else { 1nat })
    }
}

/// Cells in the first `r` rows that have not been queued.
pub open spec fn fresh_in_rows(queued: Seq<Vec<bool>>, cols: int, r: int) -> nat
    decreases r,
{
    if r <= 0 {
        0
    } else {
        fresh_in_rows(queued, cols, r - 1) + fresh_in_row(queued[r - 1]@, cols)
    }
}

/// Marking a cell changes the fresh cells of its row by that cell alone.
pub proof fn lemma_row_marked(row: Seq<bool>, c: int, k: int)
    requires
        0 <= c < row.len(),
        0 <= k <= row.len(),
    ensures
        fresh_in_row(row.update(c, true), k) + (if c < k && !row[c] { 1int } else { 0int }) == fresh_in_row(row, k),
    decreases k,
{
    if k > 0 {
        lemma_row_marked(row, c, k - 1);
    }
}

/// Marking a cell changes the fresh cells of the grid by that cell alone.
pub proof fn lemma_grid_marked(before: Seq<Vec<bool>>, after: Seq<Vec<bool>>, cols: int, r: int, c: int, k: int)
    requires
        0 <= r < before.len(),
        0 <= c < cols <= before[r].len(),
        0 <= k <= before.len(),
        after.len() == before.len(),
        forall|i: int| 0 <= i < before.len() && i != r ==> after[i]@ == before[i]@,
        after[r]@ == before[r]@.update(c, true),
    ensures
        fresh_in_rows(after, cols, k) + (if r < k && !before[r][c] { 1int } else { 0int }) == fresh_in_rows(
            before,
            cols,
            k,
        ),
    decreases k,
{
    if k > 0 {
        lemma_grid_marked(before, after, cols, r, c, k - 1);
        if k - 1 == r {
            lemma_row_marked(before[r]@, c, cols);
        }
    }
}

/// Emptying a cell takes one from the neighbours of each of its
/// neighbours and leaves the other cells as they are.
pub proof fn lemma_neighbours_cleared(before: Seq<Seq<u8>>, cols: int, r: int, c: int, a: int, b: int)
    requires
        object_at(before, cols, r, c),
    ensures
        neighbours(before.update(r, before[r].update(c, EMPTY)), cols, a, b) == neighbours(before, cols, a, b) - (
        if adjacent(a, b, r, c) {
            1int
        } else {
            0int
        }),
{
    let now = before.update(r, before[r].update(c, EMPTY));
    assert forall|x: int, y: int| #[trigger] one_if(now, cols, x, y) == one_if(before, cols, x, y) - (if x == r && y
        == c {
        1int
    } else {
        0int
    }) by {}
    assert(one_if(now, cols, a - 1, b - 1) == one_if(before, cols, a - 1, b - 1) - (if a - 1 == r && b - 1 == c { 1int } else { 0int }));
    assert(one_if(now, cols, a - 1, b) == one_if(before, cols, a - 1, b) - (if a - 1 == r && b == c { 1int } else { 0int }));
    assert(one_if(now, cols, a - 1, b + 1) == one_if(before, cols, a - 1, b + 1) - (if a - 1 == r && b + 1 == c { 1int } else { 0int }));
    assert(one_if(now, cols, a, b - 1) == one_if(before, cols, a, b - 1) - (if a == r && b - 1 == c { 1int } else { 0int }));
    assert(one_if(now, cols, a, b + 1) == one_if(before, cols, a, b + 1) - (if a == r && b + 1 == c { 1int } else { 0int }));
    assert(one_if(now, cols, a + 1, b - 1) == one_if(before, cols, a + 1, b - 1) - (if a + 1 == r && b - 1 == c { 1int } else { 0int }));
    assert(one_if(now, cols, a + 1, b) == one_if(before, cols, a + 1, b) - (if a + 1 == r && b == c { 1int } else { 0int }));
    assert(one_if(now, cols, a + 1, b + 1) == one_if(before, cols, a + 1, b + 1) - (if a + 1 == r && b + 1 == c { 1int } else { 0int }));
}

/// Writes one byte of a grid.
pub fn set_byte(grid: &mut Vec<Vec<u8>>, r: usize, c: usize, v: u8)
    requires
        r < old(grid).len(),
        c < old(grid)[r as int].len(),
    ensures
        final(grid).len() == old(grid).len(),
        forall|i: int| 0 <= i < old(grid).len() && i != r ==> final(grid)[i]@ == old(grid)[i]@,
        final(grid)[r as int]@ == old(grid)[r as int]@.update(c as int, v),
{
    let mut line: Vec<u8> = vstd::slice::slice_to_vec(grid[r].as_slice());
    line.set(c, v);
    grid.set(r, line);
}

/// Marks one cell of a grid of flags.
pub fn set_flag(grid: &mut Vec<Vec<bool>>, r: usize, c: usize)
    requires
        r < old(grid).len(),
        c < old(grid)[r as int].len(),
    ensures
        final(grid).len() == old(grid).len(),
        forall|i: int| 0 <= i < old(grid).len() && i != r ==> final(grid)[i]@ == old(grid)[i]@,
        final(grid)[r as int]@ == old(grid)[r as int]@.update(c as int, true),
{
    let mut line: Vec<bool> = vstd::slice::slice_to_vec(grid[r].as_slice());
    line.set(c, true);
    grid.set(r, line);
}

/// A table with `rows` rows of `cols` entries `v`.
pub fn table_of(rows: usize, cols: usize, v: u8) -> (t: Vec<Vec<u8>>)
    ensures
        t.len() == rows,
        forall|r: int| 0 <= r < rows ==> (#[trigger] t[r]).len() == cols,
        forall|r: int, c: int| 0 <= r < rows && 0 <= c < cols ==> (#[trigger] t[r][c]) == v,
{
    let mut t: Vec<Vec<u8>> = Vec::new();
    let mut r: usize = 0;
    while r < rows
        invariant
            r <= rows,
            t.len() == r,
            forall|q: int| 0 <= q < r ==> (#[trigger] t[q]).len() == cols,
            forall|q: int, c: int| 0 <= q < r && 0 <= c < cols ==> (#[trigger] t[q][c]) == v,
        decreases rows - r,
    {
        let mut line: Vec<u8> = Vec::new();
        let mut c: usize = 0;
        while c < cols
            invariant
                c <= cols,
                line.len() == c,
                forall|q: int| 0 <= q < c ==> line[q] == v,
            decreases cols - c,
        {
            line.push(v);
            c = c + 1;
        }
        t.push(line);
        r = r + 1;
    }
    t
}

/// A table of flags with `rows` rows of `cols` entries, none set.
pub fn flags_of(rows: usize, cols: usize) -> (t: Vec<Vec<bool>>)
    ensures
        t.len() == rows,
        forall|r: int| 0 <= r < rows ==> (#[trigger] t[r]).len() == cols,
        forall|r: int, c: int| 0 <= r < rows && 0 <= c < cols ==> !(#[trigger] t[r][c]),
{
    let mut t: Vec<Vec<bool>> = Vec::new();
    let mut r: usize = 0;
    while r < rows
        invariant
            r <= rows,
            t.len() == r,
            forall|q: int| 0 <= q < r ==> (#[trigger] t[q]).len() == cols,
            forall|q: int, c: int| 0 <= q < r && 0 <= c < cols ==> !(#[trigger] t[q][c]),
        decreases rows - r,
    {
        let mut line: Vec<bool> = Vec::new();
        let mut c: usize = 0;
        while c < cols
            invariant
                c <= cols,
                line.len() == c,
                forall|q: int| 0 <= q < c ==> !line[q],
            decreases cols - c,
        {
            line.push(false);
            c = c + 1;
        }
        t.push(line);
        r = r + 1;
    }
    t
}

/// Counts all the objects among the eight neighbours of a cell.
pub fn count_around(grid: &Vec<Vec<u8>>, row: usize, col: usize, rows: usize, cols: usize) -> (count: u8)
    requires
        rows == grid.len(),
        wide_enough(view_of(grid@), cols as int),
        row < rows,
        col < cols,
    ensures
        count == neighbours(view_of(grid@), cols as int, row as int, col as int),
        count <= 8,
{
    let mut count: u8 = 0;
    if has_object(grid, row, col, 0, 0, rows, cols) {
        count = count + 1;
    }
    if has_object(grid, row, col, 0, 1, rows, cols) {
        count = count + 1;
    }
    if has_object(grid, row, col, 0, 2, rows, cols) {
        count = count + 1;
    }
    if has_object(grid, row, col, 1, 0, rows, cols) {
        count = count + 1;
    }
    if has_object(grid, row, col, 1, 2, rows, cols) {
        count = count + 1;
    }
    if has_object(grid, row, col, 2, 0, rows, cols) {
        count = count + 1;
    }
    if has_object(grid, row, col, 2, 1, rows, cols) {
        count = count + 1;
    }
    if has_object(grid, row, col, 2, 2, rows, cols) {
        count = count + 1;
    }
    count
}


/// A cell with an object among its neighbours has at least one.
pub proof fn lemma_has_neighbour(view: Seq<Seq<u8>>, cols: int, a: int, b: int, r: int, c: int)
    requires
        adjacent(a, b, r, c),
        object_at(view, cols, r, c),
    ensures
        neighbours(view, cols, a, b) >= 1,
{
    if r == a - 1 && c == b - 1 {
        assert(one_if(view, cols, a - 1, b - 1) == 1);
    } else if r == a - 1 && c == b {
        assert(one_if(view, cols, a - 1, b) == 1);
    } else if r == a - 1 && c == b + 1 {
        assert(one_if(view, cols, a - 1, b + 1) == 1);
    } else if r == a && c == b - 1 {
        assert(one_if(view, cols, a, b - 1) == 1);
    } else if r == a && c == b + 1 {
        assert(one_if(view, cols, a, b + 1) == 1);
    } else if r == a + 1 && c == b - 1 {
        assert(one_if(view, cols, a + 1, b - 1) == 1);
    } else if r == a + 1 && c == b {
        assert(one_if(view, cols, a + 1, b) == 1);
    } else {
        assert(one_if(view, cols, a + 1, b + 1) == 1);
    }
}

/// The neighbour `dr` rows and `dc` columns from the upper left one of
/// cell `(r, c)`, where it lies in the grid.
pub fn neighbour_cell(r: usize, c: usize, dr: usize, dc: usize, rows: usize, cols: usize) -> (cell: Option<
    (usize, usize),
>)
    requires
        r < rows,
        c < cols,
        dr <= 2,
        dc <= 2,
    ensures
        match cell {
            Some((a, b)) => a == r + dr - 1 && b == c + dc - 1 && a < rows && b < cols && !(dr == 1 && dc == 1),
            None => (dr == 1 && dc == 1) || r + dr - 1 < 0 || r + dr - 1 >= rows || c + dc - 1 < 0 || c + dc - 1
                >= cols,
        },
{
    if (dr == 1 && dc == 1) || (dr == 0 && r == 0) || (dc == 0 && c == 0) {
        return None;
    }
    let a: usize = if dr == 0 {
        r - 1
    } else {
        r + (dr - 1)
    };
    let b: usize = if dc == 0 {
        c - 1
    } else {
        c + (dc - 1)
    };
    if a >= rows || b >= cols {
        return None;
    }
    Some((a, b))
}

/// After the object at `(r, c)` has been removed: takes one from the
/// count of each object among its neighbours, and queues those that come
/// below four and have not been queued.
pub fn lower_neighbours(
    grid: &Vec<Vec<u8>>,
    counts: &mut Vec<Vec<u8>>,
    queued: &mut Vec<Vec<bool>>,
    queue: &mut VecDeque<(usize, usize)>,
    r: usize,
    c: usize,
    rows: usize,
    cols: usize,
    Ghost(before): Ghost<Seq<Seq<u8>>>,
)
    requires
        rows == grid.len(),
        r < rows,
        c < cols,
        before.len() == rows,
        wide_enough(before, cols as int),
        object_at(before, cols as int, r as int, c as int),
        view_of(grid@) == before.update(r as int, before[r as int].update(c as int, EMPTY)),
        shaped(old(counts)@, old(queued)@, rows as int, cols as int),
        counts_ok(before, old(counts)@, cols as int),
        low_queued(view_of(grid@), old(counts)@, old(queued)@, cols as int),
        queued_wait(view_of(grid@), old(queued)@, old(queue)@, cols as int),
        queue_ok(view_of(grid@), old(counts)@, old(queued)@, old(queue)@, rows as int, cols as int),
    ensures
        shaped(final(counts)@, final(queued)@, rows as int, cols as int),
        counts_ok(view_of(grid@), final(counts)@, cols as int),
        low_queued(view_of(grid@), final(counts)@, final(queued)@, cols as int),
        queued_wait(view_of(grid@), final(queued)@, final(queue)@, cols as int),
        queue_ok(view_of(grid@), final(counts)@, final(queued)@, final(queue)@, rows as int, cols as int),
        2 * fresh_in_rows(final(queued)@, cols as int, rows as int) + final(queue)@.len() <= 2 * fresh_in_rows(
            old(queued)@,
            cols as int,
            rows as int,
        ) + old(queue)@.len(),
{
    let ghost now = view_of(grid@);
    let ghost bound = 2 * fresh_in_rows(queued@, cols as int, rows as int) + queue@.len();
    proof {
        assert(wide_enough(now, cols as int)) by {
            assert forall|q: int| 0 <= q < now.len() implies (#[trigger] now[q]).len() >= cols by {
                assert(before[q].len() >= cols);
            }
        }
        assert(counts_mid(before, now, counts@, cols as int, r as int, c as int, 0, 0)) by {
            assert forall|a: int, b: int| object_at(now, cols as int, a, b) implies counts@[a][b]
                == #[trigger] neighbours(before, cols as int, a, b) - (if passed(a, b, r as int, c as int, 0, 0) {
                1int
            } else {
                0int
            }) by {
                assert(object_at(before, cols as int, a, b));
            }
        }
    }
    let mut dr: usize = 0;
    while dr < 3
        invariant
            dr <= 3,
            rows == grid.len(),
            r < rows,
            c < cols,
            before.len() == rows,
            wide_enough(before, cols as int),
            wide_enough(now, cols as int),
            object_at(before, cols as int, r as int, c as int),
            now == view_of(grid@),
            now == before.update(r as int, before[r as int].update(c as int, EMPTY)),
            shaped(counts@, queued@, rows as int, cols as int),
            counts_mid(before, now, counts@, cols as int, r as int, c as int, dr as int, 0),
            low_queued(now, counts@, queued@, cols as int),
            queued_wait(now, queued@, queue@, cols as int),
            queue_ok(now, counts@, queued@, queue@, rows as int, cols as int),
            2 * fresh_in_rows(queued@, cols as int, rows as int) + queue@.len() <= bound,
        decreases 3 - dr,
    {
        let mut dc: usize = 0;
        while dc < 3
            invariant
                dr < 3,
                dc <= 3,
                rows == grid.len(),
                r < rows,
                c < cols,
                before.len() == rows,
                wide_enough(before, cols as int),
                wide_enough(now, cols as int),
                object_at(before, cols as int, r as int, c as int),
                now == view_of(grid@),
                now == before.update(r as int, before[r as int].update(c as int, EMPTY)),
                shaped(counts@, queued@, rows as int, cols as int),
                counts_mid(before, now, counts@, cols as int, r as int, c as int, dr as int, dc as int),
                low_queued(now, counts@, queued@, cols as int),
                queued_wait(now, queued@, queue@, cols as int),
                queue_ok(now, counts@, queued@, queue@, rows as int, cols as int),
                2 * fresh_in_rows(queued@, cols as int, rows as int) + queue@.len() <= bound,
            decreases 3 - dc,
        {
            let ghost counts0 = counts@;
            let ghost queued0 = queued@;
            let ghost queue0 = queue@;
            let cell = neighbour_cell(r, c, dr, dc, rows, cols);
            let mut touched: bool = false;
            if let Some((nr, nc)) = cell {
                proof {
                    assert(now[nr as int] == grid@[nr as int]@);
                    assert(now[nr as int].len() >= cols);
                }
                if grid[nr][nc] == OBJECT {
                    touched = true;
                    proof {
                        assert(object_at(now, cols as int, nr as int, nc as int));
                        assert(object_at(before, cols as int, nr as int, nc as int));
                        lemma_has_neighbour(before, cols as int, nr as int, nc as int, r as int, c as int);
                        assert(counts0[nr as int][nc as int] == neighbours(before, cols as int, nr as int, nc as int));
                        assert(counts0[nr as int].len() == cols);
                    }
                    let cur: u8 = counts[nr][nc];
                    let lower: u8 = cur - 1;
                    set_byte(counts, nr, nc, lower);
                    let fresh: bool = !queued[nr][nc];
                    if lower < 4 && fresh {
                        queue.push_back((nr, nc));
                        set_flag(queued, nr, nc);
                        proof {
                            lemma_grid_marked(queued0, queued@, cols as int, nr as int, nc as int, rows as int);
                        }
                    }
                    proof {
                        let a0 = nr as int;
                        let b0 = nc as int;
                        assert(shaped(counts@, queued@, rows as int, cols as int)) by {
                            assert forall|q: int| 0 <= q < rows implies (#[trigger] counts@[q]).len() == cols by {
                                assert(counts0[q].len() == cols);
                            }
                            assert forall|q: int| 0 <= q < rows implies (#[trigger] queued@[q]).len() == cols by {
                                assert(queued0[q].len() == cols);
                            }
                        }
                        assert forall|a: int, b: int| object_at(now, cols as int, a, b) implies counts@[a][b]
                            == #[trigger] neighbours(before, cols as int, a, b) - (if passed(
                            a,
                            b,
                            r as int,
                            c as int,
                            dr as int,
                            dc as int + 1,
                        ) {
                            1int
                        } else {
                            0int
                        }) by {
                            assert(counts0[a][b] == neighbours(before, cols as int, a, b) - (if passed(
                                a,
                                b,
                                r as int,
                                c as int,
                                dr as int,
                                dc as int,
                            ) {
                                1int
                            } else {
                                0int
                            }));
                            if a == a0 && b == b0 {
                            } else if a == a0 {
                                assert(counts@[a][b] == counts0[a][b]);
                            } else {
                                assert(counts@[a]@ == counts0[a]@);
                            }
                        }
                        assert forall|a: int, b: int| #[trigger]
                            object_at(now, cols as int, a, b) && counts@[a][b] < 4 implies queued@[a][b] by {
                            if a == a0 && b == b0 {
                            } else {
                                if a == a0 {
                                    assert(counts@[a][b] == counts0[a][b]);
                                } else {
                                    assert(counts@[a]@ == counts0[a]@);
                                }
                                assert(queued0[a][b]);
                                if a != a0 {
                                    assert(queued@[a]@ == queued0[a]@ || queued@ == queued0);
                                }
                            }
                        }
                        assert forall|a: int, b: int| #[trigger]
                            object_at(now, cols as int, a, b) && queued@[a][b] implies queue@.contains(
                            (a as usize, b as usize),
                        ) by {
                            if a == a0 && b == b0 && !queued0[a][b] {
                                assert(queue@[queue0.len() as int] == (nr, nc));
                            } else {
                                if queued@ != queued0 {
                                    if a != a0 {
                                        assert(queued@[a]@ == queued0[a]@);
                                    }
                                }
                                assert(queued0[a][b]);
                                assert(queue0.contains((a as usize, b as usize)));
                                let w = choose|w: int| 0 <= w < queue0.len() && queue0[w] == (a as usize, b as usize);
                                assert(queue@[w] == (a as usize, b as usize));
                            }
                        }
                        assert forall|i: int| 0 <= i < queue@.len() implies waiting(
                            now,
                            counts@,
                            queued@,
                            rows as int,
                            cols as int,
                            (#[trigger] queue@[i]).0 as int,
                            queue@[i].1 as int,
                        ) by {
                            if i < queue0.len() {
                                let qa = queue0[i].0 as int;
                                let qb = queue0[i].1 as int;
                                assert(queue@[i] == queue0[i]);
                                assert(waiting(now, counts0, queued0, rows as int, cols as int, qa, qb));
                                if queued@ != queued0 && qa != a0 {
                                    assert(queued@[qa]@ == queued0[qa]@);
                                }
                                if qa == a0 && qb == b0 {
                                } else if qa == a0 {
                                    assert(counts@[qa][qb] == counts0[qa][qb]);
                                } else {
                                    assert(counts@[qa]@ == counts0[qa]@);
                                }
                            }
                        }
                    }
                }
            }
            proof {
                if !touched {
                    assert forall|a: int, b: int| object_at(now, cols as int, a, b) implies counts@[a][b]
                        == #[trigger] neighbours(before, cols as int, a, b) - (if passed(
                        a,
                        b,
                        r as int,
                        c as int,
                        dr as int,
                        dc as int + 1,
                    ) {
                        1int
                    } else {
                        0int
                    }) by {
                        assert(counts0[a][b] == neighbours(before, cols as int, a, b) - (if passed(
                            a,
                            b,
                            r as int,
                            c as int,
                            dr as int,
                            dc as int,
                        ) {
                            1int
                        } else {
                            0int
                        }));
                    }
                }
            }
            dc = dc + 1;
        }
        proof {
            assert forall|a: int, b: int| object_at(now, cols as int, a, b) implies counts@[a][b]
                == #[trigger] neighbours(before, cols as int, a, b) - (if passed(
                a,
                b,
                r as int,
                c as int,
                dr as int + 1,
                0,
            ) {
                1int
            } else {
                0int
            }) by {
                assert(counts@[a][b] == neighbours(before, cols as int, a, b) - (if passed(
                    a,
                    b,
                    r as int,
                    c as int,
                    dr as int,
                    3,
                ) {
                    1int
                } else {
                    0int
                }));
            }
        }
        dr = dr + 1;
    }
    proof {
        assert forall|a: int, b: int| object_at(now, cols as int, a, b) implies counts@[a][b] == #[trigger] neighbours(
            now,
            cols as int,
            a,
            b,
        ) by {
            lemma_neighbours_cleared(before, cols as int, r as int, c as int, a, b);
            assert(counts@[a][b] == neighbours(before, cols as int, a, b) - (if passed(a, b, r as int, c as int, 3, 0) {
                1int
            } else {
                0int
            }));
        }
    }
}


/// Cell `(a, b)` comes before cell `(r, c)`, row by row.
pub open spec fn before_cell(a: int, b: int, r: int, c: int) -> bool {
    a < r || (a == r && b < c)
}

/// The objects before cell `(r, c)` have their counts, and those with a
/// count below four have been queued; no other cell has been.
pub open spec fn started(
    view: Seq<Seq<u8>>,
    counts: Seq<Vec<u8>>,
    queued: Seq<Vec<bool>>,
    cols: int,
    r: int,
    c: int,
) -> bool {
    &&& forall|a: int, b: int|
        object_at(view, cols, a, b) && before_cell(a, b, r, c) ==> counts[a][b] == #[trigger] neighbours(
            view,
            cols,
            a,
            b,
        )
    &&& forall|a: int, b: int|
        #[trigger] object_at(view, cols, a, b) && before_cell(a, b, r, c) && counts[a][b] < 4 ==> queued[a][b]
}

/// The count of each object, the objects with a count below four marked
/// and queued, row by row.
pub fn start_tables(grid: &Vec<Vec<u8>>, rows: usize, cols: usize) -> (tables: (
    Vec<Vec<u8>>,
    Vec<Vec<bool>>,
    VecDeque<(usize, usize)>,
))
    requires
        rows == grid.len(),
        wide_enough(view_of(grid@), cols as int),
    ensures
        shaped(tables.0@, tables.1@, rows as int, cols as int),
        counts_ok(view_of(grid@), tables.0@, cols as int),
        low_queued(view_of(grid@), tables.0@, tables.1@, cols as int),
        queued_wait(view_of(grid@), tables.1@, tables.2@, cols as int),
        queue_ok(view_of(grid@), tables.0@, tables.1@, tables.2@, rows as int, cols as int),
{
    let ghost view = view_of(grid@);
    let mut counts: Vec<Vec<u8>> = table_of(rows, cols, 0);
    let mut queued: Vec<Vec<bool>> = flags_of(rows, cols);
    let mut queue: VecDeque<(usize, usize)> = VecDeque::new();
    let mut r: usize = 0;
    while r < rows
        invariant
            r <= rows,
            rows == grid.len(),
            view == view_of(grid@),
            wide_enough(view, cols as int),
            shaped(counts@, queued@, rows as int, cols as int),
            started(view, counts@, queued@, cols as int, r as int, 0),
            forall|a: int, b: int|
                0 <= a < rows && 0 <= b < cols && #[trigger] queued@[a][b] ==> queue@.contains(
                    (a as usize, b as usize),
                ) && before_cell(a, b, r as int, 0),
            queue_ok(view, counts@, queued@, queue@, rows as int, cols as int),
        decreases rows - r,
    {
        let mut c: usize = 0;
        while c < cols
            invariant
                r < rows,
                c <= cols,
                rows == grid.len(),
                view == view_of(grid@),
                wide_enough(view, cols as int),
                shaped(counts@, queued@, rows as int, cols as int),
                started(view, counts@, queued@, cols as int, r as int, c as int),
                forall|a: int, b: int|
                    0 <= a < rows && 0 <= b < cols && #[trigger] queued@[a][b] ==> queue@.contains(
                        (a as usize, b as usize),
                    ) && before_cell(a, b, r as int, c as int),
                queue_ok(view, counts@, queued@, queue@, rows as int, cols as int),
            decreases cols - c,
        {
            let ghost counts0 = counts@;
            let ghost queued0 = queued@;
            let ghost queue0 = queue@;
            proof {
                assert(view[r as int] == grid@[r as int]@);
                assert(view[r as int].len() >= cols);
            }
            if grid[r][c] == OBJECT {
                let count: u8 = count_around(grid, r, c, rows, cols);
                proof {
                    assert(counts0[r as int].len() == cols);
                    assert(queued0[r as int].len() == cols);
                }
                set_byte(&mut counts, r, c, count);
                if count < 4 {
                    queue.push_back((r, c));
                    set_flag(&mut queued, r, c);
                }
                proof {
                    let r0 = r as int;
                    let c0 = c as int;
                    assert(shaped(counts@, queued@, rows as int, cols as int)) by {
                        assert forall|q: int| 0 <= q < rows implies (#[trigger] counts@[q]).len() == cols by {
                            assert(counts0[q].len() == cols);
                        }
                        assert forall|q: int| 0 <= q < rows implies (#[trigger] queued@[q]).len() == cols by {
                            assert(queued0[q].len() == cols);
                        }
                    }
                    assert forall|a: int, b: int| 0 <= a < rows && 0 <= b < cols && !(a == r0 && b == c0) implies
                        counts@[a][b] == counts0[a][b] && (queued0[a][b] ==> queued@[a][b]) && (queued@[a][b]
                        ==> queued0[a][b]) by {
                        if a != r0 {
                            assert(counts@[a]@ == counts0[a]@);
                            if count < 4 {
                                assert(queued@[a]@ == queued0[a]@);
                            }
                        }
                    }
                    assert forall|a: int, b: int|
                        object_at(view, cols as int, a, b) && before_cell(a, b, r0, c0 + 1) implies counts@[a][b]
                        == #[trigger] neighbours(view, cols as int, a, b) by {
                        if !(a == r0 && b == c0) {
                            assert(before_cell(a, b, r0, c0));
                        }
                    }
                    assert forall|a: int, b: int| #[trigger]
                        object_at(view, cols as int, a, b) && before_cell(a, b, r0, c0 + 1) && counts@[a][b]
                            < 4 implies queued@[a][b] by {
                        if !(a == r0 && b == c0) {
                            assert(before_cell(a, b, r0, c0));
                        }
                    }
                    assert forall|a: int, b: int| 0 <= a < rows && 0 <= b < cols && #[trigger] queued@[a][b] implies
                        queue@.contains((a as usize, b as usize)) && before_cell(a, b, r0, c0 + 1) by {
                        if a == r0 && b == c0 && count < 4 {
                            assert(queue@[queue0.len() as int] == (r, c));
                        } else {
                            assert(queued0[a][b]);
                            assert(queue0.contains((a as usize, b as usize)));
                            let w = choose|w: int| 0 <= w < queue0.len() && queue0[w] == (a as usize, b as usize);
                            assert(queue@[w] == (a as usize, b as usize));
                        }
                    }
                    assert forall|i: int| 0 <= i < queue@.len() implies waiting(
                        view,
                        counts@,
                        queued@,
                        rows as int,
                        cols as int,
                        (#[trigger] queue@[i]).0 as int,
                        queue@[i].1 as int,
                    ) by {
                        if i < queue0.len() {
                            let qa = queue0[i].0 as int;
                            let qb = queue0[i].1 as int;
                            assert(queue@[i] == queue0[i]);
                            assert(waiting(view, counts0, queued0, rows as int, cols as int, qa, qb));
                            assert(before_cell(qa, qb, r0, c0));
                        }
                    }
                }
            } else {
                proof {
                    assert forall|a: int, b: int|
                        object_at(view, cols as int, a, b) && before_cell(a, b, r as int, c as int + 1)
                            implies before_cell(a, b, r as int, c as int) by {}
                }
            }
            c = c + 1;
        }
        proof {
            assert forall|a: int, b: int|
                object_at(view, cols as int, a, b) && before_cell(a, b, r as int + 1, 0) implies before_cell(
                a,
                b,
                r as int,
                cols as int,
            ) by {}
        }
        r = r + 1;
    }
    proof {
        assert forall|a: int, b: int| object_at(view, cols as int, a, b) implies before_cell(a, b, rows as int, 0) by {}
    }
    (counts, queued, queue)
}

/// Counts the objects that are removed when objects with fewer than four
/// objects among their neighbours are removed one after the other, each
/// as the queue brings it up, until none is left to remove: all the
/// objects but those of the core.
pub fn part2(inputs: &[String]) -> (removed_count: usize)
    requires
        wide_enough(lines_view(inputs@), columns(inputs@)),
        objects_in_rows(lines_view(inputs@), columns(inputs@), inputs.len() as int) <= usize::MAX,
    ensures
        exists|core: Seq<Seq<u8>>| #[trigger]
            is_core(lines_view(inputs@), core, columns(inputs@)) && removed_count == objects_in_rows(
                lines_view(inputs@),
                columns(inputs@),
                inputs.len() as int,
            ) - objects_in_rows(core, columns(inputs@), inputs.len() as int),
{
    let ghost all = lines_view(inputs@);
    if inputs.len() == 0 {
        proof {
            assert(is_core(all, all, 0));
        }
        return 0;
    }
    let mut grid = grid_of(inputs);
    let rows: usize = grid.len();
    proof {
        assert(view_of(grid@)[0] == grid@[0]@);
    }
    let cols: usize = grid[0].len();
    let (mut counts, mut queued, mut queue) = start_tables(&grid, rows, cols);
    let mut removed_count: usize = 0;
    while queue.len() > 0
        invariant
            rows == grid.len(),
            rows == all.len(),
            cols == columns(inputs@),
            all == lines_view(inputs@),
            wide_enough(all, cols as int),
            wide_enough(view_of(grid@), cols as int),
            within_grid(view_of(grid@), all, cols as int),
            forall|part: Seq<Seq<u8>>|
                within_grid(part, all, cols as int) && #[trigger] settled(part, cols as int) ==> within_grid(
                    part,
                    view_of(grid@),
                    cols as int,
                ),
            removed_count + objects_in_rows(view_of(grid@), cols as int, rows as int) == objects_in_rows(
                all,
                cols as int,
                rows as int,
            ),
            objects_in_rows(all, cols as int, rows as int) <= usize::MAX,
            shaped(counts@, queued@, rows as int, cols as int),
            counts_ok(view_of(grid@), counts@, cols as int),
            low_queued(view_of(grid@), counts@, queued@, cols as int),
            queued_wait(view_of(grid@), queued@, queue@, cols as int),
            queue_ok(view_of(grid@), counts@, queued@, queue@, rows as int, cols as int),
        decreases 2 * fresh_in_rows(queued@, cols as int, rows as int) + queue@.len(),
    {
        let ghost before = view_of(grid@);
        let ghost queue0 = queue@;
        let (r, c) = queue.pop_front().unwrap();
        proof {
            assert(queue0[0] == (r, c));
            assert(waiting(before, counts@, queued@, rows as int, cols as int, r as int, c as int));
            assert(before[r as int] == grid@[r as int]@);
            assert(before[r as int].len() >= cols);
            assert forall|i: int| 0 <= i < queue@.len() implies #[trigger] queue@[i] == queue0[i + 1] by {}
        }
        if grid[r][c] == EMPTY {
            proof {
                assert forall|a: int, b: int| #[trigger]
                    object_at(before, cols as int, a, b) && queued@[a][b] implies queue@.contains(
                    (a as usize, b as usize),
                ) by {
                    assert(queue0.contains((a as usize, b as usize)));
                    let w = choose|w: int| 0 <= w < queue0.len() && queue0[w] == (a as usize, b as usize);
                    assert(w != 0);
                    assert(queue@[w - 1] == (a as usize, b as usize));
                }
                assert forall|i: int| 0 <= i < queue@.len() implies waiting(
                    before,
                    counts@,
                    queued@,
                    rows as int,
                    cols as int,
                    (#[trigger] queue@[i]).0 as int,
                    queue@[i].1 as int,
                ) by {
                    assert(queue@[i] == queue0[i + 1]);
                }
            }
        } else {
            proof {
                lemma_grid_cleared(before, cols as int, r as int, c as int, rows as int);
            }
            set_byte(&mut grid, r, c, EMPTY);
            removed_count = removed_count + 1;
            proof {
                let after = view_of(grid@);
                let r0 = r as int;
                let c0 = c as int;
                assert(after =~= before.update(r0, before[r0].update(c0, EMPTY)));
                lemma_grid_cleared(before, cols as int, r0, c0, rows as int);
                assert(object_at(before, cols as int, r0, c0));
                assert(neighbours(before, cols as int, r0, c0) < 4);
                assert forall|a: int, b: int| #[trigger] object_at(after, cols as int, a, b) implies object_at(
                    before,
                    cols as int,
                    a,
                    b,
                ) && !(a == r0 && b == c0) by {}
                assert forall|q: int| 0 <= q < after.len() implies (#[trigger] after[q]).len() >= cols by {
                    assert(before[q].len() >= cols);
                }
                assert forall|part: Seq<Seq<u8>>|
                    within_grid(part, all, cols as int) && #[trigger] settled(part, cols as int) implies within_grid(
                    part,
                    after,
                    cols as int,
                ) by {
                    assert(within_grid(part, before, cols as int));
                    if object_at(part, cols as int, r0, c0) {
                        lemma_neighbours_mono(part, before, cols as int, r0, c0);
                        assert(neighbours(part, cols as int, r0, c0) >= 4);
                    }
                    assert forall|a: int, b: int| #[trigger] object_at(part, cols as int, a, b) implies object_at(
                        after,
                        cols as int,
                        a,
                        b,
                    ) by {
                        assert(object_at(before, cols as int, a, b));
                    }
                }
                assert forall|a: int, b: int| #[trigger]
                    object_at(after, cols as int, a, b) && queued@[a][b] implies queue@.contains(
                    (a as usize, b as usize),
                ) by {
                    assert(object_at(before, cols as int, a, b));
                    assert(queue0.contains((a as usize, b as usize)));
                    let w = choose|w: int| 0 <= w < queue0.len() && queue0[w] == (a as usize, b as usize);
                    assert(w != 0);
                    assert(queue@[w - 1] == (a as usize, b as usize));
                }
                assert forall|i: int| 0 <= i < queue@.len() implies waiting(
                    after,
                    counts@,
                    queued@,
                    rows as int,
                    cols as int,
                    (#[trigger] queue@[i]).0 as int,
                    queue@[i].1 as int,
                ) by {
                    assert(queue@[i] == queue0[i + 1]);
                    let qa = queue0[i + 1].0 as int;
                    let qb = queue0[i + 1].1 as int;
                    assert(waiting(before, counts@, queued@, rows as int, cols as int, qa, qb));
                    assert(before[qa].len() >= cols);
                }
            }
            lower_neighbours(&grid, &mut counts, &mut queued, &mut queue, r, c, rows, cols, Ghost(before));
        }
    }
    proof {
        let core = view_of(grid@);
        assert forall|a: int, b: int| object_at(core, cols as int, a, b) implies #[trigger] neighbours(
            core,
            cols as int,
            a,
            b,
        ) >= 4 by {
            if counts@[a][b] < 4 {
                assert(queued@[a][b]);
                assert(queue@.contains((a as usize, b as usize)));
            }
        }
        assert(is_core(all, core, cols as int));
    }
    removed_count
}

/// The number of bytes of the first `r` lines.
pub open spec fn bytes_upto(grid: Seq<Seq<u8>>, r: int) -> nat
    decreases r,
{
    if r <= 0 {
        0
    } else {
        bytes_upto(grid, r - 1) + grid[r - 1].len()
    }
}

/// A row has no more removable objects than cells.
pub proof fn lemma_row_bound(grid: Seq<Seq<u8>>, cols: int, r: int, c: int)
    requires
        c >= 0,
    ensures
        removable_in_row(grid, cols, r, c) <= c,
    decreases c,
{
    if c > 0 {
        lemma_row_bound(grid, cols, r, c - 1);
    }
}

/// The lines have no more removable objects than bytes.
pub proof fn lemma_ragged_bound(grid: Seq<Seq<u8>>, r: int)
    ensures
        removable_ragged(grid, r) <= bytes_upto(grid, r),
    decreases r,
{
    if r > 0 {
        lemma_ragged_bound(grid, r - 1);
        lemma_row_bound(grid, wide(), r - 1, grid[r - 1].len() as int);
    }
}

/// The bytes of the first lines are among those of more lines.
pub proof fn lemma_bytes_mono(grid: Seq<Seq<u8>>, a: int, b: int)
    requires
        a <= b,
    ensures
        bytes_upto(grid, a) <= bytes_upto(grid, b),
    decreases b - a,
{
    if a < b {
        lemma_bytes_mono(grid, a, b - 1);
    }
}

/// Tells whether the lines together have no more bytes than fit the
/// machine word; if so, the removable objects can be counted.
pub fn lines_fit(inputs: &[String]) -> (ok: bool)
    ensures
        ok == (bytes_upto(lines_view(inputs@), inputs.len() as int) <= usize::MAX),
        ok ==> removable_ragged(lines_view(inputs@), inputs.len() as int) <= usize::MAX,
{
    let ghost all = lines_view(inputs@);
    let mut total: usize = 0;
    let mut r: usize = 0;
    while r < inputs.len()
        invariant
            r <= inputs.len(),
            all == lines_view(inputs@),
            total == bytes_upto(all, r as int),
        decreases inputs.len() - r,
    {
        let l: usize = inputs[r].as_str().as_bytes().len();
        proof {
            assert(all[r as int].len() == l);
        }
        if total > usize::MAX - l {
            proof {
                lemma_bytes_mono(all, r as int + 1, inputs.len() as int);
            }
            return false;
        }
        total = total + l;
        r = r + 1;
    }
    proof {
        lemma_ragged_bound(all, inputs.len() as int);
    }
    true
}

} // verus!
