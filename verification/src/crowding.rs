//! Objects on a grid, crowded or not: an object with fewer than four
//! objects among its eight neighbours can be removed. How many objects can
//! be removed at once, and how many if removing goes on until none can be.
use vstd::prelude::*;

verus! {

/// The byte `@`, an object.
pub const OBJECT: u8 = 64;

/// The byte `.`, an empty cell.
pub const EMPTY: u8 = 46;

/// The grid has an object at row `r`, column `c`, within `cols` columns.
pub open spec fn object_at(grid: Seq<Seq<u8>>, cols: int, r: int, c: int) -> bool {
    0 <= r < grid.len() && 0 <= c < cols && c < grid[r].len() && grid[r][c] == OBJECT
}

/// One for an object, zero for none.
pub open spec fn one_if(grid: Seq<Seq<u8>>, cols: int, r: int, c: int) -> int {
    if object_at(grid, cols, r, c) {
        1
    } else {
        0
    }
}

/// The number of objects among the eight neighbours of a cell.
pub open spec fn neighbours(grid: Seq<Seq<u8>>, cols: int, r: int, c: int) -> int {
    one_if(grid, cols, r - 1, c - 1) + one_if(grid, cols, r - 1, c) + one_if(grid, cols, r - 1, c + 1)
        + one_if(grid, cols, r, c - 1) + one_if(grid, cols, r, c + 1) + one_if(grid, cols, r + 1, c - 1)
        + one_if(grid, cols, r + 1, c) + one_if(grid, cols, r + 1, c + 1)
}

/// The cell holds an object that can be removed.
pub open spec fn removable(grid: Seq<Seq<u8>>, cols: int, r: int, c: int) -> bool {
    object_at(grid, cols, r, c) && neighbours(grid, cols, r, c) < 4
}

/// Removable objects among the first `c` cells of row `r`.
pub open spec fn removable_in_row(grid: Seq<Seq<u8>>, cols: int, r: int, c: int) -> nat
    decreases c,
{
    if c <= 0 {
        0
    } else {
        removable_in_row(grid, cols, r, c - 1) + (if removable(grid, cols, r, c - 1) { 1nat } else { 0nat })
    }
}

/// Removable objects in the first `r` rows.
pub open spec fn removable_in_rows(grid: Seq<Seq<u8>>, cols: int, r: int) -> nat
    decreases r,
{
    if r <= 0 {
        0
    } else {
        removable_in_rows(grid, cols, r - 1) + removable_in_row(grid, cols, r - 1, cols)
    }
}

/// Objects among the first `c` cells of row `r`.
pub open spec fn objects_in_row(row: Seq<u8>, c: int) -> nat
    decreases c,
{
    if c <= 0 {
        0
    } else {
        objects_in_row(row, c - 1) + (if row[c - 1] == OBJECT { 1nat } else { 0nat })
    }
}

/// Objects in the first `r` rows, within `cols` columns.
pub open spec fn objects_in_rows(grid: Seq<Seq<u8>>, cols: int, r: int) -> nat
    decreases r,
{
    if r <= 0 {
        0
    } else {
        objects_in_rows(grid, cols, r - 1) + objects_in_row(grid[r - 1], cols)
    }
}

/// Every row has at least `cols` cells.
pub open spec fn wide_enough(grid: Seq<Seq<u8>>, cols: int) -> bool {
    forall|r: int| 0 <= r < grid.len() ==> (#[trigger] grid[r]).len() >= cols
}

/// Every object of `a` is an object of `b`.
pub open spec fn within_grid(a: Seq<Seq<u8>>, b: Seq<Seq<u8>>, cols: int) -> bool {
    forall|r: int, c: int| #[trigger] object_at(a, cols, r, c) ==> object_at(b, cols, r, c)
}

/// No object of the grid can be removed.
pub open spec fn settled(grid: Seq<Seq<u8>>, cols: int) -> bool {
    forall|r: int, c: int| object_at(grid, cols, r, c) ==> #[trigger] neighbours(grid, cols, r, c) >= 4
}

/// `core` is what is left of `all` when removing has gone on until no
/// object can be removed: it is settled, and every settled part of `all`
/// lies within it.
pub open spec fn is_core(all: Seq<Seq<u8>>, core: Seq<Seq<u8>>, cols: int) -> bool {
    &&& core.len() == all.len()
    &&& wide_enough(core, cols)
    &&& within_grid(core, all, cols)
    &&& settled(core, cols)
    &&& forall|part: Seq<Seq<u8>>|
        within_grid(part, all, cols) && #[trigger] settled(part, cols) ==> within_grid(part, core, cols)
}

/// The rows of a grid, as sequences.
pub open spec fn view_of(grid: Seq<Vec<u8>>) -> Seq<Seq<u8>> {
    Seq::new(grid.len(), |i: int| grid[i]@)
}

/// The bytes of each line.
pub open spec fn lines_view(lines: Seq<String>) -> Seq<Seq<u8>> {
    Seq::new(lines.len(), |i: int| vstd::utf8::encode_utf8(lines[i]@))
}

/// The number of columns: the length of the first line, zero without lines.
pub open spec fn columns(lines: Seq<String>) -> int {
    if lines.len() == 0 {
        0
    } else {
        lines_view(lines)[0].len() as int
    }
}

/// A part of a grid has at most as many neighbours anywhere.
pub proof fn lemma_neighbours_mono(a: Seq<Seq<u8>>, b: Seq<Seq<u8>>, cols: int, r: int, c: int)
    requires
        within_grid(a, b, cols),
    ensures
        neighbours(a, cols, r, c) <= neighbours(b, cols, r, c),
{
    assert(object_at(a, cols, r - 1, c - 1) ==> object_at(b, cols, r - 1, c - 1));
    assert(object_at(a, cols, r - 1, c) ==> object_at(b, cols, r - 1, c));
    assert(object_at(a, cols, r - 1, c + 1) ==> object_at(b, cols, r - 1, c + 1));
    assert(object_at(a, cols, r, c - 1) ==> object_at(b, cols, r, c - 1));
    assert(object_at(a, cols, r, c + 1) ==> object_at(b, cols, r, c + 1));
    assert(object_at(a, cols, r + 1, c - 1) ==> object_at(b, cols, r + 1, c - 1));
    assert(object_at(a, cols, r + 1, c) ==> object_at(b, cols, r + 1, c));
    assert(object_at(a, cols, r + 1, c + 1) ==> object_at(b, cols, r + 1, c + 1));
}

/// Emptying a cell changes the objects of its row by that cell alone.
pub proof fn lemma_row_cleared(row: Seq<u8>, c: int, k: int)
    requires
        0 <= c < row.len(),
        0 <= k <= row.len(),
    ensures
        objects_in_row(row.update(c, EMPTY), k) + (if c < k && row[c] == OBJECT { 1int } else { 0int })
            == objects_in_row(row, k),
    decreases k,
{
    if k > 0 {
        lemma_row_cleared(row, c, k - 1);
    }
}

/// Emptying a cell changes the objects of the grid by that cell alone.
pub proof fn lemma_grid_cleared(grid: Seq<Seq<u8>>, cols: int, r: int, c: int, k: int)
    requires
        0 <= r < grid.len(),
        0 <= c < cols <= grid[r].len(),
        0 <= k <= grid.len(),
    ensures
        objects_in_rows(grid.update(r, grid[r].update(c, EMPTY)), cols, k) + (if r < k && grid[r][c]
            == OBJECT {
            1int
        } else {
            0int
        }) == objects_in_rows(grid, cols, k),
    decreases k,
{
    if k > 0 {
        lemma_grid_cleared(grid, cols, r, c, k - 1);
        if k - 1 == r {
            lemma_row_cleared(grid[r], c, cols);
        }
    }
}

/// Copies the lines into a grid of bytes.
pub fn grid_of(inputs: &[String]) -> (grid: Vec<Vec<u8>>)
    ensures
        view_of(grid@) == lines_view(inputs@),
        grid.len() == inputs.len(),
{
    let mut grid: Vec<Vec<u8>> = Vec::new();
    let mut i: usize = 0;
    while i < inputs.len()
        invariant
            i <= inputs.len(),
            grid.len() == i,
            forall|j: int| 0 <= j < i ==> (#[trigger] grid[j])@ == vstd::utf8::encode_utf8(inputs[j]@),
        decreases inputs.len() - i,
    {
        let row: Vec<u8> = vstd::slice::slice_to_vec(inputs[i].as_str().as_bytes());
        grid.push(row);
        i = i + 1;
    }
    proof {
        assert(view_of(grid@) =~= lines_view(inputs@));
    }
    grid
}

/// Tells whether the cell `dr` rows and `dc` columns from `(row, col)`
/// holds an object; `dr` and `dc` stand for -1, 0 and 1 as 0, 1 and 2.
pub fn has_object(grid: &Vec<Vec<u8>>, row: usize, col: usize, dr: usize, dc: usize, rows: usize, cols: usize) -> (b:
    bool)
    requires
        rows == grid.len(),
        wide_enough(view_of(grid@), cols as int),
        row < rows,
        col < cols,
        dr <= 2,
        dc <= 2,
    ensures
        b == object_at(view_of(grid@), cols as int, row + dr - 1, col + dc - 1),
{
    if (dr == 0 && row == 0) || (dc == 0 && col == 0) {
        return false;
    }
    let r: usize = if dr == 0 {
        row - 1
    } else {
        row + (dr - 1)
    };
    let c: usize = if dc == 0 {
        col - 1
    } else {
        col + (dc - 1)
    };
    if r >= rows || c >= cols {
        return false;
    }
    proof {
        assert(view_of(grid@)[r as int].len() >= cols);
    }
    grid[r][c] == OBJECT
}

/// Counts the objects among the eight neighbours of a cell, but no
/// further than four.
pub fn count_neighbors(grid: &Vec<Vec<u8>>, row: usize, col: usize, rows: usize, cols: usize) -> (count:
    usize)
    requires
        rows == grid.len(),
        wide_enough(view_of(grid@), cols as int),
        row < rows,
        col < cols,
    ensures
        count == (if neighbours(view_of(grid@), cols as int, row as int, col as int) < 4 {
            neighbours(view_of(grid@), cols as int, row as int, col as int)
        } else {
            4
        }),
{
    let mut count: usize = 0;
    if has_object(grid, row, col, 0, 0, rows, cols) {
        count = count + 1;
    }
    if has_object(grid, row, col, 0, 1, rows, cols) {
        count = count + 1;
    }
    if has_object(grid, row, col, 0, 2, rows, cols) {
        count = count + 1;
    }
    if has_object(grid, row, col, 1, 0, rows, cols) {
        count = count + 1;
    }
    if has_object(grid, row, col, 1, 2, rows, cols) {
        count = count + 1;
    }
    if has_object(grid, row, col, 2, 0, rows, cols) {
        count = count + 1;
    }
    if has_object(grid, row, col, 2, 1, rows, cols) {
        count = count + 1;
    }
    if has_object(grid, row, col, 2, 2, rows, cols) {
        count = count + 1;
    }
    if count >= 4 {
        4
    } else {
        count
    }
}

/// Tells whether a cell has fewer than `threshold` objects among its
/// neighbours, counted no further than four.
pub fn has_fewer_than_n_neighbors(
    grid: &Vec<Vec<u8>>,
    row: usize,
    col: usize,
    rows: usize,
    cols: usize,
    threshold: usize,
) -> (fewer: bool)
    requires
        rows == grid.len(),
        wide_enough(view_of(grid@), cols as int),
        row < rows,
        col < cols,
    ensures
        threshold <= 4 ==> fewer == (neighbours(view_of(grid@), cols as int, row as int, col as int) < threshold),
        threshold > 4 ==> fewer,
{
    count_neighbors(grid, row, col, rows, cols) < threshold
}

/// The same test on a grid that is being changed.
pub fn has_fewer_than_n_neighbors_mut(
    grid: &Vec<Vec<u8>>,
    row: usize,
    col: usize,
    rows: usize,
    cols: usize,
    threshold: usize,
) -> (fewer: bool)
    requires
        rows == grid.len(),
        wide_enough(view_of(grid@), cols as int),
        row < rows,
        col < cols,
    ensures
        threshold <= 4 ==> fewer == (neighbours(view_of(grid@), cols as int, row as int, col as int) < threshold),
        threshold > 4 ==> fewer,
{
    count_neighbors(grid, row, col, rows, cols) < threshold
}

/// Lists the removable objects of the grid, row by row.
pub fn removable_cells(grid: &Vec<Vec<u8>>, rows: usize, cols: usize) -> (found: Vec<(usize, usize)>)
    requires
        rows == grid.len(),
        wide_enough(view_of(grid@), cols as int),
    ensures
        found.len() == removable_in_rows(view_of(grid@), cols as int, rows as int),
        forall|i: int|
            0 <= i < found.len() ==> removable(
                view_of(grid@),
                cols as int,
                (#[trigger] found[i]).0 as int,
                found[i].1 as int,
            ),
        forall|i: int, j: int|
            0 <= i < j < found.len() ==> (#[trigger] found[i]).0 < (#[trigger] found[j]).0 || (found[i].0
                == found[j].0 && found[i].1 < found[j].1),
        found.len() == 0 ==> settled(view_of(grid@), cols as int),
{
    let ghost view = view_of(grid@);
    let mut found: Vec<(usize, usize)> = Vec::new();
    let mut row: usize = 0;
    while row < rows
        invariant
            row <= rows,
            rows == grid.len(),
            view == view_of(grid@),
            wide_enough(view, cols as int),
            found.len() == removable_in_rows(view, cols as int, row as int),
            forall|i: int|
                0 <= i < found.len() ==> removable(view, cols as int, (#[trigger] found[i]).0 as int, found[i].1 as int)
                    && found[i].0 < row,
            forall|i: int, j: int|
                0 <= i < j < found.len() ==> (#[trigger] found[i]).0 < (#[trigger] found[j]).0 || (found[i].0
                    == found[j].0 && found[i].1 < found[j].1),
            found.len() == 0 ==> forall|r: int, c: int|
                0 <= r < row && object_at(view, cols as int, r, c) ==> #[trigger] neighbours(view, cols as int, r, c)
                    >= 4,
        decreases rows - row,
    {
        let ghost start = found.len();
        let mut col: usize = 0;
        while col < cols
            invariant
                row < rows,
                col <= cols,
                rows == grid.len(),
                view == view_of(grid@),
                wide_enough(view, cols as int),
                start == removable_in_rows(view, cols as int, row as int),
                found.len() == start + removable_in_row(view, cols as int, row as int, col as int),
                forall|i: int|
                    0 <= i < found.len() ==> removable(
                        view,
                        cols as int,
                        (#[trigger] found[i]).0 as int,
                        found[i].1 as int,
                    ) && (found[i].0 < row || (found[i].0 == row && found[i].1 < col)),
                forall|i: int, j: int|
                    0 <= i < j < found.len() ==> (#[trigger] found[i]).0 < (#[trigger] found[j]).0 || (
                    found[i].0 == found[j].0 && found[i].1 < found[j].1),
                found.len() == 0 ==> forall|r: int, c: int|
                    (0 <= r < row || (r == row && c < col)) && object_at(view, cols as int, r, c)
                        ==> #[trigger] neighbours(view, cols as int, r, c) >= 4,
            decreases cols - col,
        {
            proof {
                assert(view[row as int].len() >= cols);
            }
            if grid[row][col] == OBJECT && has_fewer_than_n_neighbors_mut(grid, row, col, rows, cols, 4) {
                found.push((row, col));
            }
            col = col + 1;
        }
        row = row + 1;
    }
    found
}

/// Counts the objects that have fewer than four objects among their
/// neighbours. The grid is as wide as its first line.
pub fn part1(inputs: &[String]) -> (count: usize)
    requires
        wide_enough(lines_view(inputs@), columns(inputs@)),
    ensures
        count == removable_in_rows(lines_view(inputs@), columns(inputs@), inputs.len() as int),
{
    if inputs.len() == 0 {
        return 0;
    }
    let grid = grid_of(inputs);
    let rows: usize = grid.len();
    proof {
        assert(view_of(grid@)[0] == grid@[0]@);
    }
    let cols: usize = grid[0].len();
    let found = removable_cells(&grid, rows, cols);
    found.len()
}

/// Counts the objects that are removed when, round after round, every
/// object with fewer than four objects among its neighbours is removed,
/// until none can be: all the objects but those of the core.
pub fn part2(inputs: &[String]) -> (total_removed: usize)
    requires
        wide_enough(lines_view(inputs@), columns(inputs@)),
        objects_in_rows(lines_view(inputs@), columns(inputs@), inputs.len() as int) <= usize::MAX,
    ensures
        exists|core: Seq<Seq<u8>>| #[trigger]
            is_core(lines_view(inputs@), core, columns(inputs@)) && total_removed == objects_in_rows(
                lines_view(inputs@),
                columns(inputs@),
                inputs.len() as int,
            ) - objects_in_rows(core, columns(inputs@), inputs.len() as int),
{
    let ghost all = lines_view(inputs@);
    if inputs.len() == 0 {
        proof {
            assert(is_core(all, all, 0));
        }
        return 0;
    }
    let mut grid = grid_of(inputs);
    let rows: usize = grid.len();
    proof {
        assert(view_of(grid@)[0] == grid@[0]@);
    }
    let cols: usize = grid[0].len();
    let mut total_removed: usize = 0;
    let mut going: bool = true;
    while going
        invariant
            rows == grid.len(),
            rows == all.len(),
            cols == columns(inputs@),
            all == lines_view(inputs@),
            wide_enough(all, cols as int),
            wide_enough(view_of(grid@), cols as int),
            within_grid(view_of(grid@), all, cols as int),
            forall|part: Seq<Seq<u8>>|
                within_grid(part, all, cols as int) && #[trigger] settled(part, cols as int) ==> within_grid(
                    part,
                    view_of(grid@),
                    cols as int,
                ),
            total_removed + objects_in_rows(view_of(grid@), cols as int, rows as int) == objects_in_rows(
                all,
                cols as int,
                rows as int,
            ),
            objects_in_rows(all, cols as int, rows as int) <= usize::MAX,
            !going ==> settled(view_of(grid@), cols as int),
        decreases objects_in_rows(view_of(grid@), cols as int, rows as int) + (if going { 1int } else { 0int }),
    {
        let to_remove = removable_cells(&grid, rows, cols);
        if to_remove.len() == 0 {
            going = false;
        } else {
            let ghost round = view_of(grid@);
            let mut k: usize = 0;
            while k < to_remove.len()
                invariant
                    k <= to_remove.len(),
                    rows == grid.len(),
                    rows == all.len(),
                    wide_enough(all, cols as int),
                    wide_enough(round, cols as int),
                    wide_enough(view_of(grid@), cols as int),
                    within_grid(view_of(grid@), round, cols as int),
                    within_grid(view_of(grid@), all, cols as int),
                    forall|i: int|
                        0 <= i < to_remove.len() ==> removable(
                            round,
                            cols as int,
                            (#[trigger] to_remove[i]).0 as int,
                            to_remove[i].1 as int,
                        ),
                    forall|i: int, j: int|
                        0 <= i < j < to_remove.len() ==> (#[trigger] to_remove[i]).0 < (#[trigger] to_remove[j]).0
                            || (to_remove[i].0 == to_remove[j].0 && to_remove[i].1 < to_remove[j].1),
                    forall|i: int|
                        k <= i < to_remove.len() ==> object_at(
                            view_of(grid@),
                            cols as int,
                            (#[trigger] to_remove[i]).0 as int,
                            to_remove[i].1 as int,
                        ),
                    forall|part: Seq<Seq<u8>>|
                        within_grid(part, all, cols as int) && #[trigger] settled(part, cols as int)
                            ==> within_grid(part, view_of(grid@), cols as int),
                    total_removed + k + objects_in_rows(view_of(grid@), cols as int, rows as int)
                        == objects_in_rows(all, cols as int, rows as int),
                    objects_in_rows(all, cols as int, rows as int) <= usize::MAX,
                decreases to_remove.len() - k,
            {
                let (row, col) = to_remove[k];
                let ghost before = view_of(grid@);
                proof {
                    assert(object_at(before, cols as int, to_remove[k as int].0 as int, to_remove[k as int].1 as int));
                }
                let mut line: Vec<u8> = vstd::slice::slice_to_vec(grid[row].as_slice());
                line.set(col, EMPTY);
                grid.set(row, line);
                proof {
                    let after = view_of(grid@);
                    let r = row as int;
                    let c = col as int;
                    assert(after =~= before.update(r, before[r].update(c, EMPTY)));
                    lemma_grid_cleared(before, cols as int, r, c, rows as int);
                    assert forall|a: int, b: int| #[trigger] object_at(after, cols as int, a, b) implies object_at(
                        before,
                        cols as int,
                        a,
                        b,
                    ) && !(a == r && b == c) by {}
                    assert forall|i: int| k + 1 <= i < to_remove.len() implies object_at(
                        after,
                        cols as int,
                        (#[trigger] to_remove[i]).0 as int,
                        to_remove[i].1 as int,
                    ) by {
                        assert(object_at(before, cols as int, to_remove[i].0 as int, to_remove[i].1 as int));
                        assert(to_remove[k as int].0 < to_remove[i].0 || (to_remove[k as int].0 == to_remove[i].0
                            && to_remove[k as int].1 < to_remove[i].1));
                    }
                    assert forall|part: Seq<Seq<u8>>|
                        within_grid(part, all, cols as int) && #[trigger] settled(part, cols as int) implies within_grid(
                        part,
                        after,
                        cols as int,
                    ) by {
                        assert(within_grid(part, before, cols as int));
                        if object_at(part, cols as int, r, c) {
                            lemma_neighbours_mono(part, before, cols as int, r, c);
                            lemma_neighbours_mono(before, round, cols as int, r, c);
                            assert(removable(round, cols as int, to_remove[k as int].0 as int, to_remove[k as int].1 as int));
                        }
                        assert forall|a: int, b: int| #[trigger] object_at(part, cols as int, a, b) implies object_at(
                            after,
                            cols as int,
                            a,
                            b,
                        ) by {
                            assert(object_at(before, cols as int, a, b));
                        }
                    }
                }
                k = k + 1;
            }
            total_removed = total_removed + to_remove.len();
        }
    }
    proof {
        assert(is_core(all, view_of(grid@), cols as int));
    }
    total_removed
}

/// Rows with objects at the same places hold the same number of objects.
pub proof fn lemma_same_objects(a: Seq<Seq<u8>>, b: Seq<Seq<u8>>, cols: int, r: int, c: int)
    requires
        0 <= r < a.len(),
        a.len() == b.len(),
        0 <= c <= cols,
        cols <= a[r].len(),
        cols <= b[r].len(),
        forall|i: int, j: int| #[trigger] object_at(a, cols, i, j) == object_at(b, cols, i, j),
    ensures
        objects_in_row(a[r], c) == objects_in_row(b[r], c),
    decreases c,
{
    if c > 0 {
        lemma_same_objects(a, b, cols, r, c - 1);
        assert(object_at(a, cols, r, c - 1) == object_at(b, cols, r, c - 1));
    }
}

/// What is left when removing has gone on until no object can be removed
/// is the same whatever the order: two cores of a grid hold their objects
/// at the same places, and as many.
pub proof fn lemma_core_unique(all: Seq<Seq<u8>>, a: Seq<Seq<u8>>, b: Seq<Seq<u8>>, cols: int, k: int)
    requires
        is_core(all, a, cols),
        is_core(all, b, cols),
        0 <= cols,
        0 <= k <= all.len(),
    ensures
        forall|i: int, j: int| #[trigger] object_at(a, cols, i, j) == object_at(b, cols, i, j),
        objects_in_rows(a, cols, k) == objects_in_rows(b, cols, k),
    decreases k,
{
    assert(within_grid(a, b, cols));
    assert(within_grid(b, a, cols));
    assert forall|i: int, j: int| #[trigger] object_at(a, cols, i, j) == object_at(b, cols, i, j) by {
        if object_at(a, cols, i, j) {
            assert(object_at(b, cols, i, j));
        }
        if object_at(b, cols, i, j) {
            assert(object_at(a, cols, i, j));
        }
    }
    if k > 0 {
        lemma_core_unique(all, a, b, cols, k - 1);
        assert(a[k - 1].len() >= cols);
        assert(b[k - 1].len() >= cols);
        lemma_same_objects(a, b, cols, k - 1, cols);
    }
}

/// The objects of the first rows are among those of more rows.
pub proof fn lemma_objects_mono(grid: Seq<Seq<u8>>, cols: int, a: int, b: int)
    requires
        a <= b,
    ensures
        objects_in_rows(grid, cols, a) <= objects_in_rows(grid, cols, b),
    decreases b - a,
{
    if a < b {
        lemma_objects_mono(grid, cols, a, b - 1);
    }
}

/// Tells whether the grid can be worked: no line is shorter than the
/// first, and the number of objects fits the machine word.
pub fn grid_fits(inputs: &[String]) -> (ok: bool)
    ensures
        ok == (wide_enough(lines_view(inputs@), columns(inputs@)) && objects_in_rows(
            lines_view(inputs@),
            columns(inputs@),
            inputs.len() as int,
        ) <= usize::MAX),
{
    let ghost all = lines_view(inputs@);
    if inputs.len() == 0 {
        return true;
    }
    let cols: usize = inputs[0].as_str().as_bytes().len();
    let mut total: usize = 0;
    let mut r: usize = 0;
    while r < inputs.len()
        invariant
            r <= inputs.len(),
            all == lines_view(inputs@),
            cols == columns(inputs@),
            forall|q: int| 0 <= q < r ==> (#[trigger] all[q]).len() >= cols,
            total == objects_in_rows(all, cols as int, r as int),
        decreases inputs.len() - r,
    {
        let s = inputs[r].as_str().as_bytes();
        proof {
            assert(s@ == all[r as int]);
        }
        if s.len() < cols {
            return false;
        }
        let mut count: usize = 0;
        let mut c: usize = 0;
        while c < cols
            invariant
                c <= cols <= s.len(),
                count <= c,
                count == objects_in_row(s@, c as int),
            decreases cols - c,
        {
            if s[c] == OBJECT {
                count = count + 1;
            }
            c = c + 1;
        }
        if total > usize::MAX - count {
            proof {
                lemma_objects_mono(all, cols as int, r as int + 1, inputs.len() as int);
            }
            return false;
        }
        total = total + count;
        r = r + 1;
    }
    true
}

} // verus!
