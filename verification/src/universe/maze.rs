use super::grid_node::GridNode;
use super::maze_type::MazeType;
use super::orientation::Orientation;
use super::random::random_i32;
use super::random::random_usize;
use super::universe::Universe;
use vstd::prelude::*;

verus! {

/// A rectangle of rows and columns still to be divided, with the direction
/// of the wall that will divide it.
#[derive(Clone, Copy, Debug)]
pub struct Chamber {
    pub row_start: i32,
    pub row_end: i32,
    pub col_start: i32,
    pub col_end: i32,
    pub orientation: Orientation,
}

/// The positions `first, first + 2, ...` that lie below `end`.
pub open spec fn every_second(first: int, end: int) -> Seq<int> {
    Seq::new(
        if end > first {
            ((end - first + 1) / 2) as nat
        } else {
            0
        },
        |k: int| first + 2 * k,
    )
}

/// `pos` is one of `first, first + 2, ...` and lies below `end`.
pub open spec fn is_every_second(first: int, end: int, pos: int) -> bool {
    first <= pos < end && (pos - first) % 2 == 0
}

/// The wall a chamber gets when it is wider than it is tall is vertical,
/// otherwise horizontal: `Horizontal` exactly when `rows > cols`.
pub open spec fn split_direction(rows: int, cols: int) -> Orientation {
    if rows > cols {
        Orientation::Horizontal
    } else {
        Orientation::Vertical
    }
}

impl Chamber {
    /// The chamber has no row or no column left.
    pub open spec fn is_empty(&self) -> bool {
        self.row_end < self.row_start || self.col_end < self.col_start
    }

    /// `row` is one of the rows among which the wall row (horizontal split)
    /// or the gap row (vertical split) is drawn.
    pub open spec fn offers_row(&self, row: int) -> bool {
        if self.orientation == Orientation::Horizontal {
            is_every_second(self.row_start as int, self.row_end + 1, row)
        } else {
            is_every_second(self.row_start - 1, self.row_end + 2, row)
        }
    }

    /// `col` is one of the columns among which the gap column (horizontal
    /// split) or the wall column (vertical split) is drawn.
    pub open spec fn offers_col(&self, col: int) -> bool {
        if self.orientation == Orientation::Horizontal {
            is_every_second(self.col_start - 1, self.col_end + 2, col)
        } else {
            is_every_second(self.col_start as int, self.col_end + 1, col)
        }
    }

    /// The part of the chamber before the wall at `row` or `col`: above a
    /// horizontal wall, left of a vertical one.
    pub open spec fn first_part(&self, row: int, col: int) -> Chamber {
        if self.orientation == Orientation::Horizontal {
            Chamber {
                row_start: self.row_start,
                row_end: (row - 2) as i32,
                col_start: self.col_start,
                col_end: self.col_end,
                orientation: split_direction(
                    row - 2 - self.row_start,
                    self.col_end - self.col_start,
                ),
            }
        } else {
            Chamber {
                row_start: self.row_start,
                row_end: self.row_end,
                col_start: self.col_start,
                col_end: (col - 2) as i32,
                orientation: split_direction(
                    self.row_end - self.row_start,
                    col - 2 - self.col_start,
                ),
            }
        }
    }

    /// The part of the chamber after the wall at `row` or `col`: below a
    /// horizontal wall, right of a vertical one.
    pub open spec fn second_part(&self, row: int, col: int) -> Chamber {
        if self.orientation == Orientation::Horizontal {
            Chamber {
                row_start: (row + 2) as i32,
                row_end: self.row_end,
                col_start: self.col_start,
                col_end: self.col_end,
                orientation: split_direction(
                    self.row_end - (row + 2),
                    self.col_end - self.col_start,
                ),
            }
        } else {
            Chamber {
                row_start: self.row_start,
                row_end: self.row_end,
                col_start: (col + 2) as i32,
                col_end: self.col_end,
                orientation: split_direction(
                    self.row_end - self.row_start,
                    self.col_end - (col + 2),
                ),
            }
        }
    }

    /// How much is left to divide: zero for an empty chamber, otherwise one
    /// more than the sum of its extents.
    pub open spec fn extent(&self) -> int {
        if self.is_empty() {
            0
        } else {
            (self.row_end - self.row_start) + (self.col_end - self.col_start) + 1
        }
    }
}

impl Universe {
    /// The chamber lies in the grid, with room above its last row and right
    /// of its last column for the signed arithmetic of a division.
    pub open spec fn holds(&self, chamber: Chamber) -> bool {
        &&& 0 <= chamber.row_start
        &&& chamber.row_end < self.height
        &&& 0 <= chamber.col_start
        &&& chamber.col_end < self.width
        &&& chamber.row_end + 2 <= i32::MAX
        &&& chamber.col_end + 2 <= i32::MAX
    }

    /// The cells of row `y` in the columns below `k` that lie in `lo..=hi`
    /// and are not the gap, by increasing column.
    pub open spec fn row_wall(&self, y: int, gap: int, lo: int, hi: int, k: int) -> Seq<GridNode>
        decreases k,
    {
        if k <= 0 {
            Seq::empty()
        } else {
            let before = self.row_wall(y, gap, lo, hi, k - 1);
            if k - 1 != gap && lo <= k - 1 <= hi {
                before.push(self.cell(k - 1, y))
            } else {
                before
            }
        }
    }

    /// The cells of column `x` in the rows below `k` that lie in `lo..=hi`
    /// and are not the gap, by increasing row.
    pub open spec fn col_wall(&self, x: int, gap: int, lo: int, hi: int, k: int) -> Seq<GridNode>
        decreases k,
    {
        if k <= 0 {
            Seq::empty()
        } else {
            let before = self.col_wall(x, gap, lo, hi, k - 1);
            if k - 1 != gap && lo <= k - 1 <= hi {
                before.push(self.cell(x, k - 1))
            } else {
                before
            }
        }
    }

    /// The wall that divides `chamber` at `(row, col)`: for a horizontal
    /// split the cells of `row` from one column left of the chamber to one
    /// right of it, but for the gap at `col`; for a vertical split the cells
    /// of `col` from one row above the chamber to one below it, but for the
    /// gap at `row`.  Cells outside the grid are left out.
    pub open spec fn wall(&self, chamber: Chamber, row: int, col: int) -> Seq<GridNode> {
        if chamber.orientation == Orientation::Horizontal {
            self.row_wall(row, col, chamber.col_start - 1, chamber.col_end + 1, self.width as int)
        } else {
            self.col_wall(col, row, chamber.row_start - 1, chamber.row_end + 1, self.height as int)
        }
    }

    /// `cells` begins with the wall of `chamber` at `(row, col)`, which is
    /// one of the walls the chamber offers, and `cut` is a position of
    /// `cells` behind that wall.
    pub open spec fn wall_fits(
        &self,
        chamber: Chamber,
        cells: Seq<GridNode>,
        row: int,
        col: int,
        cut: int,
    ) -> bool {
        &&& !chamber.is_empty()
        &&& self.holds(chamber)
        &&& chamber.offers_row(row)
        &&& chamber.offers_col(col)
        &&& self.wall(chamber, row, col).len() <= cut <= cells.len()
        &&& cells.take(self.wall(chamber, row, col).len() as int) == self.wall(chamber, row, col)
    }

    /// `cells` is a maze that recursive division can build in `chamber`:
    /// nothing for an empty chamber, otherwise a wall of the chamber at one
    /// of the rows and columns it offers, followed by a maze of the part
    /// before the wall and a maze of the part after it.
    pub open spec fn is_division(&self, chamber: Chamber, cells: Seq<GridNode>) -> bool
        decreases chamber.extent(),
    {
        if chamber.is_empty() {
            cells.len() == 0
        } else {
            exists|row: int, col: int, cut: int|
                {
                    &&& #[trigger] self.wall_fits(chamber, cells, row, col, cut)
                    &&& self.is_division(
                        chamber.first_part(row, col),
                        cells.subrange(self.wall(chamber, row, col).len() as int, cut),
                    )
                    &&& self.is_division(chamber.second_part(row, col), cells.skip(cut))
                }
        }
    }

    /// The first `2 * rows` cells of the border: for each row its leftmost
    /// and its rightmost cell.
    pub open spec fn side_walls(&self, rows: int) -> Seq<GridNode> {
        Seq::new(
            (2 * rows) as nat,
            |k: int|
                if k % 2 == 0 {
                    self.cell(0, k / 2)
                } else {
                    self.cell(self.width - 1, k / 2)
                },
        )
    }

    /// For each of the first `cols` columns its topmost and its bottommost cell.
    pub open spec fn end_walls(&self, cols: int) -> Seq<GridNode> {
        Seq::new(
            (2 * cols) as nat,
            |k: int|
                if k % 2 == 0 {
                    self.cell(k / 2, 0)
                } else {
                    self.cell(k / 2, self.height - 1)
                },
        )
    }

    /// The wall around the whole grid, in the order in which it is emitted:
    /// the two ends of every row, then the two ends of every column.
    pub open spec fn border(&self) -> Seq<GridNode> {
        self.side_walls(self.height as int) + self.end_walls(self.width as int)
    }

    /// The cells among the first `k` whose draw is below `percentage`, in
    /// grid order.
    pub open spec fn selected(&self, draws: Seq<i32>, percentage: i32, k: int) -> Seq<GridNode>
        decreases k,
    {
        if k <= 0 {
            Seq::empty()
        } else {
            let before = self.selected(draws, percentage, k - 1);
            if draws[k - 1] < percentage {
                before.push(self.nodes@[k - 1])
            } else {
                before
            }
        }
    }

    /// `draws` holds one draw from `0..100` for every cell.
    pub open spec fn is_draw_per_cell(&self, draws: Seq<i32>) -> bool {
        &&& draws.len() == self.nodes@.len()
        &&& forall|k: int| 0 <= k < draws.len() ==> 0 <= #[trigger] draws[k] < 100
    }

    /// Every element of `cells` from position `from` on is a cell of the grid.
    pub open spec fn all_cells_from(&self, cells: Seq<GridNode>, from: int) -> bool {
        forall|k: int| from <= k < cells.len() ==> self.is_cell(#[trigger] cells[k])
    }

    /// Every cell of a wall along a row of the grid is a cell of the grid.
    pub proof fn lemma_row_wall_cells(&self, y: int, gap: int, lo: int, hi: int, k: int)
        requires
            self.wf(),
            0 <= y < self.height,
            k <= self.width,
        ensures
            self.all_cells_from(self.row_wall(y, gap, lo, hi, k), 0),
            k > 0 && lo <= k - 1 <= hi && gap != k - 1 ==> self.row_wall(y, gap, lo, hi, k).len() > 0,
            self.row_wall(y, gap, lo, hi, k).len() >= self.row_wall(y, gap, lo, hi, k - 1).len(),
        decreases k,
    {
        if k > 0 {
            self.lemma_row_wall_cells(y, gap, lo, hi, k - 1);
            self.lemma_cell_at(k - 1, y);
        }
    }

    /// Every cell of a wall along a column of the grid is a cell of the grid.
    pub proof fn lemma_col_wall_cells(&self, x: int, gap: int, lo: int, hi: int, k: int)
        requires
            self.wf(),
            0 <= x < self.width,
            k <= self.height,
        ensures
            self.all_cells_from(self.col_wall(x, gap, lo, hi, k), 0),
            k > 0 && lo <= k - 1 <= hi && gap != k - 1 ==> self.col_wall(x, gap, lo, hi, k).len() > 0,
            self.col_wall(x, gap, lo, hi, k).len() >= self.col_wall(x, gap, lo, hi, k - 1).len(),
        decreases k,
    {
        if k > 0 {
            self.lemma_col_wall_cells(x, gap, lo, hi, k - 1);
            self.lemma_cell_at(x, k - 1);
        }
    }

    /// A wall along a row holds the cell of every column it covers but the gap.
    pub proof fn lemma_row_wall_nonempty(&self, y: int, gap: int, lo: int, hi: int, k: int, col: int)
        requires
            self.wf(),
            0 <= y < self.height,
            0 <= col < k <= self.width,
            lo <= col <= hi,
            col != gap,
        ensures
            self.row_wall(y, gap, lo, hi, k).len() > 0,
        decreases k,
    {
        self.lemma_row_wall_cells(y, gap, lo, hi, k);
        if col < k - 1 {
            self.lemma_row_wall_nonempty(y, gap, lo, hi, k - 1, col);
        }
    }

    /// A wall along a column holds the cell of every row it covers but the gap.
    pub proof fn lemma_col_wall_nonempty(&self, x: int, gap: int, lo: int, hi: int, k: int, row: int)
        requires
            self.wf(),
            0 <= x < self.width,
            0 <= row < k <= self.height,
            lo <= row <= hi,
            row != gap,
        ensures
            self.col_wall(x, gap, lo, hi, k).len() > 0,
        decreases k,
    {
        self.lemma_col_wall_cells(x, gap, lo, hi, k);
        if row < k - 1 {
            self.lemma_col_wall_nonempty(x, gap, lo, hi, k - 1, row);
        }
    }

    /// The cells picked by a random fill are cells of the grid.
    pub proof fn lemma_selected_cells(&self, draws: Seq<i32>, percentage: i32, k: int)
        requires
            self.wf(),
            k <= self.nodes@.len(),
        ensures
            self.all_cells_from(self.selected(draws, percentage, k), 0),
            self.selected(draws, percentage, k).len() <= if k < 0 {
                0
            } else {
                k
            },
        decreases k,
    {
        if k > 0 {
            self.lemma_selected_cells(draws, percentage, k - 1);
            self.lemma_node_is_cell(k - 1);
        }
    }

    /// With a percentage of 100 or more a random fill picks every cell, and
    /// with one of 0 or less it picks none, whatever is drawn.
    pub proof fn lemma_selected_extremes(&self, draws: Seq<i32>, percentage: i32, k: int)
        requires
            self.is_draw_per_cell(draws),
            0 <= k <= self.nodes@.len(),
        ensures
            percentage >= 100 ==> self.selected(draws, percentage, k) == self.nodes@.take(k),
            percentage <= 0 ==> self.selected(draws, percentage, k) == Seq::<GridNode>::empty(),
        decreases k,
    {
        if k > 0 {
            self.lemma_selected_extremes(draws, percentage, k - 1);
            assert(0 <= draws[k - 1] < 100);
            if percentage >= 100 {
                assert(self.nodes@.take(k - 1).push(self.nodes@[k - 1]) =~= self.nodes@.take(k));
            }
        } else {
            assert(self.nodes@.take(0) =~= Seq::<GridNode>::empty());
        }
    }

    /// Appends to `result` every cell whose draw is below `percentage`, in
    /// grid order; `draws` holds one draw per cell.
    pub fn select_nodes(&self, result: &mut Vec<GridNode>, draws: &Vec<i32>, percentage: i32)
        requires
            draws@.len() == self.nodes@.len(),
        ensures
            final(result)@ == old(result)@ + self.selected(
                draws@,
                percentage,
                self.nodes@.len() as int,
            ),
    {
        let n = self.nodes.len();
        let mut k: usize = 0;
        while k < n
            invariant
                k <= n,
                n == self.nodes@.len(),
                draws@.len() == n,
                result@ == old(result)@ + self.selected(draws@, percentage, k as int),
            decreases n - k,
        {
            if draws[k] < percentage {
                result.push(self.nodes[k]);
            }
            k += 1;
        }
    }

    /// Appends to `result` each cell with probability `percentage` in a
    /// hundred, one independent draw per cell, in grid order.
    ///
    /// Whatever is drawn, what is appended is what `select_nodes` picks for
    /// some sequence of one draw from `0..100` per cell.
    pub fn random_nodes(&self, result: &mut Vec<GridNode>, percentage: i32)
        ensures
            exists|draws: Seq<i32>|
                {
                    &&& #[trigger] self.is_draw_per_cell(draws)
                    &&& final(result)@ == old(result)@ + self.selected(
                        draws,
                        percentage,
                        self.nodes@.len() as int,
                    )
                },
    {
        let n = self.nodes.len();
        let mut draws: Vec<i32> = Vec::with_capacity(n);
        let mut k: usize = 0;
        while k < n
            invariant
                k <= n,
                n == self.nodes@.len(),
                draws@.len() == k,
                forall|j: int| 0 <= j < k ==> 0 <= #[trigger] draws@[j] < 100,
            decreases n - k,
        {
            let drawn = random_i32(0, 100);
            draws.push(drawn);
            k += 1;
        }
        self.select_nodes(result, &draws, percentage);
        assert(self.is_draw_per_cell(draws@));
    }

    /// The positions `first, first + 2, ...` below `end`.
    pub fn positions(first: i32, end: i32) -> (found: Vec<i32>)
        ensures
            found@.len() == every_second(first as int, end as int).len(),
            forall|k: int| 0 <= k < found@.len() ==> #[trigger] found@[k] == first + 2 * k,
            forall|k: int|
                0 <= k < found@.len() ==> is_every_second(
                    first as int,
                    end as int,
                    #[trigger] found@[k] as int,
                ),
    {
        let mut found: Vec<i32> = Vec::new();
        let stop: i64 = end as i64;
        let mut i: i64 = first as i64;
        while i < stop
            invariant
                stop == end,
                first <= i,
                i <= stop + 1 || found@.len() == 0,
                i == first + 2 * found@.len(),
                forall|k: int| 0 <= k < found@.len() ==> #[trigger] found@[k] == first + 2 * k,
            decreases stop + 1 - i,
        {
            found.push(i as i32);
            i += 2;
        }
        found
    }

    /// Appends the wall around the whole grid to `result`.
    pub fn surround(&self, result: &mut Vec<GridNode>)
        requires
            self.wf(),
        ensures
            final(result)@ == old(result)@ + self.border(),
    {
        proof {
            self.lemma_dims_fit();
        }
        let rows = self.height as i32;
        let cols = self.width as i32;
        let mut row: i32 = 0;
        while row < rows
            invariant
                self.wf(),
                0 <= row <= rows,
                rows == self.height,
                cols == self.width,
                result@ == old(result)@ + self.side_walls(row as int),
            decreases rows - row,
        {
            let left_node = self.get_cell(0, row);
            let right_node = self.get_cell((self.width - 1) as i32, row);
            result.push(left_node);
            result.push(right_node);
            assert(self.side_walls(row as int).push(left_node).push(right_node) =~= self.side_walls(
                row + 1,
            ));
            row += 1;
        }
        let ghost sides = result@;
        let mut col: i32 = 0;
        while col < cols
            invariant
                self.wf(),
                0 <= col <= cols,
                rows == self.height,
                cols == self.width,
                sides == old(result)@ + self.side_walls(self.height as int),
                result@ == sides + self.end_walls(col as int),
            decreases cols - col,
        {
            let top_node = self.get_cell(col, 0);
            let bottom_node = self.get_cell(col, (self.height - 1) as i32);
            result.push(top_node);
            result.push(bottom_node);
            assert(self.end_walls(col as int).push(top_node).push(bottom_node) =~= self.end_walls(
                col + 1,
            ));
            col += 1;
        }
    }

    /// Divides `chamber` by the wall at `(row, col)`: appends the wall to
    /// `result` and returns the two chambers on either side of it, each with
    /// the direction in which it will be divided in turn.
    ///
    /// For a horizontal split `row` is the wall's row and `col` the column
    /// of its gap; for a vertical split `col` is the wall's column and `row`
    /// the row of its gap.
    pub fn divide(&self, result: &mut Vec<GridNode>, chamber: Chamber, row: i32, col: i32) -> (parts:
        (Chamber, Chamber))
        requires
            self.wf(),
            !chamber.is_empty(),
            self.holds(chamber),
            chamber.orientation == Orientation::Horizontal ==> chamber.row_start <= row
                <= chamber.row_end,
            chamber.orientation == Orientation::Vertical ==> chamber.col_start <= col
                <= chamber.col_end,
        ensures
            final(result)@ == old(result)@ + self.wall(chamber, row as int, col as int),
            parts.0 == chamber.first_part(row as int, col as int),
            parts.1 == chamber.second_part(row as int, col as int),
    {
        proof {
            self.lemma_dims_fit();
        }
        let Chamber { row_start, row_end, col_start, col_end, orientation } = chamber;
        match orientation {
            Orientation::Horizontal => {
                let cols = self.width as i32;
                let mut c: i32 = 0;
                while c < cols
                    invariant
                        self.wf(),
                        0 <= c <= cols,
                        cols == self.width,
                        0 <= row < self.height,
                        0 <= col_start,
                        col_end + 2 <= i32::MAX,
                        result@ == old(result)@ + self.row_wall(
                            row as int,
                            col as int,
                            col_start - 1,
                            col_end + 1,
                            c as int,
                        ),
                    decreases cols - c,
                {
                    if c != col && c >= col_start - 1 && c <= col_end + 1 {
                        let node = self.get_cell(c, row);
                        result.push(node);
                    }
                    c += 1;
                }
                let first = Chamber {
                    row_start,
                    row_end: row - 2,
                    col_start,
                    col_end,
                    orientation: if row - 2 - row_start > col_end - col_start {
                        Orientation::Horizontal
                    } else {
                        Orientation::Vertical
                    },
                };
                let second = Chamber {
                    row_start: row + 2,
                    row_end,
                    col_start,
                    col_end,
                    orientation: if row_end - (row + 2) > col_end - col_start {
                        Orientation::Horizontal
                    } else {
                        Orientation::Vertical
                    },
                };
                (first, second)
            },
            Orientation::Vertical => {
                let rows = self.height as i32;
                let mut r: i32 = 0;
                while r < rows
                    invariant
                        self.wf(),
                        0 <= r <= rows,
                        rows == self.height,
                        0 <= col < self.width,
                        0 <= row_start,
                        row_end + 2 <= i32::MAX,
                        result@ == old(result)@ + self.col_wall(
                            col as int,
                            row as int,
                            row_start - 1,
                            row_end + 1,
                            r as int,
                        ),
                    decreases rows - r,
                {
                    if r != row && r >= row_start - 1 && r <= row_end + 1 {
                        let node = self.get_cell(col, r);
                        result.push(node);
                    }
                    r += 1;
                }
                let first = Chamber {
                    row_start,
                    row_end,
                    col_start,
                    col_end: col - 2,
                    orientation: if row_end - row_start > col - 2 - col_start {
                        Orientation::Horizontal
                    } else {
                        Orientation::Vertical
                    },
                };
                let second = Chamber {
                    row_start,
                    row_end,
                    col_start: col + 2,
                    col_end,
                    orientation: if row_end - row_start > col_end - (col + 2) {
                        Orientation::Horizontal
                    } else {
                        Orientation::Vertical
                    },
                };
                (first, second)
            },
        }
    }

    /// Builds a maze in the chamber of the given rows and columns by
    /// recursive division and appends its walls to `result`.
    ///
    /// An empty chamber adds nothing.  Otherwise the wall around the grid
    /// comes first if `surrounding_walls` asks for it; then a wall line is
    /// drawn at random among every second row (horizontal) or column
    /// (vertical) of the chamber, with one gap drawn at random among the
    /// positions in between, and the chambers on both sides are divided in
    /// turn, each across its longer side.
    ///
    /// Whatever is drawn: what `result` held stays in front, every cell
    /// added is a cell of the grid, a chamber that is not empty adds at
    /// least one, and the wall around the grid, when asked for, is added
    /// first and whole.
    pub fn recursive_division_maze(
        &self,
        result: &mut Vec<GridNode>,
        row_start: i32,
        row_end: i32,
        col_start: i32,
        col_end: i32,
        orientation: Orientation,
        surrounding_walls: bool,
    )
        requires
            self.wf(),
            row_start <= row_end && col_start <= col_end ==> self.holds(
                Chamber { row_start, row_end, col_start, col_end, orientation },
            ),
        ensures
            final(result)@.len() >= old(result)@.len(),
            final(result)@.take(old(result)@.len() as int) == old(result)@,
            self.all_cells_from(final(result)@, old(result)@.len() as int),
            row_end < row_start || col_end < col_start ==> final(result)@ == old(result)@,
            row_start <= row_end && col_start <= col_end ==> final(result)@.len() > old(result)@.len(),
            row_start <= row_end && col_start <= col_end && surrounding_walls ==> {
                &&& final(result)@.len() > old(result)@.len() + self.border().len()
                &&& final(result)@.subrange(
                    old(result)@.len() as int,
                    (old(result)@.len() + self.border().len()) as int,
                ) == self.border()
                &&& self.is_division(
                    (Chamber { row_start, row_end, col_start, col_end, orientation }),
                    final(result)@.skip((old(result)@.len() + self.border().len()) as int),
                )
            },
            !surrounding_walls ==> self.is_division(
                (Chamber { row_start, row_end, col_start, col_end, orientation }),
                final(result)@.skip(old(result)@.len() as int),
            ),
        decreases (Chamber { row_start, row_end, col_start, col_end, orientation }).extent(),
    {
        let chamber = Chamber { row_start, row_end, col_start, col_end, orientation };
        if row_end < row_start || col_end < col_start {
            assert(result@.take(result@.len() as int) =~= result@);
            assert(result@.skip(result@.len() as int).len() == 0);
            return ;
        }
        let ghost before = result@;

        if surrounding_walls {
            self.surround(result);
        }
        let ghost walled = result@;

        let possible_rows: Vec<i32> = if orientation == Orientation::Horizontal {
            Self::positions(row_start, row_end + 1)
        } else {
            Self::positions(row_start - 1, row_end + 2)
        };
        let possible_cols: Vec<i32> = if orientation == Orientation::Horizontal {
            Self::positions(col_start - 1, col_end + 2)
        } else {
            Self::positions(col_start, col_end + 1)
        };

        let rand_row_index = random_usize(0, possible_rows.len());
        let rand_col_index = random_usize(0, possible_cols.len());

        let rand_row = possible_rows[rand_row_index];
        let rand_col = possible_cols[rand_col_index];

        let (first, second) = self.divide(result, chamber, rand_row, rand_col);
        let ghost divided = result@;

        self.recursive_division_maze(
            result,
            first.row_start,
            first.row_end,
            first.col_start,
            first.col_end,
            first.orientation,
            false,
        );
        let ghost halfway = result@;
        self.recursive_division_maze(
            result,
            second.row_start,
            second.row_end,
            second.col_start,
            second.col_end,
            second.orientation,
            false,
        );
        proof {
            let extra = if surrounding_walls {
                self.border()
            } else {
                Seq::<GridNode>::empty()
            };
            assert(walled =~= before + extra);
            self.lemma_division_assembled(
                chamber,
                rand_row as int,
                rand_col as int,
                before,
                extra,
                divided,
                halfway,
                result@,
            );
        }
    }

    /// Putting a division together: a prefix, some cells of the grid, the
    /// wall of `chamber` at `(row, col)`, a maze of the part before the wall
    /// and a maze of the part after it make, behind the prefix and those
    /// cells, a maze of `chamber`.
    proof fn lemma_division_assembled(
        &self,
        chamber: Chamber,
        row: int,
        col: int,
        before: Seq<GridNode>,
        extra: Seq<GridNode>,
        divided: Seq<GridNode>,
        halfway: Seq<GridNode>,
        done: Seq<GridNode>,
    )
        requires
            self.wf(),
            !chamber.is_empty(),
            self.holds(chamber),
            chamber.offers_row(row),
            chamber.offers_col(col),
            extra.len() == 0 || extra == self.border(),
            divided == before + extra + self.wall(chamber, row, col),
            halfway.len() >= divided.len(),
            halfway.take(divided.len() as int) == divided,
            self.all_cells_from(halfway, divided.len() as int),
            self.is_division(chamber.first_part(row, col), halfway.skip(divided.len() as int)),
            done.len() >= halfway.len(),
            done.take(halfway.len() as int) == halfway,
            self.all_cells_from(done, halfway.len() as int),
            self.is_division(chamber.second_part(row, col), done.skip(halfway.len() as int)),
        ensures
            done.len() > before.len() + extra.len(),
            done.take(before.len() as int) == before,
            done.subrange(before.len() as int, (before.len() + extra.len()) as int) == extra,
            self.all_cells_from(done, before.len() as int),
            self.is_division(chamber, done.skip((before.len() + extra.len()) as int)),
    {
        let wall = self.wall(chamber, row, col);
        let walled = before + extra;
        if chamber.orientation == Orientation::Horizontal {
            self.lemma_row_wall_cells(
                row,
                col,
                chamber.col_start - 1,
                chamber.col_end + 1,
                self.width as int,
            );
            self.lemma_row_wall_nonempty(
                row,
                col,
                chamber.col_start - 1,
                chamber.col_end + 1,
                self.width as int,
                chamber.col_start as int,
            );
        } else {
            self.lemma_col_wall_cells(
                col,
                row,
                chamber.row_start - 1,
                chamber.row_end + 1,
                self.height as int,
            );
            self.lemma_col_wall_nonempty(
                col,
                row,
                chamber.row_start - 1,
                chamber.row_end + 1,
                self.height as int,
                chamber.row_start as int,
            );
        }
        assert(wall.len() > 0);
        self.lemma_border_cells();
        assert forall|k: int| 0 <= k < halfway.len() implies done[k] == halfway[k] by {
            assert(done.take(halfway.len() as int)[k] == done[k]);
        }
        assert forall|k: int| 0 <= k < divided.len() implies halfway[k] == divided[k] by {
            assert(halfway.take(divided.len() as int)[k] == halfway[k]);
        }
        assert(done.take(before.len() as int) =~= before);
        assert(done.subrange(before.len() as int, (before.len() + extra.len()) as int) =~= extra);
        assert forall|k: int| before.len() <= k < done.len() implies self.is_cell(
            #[trigger] done[k],
        ) by {
            if k < walled.len() {
                assert(done[k] == extra[k - before.len()]);
            } else if k < divided.len() {
                assert(done[k] == wall[k - walled.len()]);
            } else if k < halfway.len() {
                assert(done[k] == halfway[k]);
            }
        }
        let cells = done.skip(walled.len() as int);
        let cut = halfway.len() - walled.len();
        assert(cells.take(wall.len() as int) =~= wall);
        assert(cells.subrange(wall.len() as int, cut) =~= halfway.skip(divided.len() as int));
        assert(cells.skip(cut) =~= done.skip(halfway.len() as int));
        assert(self.wall_fits(chamber, cells, row, col, cut));
    }

    /// Every cell of the wall around the grid is a cell of the grid.
    pub proof fn lemma_border_cells(&self)
        requires
            self.wf(),
        ensures
            self.all_cells_from(self.border(), 0),
            self.border().len() == 2 * self.height + 2 * self.width,
    {
        let b = self.border();
        let sides = self.side_walls(self.height as int);
        assert forall|k: int| 0 <= k < b.len() implies self.is_cell(#[trigger] b[k]) by {
            if k < sides.len() {
                self.lemma_cell_at(0, k / 2);
                self.lemma_cell_at(self.width - 1, k / 2);
            } else {
                let j = k - sides.len();
                self.lemma_cell_at(j / 2, 0);
                self.lemma_cell_at(j / 2, self.height - 1);
            }
        }
    }

    /// A maze for the grid: the cells to turn into walls.
    ///
    /// The random mazes pick each cell with the probability their name
    /// gives.  The recursive-division maze is built in the chamber that
    /// leaves two cells free on every side, with the wall around the grid.
    /// Every cell returned is a cell of the grid, and on a grid of at least
    /// five by five cells the recursive-division maze is not empty.
    pub fn generate_maze(&self, maze_type: MazeType) -> (maze: Vec<GridNode>)
        requires
            self.wf(),
        ensures
            self.all_cells_from(maze@, 0),
            maze_type is Random25 ==> self.is_random_fill(maze@, 25),
            maze_type is Random50 ==> self.is_random_fill(maze@, 50),
            maze_type is Random75 ==> self.is_random_fill(maze@, 75),
            maze_type is RecursiveDivision && (self.width < 5 || self.height < 5) ==> maze@.len() == 0,
            maze_type is RecursiveDivision && self.width >= 5 && self.height >= 5 ==> {
                &&& maze@.len() > self.border().len()
                &&& maze@.take(self.border().len() as int) == self.border()
                &&& self.is_division(self.inner_chamber(), maze@.skip(self.border().len() as int))
            },
    {
        proof {
            self.lemma_dims_fit();
        }
        let mut maze: Vec<GridNode> = Vec::new();
        match maze_type {
            MazeType::Random25 => {
                self.random_nodes(&mut maze, 25);
                proof {
                    self.lemma_random_fill_cells(maze@, 25);
                }
            },
            MazeType::Random50 => {
                self.random_nodes(&mut maze, 50);
                proof {
                    self.lemma_random_fill_cells(maze@, 50);
                }
            },
            MazeType::Random75 => {
                self.random_nodes(&mut maze, 75);
                proof {
                    self.lemma_random_fill_cells(maze@, 75);
                }
            },
            MazeType::RecursiveDivision => {
                self.recursive_division_maze(
                    &mut maze,
                    2,
                    self.height as i32 - 3,
                    2,
                    self.width as i32 - 3,
                    Orientation::Horizontal,
                    true,
                );
                proof {
                    if self.width >= 5 && self.height >= 5 {
                        assert(maze@.subrange(0, self.border().len() as int) =~= maze@.take(
                            self.border().len() as int,
                        ));
                    }
                }
            },
        };
        maze
    }

    /// The chamber in which the recursive-division maze of the whole grid is
    /// built: it leaves two rows and two columns free on every side and is
    /// divided by a horizontal wall first.
    pub open spec fn inner_chamber(&self) -> Chamber {
        Chamber {
            row_start: 2,
            row_end: (self.height - 3) as i32,
            col_start: 2,
            col_end: (self.width - 3) as i32,
            orientation: Orientation::Horizontal,
        }
    }

    /// `maze` is what a random fill with the given percentage yields for
    /// some sequence of one draw from `0..100` per cell.
    pub open spec fn is_random_fill(&self, maze: Seq<GridNode>, percentage: i32) -> bool {
        exists|draws: Seq<i32>|
            {
                &&& #[trigger] self.is_draw_per_cell(draws)
                &&& maze == self.selected(draws, percentage, self.nodes@.len() as int)
            }
    }

    /// A random fill yields cells of the grid only.
    pub proof fn lemma_random_fill_cells(&self, maze: Seq<GridNode>, percentage: i32)
        requires
            self.wf(),
            exists|draws: Seq<i32>|
                {
                    &&& #[trigger] self.is_draw_per_cell(draws)
                    &&& maze == Seq::<GridNode>::empty() + self.selected(
                        draws,
                        percentage,
                        self.nodes@.len() as int,
                    )
                },
        ensures
            self.is_random_fill(maze, percentage),
            self.all_cells_from(maze, 0),
    {
        let draws = choose|draws: Seq<i32>|
            {
                &&& #[trigger] self.is_draw_per_cell(draws)
                &&& maze == Seq::<GridNode>::empty() + self.selected(
                    draws,
                    percentage,
                    self.nodes@.len() as int,
                )
            };
        let picked = self.selected(draws, percentage, self.nodes@.len() as int);
        assert(Seq::<GridNode>::empty() + picked =~= picked);
        self.lemma_selected_cells(draws, percentage, self.nodes@.len() as int);
    }
}

} // verus!
