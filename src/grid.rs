use vstd::prelude::*;
use vstd::string::StringExecFns;

verus! {

/// The marker of a cell that no word has claimed yet.
pub const EMPTY_CHAR: char = '_';

/// A (row, column) coordinate.
#[derive(Clone, Copy, Debug, PartialEq, Eq, Structural, PartialOrd, Ord, Hash)]
pub struct Cell {
    pub row: usize,
    pub col: usize,
}

/// The eight compass headings along which words run.
#[derive(Clone, Copy, Debug, PartialEq, Eq, Structural, PartialOrd, Ord, Hash)]
pub enum Direction {
    Up,
    UpRight,
    Right,
    DownRight,
    Down,
    DownLeft,
    Left,
    UpLeft,
}

/// A cell as a pair of mathematical integers.
pub open spec fn pos(c: Cell) -> (int, int) {
    (c.row as int, c.col as int)
}

/// The position `k` steps from `p` towards `d`.
pub open spec fn walk(p: (int, int), d: Direction, k: int) -> (int, int) {
    match d {
        Direction::Up => (p.0 - k, p.1),
        Direction::UpRight => (p.0 - k, p.1 + k),
        Direction::Right => (p.0, p.1 + k),
        Direction::DownRight => (p.0 + k, p.1 + k),
        Direction::Down => (p.0 + k, p.1),
        Direction::DownLeft => (p.0 + k, p.1 - k),
        Direction::Left => (p.0, p.1 - k),
        Direction::UpLeft => (p.0 - k, p.1 - k),
    }
}

/// The heading that points the other way.
pub open spec fn opposite(d: Direction) -> Direction {
    match d {
        Direction::Up => Direction::Down,
        Direction::UpRight => Direction::DownLeft,
        Direction::Right => Direction::Left,
        Direction::DownRight => Direction::UpLeft,
        Direction::Down => Direction::Up,
        Direction::DownLeft => Direction::UpRight,
        Direction::Left => Direction::Right,
        Direction::UpLeft => Direction::DownRight,
    }
}

/// The place of a heading in declaration order.
pub open spec fn dir_rank(d: Direction) -> int {
    match d {
        Direction::Up => 0,
        Direction::UpRight => 1,
        Direction::Right => 2,
        Direction::DownRight => 3,
        Direction::Down => 4,
        Direction::DownLeft => 5,
        Direction::Left => 6,
        Direction::UpLeft => 7,
    }
}

/// All eight headings in declaration order.
pub open spec fn all_directions() -> Seq<Direction> {
    seq![
        Direction::Up,
        Direction::UpRight,
        Direction::Right,
        Direction::DownRight,
        Direction::Down,
        Direction::DownLeft,
        Direction::Left,
        Direction::UpLeft,
    ]
}

/// Returns the heading that points the other way.
pub fn opposite_direction(direction: &Direction) -> (r: Direction)
    ensures
        r == opposite(*direction),
{
    match direction {
        Direction::Up => Direction::Down,
        Direction::UpRight => Direction::DownLeft,
        Direction::Right => Direction::Left,
        Direction::DownRight => Direction::UpLeft,
        Direction::Down => Direction::Up,
        Direction::DownLeft => Direction::UpRight,
        Direction::Left => Direction::Right,
        Direction::UpLeft => Direction::DownRight,
    }
}

/// Turning around twice faces the original way.
pub proof fn lemma_opposite_involution(d: Direction)
    ensures
        opposite(opposite(d)) == d,
{
}

impl Direction {
    /// All eight headings in declaration order.
    pub fn iterator() -> (r: Vec<Direction>)
        ensures
            r@ == all_directions(),
    {
        let r = vec![
            Direction::Up,
            Direction::UpRight,
            Direction::Right,
            Direction::DownRight,
            Direction::Down,
            Direction::DownLeft,
            Direction::Left,
            Direction::UpLeft,
        ];
        assert(r@ =~= all_directions());
        r
    }
}

/// The number of rows of a grid's contents.
pub open spec fn nrows(g: Seq<Seq<char>>) -> int {
    g.len() as int
}

/// The number of columns of a grid's contents: the length of its first row.
pub open spec fn ncols(g: Seq<Seq<char>>) -> int {
    if g.len() == 0 {
        0
    } else {
        g[0].len() as int
    }
}

/// Every row is as long as the first.
pub open spec fn rectangular(g: Seq<Seq<char>>) -> bool {
    forall|i: int| 0 <= i < g.len() ==> #[trigger] g[i].len() == ncols(g)
}

/// The contents of a list of rows.
pub open spec fn rows_view(rows: Seq<Vec<char>>) -> Seq<Seq<char>> {
    Seq::new(rows.len(), |i: int| rows[i]@)
}

/// `p` lies inside the grid.
pub open spec fn in_bounds(g: Seq<Seq<char>>, p: (int, int)) -> bool {
    0 <= p.0 < nrows(g) && 0 <= p.1 < ncols(g)
}

/// The character at position `p`.
pub open spec fn char_at(g: Seq<Seq<char>>, p: (int, int)) -> char {
    g[p.0][p.1]
}

/// How many further steps from `p` towards `d` stay inside the grid.
pub open spec fn remaining(g: Seq<Seq<char>>, p: (int, int), d: Direction) -> int {
    let up = p.0;
    let down = nrows(g) - 1 - p.0;
    let left = p.1;
    let right = ncols(g) - 1 - p.1;
    match d {
        Direction::Up => up,
        Direction::UpRight => if up < right { up } else { right },
        Direction::Right => right,
        Direction::DownRight => if down < right { down } else { right },
        Direction::Down => down,
        Direction::DownLeft => if down < left { down } else { left },
        Direction::Left => left,
        Direction::UpLeft => if up < left { up } else { left },
    }
}

/// A straight path of `len` cells from `p` towards `d` stays inside the grid.
pub open spec fn fits(g: Seq<Seq<char>>, p: (int, int), d: Direction, len: int) -> bool {
    len <= remaining(g, p, d) + 1
}

/// The characters read along `len` cells from `p` towards `d`.
pub open spec fn text(g: Seq<Seq<char>>, p: (int, int), d: Direction, len: int) -> Seq<char> {
    Seq::new(len as nat, |k: int| char_at(g, walk(p, d, k)))
}

/// How many steps from `p` towards `d` lead to `q`, if `q` is on that line.
pub open spec fn offset(p: (int, int), d: Direction, q: (int, int)) -> int {
    match d {
        Direction::Up | Direction::UpRight | Direction::UpLeft => p.0 - q.0,
        Direction::Down | Direction::DownRight | Direction::DownLeft => q.0 - p.0,
        Direction::Right => q.1 - p.1,
        Direction::Left => p.1 - q.1,
    }
}

/// `q` is one of the `len` cells from `p` towards `d`.
pub open spec fn on_path(p: (int, int), d: Direction, len: int, q: (int, int)) -> bool {
    let k = offset(p, d, q);
    0 <= k < len && walk(p, d, k) == q
}

/// A grid of the given size in which every cell is empty.
pub open spec fn blank(rows: int, cols: int) -> Seq<Seq<char>> {
    Seq::new(rows as nat, |i: int| Seq::new(cols as nat, |j: int| EMPTY_CHAR))
}

/// `g` with the characters of `w` written along the path from `p` towards `d`.
pub open spec fn written(g: Seq<Seq<char>>, p: (int, int), d: Direction, w: Seq<char>) -> Seq<
    Seq<char>,
> {
    Seq::new(
        g.len(),
        |i: int|
            Seq::new(
                g[i].len(),
                |j: int|
                    if on_path(p, d, w.len() as int, (i, j)) {
                        w[offset(p, d, (i, j))]
                    } else {
                        g[i][j]
                    },
            ),
    )
}

/// A blank grid of the size of `g` that keeps only the cells of one path.
pub open spec fn isolated(g: Seq<Seq<char>>, p: (int, int), d: Direction, len: int) -> Seq<
    Seq<char>,
> {
    Seq::new(
        g.len(),
        |i: int|
            Seq::new(
                g[i].len(),
                |j: int|
                    if on_path(p, d, len, (i, j)) {
                        g[i][j]
                    } else {
                        EMPTY_CHAR
                    },
            ),
    )
}

/// Every cell of a path that fits lies inside the grid and on the path, at
/// the offset of its step.
pub proof fn lemma_path_cells(g: Seq<Seq<char>>, p: (int, int), d: Direction, len: int, k: int)
    requires
        in_bounds(g, p),
        fits(g, p, d, len),
        0 <= k < len,
    ensures
        in_bounds(g, walk(p, d, k)),
        offset(p, d, walk(p, d, k)) == k,
        on_path(p, d, len, walk(p, d, k)),
{
}

/// A rectangular matrix of characters.
#[derive(Debug, Clone, PartialEq, Eq)]
pub struct Grid {
    chars: Vec<Vec<char>>,
}

impl View for Grid {
    type V = Seq<Seq<char>>;

    closed spec fn view(&self) -> Seq<Seq<char>> {
        rows_view(self.chars@)
    }
}

impl Grid {
    /// The grid is rectangular.
    pub open spec fn wf(&self) -> bool {
        rectangular(self@)
    }

    /// A grid of the given size in which every cell is empty.
    pub fn empty(row_count: usize, col_count: usize) -> (r: Grid)
        ensures
            r.wf(),
            r@ == blank(row_count as int, col_count as int),
    {
        let mut chars: Vec<Vec<char>> = Vec::new();
        let mut i: usize = 0;
        while i < row_count
            invariant
                i <= row_count,
                chars@.len() == i,
                forall|k: int| 0 <= k < i ==> #[trigger] chars@[k]@ == Seq::new(col_count as nat, |j: int| EMPTY_CHAR),
            decreases row_count - i,
        {
            let mut row: Vec<char> = Vec::new();
            let mut j: usize = 0;
            while j < col_count
                invariant
                    j <= col_count,
                    row@ == Seq::new(j as nat, |x: int| EMPTY_CHAR),
                decreases col_count - j,
            {
                row.push(EMPTY_CHAR);
                j = j + 1;
                assert(row@ =~= Seq::new(j as nat, |x: int| EMPTY_CHAR));
            }
            chars.push(row);
            i = i + 1;
        }
        let r = Grid { chars };
        assert(r@ =~= blank(row_count as int, col_count as int));
        r
    }

    /// A grid holding a copy of the given rows, which must all be equally long.
    pub fn new(chars: &[Vec<char>]) -> (r: Grid)
        requires
            rectangular(rows_view(chars@)),
        ensures
            r.wf(),
            r@ == rows_view(chars@),
    {
        let mut rows: Vec<Vec<char>> = Vec::new();
        let mut i: usize = 0;
        while i < chars.len()
            invariant
                i <= chars@.len(),
                rows@.len() == i,
                forall|k: int| 0 <= k < i ==> #[trigger] rows@[k]@ == chars@[k]@,
            decreases chars@.len() - i,
        {
            let row = chars[i].clone();
            assert(row@ =~= chars@[i as int]@);
            rows.push(row);
            i = i + 1;
        }
        assert(rows_view(rows@) =~= rows_view(chars@));
        Grid { chars: rows }
    }

    /// A copy of this grid.
    pub fn duplicate(&self) -> (r: Grid)
        requires
            self.wf(),
        ensures
            r.wf(),
            r@ == self@,
    {
        Grid::new(self.chars.as_slice())
    }

    /// The rows of the grid.
    pub fn rows(&self) -> (r: &Vec<Vec<char>>)
        ensures
            rows_view(r@) == self@,
    {
        &self.chars
    }

    /// The number of rows.
    pub fn row_count(&self) -> (r: usize)
        ensures
            r == nrows(self@),
    {
        self.chars.len()
    }

    /// The number of columns: the length of the first row, or 0.
    pub fn col_count(&self) -> (r: usize)
        ensures
            r == ncols(self@),
    {
        if self.chars.len() == 0 {
            0
        } else {
            self.chars[0].len()
        }
    }

    /// The character at a cell inside the grid.
    pub fn value_at_cell(&self, cell: &Cell) -> (r: char)
        requires
            in_bounds(self@, pos(*cell)),
            self.wf(),
        ensures
            r == char_at(self@, pos(*cell)),
    {
        assert(self@[cell.row as int].len() == ncols(self@));
        self.chars[cell.row][cell.col]
    }

    /// Overwrites the character at a cell inside the grid.
    pub fn set_value_at_cell(&mut self, cell: &Cell, val: char)
        requires
            in_bounds(old(self)@, pos(*cell)),
            old(self).wf(),
        ensures
            final(self)@ == old(self)@.update(
                cell.row as int,
                old(self)@[cell.row as int].update(cell.col as int, val),
            ),
            final(self).wf(),
    {
        assert(self@[cell.row as int].len() == ncols(self@));
        let mut row = self.chars[cell.row].clone();
        assert(row@ =~= self.chars@[cell.row as int]@);
        row.set(cell.col, val);
        self.chars.set(cell.row, row);
        assert(self@ =~= old(self)@.update(
            cell.row as int,
            old(self)@[cell.row as int].update(cell.col as int, val),
        ));
    }
}

impl Grid {
    /// The neighbour of a cell one step towards `direction`, or `None` where
    /// that step leaves the grid.
    pub fn next_cell_in_direction(&self, cell: &Cell, direction: &Direction) -> (r: Option<Cell>)
        requires
            self.wf(),
            in_bounds(self@, pos(*cell)),
        ensures
            r is Some <==> in_bounds(self@, walk(pos(*cell), *direction, 1)),
            r is Some ==> pos(r->0) == walk(pos(*cell), *direction, 1),
    {
        let rows = self.row_count();
        let cols = self.col_count();
        let up = cell.row > 0;
        let down = cell.row + 1 < rows;
        let left = cell.col > 0;
        let right = cell.col + 1 < cols;
        let (ok, row, col) = match direction {
            Direction::Up => (up, if up { cell.row - 1 } else { 0 }, cell.col),
            Direction::UpRight => (up && right, if up { cell.row - 1 } else { 0 }, cell.col + 1),
            Direction::Right => (right, cell.row, cell.col + 1),
            Direction::DownRight => (down && right, cell.row + 1, cell.col + 1),
            Direction::Down => (down, cell.row + 1, cell.col),
            Direction::DownLeft => (down && left, cell.row + 1, if left { cell.col - 1 } else { 0 }),
            Direction::Left => (left, cell.row, if left { cell.col - 1 } else { 0 }),
            Direction::UpLeft => (up && left, if up { cell.row - 1 } else { 0 }, if left { cell.col - 1 } else { 0 }),
        };
        if ok {
            Some(Cell { row, col })
        } else {
            None
        }
    }

    /// How many further steps from a cell towards `direction` stay inside
    /// the grid: the smaller of the distances to the edges that the heading
    /// approaches.
    pub fn cells_remaining_in_direction(&self, cell: &Cell, direction: &Direction) -> (r: usize)
        requires
            self.wf(),
            in_bounds(self@, pos(*cell)),
        ensures
            r == remaining(self@, pos(*cell), *direction),
            r < usize::MAX,
    {
        let rows = self.row_count();
        let cols = self.col_count();
        let rows_remaining: usize = match direction {
            Direction::UpLeft | Direction::Up | Direction::UpRight => cell.row,
            Direction::DownLeft | Direction::Down | Direction::DownRight => rows - cell.row - 1,
            Direction::Left | Direction::Right => usize::MAX,
        };
        let cols_remaining: usize = match direction {
            Direction::UpLeft | Direction::Left | Direction::DownLeft => cell.col,
            Direction::UpRight | Direction::Right | Direction::DownRight => cols - cell.col - 1,
            Direction::Up | Direction::Down => usize::MAX,
        };
        if rows_remaining < cols_remaining {
            rows_remaining
        } else {
            cols_remaining
        }
    }

    /// Writes `word` along the path from `start` towards `direction`,
    /// overwriting whatever those cells held.
    pub fn add_word_at_location(&mut self, start: &Cell, direction: &Direction, word: &Vec<char>)
        requires
            old(self).wf(),
            in_bounds(old(self)@, pos(*start)),
            fits(old(self)@, pos(*start), *direction, word@.len() as int),
        ensures
            final(self).wf(),
            final(self)@ == written(old(self)@, pos(*start), *direction, word@),
    {
        let ghost p = pos(*start);
        let ghost g0 = self@;
        let n = word.len();
        let mut cell = *start;
        let mut i: usize = 0;
        while i < n
            invariant
                n == word@.len(),
                i <= n,
                self.wf(),
                fits(g0, p, *direction, n as int),
                in_bounds(g0, p),
                self@.len() == g0.len(),
                forall|r: int| 0 <= r < g0.len() ==> #[trigger] self@[r].len() == g0[r].len(),
                i < n ==> pos(cell) == walk(p, *direction, i as int),
                forall|r: int, c: int|
                    0 <= r < g0.len() && 0 <= c < g0[r].len() ==> #[trigger] self@[r][c] == if on_path(
                        p,
                        *direction,
                        i as int,
                        (r, c),
                    ) {
                        word@[offset(p, *direction, (r, c))]
                    } else {
                        g0[r][c]
                    },
            decreases n - i,
        {
            proof {
                lemma_path_cells(g0, p, *direction, n as int, i as int);
            }
            self.set_value_at_cell(&cell, word[i]);
            if i + 1 < n {
                proof {
                    lemma_path_cells(g0, p, *direction, n as int, i + 1);
                }
                match self.next_cell_in_direction(&cell, direction) {
                    Some(next) => {
                        cell = next;
                    },
                    None => {},
                }
            }
            i = i + 1;
        }
        assert(self@ =~~= written(g0, p, *direction, word@));
    }

    /// A blank grid of the same size that keeps only the cells on the path
    /// of `word`, copied from this grid.
    pub fn one_word_grid(&self, word: &WordLocation) -> (r: Grid)
        requires
            self.wf(),
            loc_fits(self@, word@),
        ensures
            r.wf(),
            r@ == isolated(self@, pos(word.start_cell), word.direction, word.word@.len() as int),
            located(self@, word@) && !word.word@.contains(EMPTY_CHAR) ==> {
                &&& forall|i: int, j: int|
                    in_bounds(r@, (i, j)) ==> (#[trigger] r@[i][j] != EMPTY_CHAR <==> on_path(
                        pos(word.start_cell),
                        word.direction,
                        word.word@.len() as int,
                        (i, j),
                    ))
                &&& text(r@, pos(word.start_cell), word.direction, word.word@.len() as int)
                    == word.word@
            },
    {
        let ghost g0 = self@;
        let ghost p = pos(word.start_cell);
        let ghost d = word.direction;
        let n = word.word.as_str().unicode_len();
        let mut grid = Grid::empty(self.row_count(), self.col_count());
        let mut cell = word.start_cell;
        let mut i: usize = 0;
        while i < n
            invariant
                n == word.word@.len(),
                i <= n,
                self@ == g0,
                self.wf(),
                grid.wf(),
                loc_fits(g0, word@),
                p == pos(word.start_cell),
                d == word.direction,
                grid@.len() == g0.len(),
                forall|r: int| 0 <= r < g0.len() ==> #[trigger] grid@[r].len() == g0[r].len(),
                i < n ==> pos(cell) == walk(p, d, i as int),
                forall|r: int, c: int|
                    0 <= r < g0.len() && 0 <= c < g0[r].len() ==> #[trigger] grid@[r][c] == if on_path(
                        p,
                        d,
                        i as int,
                        (r, c),
                    ) {
                        g0[r][c]
                    } else {
                        EMPTY_CHAR
                    },
            decreases n - i,
        {
            proof {
                lemma_path_cells(g0, p, d, n as int, i as int);
            }
            let val = self.value_at_cell(&cell);
            grid.set_value_at_cell(&cell, val);
            if i + 1 < n {
                proof {
                    lemma_path_cells(g0, p, d, n as int, i + 1);
                }
                match self.next_cell_in_direction(&cell, &word.direction) {
                    Some(next) => {
                        cell = next;
                    },
                    None => {},
                }
            }
            i = i + 1;
        }
        assert(grid@ =~~= isolated(g0, p, d, n as int));
        proof {
            if located(g0, word@) && !word.word@.contains(EMPTY_CHAR) {
                assert forall|i: int, j: int| in_bounds(grid@, (i, j)) implies (#[trigger] grid@[i][j]
                    != EMPTY_CHAR <==> on_path(p, d, n as int, (i, j))) by {
                    if on_path(p, d, n as int, (i, j)) {
                        let k = offset(p, d, (i, j));
                        assert(text(g0, p, d, n as int)[k] == word.word@[k]);
                    }
                }
                assert forall|k: int| 0 <= k < n implies #[trigger] text(grid@, p, d, n as int)[k]
                    == word.word@[k] by {
                    lemma_path_cells(g0, p, d, n as int, k);
                    assert(text(g0, p, d, n as int)[k] == word.word@[k]);
                }
                assert(text(grid@, p, d, n as int) =~= word.word@);
            }
        }
        grid
    }
}

/// Where a word lies in a grid: its text, first and last cell and heading.
#[derive(Debug, Eq, PartialOrd, Ord)]
pub struct WordLocation {
    pub word: String,
    pub start_cell: Cell,
    pub end_cell: Cell,
    pub direction: Direction,
}

/// The mathematical value of a `WordLocation`.
pub struct LocView {
    pub word: Seq<char>,
    pub start: Cell,
    pub end: Cell,
    pub direction: Direction,
}

impl View for WordLocation {
    type V = LocView;

    open spec fn view(&self) -> LocView {
        LocView {
            word: self.word@,
            start: self.start_cell,
            end: self.end_cell,
            direction: self.direction,
        }
    }
}

impl PartialEq for WordLocation {
    fn eq(&self, other: &WordLocation) -> (r: bool)
        ensures
            r == (self@ == other@),
    {
        self.word == other.word && self.start_cell == other.start_cell && self.end_cell
            == other.end_cell && self.direction == other.direction
    }
}

impl vstd::std_specs::cmp::PartialEqSpecImpl for WordLocation {
    open spec fn obeys_eq_spec() -> bool {
        true
    }

    open spec fn eq_spec(&self, other: &WordLocation) -> bool {
        self@ == other@
    }
}

/// The path of `l` is non-empty, starts inside the grid, stays inside it and
/// ends at `l.end`.
pub open spec fn loc_fits(g: Seq<Seq<char>>, l: LocView) -> bool {
    &&& l.word.len() >= 1
    &&& in_bounds(g, pos(l.start))
    &&& fits(g, pos(l.start), l.direction, l.word.len() as int)
    &&& pos(l.end) == walk(pos(l.start), l.direction, l.word.len() - 1)
}

/// `l` fits the grid and the characters along its path spell its word.
pub open spec fn located(g: Seq<Seq<char>>, l: LocView) -> bool {
    &&& loc_fits(g, l)
    &&& text(g, pos(l.start), l.direction, l.word.len() as int) == l.word
}

/// The same occurrence read from the other end.
pub open spec fn reversed(l: LocView) -> LocView {
    LocView { word: l.word.reverse(), start: l.end, end: l.start, direction: opposite(l.direction) }
}

/// Reading an occurrence from the other end twice gives it back.
pub proof fn lemma_reversed_involution(l: LocView)
    ensures
        reversed(reversed(l)) == l,
{
    assert(l.word.reverse().reverse() =~= l.word);
}

/// Read from its last cell backwards, an occurrence still lies in the grid.
pub proof fn lemma_reversed_located(g: Seq<Seq<char>>, l: LocView)
    requires
        located(g, l),
    ensures
        located(g, reversed(l)),
{
    let n = l.word.len() as int;
    let p = pos(l.start);
    let q = pos(l.end);
    let d = l.direction;
    lemma_path_cells(g, p, d, n, n - 1);
    assert forall|k: int| 0 <= k < n implies walk(q, opposite(d), k) == walk(p, d, n - 1 - k) by {}
    assert(text(g, q, opposite(d), n) =~= l.word.reverse());
}

impl WordLocation {
    /// The same occurrence read from its last cell backwards.
    pub fn into_reversed_location(self) -> (r: WordLocation)
        ensures
            r@ == reversed(self@),
    {
        let chars = crate::text::chars_of(self.word.as_str());
        let back = crate::text::reverse_chars(&chars);
        WordLocation {
            word: crate::text::string_of(&back),
            start_cell: self.end_cell,
            end_cell: self.start_cell,
            direction: opposite_direction(&self.direction),
        }
    }
}

impl Grid {
    /// Puts a random letter from `a` to `z` into every empty cell.
    pub fn fill_empty_cells_with_chars(&mut self, rng: &mut rand::rngs::ThreadRng)
        requires
            old(self).wf(),
        ensures
            final(self).wf(),
            final(self)@.len() == old(self)@.len(),
            forall|r: int|
                0 <= r < old(self)@.len() ==> #[trigger] final(self)@[r].len() == old(self)@[r].len(),
            forall|r: int, c: int|
                0 <= r < old(self)@.len() && 0 <= c < old(self)@[r].len() ==> {
                    &&& old(self)@[r][c] == EMPTY_CHAR ==> crate::random::is_lowercase(
                        #[trigger] final(self)@[r][c],
                    )
                    &&& old(self)@[r][c] != EMPTY_CHAR ==> final(self)@[r][c] == old(self)@[r][c]
                },
    {
        let ghost g0 = self@;
        let mut r: usize = 0;
        while r < self.chars.len()
            invariant
                self.wf(),
                self@.len() == g0.len(),
                r <= g0.len(),
                forall|i: int| 0 <= i < g0.len() ==> #[trigger] self@[i].len() == g0[i].len(),
                forall|i: int, c: int|
                    0 <= i < g0.len() && 0 <= c < g0[i].len() ==> {
                        &&& (i < r && g0[i][c] == EMPTY_CHAR) ==> crate::random::is_lowercase(
                            #[trigger] self@[i][c],
                        )
                        &&& (i >= r || g0[i][c] != EMPTY_CHAR) ==> self@[i][c] == g0[i][c]
                    },
            decreases g0.len() - r,
        {
            let mut c: usize = 0;
            let n = self.chars[r].len();
            assert(n == self@[r as int].len());
            while c < n
                invariant
                    self.wf(),
                    self@.len() == g0.len(),
                    r < g0.len(),
                    n == g0[r as int].len(),
                    c <= n,
                    forall|i: int| 0 <= i < g0.len() ==> #[trigger] self@[i].len() == g0[i].len(),
                    forall|i: int, k: int|
                        0 <= i < g0.len() && 0 <= k < g0[i].len() ==> {
                            &&& ((i < r || (i == r && k < c)) && g0[i][k] == EMPTY_CHAR)
                                ==> crate::random::is_lowercase(#[trigger] self@[i][k])
                            &&& (i > r || (i == r && k >= c) || g0[i][k] != EMPTY_CHAR)
                                ==> self@[i][k] == g0[i][k]
                        },
                decreases n - c,
            {
                let cell = Cell { row: r, col: c };
                proof {
                    assert(self@[r as int].len() == ncols(self@));
                    assert(self@[0].len() == ncols(self@));
                }
                if self.value_at_cell(&cell) == EMPTY_CHAR {
                    let ch = crate::random::random_char(rng);
                    self.set_value_at_cell(&cell, ch);
                }
                c = c + 1;
            }
            r = r + 1;
        }
    }
}

/// The characters of a row with a single space between neighbours.
pub open spec fn spaced(row: Seq<char>) -> Seq<char>
    decreases row.len(),
{
    if row.len() <= 1 {
        row
    } else {
        spaced(row.drop_last()).push(' ').push(row.last())
    }
}

/// The text of a grid: one line per row, its characters separated by single
/// spaces.
pub open spec fn rendered(g: Seq<Seq<char>>) -> Seq<char>
    decreases g.len(),
{
    if g.len() == 0 {
        Seq::empty()
    } else {
        rendered(g.drop_last()) + spaced(g.last()).push('\n')
    }
}

/// Relies on `Itertools::intersperse`: the row's characters with a space
/// between each two neighbours.
#[verifier::external_body]
fn spaced_row(row: &Vec<char>) -> (r: String)
    ensures
        r@ == spaced(row@),
{
    itertools::Itertools::intersperse(row.iter().copied(), ' ').collect::<String>()
}

impl Grid {
    /// The grid as text: one line per row, its characters separated by
    /// single spaces.
    pub fn render(&self) -> (r: String)
        ensures
            r@ == rendered(self@),
    {
        let mut out = String::new();
        let mut i: usize = 0;
        while i < self.chars.len()
            invariant
                i <= self@.len(),
                out@ == rendered(self@.subrange(0, i as int)),
            decreases self@.len() - i,
        {
            let line = spaced_row(&self.chars[i]);
            let ghost start = out@;
            out.append(line.as_str());
            crate::text::push_char(&mut out, '\n');
            proof {
                let next = self@.subrange(0, i + 1);
                assert(next.drop_last() =~= self@.subrange(0, i as int));
                assert(out@ =~= rendered(next));
            }
            i = i + 1;
        }
        assert(self@.subrange(0, self@.len() as int) =~= self@);
        out
    }
}

} // verus!
