use vstd::prelude::*;

use crate::grid::{
    fits, in_bounds, char_at, lemma_path_cells, ncols, nrows, pos, remaining, walk, written, Cell,
    Direction, Grid, EMPTY_CHAR,
};

verus! {

/// Every cell of the path is empty or already holds the letter that `w`
/// puts there.
pub open spec fn no_conflict(g: Seq<Seq<char>>, p: (int, int), d: Direction, w: Seq<char>) -> bool {
    forall|k: int|
        0 <= k < w.len() ==> (#[trigger] char_at(g, walk(p, d, k)) == EMPTY_CHAR || char_at(
            g,
            walk(p, d, k),
        ) == w[k])
}

/// `w` can be written from `p` towards `d`: the path stays inside the grid
/// and crosses no different letter.
pub open spec fn placeable(g: Seq<Seq<char>>, p: (int, int), d: Direction, w: Seq<char>) -> bool {
    fits(g, p, d, w.len() as int) && no_conflict(g, p, d, w)
}

/// Tries to write `word` from `start_cell` towards `direction`. Returns the
/// new grid, or `None` where the word runs off the grid or would overwrite
/// a different letter. The input grid is left as it was.
pub fn place_word_at_cell(grid: &Grid, start_cell: &Cell, direction: &Direction, word: &Vec<char>) -> (r:
    Option<Grid>)
    requires
        grid.wf(),
        in_bounds(grid@, pos(*start_cell)),
    ensures
        r is Some <==> placeable(grid@, pos(*start_cell), *direction, word@),
        r matches Some(g) ==> g.wf() && g@ == written(grid@, pos(*start_cell), *direction, word@),
{
    let ghost p = pos(*start_cell);
    let ghost g0 = grid@;
    let n = word.len();
    let room = grid.cells_remaining_in_direction(start_cell, direction);
    if room + 1 < n {
        return None;
    }
    let mut cell: Cell = *start_cell;
    let mut i: usize = 0;
    while i < n
        invariant
            n == word@.len(),
            i <= n,
            grid.wf(),
            grid@ == g0,
            p == pos(*start_cell),
            in_bounds(g0, p),
            fits(g0, p, *direction, n as int),
            i < n ==> pos(cell) == walk(p, *direction, i as int),
            forall|k: int|
                0 <= k < i ==> (#[trigger] char_at(g0, walk(p, *direction, k)) == EMPTY_CHAR
                    || char_at(g0, walk(p, *direction, k)) == word@[k]),
        decreases n - i,
    {
        proof {
            lemma_path_cells(g0, p, *direction, n as int, i as int);
        }
        let char_at_cell = grid.value_at_cell(&cell);
        if char_at_cell != EMPTY_CHAR && char_at_cell != word[i] {
            assert(char_at(g0, walk(p, *direction, i as int)) == char_at_cell);
            return None;
        }
        if i + 1 < n {
            proof {
                lemma_path_cells(g0, p, *direction, n as int, i + 1);
            }
            match grid.next_cell_in_direction(&cell, direction) {
                Some(next) => {
                    cell = next;
                },
                None => {},
            }
        }
        i = i + 1;
    }
    let mut g = grid.duplicate();
    g.add_word_at_location(start_cell, direction, word);
    Some(g)
}

/// On a grid of one cell no path leaves that cell, so no word longer than
/// one letter can be placed.
pub proof fn lemma_single_cell_grid(g: Seq<Seq<char>>, p: (int, int), d: Direction, w: Seq<char>)
    requires
        nrows(g) == 1,
        ncols(g) == 1,
        in_bounds(g, p),
    ensures
        remaining(g, p, d) == 0,
        w.len() > 1 ==> !placeable(g, p, d, w),
{
}

} // verus!
