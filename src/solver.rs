use std::collections::HashSet;
use vstd::prelude::*;

use crate::grid::{
    all_directions, dir_rank, fits, in_bounds, lemma_reversed_involution, located, opposite, pos,
    reversed, rows_view, text, walk, Cell, Direction, Grid, LocView, WordLocation,
};
use crate::order::{
    insert_sorted, lemma_sorted_locations, loc_views, sorted_locations, strictly_sorted,
};
use crate::text::{chars_of_words, word_views};

verus! {

broadcast use vstd::std_specs::hash::group_hash_axioms;

/// The words followed by each of them spelled backwards.
pub open spec fn with_reversals(ws: Seq<Seq<char>>) -> Seq<Seq<char>> {
    ws + Seq::new(ws.len(), |i: int| ws[i].reverse())
}

/// Reading `k` cells from `p` towards `d` gives a word of `ws`, and no
/// shorter reading from `p` towards `d` does.
pub open spec fn first_match(
    g: Seq<Seq<char>>,
    ws: Seq<Seq<char>>,
    p: (int, int),
    d: Direction,
    k: int,
) -> bool {
    &&& 1 <= k
    &&& fits(g, p, d, k)
    &&& ws.contains(text(g, p, d, k))
    &&& forall|j: int| 1 <= j < k ==> !ws.contains(#[trigger] text(g, p, d, j))
}

/// No reading from `p` towards `d` gives a word of `ws`.
pub open spec fn no_match(g: Seq<Seq<char>>, ws: Seq<Seq<char>>, p: (int, int), d: Direction) -> bool {
    forall|k: int| 1 <= k && fits(g, p, d, k) ==> !ws.contains(#[trigger] text(g, p, d, k))
}

/// `l` is the shortest word of `ws` read from its first cell towards its
/// heading.
pub open spec fn hit(g: Seq<Seq<char>>, ws: Seq<Seq<char>>, l: LocView) -> bool {
    located(g, l) && first_match(g, ws, pos(l.start), l.direction, l.word.len() as int)
}

/// What the direct scan reports: for every cell and each of the eight
/// headings, the shortest word of `ws` read from there.
pub open spec fn naive_matches(g: Seq<Seq<char>>, ws: Seq<Seq<char>>) -> Set<LocView> {
    Set::new(|l: LocView| hit(g, ws, l))
}

/// The four headings that the reversal scan reads along.
pub open spec fn forward_directions() -> Seq<Direction> {
    seq![Direction::UpRight, Direction::Right, Direction::DownRight, Direction::Down]
}

/// `d` is one of the four headings that the reversal scan reads along.
pub open spec fn is_forward(d: Direction) -> bool {
    d == Direction::UpRight || d == Direction::Right || d == Direction::DownRight || d
        == Direction::Down
}

/// `l` is found by the scan along `dirs` for the words `us`, and reported
/// as a word of `ws`: either as read, or turned around where the reading is
/// not itself a word of `ws`.
pub open spec fn scan_hit(
    g: Seq<Seq<char>>,
    ws: Seq<Seq<char>>,
    us: Seq<Seq<char>>,
    dirs: Seq<Direction>,
    l: LocView,
) -> bool {
    ||| dirs.contains(l.direction) && hit(g, us, l) && ws.contains(l.word)
    ||| dirs.contains(opposite(l.direction)) && hit(g, us, reversed(l)) && !ws.contains(
        reversed(l).word,
    )
}

/// What the reversal scan reports: along four headings only, the shortest
/// reading that is a word or a word spelled backwards, the latter turned
/// around.
pub open spec fn reverse_matches(g: Seq<Seq<char>>, ws: Seq<Seq<char>>) -> Set<LocView> {
    Set::new(|l: LocView| scan_hit(g, ws, with_reversals(ws), forward_directions(), l))
}

/// Two shortest matches from the same cell and heading are the same.
pub proof fn lemma_hit_unique(g: Seq<Seq<char>>, ws: Seq<Seq<char>>, a: LocView, b: LocView)
    requires
        hit(g, ws, a),
        hit(g, ws, b),
        a.start == b.start,
        a.direction == b.direction,
    ensures
        a == b,
{
    let p = pos(a.start);
    let d = a.direction;
    let ka = a.word.len() as int;
    let kb = b.word.len() as int;
    if ka < kb {
        assert(!ws.contains(text(g, p, d, ka)));
    }
    if kb < ka {
        assert(!ws.contains(text(g, p, d, kb)));
    }
    assert(a.word == b.word);
    assert(pos(a.end) == pos(b.end));
}

proof fn lemma_fits_step(g: Seq<Seq<char>>, p: (int, int), d: Direction, len: int)
    requires
        in_bounds(g, p),
        len >= 1,
    ensures
        fits(g, p, d, len) <==> in_bounds(g, walk(p, d, len - 1)),
{
}

/// What rules out a scan before it is made: nothing, the set of first
/// letters of the candidate words, or the set of their first two letters.
pub enum Prefilter {
    Nothing,
    FirstLetters(HashSet<u32>),
    FirstPairs(HashSet<u64>),
}

/// The key under which a first letter is kept.
pub open spec fn letter_code(c: char) -> u32 {
    c as u32
}

/// The key under which a pair of first letters is kept.
pub open spec fn pair_code(a: char, b: char) -> u64 {
    ((a as u32) as u64 * 0x110000 + (b as u32) as u64) as u64
}

fn pair_key(a: char, b: char) -> (r: u64)
    ensures
        r == pair_code(a, b),
{
    let x = a as u32;
    let y = b as u32;
    (x as u64) * 0x110000 + (y as u64)
}

/// The filter holds the key of every word of `us` long enough to have one.
pub open spec fn filter_ok(f: &Prefilter, us: Seq<Seq<char>>) -> bool {
    match f {
        Prefilter::Nothing => true,
        Prefilter::FirstLetters(s) => forall|w: Seq<char>|
            #[trigger] us.contains(w) && w.len() >= 1 ==> s@.contains(letter_code(w[0])),
        Prefilter::FirstPairs(s) => forall|w: Seq<char>|
            #[trigger] us.contains(w) && w.len() >= 2 ==> s@.contains(pair_code(w[0], w[1])),
    }
}

/// The strings and the characters of a list of candidate words agree.
pub open spec fn lexicon_ok(words: Seq<String>, chars: Seq<Vec<char>>) -> bool {
    words.len() == chars.len() && forall|i: int| 0 <= i < words.len() ==> #[trigger] words[i]@
        == chars[i]@
}

/// What a scan from one cell towards one heading reports.
pub open spec fn scan_outcome(
    g: Seq<Seq<char>>,
    us: Seq<Seq<char>>,
    c: Cell,
    d: Direction,
    r: Option<WordLocation>,
) -> bool {
    match r {
        Some(l) => l.start_cell == c && l.direction == d && hit(g, us, l@),
        None => no_match(g, us, pos(c), d),
    }
}

/// The first index at which `text` occurs among `chars`.
fn position_of(chars: &Vec<Vec<char>>, text: &Vec<char>) -> (r: Option<usize>)
    ensures
        r is None <==> !rows_view(chars@).contains(text@),
        r matches Some(i) ==> i < chars@.len() && chars@[i as int]@ == text@,
{
    let mut i: usize = 0;
    while i < chars.len()
        invariant
            i <= chars@.len(),
            forall|k: int| 0 <= k < i ==> chars@[k]@ != text@,
        decreases chars@.len() - i,
    {
        if crate::order::chars_equal(&chars[i], text) {
            assert(rows_view(chars@)[i as int] == text@);
            return Some(i);
        }
        i = i + 1;
    }
    assert forall|k: int| 0 <= k < rows_view(chars@).len() implies rows_view(chars@)[k]
        != text@ by {
        assert(chars@[k]@ != text@);
    }
    None
}

/// Reads from `start` towards `direction` one cell at a time and reports
/// the first reading that is one of the candidate words, or `None` once
/// the edge is reached.
fn find_word_in_direction(
    start: Cell,
    direction: &Direction,
    grid: &Grid,
    words: &Vec<String>,
    chars: &Vec<Vec<char>>,
) -> (r: Option<WordLocation>)
    requires
        grid.wf(),
        in_bounds(grid@, pos(start)),
        lexicon_ok(words@, chars@),
    ensures
        scan_outcome(grid@, rows_view(chars@), start, *direction, r),
{
    let ghost g = grid@;
    let ghost us = rows_view(chars@);
    let ghost p = pos(start);
    let d = *direction;
    let mut path: Vec<char> = Vec::new();
    let mut cell = start;
    loop
        invariant
            grid.wf(),
            g == grid@,
            us == rows_view(chars@),
            lexicon_ok(words@, chars@),
            p == pos(start),
            d == *direction,
            in_bounds(g, p),
            path@ == text(g, p, d, path@.len() as int),
            pos(cell) == walk(p, d, path@.len() as int),
            in_bounds(g, pos(cell)),
            fits(g, p, d, path@.len() + 1 as int),
            forall|j: int| 1 <= j <= path@.len() ==> !us.contains(#[trigger] text(g, p, d, j)),
        decreases crate::grid::remaining(g, p, d) - path@.len(),
    {
        let k = path.len();
        path.push(grid.value_at_cell(&cell));
        assert(path@ =~= text(g, p, d, k + 1));
        match position_of(chars, &path) {
            Some(i) => {
                assert(us[i as int] == path@);
                let word = words[i].clone();
                return Some(WordLocation { word, start_cell: start, end_cell: cell, direction: d });
            },
            None => {},
        }
        match grid.next_cell_in_direction(&cell, direction) {
            Some(next) => {
                proof {
                    lemma_fits_step(g, p, d, k + 2);
                }
                cell = next;
            },
            None => {
                proof {
                    lemma_fits_step(g, p, d, k + 2);
                }
                return None;
            },
        }
    }
}

/// Like `find_word_in_direction`, but gives up once the first two letters
/// read are the first two letters of no candidate word.
fn find_word_in_direction_hash(
    start: Cell,
    direction: &Direction,
    grid: &Grid,
    words: &Vec<String>,
    chars: &Vec<Vec<char>>,
    hashed: &HashSet<u64>,
) -> (r: Option<WordLocation>)
    requires
        grid.wf(),
        in_bounds(grid@, pos(start)),
        lexicon_ok(words@, chars@),
        filter_ok(&Prefilter::FirstPairs(*hashed), rows_view(chars@)),
    ensures
        scan_outcome(grid@, rows_view(chars@), start, *direction, r),
{
    let ghost g = grid@;
    let ghost us = rows_view(chars@);
    let ghost p = pos(start);
    let d = *direction;
    let mut path: Vec<char> = Vec::new();
    let mut cell = start;
    loop
        invariant
            grid.wf(),
            g == grid@,
            us == rows_view(chars@),
            lexicon_ok(words@, chars@),
            filter_ok(&Prefilter::FirstPairs(*hashed), us),
            p == pos(start),
            d == *direction,
            in_bounds(g, p),
            path@ == text(g, p, d, path@.len() as int),
            pos(cell) == walk(p, d, path@.len() as int),
            in_bounds(g, pos(cell)),
            fits(g, p, d, path@.len() + 1 as int),
            forall|j: int| 1 <= j <= path@.len() ==> !us.contains(#[trigger] text(g, p, d, j)),
        decreases crate::grid::remaining(g, p, d) - path@.len(),
    {
        let k = path.len();
        path.push(grid.value_at_cell(&cell));
        assert(path@ =~= text(g, p, d, k + 1));
        if path.len() == 2 && !hashed.contains(&pair_key(path[0], path[1])) {
            proof {
                assert forall|j: int| 1 <= j && fits(g, p, d, j) implies !us.contains(
                    #[trigger] text(g, p, d, j),
                ) by {
                    if j > 2 && us.contains(text(g, p, d, j)) {
                        let w = text(g, p, d, j);
                        assert(w[0] == path@[0] && w[1] == path@[1]);
                    }
                }
            }
            return None;
        }
        match position_of(chars, &path) {
            Some(i) => {
                assert(us[i as int] == path@);
                let word = words[i].clone();
                return Some(WordLocation { word, start_cell: start, end_cell: cell, direction: d });
            },
            None => {},
        }
        match grid.next_cell_in_direction(&cell, direction) {
            Some(next) => {
                proof {
                    lemma_fits_step(g, p, d, k + 2);
                }
                cell = next;
            },
            None => {
                proof {
                    lemma_fits_step(g, p, d, k + 2);
                }
                return None;
            },
        }
    }
}

/// Scans from one cell towards one heading, skipping the scan where the
/// filter shows that no candidate word can start there.
fn scan_cell(
    grid: &Grid,
    cell: Cell,
    direction: &Direction,
    words: &Vec<String>,
    chars: &Vec<Vec<char>>,
    filter: &Prefilter,
) -> (r: Option<WordLocation>)
    requires
        grid.wf(),
        in_bounds(grid@, pos(cell)),
        lexicon_ok(words@, chars@),
        filter_ok(filter, rows_view(chars@)),
    ensures
        scan_outcome(grid@, rows_view(chars@), cell, *direction, r),
{
    match filter {
        Prefilter::Nothing => find_word_in_direction(cell, direction, grid, words, chars),
        Prefilter::FirstLetters(hashed) => {
            let c = grid.value_at_cell(&cell);
            if hashed.contains(&(c as u32)) {
                find_word_in_direction(cell, direction, grid, words, chars)
            } else {
                proof {
                    let g = grid@;
                    let p = pos(cell);
                    let us = rows_view(chars@);
                    assert forall|k: int| 1 <= k && fits(g, p, *direction, k) implies !us.contains(
                        #[trigger] text(g, p, *direction, k),
                    ) by {
                        if us.contains(text(g, p, *direction, k)) {
                            assert(text(g, p, *direction, k)[0] == c);
                        }
                    }
                }
                None
            }
        },
        Prefilter::FirstPairs(hashed) => find_word_in_direction_hash(
            cell,
            direction,
            grid,
            words,
            chars,
            hashed,
        ),
    }
}

/// The cell and heading `(c, d)` come before row `row`, column `col` and
/// the `i`-th heading of `dirs` in the order of a scan.
spec fn scanned_before(c: Cell, d: Direction, row: int, col: int, i: int, dirs: Seq<Direction>) -> bool {
    ||| c.row < row
    ||| c.row == row && c.col < col
    ||| c.row == row && c.col == col && dirs.subrange(0, i).contains(d)
}

/// `l` is a `scan_hit` whose reading was made before the given point.
spec fn hit_before(
    g: Seq<Seq<char>>,
    ws: Seq<Seq<char>>,
    us: Seq<Seq<char>>,
    dirs: Seq<Direction>,
    l: LocView,
    row: int,
    col: int,
    i: int,
) -> bool {
    ||| dirs.contains(l.direction) && hit(g, us, l) && ws.contains(l.word) && scanned_before(
        l.start,
        l.direction,
        row,
        col,
        i,
        dirs,
    )
    ||| dirs.contains(opposite(l.direction)) && hit(g, us, reversed(l)) && !ws.contains(
        reversed(l).word,
    ) && scanned_before(l.end, opposite(l.direction), row, col, i, dirs)
}

proof fn lemma_subrange_step(dirs: Seq<Direction>, i: int, d: Direction)
    requires
        0 <= i < dirs.len(),
    ensures
        dirs.subrange(0, i + 1).contains(d) <==> (dirs.subrange(0, i).contains(d) || d == dirs[i]),
{
    let a = dirs.subrange(0, i + 1);
    let b = dirs.subrange(0, i);
    if a.contains(d) {
        let k = choose|k: int| 0 <= k < a.len() && a[k] == d;
        if k < i {
            assert(b[k] == d);
        }
    }
    if b.contains(d) {
        let k = choose|k: int| 0 <= k < b.len() && b[k] == d;
        assert(a[k] == d);
    }
    if d == dirs[i] {
        assert(a[i] == d);
    }
}

proof fn lemma_step_found(
    g: Seq<Seq<char>>,
    ws: Seq<Seq<char>>,
    us: Seq<Seq<char>>,
    dirs: Seq<Direction>,
    row: int,
    col: int,
    i: int,
    f: LocView,
    w: LocView,
)
    requires
        0 <= i < dirs.len(),
        hit(g, us, f),
        f.start.row == row,
        f.start.col == col,
        f.direction == dirs[i],
        w == (if ws.contains(f.word) {
            f
        } else {
            reversed(f)
        }),
    ensures
        forall|l: LocView| #[trigger]
            hit_before(g, ws, us, dirs, l, row, col, i + 1) <==> (hit_before(
                g,
                ws,
                us,
                dirs,
                l,
                row,
                col,
                i,
            ) || l == w),
{
    assert(dirs.contains(f.direction)) by {
        assert(dirs[i] == f.direction);
    }
    crate::grid::lemma_opposite_involution(f.direction);
    lemma_reversed_involution(f);
    lemma_subrange_step(dirs, i, f.direction);
    assert forall|l: LocView| #[trigger]
        hit_before(g, ws, us, dirs, l, row, col, i + 1) <==> (hit_before(
            g,
            ws,
            us,
            dirs,
            l,
            row,
            col,
            i,
        ) || l == w) by {
        lemma_subrange_step(dirs, i, l.direction);
        lemma_subrange_step(dirs, i, opposite(l.direction));
        crate::grid::lemma_opposite_involution(l.direction);
        lemma_reversed_involution(l);
        if hit_before(g, ws, us, dirs, l, row, col, i + 1) && !hit_before(
            g,
            ws,
            us,
            dirs,
            l,
            row,
            col,
            i,
        ) {
            if dirs.contains(l.direction) && hit(g, us, l) && ws.contains(l.word) && scanned_before(
                l.start,
                l.direction,
                row,
                col,
                i + 1,
                dirs,
            ) {
                lemma_hit_unique(g, us, l, f);
            } else {
                lemma_hit_unique(g, us, reversed(l), f);
            }
        }
    }
}

proof fn lemma_step_none(
    g: Seq<Seq<char>>,
    ws: Seq<Seq<char>>,
    us: Seq<Seq<char>>,
    dirs: Seq<Direction>,
    row: int,
    col: int,
    i: int,
    c: Cell,
)
    requires
        0 <= i < dirs.len(),
        c.row == row,
        c.col == col,
        no_match(g, us, pos(c), dirs[i]),
    ensures
        forall|l: LocView| #[trigger]
            hit_before(g, ws, us, dirs, l, row, col, i + 1) <==> hit_before(
                g,
                ws,
                us,
                dirs,
                l,
                row,
                col,
                i,
            ),
{
    assert forall|l: LocView| #[trigger]
        hit_before(g, ws, us, dirs, l, row, col, i + 1) <==> hit_before(
            g,
            ws,
            us,
            dirs,
            l,
            row,
            col,
            i,
        ) by {
        lemma_subrange_step(dirs, i, l.direction);
        lemma_subrange_step(dirs, i, opposite(l.direction));
        if hit(g, us, l) && l.start == c && l.direction == dirs[i] {
            assert(us.contains(text(g, pos(c), dirs[i], l.word.len() as int)));
        }
        let r = reversed(l);
        if hit(g, us, r) && r.start == c && r.direction == dirs[i] {
            assert(us.contains(text(g, pos(c), dirs[i], r.word.len() as int)));
        }
    }
}

proof fn lemma_next_col(
    g: Seq<Seq<char>>,
    ws: Seq<Seq<char>>,
    us: Seq<Seq<char>>,
    dirs: Seq<Direction>,
    row: int,
    col: int,
)
    ensures
        forall|l: LocView| #[trigger]
            hit_before(g, ws, us, dirs, l, row, col + 1, 0) <==> hit_before(
                g,
                ws,
                us,
                dirs,
                l,
                row,
                col,
                dirs.len() as int,
            ),
{
    assert(dirs.subrange(0, dirs.len() as int) =~= dirs);
    assert forall|l: LocView| #[trigger]
        hit_before(g, ws, us, dirs, l, row, col + 1, 0) <==> hit_before(
            g,
            ws,
            us,
            dirs,
            l,
            row,
            col,
            dirs.len() as int,
        ) by {
        assert(!dirs.subrange(0, 0).contains(l.direction));
        assert(!dirs.subrange(0, 0).contains(opposite(l.direction)));
    }
}

proof fn lemma_next_row(
    g: Seq<Seq<char>>,
    ws: Seq<Seq<char>>,
    us: Seq<Seq<char>>,
    dirs: Seq<Direction>,
    row: int,
)
    ensures
        forall|l: LocView| #[trigger]
            hit_before(g, ws, us, dirs, l, row + 1, 0, 0) <==> hit_before(
                g,
                ws,
                us,
                dirs,
                l,
                row,
                crate::grid::ncols(g),
                0,
            ),
{
    assert forall|l: LocView| #[trigger]
        hit_before(g, ws, us, dirs, l, row + 1, 0, 0) <==> hit_before(
            g,
            ws,
            us,
            dirs,
            l,
            row,
            crate::grid::ncols(g),
            0,
        ) by {
        assert(!dirs.subrange(0, 0).contains(l.direction));
        assert(!dirs.subrange(0, 0).contains(opposite(l.direction)));
    }
}

/// Scans every cell towards each heading of `directions` for the candidate
/// words, turns around each reading that is not one of `originals`, and
/// returns the findings in increasing order.
fn scan_grid(
    grid: &Grid,
    directions: &Vec<Direction>,
    originals: &Vec<Vec<char>>,
    words: &Vec<String>,
    chars: &Vec<Vec<char>>,
    filter: &Prefilter,
) -> (r: Vec<WordLocation>)
    requires
        grid.wf(),
        lexicon_ok(words@, chars@),
        filter_ok(filter, rows_view(chars@)),
    ensures
        strictly_sorted(loc_views(r@)),
        loc_views(r@).to_set() == Set::new(
            |l: LocView|
                scan_hit(grid@, rows_view(originals@), rows_view(chars@), directions@, l),
        ),
{
    let ghost g = grid@;
    let ghost ws = rows_view(originals@);
    let ghost us = rows_view(chars@);
    let ghost dirs = directions@;
    let rows = grid.row_count();
    let cols = grid.col_count();
    let mut found: Vec<WordLocation> = Vec::new();
    assert(loc_views(found@) =~= Seq::<LocView>::empty());
    let mut row: usize = 0;
    while row < rows
        invariant
            grid.wf(),
            g == grid@,
            ws == rows_view(originals@),
            us == rows_view(chars@),
            dirs == directions@,
            lexicon_ok(words@, chars@),
            filter_ok(filter, us),
            rows == crate::grid::nrows(g),
            cols == crate::grid::ncols(g),
            row <= rows,
            strictly_sorted(loc_views(found@)),
            forall|l: LocView|
                loc_views(found@).contains(l) <==> #[trigger] hit_before(
                    g,
                    ws,
                    us,
                    dirs,
                    l,
                    row as int,
                    0,
                    0,
                ),
        decreases rows - row,
    {
        let mut col: usize = 0;
        while col < cols
            invariant
                grid.wf(),
                g == grid@,
                ws == rows_view(originals@),
                us == rows_view(chars@),
                dirs == directions@,
                lexicon_ok(words@, chars@),
                filter_ok(filter, us),
                rows == crate::grid::nrows(g),
                cols == crate::grid::ncols(g),
                row < rows,
                col <= cols,
                strictly_sorted(loc_views(found@)),
                forall|l: LocView|
                    loc_views(found@).contains(l) <==> #[trigger] hit_before(
                        g,
                        ws,
                        us,
                        dirs,
                        l,
                        row as int,
                        col as int,
                        0,
                    ),
            decreases cols - col,
        {
            let cell = Cell { row, col };
            let mut i: usize = 0;
            while i < directions.len()
                invariant
                    grid.wf(),
                    g == grid@,
                    ws == rows_view(originals@),
                    us == rows_view(chars@),
                    dirs == directions@,
                    lexicon_ok(words@, chars@),
                    filter_ok(filter, us),
                    rows == crate::grid::nrows(g),
                    cols == crate::grid::ncols(g),
                    row < rows,
                    col < cols,
                    cell == (Cell { row, col }),
                    i <= dirs.len(),
                    strictly_sorted(loc_views(found@)),
                    forall|l: LocView|
                        loc_views(found@).contains(l) <==> #[trigger] hit_before(
                            g,
                            ws,
                            us,
                            dirs,
                            l,
                            row as int,
                            col as int,
                            i as int,
                        ),
                decreases dirs.len() - i,
            {
                let direction = directions[i];
                let outcome = scan_cell(grid, cell, &direction, words, chars, filter);
                match outcome {
                    Some(f) => {
                        let ghost fv = f@;
                        let read = crate::text::chars_of(f.word.as_str());
                        let known = position_of(originals, &read).is_some();
                        let w = if known {
                            f
                        } else {
                            f.into_reversed_location()
                        };
                        let ghost wv = w@;
                        let ghost before = loc_views(found@);
                        proof {
                            lemma_step_found(g, ws, us, dirs, row as int, col as int, i as int, fv, wv);
                        }
                        insert_sorted(&mut found, w);
                        proof {
                            assert forall|l: LocView|
                                loc_views(found@).contains(l) <==> #[trigger] hit_before(
                                    g,
                                    ws,
                                    us,
                                    dirs,
                                    l,
                                    row as int,
                                    col as int,
                                    i + 1,
                                ) by {
                                assert(loc_views(found@).to_set().contains(l) == loc_views(
                                    found@,
                                ).contains(l));
                                assert(before.to_set().contains(l) == before.contains(l));
                            }
                        }
                    },
                    None => {
                        proof {
                            lemma_step_none(g, ws, us, dirs, row as int, col as int, i as int, cell);
                        }
                    },
                }
                i = i + 1;
            }
            proof {
                lemma_next_col(g, ws, us, dirs, row as int, col as int);
            }
            col = col + 1;
        }
        proof {
            lemma_next_row(g, ws, us, dirs, row as int);
        }
        row = row + 1;
    }
    proof {
        assert forall|l: LocView|
            loc_views(found@).to_set().contains(l) <==> scan_hit(g, ws, us, dirs, l) by {
            assert(loc_views(found@).to_set().contains(l) == loc_views(found@).contains(l));
            assert(loc_views(found@).contains(l) <==> hit_before(
                g,
                ws,
                us,
                dirs,
                l,
                row as int,
                0,
                0,
            ));
            if scan_hit(g, ws, us, dirs, l) {
                if dirs.contains(l.direction) && hit(g, us, l) && ws.contains(l.word) {
                    assert(in_bounds(g, pos(l.start)));
                } else {
                    assert(in_bounds(g, pos(reversed(l).start)));
                }
            }
        }
        assert(loc_views(found@).to_set() =~= Set::new(|l: LocView| scan_hit(g, ws, us, dirs, l)));
    }
    found
}

/// An owned copy of each word.
fn strings_of(words: &[&str]) -> (r: Vec<String>)
    ensures
        r@.len() == words@.len(),
        forall|k: int| 0 <= k < words@.len() ==> #[trigger] r@[k]@ == words@[k]@,
{
    let mut r: Vec<String> = Vec::new();
    let mut i: usize = 0;
    while i < words.len()
        invariant
            i <= words@.len(),
            r@.len() == i,
            forall|k: int| 0 <= k < i ==> #[trigger] r@[k]@ == words@[k]@,
        decreases words@.len() - i,
    {
        r.push(words[i].to_owned());
        i = i + 1;
    }
    r
}

/// The candidate words of a solve: the given words, as strings and as
/// characters.
fn lexicon_of(words: &[&str]) -> (r: (Vec<String>, Vec<Vec<char>>))
    ensures
        lexicon_ok(r.0@, r.1@),
        rows_view(r.1@) == word_views(words@),
{
    let chars = chars_of_words(words);
    let strings = strings_of(words);
    proof {
        assert(rows_view(chars@).len() == word_views(words@).len());
        assert forall|k: int| 0 <= k < strings@.len() implies #[trigger] strings@[k]@ == chars@[k]@ by {
            assert(rows_view(chars@)[k] == word_views(words@)[k]);
            assert(strings@[k]@ == words@[k]@);
        }
    }
    (strings, chars)
}

/// Extends a lexicon with each of its words spelled backwards.
fn add_reversals(words: &mut Vec<String>, chars: &mut Vec<Vec<char>>)
    requires
        lexicon_ok(old(words)@, old(chars)@),
    ensures
        lexicon_ok(final(words)@, final(chars)@),
        rows_view(final(chars)@) == with_reversals(rows_view(old(chars)@)),
{
    let ghost ws = rows_view(chars@);
    let n = chars.len();
    let mut i: usize = 0;
    while i < n
        invariant
            n == ws.len(),
            i <= n,
            lexicon_ok(words@, chars@),
            chars@.len() == n + i,
            forall|k: int| 0 <= k < n ==> #[trigger] chars@[k]@ == ws[k],
            forall|k: int| n <= k < n + i ==> #[trigger] chars@[k]@ == ws[k - n].reverse(),
        decreases n - i,
    {
        let back = crate::text::reverse_chars(&chars[i]);
        let text = crate::text::string_of(&back);
        chars.push(back);
        words.push(text);
        i = i + 1;
    }
    assert forall|k: int| 0 <= k < chars@.len() implies rows_view(chars@)[k] == with_reversals(
        ws,
    )[k] by {
        if k >= n {
            assert(chars@[k]@ == ws[k - n].reverse());
        } else {
            assert(chars@[k]@ == ws[k]);
        }
    }
    assert(rows_view(chars@) =~= with_reversals(ws));
}

/// The key of the first letter of every word.
fn first_letter_set(chars: &Vec<Vec<char>>) -> (r: HashSet<u32>)
    ensures
        filter_ok(&Prefilter::FirstLetters(r), rows_view(chars@)),
{
    let mut hashed: HashSet<u32> = HashSet::new();
    let mut i: usize = 0;
    while i < chars.len()
        invariant
            i <= chars@.len(),
            forall|k: int|
                0 <= k < i && #[trigger] chars@[k]@.len() >= 1 ==> hashed@.contains(
                    letter_code(chars@[k]@[0]),
                ),
        decreases chars@.len() - i,
    {
        if chars[i].len() >= 1 {
            hashed.insert(chars[i][0] as u32);
        }
        i = i + 1;
    }
    proof {
        assert forall|w: Seq<char>| #[trigger]
            rows_view(chars@).contains(w) && w.len() >= 1 implies hashed@.contains(
            letter_code(w[0]),
        ) by {
            let k = choose|k: int| 0 <= k < rows_view(chars@).len() && rows_view(chars@)[k] == w;
            assert(chars@[k]@ == w);
        }
    }
    hashed
}

/// The key of the first two letters of every word of two letters or more.
fn first_pair_set(chars: &Vec<Vec<char>>) -> (r: HashSet<u64>)
    ensures
        filter_ok(&Prefilter::FirstPairs(r), rows_view(chars@)),
{
    let mut hashed: HashSet<u64> = HashSet::new();
    let mut i: usize = 0;
    while i < chars.len()
        invariant
            i <= chars@.len(),
            forall|k: int|
                0 <= k < i && #[trigger] chars@[k]@.len() >= 2 ==> hashed@.contains(
                    pair_code(chars@[k]@[0], chars@[k]@[1]),
                ),
        decreases chars@.len() - i,
    {
        if chars[i].len() >= 2 {
            hashed.insert(pair_key(chars[i][0], chars[i][1]));
        }
        i = i + 1;
    }
    proof {
        assert forall|w: Seq<char>| #[trigger]
            rows_view(chars@).contains(w) && w.len() >= 2 implies hashed@.contains(
            pair_code(w[0], w[1]),
        ) by {
            let k = choose|k: int| 0 <= k < rows_view(chars@).len() && rows_view(chars@)[k] == w;
            assert(chars@[k]@ == w);
        }
    }
    hashed
}

/// The four headings that the reversal scan reads along.
fn forward_direction_list() -> (r: Vec<Direction>)
    ensures
        r@ == forward_directions(),
{
    let r = vec![Direction::UpRight, Direction::Right, Direction::DownRight, Direction::Down];
    assert(r@ =~= forward_directions());
    r
}

/// The scan along all eight headings for the words themselves reports
/// exactly the direct matches.
proof fn lemma_naive_scan(g: Seq<Seq<char>>, ws: Seq<Seq<char>>)
    ensures
        Set::new(|l: LocView| scan_hit(g, ws, ws, all_directions(), l)) == naive_matches(g, ws),
{
    assert forall|l: LocView|
        scan_hit(g, ws, ws, all_directions(), l) <==> #[trigger] hit(g, ws, l) by {
        assert(all_directions()[dir_rank(l.direction)] == l.direction);
    }
    assert(Set::new(|l: LocView| scan_hit(g, ws, ws, all_directions(), l)) =~= naive_matches(
        g,
        ws,
    ));
}

/// Finds, for every cell and each of the eight headings, the shortest
/// reading that is one of `words`, and returns the findings in increasing
/// order.
pub fn solve_grid_naive(grid: &Grid, words: &[&str]) -> (r: Vec<WordLocation>)
    requires
        grid.wf(),
    ensures
        loc_views(r@) == sorted_locations(naive_matches(grid@, word_views(words@))),
{
    let (strings, chars) = lexicon_of(words);
    let directions = Direction::iterator();
    let r = scan_grid(grid, &directions, &chars, &strings, &chars, &Prefilter::Nothing);
    proof {
        lemma_naive_scan(grid@, word_views(words@));
        lemma_sorted_locations(loc_views(r@), naive_matches(grid@, word_views(words@)));
    }
    r
}

/// As `solve_grid_naive`, but starts no scan from a cell whose letter
/// begins no word.
pub fn solve_grid_hash_first_letter(grid: &Grid, words: &[&str]) -> (r: Vec<WordLocation>)
    requires
        grid.wf(),
    ensures
        loc_views(r@) == sorted_locations(naive_matches(grid@, word_views(words@))),
{
    let (strings, chars) = lexicon_of(words);
    let hashed = first_letter_set(&chars);
    let directions = Direction::iterator();
    let r = scan_grid(grid, &directions, &chars, &strings, &chars, &Prefilter::FirstLetters(hashed));
    proof {
        lemma_naive_scan(grid@, word_views(words@));
        lemma_sorted_locations(loc_views(r@), naive_matches(grid@, word_views(words@)));
    }
    r
}

/// Scans only four headings, for the words and for the words spelled
/// backwards; a backward reading is reported turned around. Returns the
/// findings in increasing order.
pub fn solve_grid_reverse_words(grid: &Grid, words: &[&str]) -> (r: Vec<WordLocation>)
    requires
        grid.wf(),
    ensures
        loc_views(r@) == sorted_locations(reverse_matches(grid@, word_views(words@))),
{
    let (mut all_words, mut all_chars) = lexicon_of(words);
    let (_, originals) = lexicon_of(words);
    add_reversals(&mut all_words, &mut all_chars);
    let directions = forward_direction_list();
    let r = scan_grid(grid, &directions, &originals, &all_words, &all_chars, &Prefilter::Nothing);
    proof {
        assert(Set::new(
            |l: LocView|
                scan_hit(grid@, rows_view(originals@), rows_view(all_chars@), directions@, l),
        ) =~= reverse_matches(grid@, word_views(words@)));
        lemma_sorted_locations(loc_views(r@), reverse_matches(grid@, word_views(words@)));
    }
    r
}

/// As `solve_grid_reverse_words`, but starts no scan from a cell whose
/// letter begins no word, forwards or backwards.
pub fn solve_grid_reverse_hash_first_letter(grid: &Grid, words: &[&str]) -> (r: Vec<WordLocation>)
    requires
        grid.wf(),
    ensures
        loc_views(r@) == sorted_locations(reverse_matches(grid@, word_views(words@))),
{
    let (mut all_words, mut all_chars) = lexicon_of(words);
    let (_, originals) = lexicon_of(words);
    add_reversals(&mut all_words, &mut all_chars);
    let hashed = first_letter_set(&all_chars);
    let directions = forward_direction_list();
    let r = scan_grid(
        grid,
        &directions,
        &originals,
        &all_words,
        &all_chars,
        &Prefilter::FirstLetters(hashed),
    );
    proof {
        assert(Set::new(
            |l: LocView|
                scan_hit(grid@, rows_view(originals@), rows_view(all_chars@), directions@, l),
        ) =~= reverse_matches(grid@, word_views(words@)));
        lemma_sorted_locations(loc_views(r@), reverse_matches(grid@, word_views(words@)));
    }
    r
}

/// As `solve_grid_reverse_words`, but abandons a scan once its first two
/// letters begin no word, forwards or backwards.
pub fn solve_grid_reverse_hash_first_two_letters(grid: &Grid, words: &[&str]) -> (r: Vec<
    WordLocation,
>)
    requires
        grid.wf(),
    ensures
        loc_views(r@) == sorted_locations(reverse_matches(grid@, word_views(words@))),
{
    let (mut all_words, mut all_chars) = lexicon_of(words);
    let (_, originals) = lexicon_of(words);
    add_reversals(&mut all_words, &mut all_chars);
    let hashed = first_pair_set(&all_chars);
    let directions = forward_direction_list();
    let r = scan_grid(
        grid,
        &directions,
        &originals,
        &all_words,
        &all_chars,
        &Prefilter::FirstPairs(hashed),
    );
    proof {
        assert(Set::new(
            |l: LocView|
                scan_hit(grid@, rows_view(originals@), rows_view(all_chars@), directions@, l),
        ) =~= reverse_matches(grid@, word_views(words@)));
        lemma_sorted_locations(loc_views(r@), reverse_matches(grid@, word_views(words@)));
    }
    r
}

/// No word of `us` is a proper prefix of another.
pub open spec fn prefix_free(us: Seq<Seq<char>>) -> bool {
    forall|a: Seq<char>, b: Seq<char>|
        #[trigger] us.contains(a) && #[trigger] us.contains(b) && a.len() < b.len() ==> b.subrange(
            0,
            a.len() as int,
        ) != a
}

/// No word, read forwards or backwards, begins another word read forwards
/// or backwards, and no word read backwards is a word (so no word is a
/// palindrome).
pub open spec fn unambiguous(ws: Seq<Seq<char>>) -> bool {
    &&& prefix_free(with_reversals(ws))
    &&& forall|w: Seq<char>| #[trigger] ws.contains(w) ==> !ws.contains(w.reverse())
}

proof fn lemma_with_reversals_contains(ws: Seq<Seq<char>>, w: Seq<char>)
    ensures
        ws.contains(w) ==> with_reversals(ws).contains(w),
        ws.contains(w) ==> with_reversals(ws).contains(w.reverse()),
        with_reversals(ws).contains(w) ==> ws.contains(w) || ws.contains(w.reverse()),
{
    let us = with_reversals(ws);
    if ws.contains(w) {
        let k = choose|k: int| 0 <= k < ws.len() && ws[k] == w;
        assert(us[k] == w);
        assert(us[ws.len() + k] == w.reverse());
    }
    if us.contains(w) {
        let k = choose|k: int| 0 <= k < us.len() && us[k] == w;
        if k >= ws.len() {
            assert(w == ws[k - ws.len()].reverse());
            assert(w.reverse() =~= ws[k - ws.len()]);
        } else {
            assert(ws[k] == w);
        }
    }
}

/// Where no word of `us` begins another and `us` holds every word of `ws`,
/// a word of `ws` that lies in the grid is the first match read from its
/// first cell.
proof fn lemma_hit_when_prefix_free(g: Seq<Seq<char>>, ws: Seq<Seq<char>>, us: Seq<Seq<char>>, l: LocView)
    requires
        prefix_free(us),
        forall|w: Seq<char>| #[trigger] ws.contains(w) ==> us.contains(w),
        located(g, l),
        ws.contains(l.word),
    ensures
        hit(g, ws, l),
{
    let p = pos(l.start);
    let d = l.direction;
    let k = l.word.len() as int;
    assert forall|j: int| 1 <= j < k implies !ws.contains(#[trigger] text(g, p, d, j)) by {
        if ws.contains(text(g, p, d, j)) {
            assert(text(g, p, d, j) =~= l.word.subrange(0, j));
            assert(us.contains(text(g, p, d, j)));
            assert(us.contains(l.word));
        }
    }
}

proof fn lemma_forward_opposite(d: Direction)
    ensures
        is_forward(d) || is_forward(opposite(d)),
        forward_directions().contains(d) <==> is_forward(d),
{
    if is_forward(d) {
        let k: int = if d == Direction::UpRight {
            0
        } else if d == Direction::Right {
            1
        } else if d == Direction::DownRight {
            2
        } else {
            3
        };
        assert(forward_directions()[k] == d);
    }
}

/// On a word list that is unambiguous, the scan along four headings with
/// reversed words finds exactly what the direct scan along all eight
/// finds, so all five solvers return the same sorted list.
pub proof fn lemma_solvers_agree(g: Seq<Seq<char>>, ws: Seq<Seq<char>>)
    requires
        unambiguous(ws),
    ensures
        naive_matches(g, ws) == reverse_matches(g, ws),
        sorted_locations(naive_matches(g, ws)) == sorted_locations(reverse_matches(g, ws)),
{
    let us = with_reversals(ws);
    assert forall|w: Seq<char>| #[trigger] ws.contains(w) implies us.contains(w) by {
        lemma_with_reversals_contains(ws, w);
    }
    assert forall|l: LocView| #[trigger]
        naive_matches(g, ws).contains(l) <==> reverse_matches(g, ws).contains(l) by {
        lemma_forward_opposite(l.direction);
        lemma_forward_opposite(opposite(l.direction));
        crate::grid::lemma_opposite_involution(l.direction);
        lemma_reversed_involution(l);
        lemma_with_reversals_contains(ws, l.word);
        lemma_with_reversals_contains(ws, l.word.reverse());
        assert(l.word.reverse().reverse() =~= l.word);
        if hit(g, ws, l) {
            if is_forward(l.direction) {
                lemma_hit_when_prefix_free(g, us, us, l);
            } else {
                crate::grid::lemma_reversed_located(g, l);
                lemma_hit_when_prefix_free(g, us, us, reversed(l));
            }
        }
        if scan_hit(g, ws, us, forward_directions(), l) {
            if forward_directions().contains(l.direction) && hit(g, us, l) && ws.contains(l.word) {
                lemma_hit_when_prefix_free(g, ws, us, l);
            } else {
                crate::grid::lemma_reversed_located(g, reversed(l));
                lemma_hit_when_prefix_free(g, ws, us, l);
            }
        }
    }
    assert(naive_matches(g, ws) =~= reverse_matches(g, ws));
}

/// Some reported location reads `w`.
pub open spec fn reports_word(s: Set<LocView>, w: Seq<char>) -> bool {
    exists|l: LocView| #[trigger] s.contains(l) && l.word == w
}

/// On an unambiguous list of non-empty words, each of which can be read in
/// the grid (as `generate_grid` promises of the words it hides), every word
/// is reported by the direct scan and by the reversal scan: no solver misses
/// one.
pub proof fn lemma_hidden_words_found(g: Seq<Seq<char>>, ws: Seq<Seq<char>>)
    requires
        crate::grid::nrows(g) <= usize::MAX,
        crate::grid::ncols(g) <= usize::MAX,
        unambiguous(ws),
        forall|i: int|
            0 <= i < ws.len() ==> ws[i].len() >= 1 && crate::generator::contains_word(
                g,
                #[trigger] ws[i],
            ),
    ensures
        forall|i: int| 0 <= i < ws.len() ==> reports_word(naive_matches(g, ws), #[trigger] ws[i]),
        forall|i: int| 0 <= i < ws.len() ==> reports_word(reverse_matches(g, ws), #[trigger] ws[i]),
{
    let us = with_reversals(ws);
    assert forall|w: Seq<char>| #[trigger] ws.contains(w) implies us.contains(w) by {
        lemma_with_reversals_contains(ws, w);
    }
    lemma_solvers_agree(g, ws);
    assert forall|i: int| 0 <= i < ws.len() implies reports_word(naive_matches(g, ws), #[trigger] ws[i]) by {
        let w = ws[i];
        assert(crate::generator::contains_word(g, w));
        let (p, d) = choose|p: (int, int), d: Direction| #[trigger]
            crate::generator::spells_at(g, w, p, d);
        let k = w.len() as int;
        crate::grid::lemma_path_cells(g, p, d, k, k - 1);
        let e = walk(p, d, k - 1);
        let l = LocView {
            word: w,
            start: Cell { row: p.0 as usize, col: p.1 as usize },
            end: Cell { row: e.0 as usize, col: e.1 as usize },
            direction: d,
        };
        assert(located(g, l));
        lemma_hit_when_prefix_free(g, ws, us, l);
        assert(naive_matches(g, ws).contains(l));
    }
}

} // verus!
