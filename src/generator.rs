use rand::rngs::ThreadRng;
use vstd::arithmetic::power::{lemma_pow_positive, pow};
use vstd::prelude::*;

use crate::grid::{
    blank, fits, in_bounds, lemma_path_cells, ncols, offset, on_path, pos, rectangular, rows_view,
    text, walk, written, Cell, Direction, Grid, EMPTY_CHAR,
};
use crate::placement::{place_word_at_cell, placeable};
use crate::random::{is_lowercase, shuffle};
use crate::text::{chars_of_words, word_views};

verus! {

broadcast use vstd::seq_lib::group_seq_properties;

/// `w` is spelled from `p` towards `d`.
pub open spec fn spells_at(g: Seq<Seq<char>>, w: Seq<char>, p: (int, int), d: Direction) -> bool {
    in_bounds(g, p) && fits(g, p, d, w.len() as int) && text(g, p, d, w.len() as int) == w
}

/// `w` can be read somewhere in the grid, along one of the eight headings.
pub open spec fn contains_word(g: Seq<Seq<char>>, w: Seq<char>) -> bool {
    exists|p: (int, int), d: Direction| #[trigger] spells_at(g, w, p, d)
}

/// No cell of the grid is empty.
pub open spec fn complete(g: Seq<Seq<char>>) -> bool {
    forall|i: int, j: int| in_bounds(g, (i, j)) ==> #[trigger] g[i][j] != EMPTY_CHAR
}

/// The grid has `rows` rows of `cols` cells each.
pub open spec fn has_size(g: Seq<Seq<char>>, rows: int, cols: int) -> bool {
    g.len() == rows && forall|i: int| 0 <= i < g.len() ==> #[trigger] g[i].len() == cols
}

/// `h` has the size of `g` and keeps every letter of `g`.
pub open spec fn keeps_letters(h: Seq<Seq<char>>, g: Seq<Seq<char>>) -> bool {
    &&& h.len() == g.len()
    &&& forall|i: int| 0 <= i < g.len() ==> #[trigger] h[i].len() == g[i].len()
    &&& forall|i: int, j: int|
        0 <= i < g.len() && 0 <= j < g[i].len() && g[i][j] != EMPTY_CHAR ==> #[trigger] h[i][j]
            == g[i][j]
}

/// A word stays readable in a grid that keeps the letters of the grid it
/// was read in.
proof fn lemma_keeps_word(h: Seq<Seq<char>>, g: Seq<Seq<char>>, w: Seq<char>)
    requires
        rectangular(g),
        keeps_letters(h, g),
        contains_word(g, w),
        !w.contains(EMPTY_CHAR),
    ensures
        contains_word(h, w),
{
    let (p, d) = choose|p: (int, int), d: Direction| #[trigger] spells_at(g, w, p, d);
    let n = w.len() as int;
    if g.len() > 0 {
        assert(h[0].len() == g[0].len());
    }
    assert forall|k: int| 0 <= k < n implies #[trigger] text(h, p, d, n)[k] == w[k] by {
        lemma_path_cells(g, p, d, n, k);
        let q = walk(p, d, k);
        assert(text(g, p, d, n)[k] == w[k]);
        assert(g[q.0].len() == ncols(g));
        assert(g[q.0][q.1] != EMPTY_CHAR);
    }
    assert(text(h, p, d, n) =~= w);
    assert(spells_at(h, w, p, d));
}

/// Writing a word where it is placeable keeps every letter and spells the
/// word.
proof fn lemma_written_keeps(g: Seq<Seq<char>>, p: (int, int), d: Direction, w: Seq<char>)
    requires
        rectangular(g),
        in_bounds(g, p),
        placeable(g, p, d, w),
    ensures
        keeps_letters(written(g, p, d, w), g),
        rectangular(written(g, p, d, w)),
        spells_at(written(g, p, d, w), w, p, d),
{
    let h = written(g, p, d, w);
    let n = w.len() as int;
    assert forall|i: int, j: int|
        0 <= i < g.len() && 0 <= j < g[i].len() && g[i][j] != EMPTY_CHAR implies #[trigger] h[i][j]
        == g[i][j] by {
        if on_path(p, d, n, (i, j)) {
            let k = offset(p, d, (i, j));
            assert(walk(p, d, k) == (i, j));
            assert(crate::grid::char_at(g, walk(p, d, k)) == EMPTY_CHAR || crate::grid::char_at(
                g,
                walk(p, d, k),
            ) == w[k]);
        }
    }
    assert forall|k: int| 0 <= k < n implies #[trigger] text(h, p, d, n)[k] == w[k] by {
        lemma_path_cells(g, p, d, n, k);
        let q = walk(p, d, k);
        assert(g[q.0].len() == ncols(g));
    }
    assert(text(h, p, d, n) =~= w);
    if g.len() > 0 {
        assert(h[0].len() == g[0].len());
    }
}

/// The index of the first word of `s` longer than `n`, or `s.len()`.
pub open spec fn first_longer(s: Seq<Seq<char>>, n: nat) -> int
    decreases s.len(),
{
    if s.len() == 0 {
        0
    } else if s[0].len() > n {
        0
    } else {
        1 + first_longer(s.drop_first(), n)
    }
}

/// The words ordered by increasing length, words of equal length kept in
/// their order.
pub open spec fn by_length(ws: Seq<Seq<char>>) -> Seq<Seq<char>>
    decreases ws.len(),
{
    if ws.len() == 0 {
        ws
    } else {
        let s = by_length(ws.drop_last());
        s.insert(first_longer(s, ws.last().len()), ws.last())
    }
}

proof fn lemma_first_longer(s: Seq<Seq<char>>, n: nat, j: int)
    requires
        0 <= j <= s.len(),
        forall|k: int| 0 <= k < j ==> s[k].len() <= n,
        j == s.len() || s[j].len() > n,
    ensures
        first_longer(s, n) == j,
    decreases s.len(),
{
    if s.len() > 0 && j > 0 {
        lemma_first_longer(s.drop_first(), n, j - 1);
    }
}

/// Reorders words by increasing length, keeping the order of words of
/// equal length.
fn sort_by_length(words: &Vec<Vec<char>>) -> (r: Vec<Vec<char>>)
    ensures
        r@.len() == words@.len(),
        forall|w: Seq<char>| rows_view(r@).contains(w) <==> rows_view(words@).contains(w),
        forall|a: int, b: int| 0 <= a < b < r@.len() ==> r@[a]@.len() <= r@[b]@.len(),
        rows_view(r@) == by_length(rows_view(words@)),
{
    let mut r: Vec<Vec<char>> = Vec::new();
    assert(rows_view(words@).take(0) =~= Seq::<Seq<char>>::empty());
    let mut i: usize = 0;
    while i < words.len()
        invariant
            i <= words@.len(),
            r@.len() == i,
            forall|w: Seq<char>|
                rows_view(r@).contains(w) <==> rows_view(words@.subrange(0, i as int)).contains(w),
            forall|a: int, b: int| 0 <= a < b < r@.len() ==> r@[a]@.len() <= r@[b]@.len(),
            rows_view(r@) == by_length(rows_view(words@).take(i as int)),
        decreases words@.len() - i,
    {
        let w = words[i].clone();
        assert(w@ =~= words@[i as int]@);
        let mut j: usize = 0;
        while j < r.len() && r[j].len() <= w.len()
            invariant
                j <= r@.len(),
                forall|k: int| 0 <= k < j ==> r@[k]@.len() <= w@.len(),
            decreases r@.len() - j,
        {
            j = j + 1;
        }
        let ghost before = r@;
        let ghost wv = w@;
        proof {
            let ws = rows_view(words@);
            assert(ws.take(i + 1).drop_last() =~= ws.take(i as int));
            assert(ws.take(i + 1).last() == wv);
            if j < before.len() {
                assert(!(before[j as int]@.len() <= wv.len()));
            }
            lemma_first_longer(rows_view(before), wv.len(), j as int);
        }
        r.insert(j, w);
        proof {
            assert(rows_view(r@) =~= rows_view(before).insert(j as int, wv));
            assert forall|a: int, b: int| 0 <= a < b < r@.len() implies r@[a]@.len() <= r@[b]@.len() by {
                if a < j && b > j {
                    assert(before[a]@.len() <= before[b - 1]@.len());
                } else if a > j {
                    assert(before[a - 1]@.len() <= before[b - 1]@.len());
                } else if a == j && b > j {
                    if j < before.len() {
                        assert(before[j as int]@.len() > wv.len());
                        assert(before[j as int]@.len() <= before[b - 1]@.len());
                    }
                }
            }
            let prefix = words@.subrange(0, i as int);
            let next = words@.subrange(0, i + 1);
            assert(next =~= prefix.push(words@[i as int]));
            assert forall|x: Seq<char>| rows_view(r@).contains(x) <==> rows_view(next).contains(x) by {
                if rows_view(r@).contains(x) {
                    let k = choose|k: int| 0 <= k < r@.len() && rows_view(r@)[k] == x;
                    if k < j {
                        assert(rows_view(before)[k] == x);
                    } else if k > j {
                        assert(rows_view(before)[k - 1] == x);
                    } else {
                        assert(rows_view(next)[i as int] == x);
                    }
                    if k != j {
                        assert(rows_view(before).contains(x));
                        assert(rows_view(prefix).contains(x));
                        let m = choose|m: int| 0 <= m < prefix.len() && rows_view(prefix)[m] == x;
                        assert(rows_view(next)[m] == x);
                    }
                }
                if rows_view(next).contains(x) {
                    let k = choose|k: int| 0 <= k < next.len() && rows_view(next)[k] == x;
                    if k == i {
                        assert(rows_view(r@)[j as int] == x);
                    } else {
                        assert(rows_view(prefix)[k] == x);
                        assert(rows_view(before).contains(x));
                        let m = choose|m: int| 0 <= m < before.len() && rows_view(before)[m] == x;
                        if m < j {
                            assert(rows_view(r@)[m] == x);
                        } else {
                            assert(rows_view(r@)[m + 1] == x);
                        }
                    }
                }
            }
        }
        i = i + 1;
    }
    assert(words@.subrange(0, words@.len() as int) =~= words@);
    assert(rows_view(words@).take(words@.len() as int) =~= rows_view(words@));
    r
}

/// One level of the search: the grid before its word was placed, the word,
/// the headings still to try at the current cell, and the cells still to
/// try, the current one last.
struct StackEntry {
    grid: Grid,
    word: Vec<char>,
    remaining_possible_directions: Vec<Direction>,
    remaining_possible_cells: Vec<Cell>,
}

/// A copy of a list of cells.
fn copy_cells(v: &Vec<Cell>) -> (r: Vec<Cell>)
    ensures
        r@ == v@,
{
    let mut r: Vec<Cell> = Vec::new();
    let mut i: usize = 0;
    while i < v.len()
        invariant
            i <= v@.len(),
            r@ == v@.subrange(0, i as int),
        decreases v@.len() - i,
    {
        r.push(v[i]);
        i = i + 1;
        assert(r@ =~= v@.subrange(0, i as int));
    }
    assert(r@ =~= v@);
    r
}

/// Some cell of the list lies at `p`.
spec fn holds_pos(cells: Seq<Cell>, p: (int, int)) -> bool {
    exists|k: int| 0 <= k < cells.len() && pos(cells[k]) == p
}

/// All eight headings in a random order.
fn shuffled_directions(rng: &mut ThreadRng) -> (r: Vec<Direction>)
    ensures
        r@.len() == 8,
        forall|d: Direction| r@.contains(d),
{
    let mut ds = Direction::iterator();
    let ghost all = ds@;
    shuffle(&mut ds, rng);
    proof {
        assert forall|d: Direction| ds@.contains(d) by {
            assert(all[crate::grid::dir_rank(d)] == d);
            assert(all.contains(d));
            assert(all.to_multiset().count(d) > 0);
        }
    }
    ds
}

impl StackEntry {
    /// A level for `word` on `grid` with every cell and heading still to
    /// try, each list in a random order.
    fn new_with_shuffle(grid: Grid, word: Vec<char>, cells: &Vec<Cell>, rng: &mut ThreadRng) -> (r:
        StackEntry)
        ensures
            r.grid == grid,
            r.word == word,
            r.remaining_possible_cells@.len() == cells@.len(),
            forall|k: int|
                0 <= k < cells@.len() ==> cells@.contains(
                    #[trigger] r.remaining_possible_cells@[k],
                ),
            r.remaining_possible_directions@.len() == 8,
            forall|d: Direction| r.remaining_possible_directions@.contains(d),
            forall|p: (int, int)|
                #[trigger] holds_pos(cells@, p) ==> holds_pos(r.remaining_possible_cells@, p),
    {
        let mut ps = copy_cells(cells);
        shuffle(&mut ps, rng);
        proof {
            assert forall|k: int| 0 <= k < cells@.len() implies cells@.contains(#[trigger] ps@[k]) by {
                assert(ps@.contains(ps@[k]));
                assert(ps@.to_multiset().count(ps@[k]) > 0);
            }
        }
        let ds = shuffled_directions(rng);
        proof {
            assert forall|p: (int, int)| #[trigger] holds_pos(cells@, p) implies holds_pos(ps@, p) by {
                let k = choose|k: int| 0 <= k < cells@.len() && pos(cells@[k]) == p;
                assert(cells@.contains(cells@[k]));
                assert(cells@.to_multiset().count(cells@[k]) > 0);
                assert(ps@.contains(cells@[k]));
                let m = choose|m: int| 0 <= m < ps@.len() && ps@[m] == cells@[k];
                assert(pos(ps@[m]) == p);
            }
        }
        StackEntry {
            grid,
            word,
            remaining_possible_directions: ds,
            remaining_possible_cells: ps,
        }
    }
}

/// How much work is left at one level: it only shrinks while the level is
/// searched.
spec fn weight(f: StackEntry) -> int {
    (f.remaining_possible_cells@.len() * 9 + f.remaining_possible_directions@.len() + 1) as int
}

/// The work left in the whole search, read as a number whose digits are the
/// weights of the levels, the first level most significant.
spec fn stack_measure(s: Seq<StackEntry>, n: int, base: int) -> int
    decreases s.len(),
{
    if s.len() == 0 {
        0
    } else {
        stack_measure(s.drop_last(), n, base) + weight(s.last()) * pow(base, (n - s.len()) as nat)
    }
}

proof fn lemma_measure_nonneg(s: Seq<StackEntry>, n: int, base: int)
    requires
        base > 0,
    ensures
        stack_measure(s, n, base) >= 0,
    decreases s.len(),
{
    if s.len() > 0 {
        lemma_measure_nonneg(s.drop_last(), n, base);
        let w = weight(s.last());
        let p = pow(base, (n - s.len()) as nat);
        lemma_pow_positive(base, (n - s.len()) as nat);
        assert(w * p >= 0) by (nonlinear_arith)
            requires
                w >= 0,
                p > 0,
        ;
    }
}

proof fn lemma_measure_pop(s: Seq<StackEntry>, n: int, base: int)
    requires
        base > 0,
        s.len() > 0,
    ensures
        stack_measure(s.drop_last(), n, base) < stack_measure(s, n, base),
{
    let w = weight(s.last());
    let p = pow(base, (n - s.len()) as nat);
    lemma_pow_positive(base, (n - s.len()) as nat);
    assert(w * p > 0) by (nonlinear_arith)
        requires
            w >= 1,
            p > 0,
    ;
}

proof fn lemma_measure_top(s: Seq<StackEntry>, f: StackEntry, n: int, base: int)
    requires
        base > 0,
        s.len() > 0,
        weight(f) < weight(s.last()),
    ensures
        stack_measure(s.drop_last().push(f), n, base) < stack_measure(s, n, base),
{
    let t = s.drop_last().push(f);
    assert(t.drop_last() =~= s.drop_last());
    let w = weight(s.last());
    let w2 = weight(f);
    let p = pow(base, (n - s.len()) as nat);
    lemma_pow_positive(base, (n - s.len()) as nat);
    assert(w2 * p < w * p) by (nonlinear_arith)
        requires
            w2 < w,
            p > 0,
    ;
}

proof fn lemma_measure_push(s: Seq<StackEntry>, f: StackEntry, g: StackEntry, n: int, base: int)
    requires
        base > 0,
        s.len() > 0,
        s.len() + 1 <= n,
        weight(f) < weight(s.last()),
        weight(g) < base,
    ensures
        stack_measure(s.drop_last().push(f).push(g), n, base) < stack_measure(s, n, base),
{
    let t = s.drop_last().push(f);
    let u = t.push(g);
    assert(u.drop_last() =~= t);
    assert(t.drop_last() =~= s.drop_last());
    let w = weight(s.last());
    let w2 = weight(f);
    let wg = weight(g);
    let e = (n - s.len()) as nat;
    let p = pow(base, e);
    let p2 = pow(base, (e - 1) as nat);
    assert(p == base * p2) by {
        reveal(pow);
    }
    assert(stack_measure(t, n, base) == stack_measure(s.drop_last(), n, base) + w2 * p);
    assert(stack_measure(u, n, base) == stack_measure(t, n, base) + wg * p2);
    lemma_pow_positive(base, (e - 1) as nat);
    assert(w2 * p + wg * p2 < w * p) by (nonlinear_arith)
        requires
            w2 < w,
            0 <= wg < base,
            p == base * p2,
            p2 > 0,
    ;
}

/// `c` lies in a grid of `rows` by `cols` cells.
spec fn cell_ok(c: Cell, rows: int, cols: int) -> bool {
    c.row < rows && c.col < cols
}

/// `f` is a level of a search on a grid of `rows` by `cols` cells.
spec fn frame_ok(f: StackEntry, rows: int, cols: int, ncells: int) -> bool {
    &&& f.grid.wf()
    &&& has_size(f.grid@, rows, cols)
    &&& f.remaining_possible_cells@.len() <= ncells
    &&& f.remaining_possible_directions@.len() <= 8
    &&& forall|k: int|
        0 <= k < f.remaining_possible_cells@.len() ==> cell_ok(
            #[trigger] f.remaining_possible_cells@[k],
            rows,
            cols,
        )
}

/// Level `i` places the `i`-th word from the end of `order`, and its grid
/// holds every word placed by the levels below it.
spec fn level_ok(s: Seq<StackEntry>, order: Seq<Seq<char>>, rows: int, cols: int, ncells: int, i: int) -> bool {
    &&& s[i].word@ == order[order.len() - 1 - i]
    &&& frame_ok(s[i], rows, cols, ncells)
    &&& forall|j: int|
        0 <= j < i ==> contains_word(s[i].grid@, #[trigger] order[order.len() - 1 - j])
}

spec fn stack_ok(s: Seq<StackEntry>, order: Seq<Seq<char>>, rows: int, cols: int, ncells: int) -> bool {
    forall|i: int| 0 <= i < s.len() ==> #[trigger] level_ok(s, order, rows, cols, ncells, i)
}

proof fn lemma_stack_push(
    s: Seq<StackEntry>,
    f: StackEntry,
    order: Seq<Seq<char>>,
    rows: int,
    cols: int,
    ncells: int,
)
    requires
        stack_ok(s, order, rows, cols, ncells),
        f.word@ == order[order.len() - 1 - s.len()],
        frame_ok(f, rows, cols, ncells),
        forall|j: int|
            0 <= j < s.len() ==> contains_word(f.grid@, #[trigger] order[order.len() - 1 - j]),
    ensures
        stack_ok(s.push(f), order, rows, cols, ncells),
{
    let t = s.push(f);
    assert forall|i: int| 0 <= i < t.len() implies #[trigger] level_ok(t, order, rows, cols, ncells, i) by {
        if i < s.len() {
            assert(level_ok(s, order, rows, cols, ncells, i));
            assert(t[i] == s[i]);
        }
    }
}

proof fn lemma_stack_pop(s: Seq<StackEntry>, order: Seq<Seq<char>>, rows: int, cols: int, ncells: int)
    requires
        stack_ok(s, order, rows, cols, ncells),
        s.len() > 0,
    ensures
        stack_ok(s.drop_last(), order, rows, cols, ncells),
        level_ok(s, order, rows, cols, ncells, s.len() - 1),
{
    let t = s.drop_last();
    assert(level_ok(s, order, rows, cols, ncells, s.len() - 1));
    assert forall|i: int| 0 <= i < t.len() implies #[trigger] level_ok(t, order, rows, cols, ncells, i) by {
        assert(level_ok(s, order, rows, cols, ncells, i));
        assert(t[i] == s[i]);
    }
}

/// The words of `ws` can be written into `g` one after another, the last
/// word first, each where it fits and crosses no different letter.
pub open spec fn can_place_all(g: Seq<Seq<char>>, ws: Seq<Seq<char>>) -> bool
    decreases ws.len(),
{
    if ws.len() == 0 {
        true
    } else {
        exists|p: (int, int), d: Direction|
            in_bounds(g, p) && #[trigger] placeable(g, p, d, ws.last()) && can_place_all(
                written(g, p, d, ws.last()),
                ws.drop_last(),
            )
    }
}

/// The level has tried its word at cell `p` towards `d`: the cell is no
/// longer among those to try, or it is the current cell and `d` is no
/// longer among the headings to try there.
spec fn tried(f: StackEntry, p: (int, int), d: Direction) -> bool {
    let cells = f.remaining_possible_cells@;
    ||| !holds_pos(cells, p)
    ||| cells.len() > 0 && pos(cells.last()) == p && !f.remaining_possible_directions@.contains(d)
}

/// Writing the level's word at `p` towards `d` leads to no way of placing
/// the words still to come.
spec fn refuted(f: StackEntry, rest: Seq<Seq<char>>, p: (int, int), d: Direction) -> bool {
    !(placeable(f.grid@, p, d, f.word@) && can_place_all(written(f.grid@, p, d, f.word@), rest))
}

/// Every choice the level has tried is refuted, except the one that the
/// level above it (`child`: its heading and grid) is still exploring.
spec fn level_refutes(
    f: StackEntry,
    rest: Seq<Seq<char>>,
    child: Option<(Direction, Seq<Seq<char>>)>,
) -> bool {
    let cells = f.remaining_possible_cells@;
    &&& child is Some ==> {
        &&& cells.len() > 0
        &&& placeable(f.grid@, pos(cells.last()), (child->0).0, f.word@)
        &&& (child->0).1 == written(f.grid@, pos(cells.last()), (child->0).0, f.word@)
    }
    &&& forall|p: (int, int), d: Direction|
        in_bounds(f.grid@, p) && #[trigger] tried(f, p, d) && !(child is Some && cells.len() > 0
            && p == pos(cells.last()) && d == (child->0).0) ==> refuted(f, rest, p, d)
}

spec fn child_of(s: Seq<StackEntry>, cd: Seq<Direction>, i: int) -> Option<
    (Direction, Seq<Seq<char>>),
> {
    if i + 1 < s.len() {
        Some((cd[i], s[i + 1].grid@))
    } else {
        None
    }
}

/// Every level of the stack refutes what it has tried.
spec fn search_ok(s: Seq<StackEntry>, cd: Seq<Direction>, order: Seq<Seq<char>>) -> bool {
    forall|i: int|
        0 <= i < s.len() ==> #[trigger] level_refutes(
            s[i],
            order.take(order.len() - 1 - i),
            child_of(s, cd, i),
        )
}

proof fn lemma_search_prefix(
    s: Seq<StackEntry>,
    cd: Seq<Direction>,
    s2: Seq<StackEntry>,
    cd2: Seq<Direction>,
    order: Seq<Seq<char>>,
    m: int,
)
    requires
        search_ok(s, cd, order),
        0 <= m <= s.len(),
        m <= s2.len(),
        forall|i: int| 0 <= i < m ==> s2[i] == s[i] && cd2[i] == cd[i],
        forall|i: int|
            0 < i <= m ==> i < s2.len() && i < s.len() && (#[trigger] s2[i]).grid@ == s[i].grid@,
    ensures
        forall|i: int|
            0 <= i < m ==> #[trigger] level_refutes(
                s2[i],
                order.take(order.len() - 1 - i),
                child_of(s2, cd2, i),
            ),
{
    assert forall|i: int| 0 <= i < m implies #[trigger] level_refutes(
        s2[i],
        order.take(order.len() - 1 - i),
        child_of(s2, cd2, i),
    ) by {
        assert(level_refutes(s[i], order.take(order.len() - 1 - i), child_of(s, cd, i)));
        assert(s2[i + 1].grid@ == s[i + 1].grid@);
        assert(child_of(s2, cd2, i) == child_of(s, cd, i));
    }
}

/// A new level with every cell and heading still to try has tried nothing.
proof fn lemma_fresh_level(f: StackEntry, rest: Seq<Seq<char>>, rows: int, cols: int)
    requires
        has_size(f.grid@, rows, cols),
        forall|p: (int, int)|
            0 <= p.0 < rows && 0 <= p.1 < cols ==> holds_pos(f.remaining_possible_cells@, p),
        forall|d: Direction| f.remaining_possible_directions@.contains(d),
    ensures
        level_refutes(f, rest, None),
{
    assert forall|p: (int, int), d: Direction|
        in_bounds(f.grid@, p) implies !#[trigger] tried(f, p, d) by {
        if f.grid@.len() > 0 {
            assert(f.grid@[0].len() == cols);
        }
        assert(holds_pos(f.remaining_possible_cells@, p));
    }
}

/// A level that has tried every choice shows that its word and those still
/// to come cannot all be placed on its grid.
proof fn lemma_level_exhausted(f: StackEntry, rest: Seq<Seq<char>>)
    requires
        level_refutes(f, rest, None),
        forall|p: (int, int), d: Direction| in_bounds(f.grid@, p) ==> #[trigger] tried(f, p, d),
    ensures
        !can_place_all(f.grid@, rest.push(f.word@)),
{
    let ws = rest.push(f.word@);
    assert(ws.drop_last() =~= rest);
    if can_place_all(f.grid@, ws) {
        let (p, d) = choose|p: (int, int), d: Direction|
            in_bounds(f.grid@, p) && #[trigger] placeable(f.grid@, p, d, ws.last()) && can_place_all(
                written(f.grid@, p, d, ws.last()),
                ws.drop_last(),
            );
        assert(tried(f, p, d));
        assert(refuted(f, rest, p, d));
    }
}

/// Every letter of every word is one of `a` to `z`.
pub open spec fn all_lowercase(ws: Seq<Seq<char>>) -> bool {
    forall|i: int, k: int| 0 <= i < ws.len() && 0 <= k < ws[i].len() ==> is_lowercase(#[trigger] ws[i][k])
}

/// Every cell is empty or holds a letter from `a` to `z`.
spec fn blank_or_lower(g: Seq<Seq<char>>) -> bool {
    forall|i: int, j: int|
        0 <= i < g.len() && 0 <= j < g[i].len() ==> #[trigger] g[i][j] == EMPTY_CHAR || is_lowercase(
            g[i][j],
        )
}

proof fn lemma_written_lower(g: Seq<Seq<char>>, p: (int, int), d: Direction, w: Seq<char>)
    requires
        blank_or_lower(g),
        forall|k: int| 0 <= k < w.len() ==> is_lowercase(#[trigger] w[k]),
    ensures
        blank_or_lower(written(g, p, d, w)),
{
    let h = written(g, p, d, w);
    assert forall|i: int, j: int| 0 <= i < h.len() && 0 <= j < h[i].len() implies #[trigger] h[i][j]
        == EMPTY_CHAR || is_lowercase(h[i][j]) by {
        if on_path(p, d, w.len() as int, (i, j)) {
            assert(is_lowercase(w[offset(p, d, (i, j))]));
        }
    }
}

/// Hides `words` in a `rows` by `cols` grid by backtracking search, longest
/// word first, and fills the cells left over with random letters. Returns
/// `None` for an empty word list, and otherwise exactly when the words,
/// longest first, cannot all be written into the grid.
pub fn generate_grid(rows: usize, cols: usize, words: &[&str]) -> (r: Option<Grid>)
    requires
        forall|i: int| 0 <= i < words@.len() ==> !(#[trigger] words@[i]@).contains(EMPTY_CHAR),
    ensures
        words@.len() == 0 ==> r is None,
        r is None ==> words@.len() == 0 || !can_place_all(
            blank(rows as int, cols as int),
            by_length(word_views(words@)),
        ),
        r matches Some(g) ==> {
            &&& g.wf()
            &&& has_size(g@, rows as int, cols as int)
            &&& complete(g@)
            &&& forall|i: int| 0 <= i < words@.len() ==> contains_word(g@, #[trigger] words@[i]@)
            &&& all_lowercase(word_views(words@)) ==> forall|i: int, j: int|
                0 <= i < rows && 0 <= j < cols ==> is_lowercase(#[trigger] g@[i][j])
        },
{
    let mut rng = rand::thread_rng();
    if words.len() == 0 {
        return None;
    }
    let mut word_list = sort_by_length(&chars_of_words(words));
    let ghost order = rows_view(word_list@);
    let ghost n = order.len() as int;
    proof {
        assert forall|i: int| 0 <= i < words@.len() implies order.contains(#[trigger] words@[i]@) by {
            assert(word_views(words@)[i] == words@[i]@);
        }
        assert forall|k: int| 0 <= k < n implies !(#[trigger] order[k]).contains(EMPTY_CHAR) by {
            assert(rows_view(word_list@).contains(order[k]));
            let m = choose|m: int| 0 <= m < words@.len() && word_views(words@)[m] == order[k];
            assert(!words@[m]@.contains(EMPTY_CHAR));
        }
    }
    let mut cells: Vec<Cell> = Vec::new();
    let mut r: usize = 0;
    while r < rows
        invariant
            r <= rows,
            forall|k: int| 0 <= k < cells@.len() ==> cell_ok(#[trigger] cells@[k], rows as int, cols as int),
            forall|p: (int, int)| 0 <= p.0 < r && 0 <= p.1 < cols ==> #[trigger] holds_pos(cells@, p),
        decreases rows - r,
    {
        let mut c: usize = 0;
        while c < cols
            invariant
                r < rows,
                c <= cols,
                forall|k: int|
                    0 <= k < cells@.len() ==> cell_ok(#[trigger] cells@[k], rows as int, cols as int),
                forall|p: (int, int)|
                    (0 <= p.0 < r && 0 <= p.1 < cols) || (p.0 == r && 0 <= p.1 < c) ==> #[trigger] holds_pos(
                        cells@,
                        p,
                    ),
            decreases cols - c,
        {
            let ghost old_cells = cells@;
            cells.push(Cell { row: r, col: c });
            proof {
                assert forall|p: (int, int)|
                    (0 <= p.0 < r && 0 <= p.1 < cols) || (p.0 == r && 0 <= p.1 < c + 1) implies #[trigger] holds_pos(
                    cells@,
                    p,
                ) by {
                    if p == (r as int, c as int) {
                        assert(pos(cells@[old_cells.len() as int]) == p);
                    } else {
                        assert(holds_pos(old_cells, p));
                        let k = choose|k: int| 0 <= k < old_cells.len() && pos(old_cells[k]) == p;
                        assert(pos(cells@[k]) == p);
                    }
                }
            }
            c = c + 1;
        }
        r = r + 1;
    }
    let ghost ncells = cells@.len() as int;
    let ghost base = 9 * ncells + 10;
    assert(rows_view(word_list@).subrange(0, n) =~= order);
    let first = match word_list.pop() {
        Some(w) => w,
        None => {
            return None;
        },
    };
    assert(rows_view(word_list@) =~= order.subrange(0, n - 1));
    let blank_grid = Grid::empty(rows, cols);
    let mut stack: Vec<StackEntry> = Vec::new();
    let entry = StackEntry::new_with_shuffle(blank_grid, first, &cells, &mut rng);
    let ghost mut child_dirs: Seq<Direction> = seq![Direction::Up];
    proof {
        assert forall|k: int| 0 <= k < entry.remaining_possible_cells@.len() implies cell_ok(
            #[trigger] entry.remaining_possible_cells@[k],
            rows as int,
            cols as int,
        ) by {
            let m = choose|m: int| 0 <= m < cells@.len() && cells@[m] == entry.remaining_possible_cells@[k];
            assert(cell_ok(cells@[m], rows as int, cols as int));
        }
        assert(has_size(entry.grid@, rows as int, cols as int));
        lemma_stack_push(stack@, entry, order, rows as int, cols as int, ncells);
        assert forall|p: (int, int)| 0 <= p.0 < rows && 0 <= p.1 < cols implies holds_pos(
            entry.remaining_possible_cells@,
            p,
        ) by {
            assert(holds_pos(cells@, p));
        }
        lemma_fresh_level(entry, order.take(n - 1), rows as int, cols as int);
        assert(stack@.push(entry)[0] == entry);
        if all_lowercase(word_views(words@)) {
            assert forall|i: int, k: int| 0 <= i < order.len() && 0 <= k < order[i].len() implies is_lowercase(
                #[trigger] order[i][k],
            ) by {
                assert(order.contains(order[i]));
                let m = choose|m: int| 0 <= m < words@.len() && word_views(words@)[m] == order[i];
                assert(is_lowercase(word_views(words@)[m][k]));
            }
        }
    }
    stack.push(entry);
    loop
        invariant
            n == order.len(),
            n >= 1,
            words@.len() > 0,
            order == by_length(word_views(words@)),
            ncells == cells@.len(),
            base == 9 * ncells + 10,
            forall|k: int| 0 <= k < cells@.len() ==> cell_ok(#[trigger] cells@[k], rows as int, cols as int),
            forall|p: (int, int)|
                0 <= p.0 < rows && 0 <= p.1 < cols ==> #[trigger] holds_pos(cells@, p),
            stack@.len() + word_list@.len() == n,
            rows_view(word_list@) == order.subrange(0, word_list@.len() as int),
            stack_ok(stack@, order, rows as int, cols as int, ncells),
            forall|k: int| 0 <= k < n ==> !(#[trigger] order[k]).contains(EMPTY_CHAR),
            forall|i: int| 0 <= i < words@.len() ==> order.contains(#[trigger] words@[i]@),
            child_dirs.len() == stack@.len(),
            stack@.len() > 0 ==> stack@[0].grid@ == blank(rows as int, cols as int),
            stack@.len() == 0 ==> !can_place_all(blank(rows as int, cols as int), order),
            search_ok(stack@, child_dirs, order),
            all_lowercase(word_views(words@)) ==> all_lowercase(order),
            all_lowercase(word_views(words@)) ==> forall|i: int|
                0 <= i < stack@.len() ==> blank_or_lower(#[trigger] stack@[i].grid@),
        decreases stack_measure(stack@, n, base),
    {
        proof {
            lemma_measure_nonneg(stack@, n, base);
        }
        let ghost before = stack@;
        let ghost cd_before = child_dirs;
        let mut current = match stack.pop() {
            Some(c) => c,
            None => {
                return None;
            },
        };
        let ghost top = current;
        let ghost t = before.len() - 1;
        let ghost rest = order.take(n - 1 - t);
        proof {
            lemma_stack_pop(before, order, rows as int, cols as int, ncells);
            assert(level_refutes(before[t], rest, child_of(before, cd_before, t)));
            assert(child_of(before, cd_before, t) is None);
        }
        let direction = match current.remaining_possible_directions.pop() {
            Some(d) => d,
            None => {
                current.remaining_possible_cells.pop();
                current.remaining_possible_directions = shuffled_directions(&mut rng);
                let ghost fresh = current.remaining_possible_directions@;
                // The list was just refilled with all eight headings.
                let d = match current.remaining_possible_directions.pop() {
                    Some(d) => d,
                    None => Direction::Up,
                };
                proof {
                    assert(fresh =~= current.remaining_possible_directions@.push(d));
                    assert forall|x: Direction| #[trigger]
                        current.remaining_possible_directions@.push(d).contains(x) by {
                        assert(fresh.contains(x));
                    }
                }
                d
            },
        };
        assert(top.remaining_possible_directions@.len() == 0 ==> forall|x: Direction| #[trigger]
            current.remaining_possible_directions@.push(direction).contains(x));
        proof {
            assert forall|p: (int, int), x: Direction| #[trigger] tried(current, p, x) implies tried(
                top,
                p,
                x,
            ) || (current.remaining_possible_cells@.len() > 0 && p == pos(
                current.remaining_possible_cells@.last(),
            ) && x == direction) by {
                let cs = current.remaining_possible_cells@;
                let tcs = top.remaining_possible_cells@;
                if top.remaining_possible_directions@.len() > 0 {
                    assert(cs == tcs);
                    if !current.remaining_possible_directions@.contains(x) && x != direction {
                        assert(top.remaining_possible_directions@ =~= current.remaining_possible_directions@.push(
                            direction,
                        ));
                    }
                } else {
                    if !holds_pos(cs, p) && holds_pos(tcs, p) {
                        let k = choose|k: int| 0 <= k < tcs.len() && pos(tcs[k]) == p;
                        if k < tcs.len() - 1 {
                            assert(pos(cs[k]) == p);
                        }
                    }
                    if holds_pos(cs, p) {
                        let full = current.remaining_possible_directions@.push(direction);
                        if !current.remaining_possible_directions@.contains(x) && x != direction {
                            assert(full.contains(x));
                            let k = choose|k: int| 0 <= k < full.len() && full[k] == x;
                            assert(k < full.len() - 1);
                            assert(current.remaining_possible_directions@[k] == x);
                        }
                    }
                }
            }
        }
        let count = current.remaining_possible_cells.len();
        if count > 0 {
            assert(weight(current) < weight(top));
            let cell = current.remaining_possible_cells[count - 1];
            assert(cell_ok(top.remaining_possible_cells@[count - 1], rows as int, cols as int));
            assert(in_bounds(current.grid@, pos(cell))) by {
                assert(current.grid@[0].len() == cols);
            }
            match place_word_at_cell(&current.grid, &cell, &direction, &current.word) {
                Some(grid) => {
                    let ghost g0 = current.grid@;
                    proof {
                        lemma_written_keeps(g0, pos(cell), direction, current.word@);
                        assert forall|j: int| 0 <= j < before.len() implies contains_word(
                            grid@,
                            #[trigger] order[n - 1 - j],
                        ) by {
                            if j == before.len() - 1 {
                                assert(spells_at(grid@, current.word@, pos(cell), direction));
                            } else {
                                lemma_keeps_word(grid@, g0, order[n - 1 - j]);
                            }
                        }
                    }
                    let ghost wl_before = word_list@;
                    match word_list.pop() {
                        Some(w) => {
                            let entry = StackEntry::new_with_shuffle(grid, w, &cells, &mut rng);
                            proof {
                                assert forall|k: int|
                                    0 <= k < entry.remaining_possible_cells@.len() implies cell_ok(
                                    #[trigger] entry.remaining_possible_cells@[k],
                                    rows as int,
                                    cols as int,
                                ) by {
                                    let m = choose|m: int|
                                        0 <= m < cells@.len() && cells@[m]
                                            == entry.remaining_possible_cells@[k];
                                    assert(cell_ok(cells@[m], rows as int, cols as int));
                                }
                                assert(rows_view(word_list@) =~= order.subrange(
                                    0,
                                    word_list@.len() as int,
                                ));
                                assert(w@ == order[word_list@.len() as int]) by {
                                    assert(rows_view(wl_before)[word_list@.len() as int] == w@);
                                }
                                lemma_stack_push(
                                    before.drop_last(),
                                    current,
                                    order,
                                    rows as int,
                                    cols as int,
                                    ncells,
                                );
                                lemma_stack_push(
                                    before.drop_last().push(current),
                                    entry,
                                    order,
                                    rows as int,
                                    cols as int,
                                    ncells,
                                );
                                lemma_measure_push(before, current, entry, n, base);
                                assert forall|p: (int, int)|
                                    0 <= p.0 < rows && 0 <= p.1 < cols implies holds_pos(
                                    entry.remaining_possible_cells@,
                                    p,
                                ) by {
                                    assert(holds_pos(cells@, p));
                                }
                                lemma_fresh_level(entry, order.take(n - 2 - t), rows as int, cols as int);
                            }
                            stack.push(current);
                            stack.push(entry);
                            proof {
                                if all_lowercase(word_views(words@)) {
                                    assert(blank_or_lower(before[t].grid@));
                                    assert forall|k: int| 0 <= k < top.word@.len() implies is_lowercase(
                                        #[trigger] top.word@[k],
                                    ) by {
                                        assert(top.word@ == order[n - 1 - t]);
                                        assert(is_lowercase(order[n - 1 - t][k]));
                                    }
                                    lemma_written_lower(g0, pos(cell), direction, current.word@);
                                    assert forall|i: int| 0 <= i < stack@.len() implies blank_or_lower(
                                        #[trigger] stack@[i].grid@,
                                    ) by {
                                        if i < t {
                                            assert(stack@[i] == before[i]);
                                        }
                                    }
                                }
                                child_dirs = cd_before.update(t, direction).push(Direction::Up);
                                let s2 = stack@;
                                assert(s2[t] == current);
                                assert(s2[t + 1] == entry);
                                lemma_search_prefix(before, cd_before, s2, child_dirs, order, t);
                                assert(child_of(s2, child_dirs, t) == Some((direction, grid@)));
                                assert(level_refutes(current, rest, Some((direction, grid@))));
                                assert(child_of(s2, child_dirs, t + 1) is None);
                                assert(order.take(n - 1 - (t + 1)) == order.take(n - 2 - t));
                                assert forall|i: int| 0 <= i < s2.len() implies #[trigger] level_refutes(
                                    s2[i],
                                    order.take(order.len() - 1 - i),
                                    child_of(s2, child_dirs, i),
                                ) by {}
                                if t > 0 {
                                    assert(s2[0] == before[0]);
                                }
                                assert(stack_measure(stack@, n, base) < stack_measure(before, n, base));
                                lemma_measure_nonneg(stack@, n, base);
                            }
                        },
                        None => {
                            let mut grid = grid;
                            let ghost g1 = grid@;
                            grid.fill_empty_cells_with_chars(&mut rng);
                            proof {
                                if all_lowercase(word_views(words@)) {
                                    assert(blank_or_lower(before[t].grid@));
                                    assert forall|k: int| 0 <= k < top.word@.len() implies is_lowercase(
                                        #[trigger] top.word@[k],
                                    ) by {
                                        assert(top.word@ == order[n - 1 - t]);
                                        assert(is_lowercase(order[n - 1 - t][k]));
                                    }
                                    lemma_written_lower(g0, pos(cell), direction, current.word@);
                                    assert(blank_or_lower(g1));
                                    assert forall|i: int, j: int|
                                        0 <= i < rows && 0 <= j < cols implies is_lowercase(
                                        #[trigger] grid@[i][j],
                                    ) by {
                                        assert(g1[i].len() == cols);
                                        assert(g1[i][j] == EMPTY_CHAR || is_lowercase(g1[i][j]));
                                    }
                                }
                                assert(keeps_letters(grid@, g1));
                                assert forall|i: int| 0 <= i < words@.len() implies contains_word(
                                    grid@,
                                    #[trigger] words@[i]@,
                                ) by {
                                    let k = choose|k: int| 0 <= k < n && order[k] == words@[i]@;
                                    assert(contains_word(g1, order[n - 1 - (n - 1 - k)]));
                                    lemma_keeps_word(grid@, g1, order[k]);
                                }
                            }
                            return Some(grid);
                        },
                    }
                },
                None => {
                    proof {
                        lemma_stack_push(
                            before.drop_last(),
                            current,
                            order,
                            rows as int,
                            cols as int,
                            ncells,
                        );
                        lemma_measure_top(before, current, n, base);
                    }
                    stack.push(current);
                    proof {
                        if all_lowercase(word_views(words@)) {
                            assert forall|i: int| 0 <= i < stack@.len() implies blank_or_lower(
                                #[trigger] stack@[i].grid@,
                            ) by {
                                assert(blank_or_lower(before[i].grid@));
                            }
                        }
                        let s2 = stack@;
                        assert(s2[t] == current);
                        lemma_search_prefix(before, cd_before, s2, child_dirs, order, t);
                        assert(child_of(s2, child_dirs, t) is None);
                        assert(level_refutes(current, rest, None));
                        assert forall|i: int| 0 <= i < s2.len() implies #[trigger] level_refutes(
                            s2[i],
                            order.take(order.len() - 1 - i),
                            child_of(s2, child_dirs, i),
                        ) by {}
                        if t > 0 {
                            assert(s2[0] == before[0]);
                        }
                        assert(stack_measure(stack@, n, base) < stack_measure(before, n, base));
                        lemma_measure_nonneg(stack@, n, base);
                    }
                },
            }
        } else {
            proof {
                lemma_measure_pop(before, n, base);
                assert forall|p: (int, int), x: Direction| in_bounds(top.grid@, p) implies #[trigger] tried(
                    top,
                    p,
                    x,
                ) by {
                    let tcs = top.remaining_possible_cells@;
                    if holds_pos(tcs, p) {
                        let k = choose|k: int| 0 <= k < tcs.len() && pos(tcs[k]) == p;
                        assert(top.remaining_possible_directions@.len() == 0);
                        assert(k == tcs.len() - 1);
                    }
                }
                lemma_level_exhausted(top, rest);
                assert(rest.push(top.word@) =~= order.take(n - t));
                child_dirs = cd_before.drop_last();
                let s2 = before.drop_last();
                if t > 0 {
                    lemma_search_prefix(before, cd_before, s2, child_dirs, order, t - 1);
                    let parent = before[t - 1];
                    assert(level_refutes(parent, order.take(n - 1 - (t - 1)), child_of(before, cd_before, t - 1)));
                    assert(child_of(s2, child_dirs, t - 1) is None);
                    assert(level_refutes(parent, order.take(n - 1 - (t - 1)), None));
                    assert forall|i: int| 0 <= i < s2.len() implies #[trigger] level_refutes(
                        s2[i],
                        order.take(order.len() - 1 - i),
                        child_of(s2, child_dirs, i),
                    ) by {}
                    assert(s2[0] == before[0]);
                } else {
                    assert(order.take(n) =~= order);
                }
            }
            word_list.push(current.word);
            proof {
                if all_lowercase(word_views(words@)) {
                    assert forall|i: int| 0 <= i < stack@.len() implies blank_or_lower(
                        #[trigger] stack@[i].grid@,
                    ) by {
                        assert(blank_or_lower(before[i].grid@));
                    }
                }
            }
            assert(stack_measure(stack@, n, base) < stack_measure(before, n, base));
            proof {
                lemma_measure_nonneg(stack@, n, base);
            }
            assert(rows_view(word_list@) =~= order.subrange(0, word_list@.len() as int));
        }
    }
}

} // verus!
