use vstd::prelude::*;

use crate::grid::{dir_rank, Cell, Direction, LocView, WordLocation};

verus! {

/// Lexicographic order on words, comparing characters by code point (the
/// order of `String`'s `Ord`).
pub open spec fn word_lt(a: Seq<char>, b: Seq<char>) -> bool
    decreases a.len(),
{
    if a.len() == 0 {
        b.len() > 0
    } else if b.len() == 0 {
        false
    } else if a[0] != b[0] {
        (a[0] as int) < (b[0] as int)
    } else {
        word_lt(a.drop_first(), b.drop_first())
    }
}

/// Order on cells: by row, then by column.
pub open spec fn cell_lt(a: Cell, b: Cell) -> bool {
    a.row < b.row || (a.row == b.row && a.col < b.col)
}

/// The order of located words: by word, first cell, last cell, then heading.
pub open spec fn loc_lt(a: LocView, b: LocView) -> bool {
    if a.word != b.word {
        word_lt(a.word, b.word)
    } else if a.start != b.start {
        cell_lt(a.start, b.start)
    } else if a.end != b.end {
        cell_lt(a.end, b.end)
    } else {
        dir_rank(a.direction) < dir_rank(b.direction)
    }
}

/// Each element comes strictly before every later one.
pub open spec fn strictly_sorted(q: Seq<LocView>) -> bool {
    forall|i: int, j: int| 0 <= i < j < q.len() ==> loc_lt(#[trigger] q[i], #[trigger] q[j])
}

/// The values of a list of located words.
pub open spec fn loc_views(v: Seq<WordLocation>) -> Seq<LocView> {
    Seq::new(v.len(), |i: int| v[i]@)
}

/// The elements of a set of located words, in increasing order.
pub open spec fn sorted_locations(s: Set<LocView>) -> Seq<LocView> {
    choose|q: Seq<LocView>| strictly_sorted(q) && q.to_set() == s
}

proof fn lemma_word_lt_irreflexive(a: Seq<char>)
    ensures
        !word_lt(a, a),
    decreases a.len(),
{
    if a.len() > 0 {
        lemma_word_lt_irreflexive(a.drop_first());
    }
}

proof fn lemma_word_lt_transitive(a: Seq<char>, b: Seq<char>, c: Seq<char>)
    requires
        word_lt(a, b),
        word_lt(b, c),
    ensures
        word_lt(a, c),
    decreases a.len(),
{
    if a.len() > 0 && b.len() > 0 && c.len() > 0 && a[0] == b[0] && b[0] == c[0] {
        lemma_word_lt_transitive(a.drop_first(), b.drop_first(), c.drop_first());
    }
}

proof fn lemma_word_lt_total(a: Seq<char>, b: Seq<char>)
    requires
        a != b,
    ensures
        word_lt(a, b) || word_lt(b, a),
    decreases a.len(),
{
    if a.len() == 0 && b.len() == 0 {
        assert(a =~= b);
    } else if a.len() > 0 && b.len() > 0 && a[0] != b[0] {
        assert((a[0] as int) != (b[0] as int));
    } else if a.len() > 0 && b.len() > 0 {
        if a.drop_first() == b.drop_first() {
            assert(a =~= seq![a[0]] + a.drop_first());
            assert(b =~= seq![b[0]] + b.drop_first());
        }
        lemma_word_lt_total(a.drop_first(), b.drop_first());
    }
}

/// `loc_lt` is irreflexive.
pub proof fn lemma_loc_lt_irreflexive(a: LocView)
    ensures
        !loc_lt(a, a),
{
}

/// `loc_lt` is transitive.
pub proof fn lemma_loc_lt_transitive(a: LocView, b: LocView, c: LocView)
    requires
        loc_lt(a, b),
        loc_lt(b, c),
    ensures
        loc_lt(a, c),
{
    if a.word != b.word && b.word != c.word {
        lemma_word_lt_transitive(a.word, b.word, c.word);
        if a.word == c.word {
            lemma_word_lt_transitive(a.word, b.word, a.word);
            lemma_word_lt_irreflexive(a.word);
        }
    }
}

/// Any two different located words are ordered one way or the other.
pub proof fn lemma_loc_lt_total(a: LocView, b: LocView)
    requires
        a != b,
    ensures
        loc_lt(a, b) || loc_lt(b, a),
{
    if a.word != b.word {
        lemma_word_lt_total(a.word, b.word);
    } else if a.start == b.start && a.end == b.end {
        assert(a.direction != b.direction);
    }
}

/// A set has at most one strictly sorted listing.
pub proof fn lemma_sorted_unique(a: Seq<LocView>, b: Seq<LocView>)
    requires
        strictly_sorted(a),
        strictly_sorted(b),
        a.to_set() == b.to_set(),
    ensures
        a == b,
    decreases a.len(),
{
    if a.len() == 0 {
        if b.len() > 0 {
            assert(b.to_set().contains(b[0]));
        }
        assert(a =~= b);
    } else if b.len() == 0 {
        assert(a.to_set().contains(a[0]));
    } else {
        assert(a.to_set().contains(a[0]));
        assert(b.to_set().contains(b[0]));
        let i = choose|i: int| 0 <= i < a.len() && a[i] == b[0];
        let j = choose|j: int| 0 <= j < b.len() && b[j] == a[0];
        if a[0] != b[0] {
            assert(i > 0 && j > 0);
            assert(loc_lt(a[0], a[i]));
            assert(loc_lt(b[0], b[j]));
            lemma_loc_lt_transitive(a[0], b[0], a[0]);
            lemma_loc_lt_irreflexive(a[0]);
        }
        let a1 = a.drop_first();
        let b1 = b.drop_first();
        assert forall|x: LocView| a1.to_set().contains(x) implies b1.to_set().contains(x) by {
            let k = choose|k: int| 0 <= k < a1.len() && a1[k] == x;
            assert(loc_lt(a[0], a[k + 1]));
            assert(b.to_set().contains(x));
            let m = choose|m: int| 0 <= m < b.len() && b[m] == x;
            if m == 0 {
                lemma_loc_lt_irreflexive(a[0]);
            }
            assert(b1[m - 1] == x);
        }
        assert forall|x: LocView| b1.to_set().contains(x) implies a1.to_set().contains(x) by {
            let k = choose|k: int| 0 <= k < b1.len() && b1[k] == x;
            assert(loc_lt(b[0], b[k + 1]));
            assert(a.to_set().contains(x));
            let m = choose|m: int| 0 <= m < a.len() && a[m] == x;
            if m == 0 {
                lemma_loc_lt_irreflexive(b[0]);
            }
            assert(a1[m - 1] == x);
        }
        assert(a1.to_set() =~= b1.to_set());
        lemma_sorted_unique(a1, b1);
        assert(a =~= seq![a[0]] + a1);
        assert(b =~= seq![b[0]] + b1);
    }
}

/// A strictly sorted listing of a set is the one `sorted_locations` names.
pub proof fn lemma_sorted_locations(q: Seq<LocView>, s: Set<LocView>)
    requires
        strictly_sorted(q),
        q.to_set() == s,
    ensures
        sorted_locations(s) == q,
{
    let c = sorted_locations(s);
    assert(strictly_sorted(c) && c.to_set() == s);
    lemma_sorted_unique(c, q);
}

/// Whether two character sequences are equal.
pub fn chars_equal(a: &Vec<char>, b: &Vec<char>) -> (r: bool)
    ensures
        r == (a@ == b@),
{
    if a.len() != b.len() {
        return false;
    }
    let mut i: usize = 0;
    while i < a.len()
        invariant
            a@.len() == b@.len(),
            i <= a@.len(),
            forall|k: int| 0 <= k < i ==> a@[k] == b@[k],
        decreases a@.len() - i,
    {
        if a[i] != b[i] {
            return false;
        }
        i = i + 1;
    }
    assert(a@ =~= b@);
    true
}

/// Whether `a` comes before `b` in lexicographic order.
fn word_less(a: &Vec<char>, b: &Vec<char>) -> (r: bool)
    ensures
        r == word_lt(a@, b@),
{
    let mut i: usize = 0;
    assert(a@.skip(0) =~= a@);
    assert(b@.skip(0) =~= b@);
    loop
        invariant
            i <= a@.len(),
            i <= b@.len(),
            word_lt(a@, b@) == word_lt(a@.skip(i as int), b@.skip(i as int)),
        decreases a@.len() - i,
    {
        if i == a.len() {
            return i < b.len();
        }
        if i == b.len() {
            return false;
        }
        if a[i] != b[i] {
            return a[i] < b[i];
        }
        assert(a@.skip(i as int).drop_first() =~= a@.skip(i + 1));
        assert(b@.skip(i as int).drop_first() =~= b@.skip(i + 1));
        i = i + 1;
    }
}

/// The place of a heading in declaration order.
fn direction_rank(d: Direction) -> (r: u8)
    ensures
        r == dir_rank(d),
{
    match d {
        Direction::Up => 0,
        Direction::UpRight => 1,
        Direction::Right => 2,
        Direction::DownRight => 3,
        Direction::Down => 4,
        Direction::DownLeft => 5,
        Direction::Left => 6,
        Direction::UpLeft => 7,
    }
}

fn cell_less(a: Cell, b: Cell) -> (r: bool)
    ensures
        r == cell_lt(a, b),
{
    a.row < b.row || (a.row == b.row && a.col < b.col)
}

/// Whether `a` comes before `b`: by word, first cell, last cell, then heading.
pub fn location_less(a: &WordLocation, b: &WordLocation) -> (r: bool)
    ensures
        r == loc_lt(a@, b@),
{
    let wa = crate::text::chars_of(a.word.as_str());
    let wb = crate::text::chars_of(b.word.as_str());
    if !chars_equal(&wa, &wb) {
        word_less(&wa, &wb)
    } else if a.start_cell != b.start_cell {
        cell_less(a.start_cell, b.start_cell)
    } else if a.end_cell != b.end_cell {
        cell_less(a.end_cell, b.end_cell)
    } else {
        direction_rank(a.direction) < direction_rank(b.direction)
    }
}

/// Adds `l` to a strictly sorted list at its place, unless it is there
/// already.
pub fn insert_sorted(found: &mut Vec<WordLocation>, l: WordLocation)
    requires
        strictly_sorted(loc_views(old(found)@)),
    ensures
        strictly_sorted(loc_views(final(found)@)),
        loc_views(final(found)@).to_set() == loc_views(old(found)@).to_set().insert(l@),
{
    let ghost old_views = loc_views(found@);
    let mut i: usize = 0;
    while i < found.len()
        invariant
            i <= found@.len(),
            loc_views(found@) == old_views,
            strictly_sorted(old_views),
            forall|k: int| 0 <= k < i ==> loc_lt(#[trigger] old_views[k], l@),
        ensures
            i <= found@.len(),
            loc_views(found@) == old_views,
            forall|k: int| 0 <= k < i ==> loc_lt(#[trigger] old_views[k], l@),
            i < found@.len() ==> !loc_lt(old_views[i as int], l@),
        decreases found@.len() - i,
    {
        if !location_less(&found[i], &l) {
            break;
        }
        i = i + 1;
    }
    if i < found.len() && !location_less(&l, &found[i]) {
        proof {
            if found@[i as int]@ != l@ {
                lemma_loc_lt_total(found@[i as int]@, l@);
            }
            assert(old_views[i as int] == l@);
            assert(old_views.to_set().insert(l@) =~= old_views.to_set());
        }
        return;
    }
    let ghost x = l@;
    proof {
        if i < found@.len() {
            if old_views[i as int] != x {
                lemma_loc_lt_total(old_views[i as int], x);
            } else {
                lemma_loc_lt_irreflexive(x);
            }
            assert(loc_lt(x, old_views[i as int]));
        }
    }
    found.insert(i, l);
    proof {
        let nv = loc_views(found@);
        assert(nv =~= old_views.insert(i as int, x));
        assert forall|a: int, b: int| 0 <= a < b < nv.len() implies loc_lt(
            #[trigger] nv[a],
            #[trigger] nv[b],
        ) by {
            if a < i && b < i {
                assert(loc_lt(old_views[a], old_views[b]));
            } else if a < i && b == i {
            } else if a < i && b > i {
                assert(loc_lt(old_views[a], old_views[b - 1]));
            } else if a == i {
                if b - 1 > i {
                    assert(loc_lt(old_views[i as int], old_views[b - 1]));
                    lemma_loc_lt_transitive(x, old_views[i as int], old_views[b - 1]);
                }
            } else {
                assert(loc_lt(old_views[a - 1], old_views[b - 1]));
            }
        }
        assert forall|y: LocView| nv.contains(y) implies (old_views.contains(y) || y == x) by {
            let k = choose|k: int| 0 <= k < nv.len() && nv[k] == y;
            if k < i {
                assert(old_views[k] == y);
            } else if k > i {
                assert(old_views[k - 1] == y);
            }
        }
        assert forall|y: LocView| (old_views.contains(y) || y == x) implies nv.contains(y) by {
            if y == x {
                assert(nv[i as int] == x);
            } else {
                let k = choose|k: int| 0 <= k < old_views.len() && old_views[k] == y;
                if k < i {
                    assert(nv[k] == y);
                } else {
                    assert(nv[k + 1] == y);
                }
            }
        }
        assert(nv.to_set() =~= old_views.to_set().insert(x));
    }
}

} // verus!
