use wordsearch::placement::place_word_at_cell;
use wordsearch::{
    generate_grid, opposite_direction, solve_grid_hash_first_letter, solve_grid_naive,
    solve_grid_reverse_hash_first_letter, solve_grid_reverse_hash_first_two_letters,
    solve_grid_reverse_words, Cell, Direction, Grid, WordLocation, EMPTY_CHAR,
};

fn small_grid() -> Grid {
    Grid::new(&[
        vec!['t', 'o', 'p'],
        vec!['a', 'e', 'z'],
        vec!['n', 'o', 'w'],
    ])
}

fn all_solvers(grid: &Grid, words: &[&str]) -> Vec<Vec<WordLocation>> {
    vec![
        solve_grid_naive(grid, words),
        solve_grid_hash_first_letter(grid, words),
        solve_grid_reverse_words(grid, words),
        solve_grid_reverse_hash_first_letter(grid, words),
        solve_grid_reverse_hash_first_two_letters(grid, words),
    ]
}

#[test]
fn opposite_twice_is_identity() {
    for d in Direction::iterator() {
        assert_eq!(opposite_direction(&opposite_direction(&d)), d);
    }
    assert_eq!(opposite_direction(&Direction::Up), Direction::Down);
    assert_eq!(opposite_direction(&Direction::UpRight), Direction::DownLeft);
    assert_eq!(opposite_direction(&Direction::Left), Direction::Right);
    assert_eq!(opposite_direction(&Direction::DownRight), Direction::UpLeft);
}

#[test]
fn reversing_a_location_twice_gives_it_back() {
    let loc = WordLocation {
        word: "pen".to_string(),
        start_cell: Cell { row: 0, col: 2 },
        end_cell: Cell { row: 2, col: 0 },
        direction: Direction::DownLeft,
    };
    let back = WordLocation {
        word: "pen".to_string(),
        start_cell: Cell { row: 0, col: 2 },
        end_cell: Cell { row: 2, col: 0 },
        direction: Direction::DownLeft,
    }
    .into_reversed_location();
    assert_eq!(
        back,
        WordLocation {
            word: "nep".to_string(),
            start_cell: Cell { row: 2, col: 0 },
            end_cell: Cell { row: 0, col: 2 },
            direction: Direction::UpRight,
        }
    );
    assert_eq!(back.into_reversed_location(), loc);
}

#[test]
fn one_word_grid_keeps_only_the_path() {
    let grid = small_grid();
    let loc = WordLocation {
        word: "pen".to_string(),
        start_cell: Cell { row: 0, col: 2 },
        end_cell: Cell { row: 2, col: 0 },
        direction: Direction::DownLeft,
    };
    let isolated = grid.one_word_grid(&loc);
    assert_eq!(
        isolated,
        Grid::new(&[
            vec!['_', '_', 'p'],
            vec!['_', 'e', '_'],
            vec!['n', '_', '_'],
        ])
    );
    let single = WordLocation {
        word: "z".to_string(),
        start_cell: Cell { row: 1, col: 2 },
        end_cell: Cell { row: 1, col: 2 },
        direction: Direction::Left,
    };
    assert_eq!(
        grid.one_word_grid(&single),
        Grid::new(&[
            vec!['_', '_', '_'],
            vec!['_', '_', 'z'],
            vec!['_', '_', '_'],
        ])
    );
}

#[test]
fn empty_word_list_gives_no_grid() {
    let words: [&str; 0] = [];
    assert!(generate_grid(3, 3, &words).is_none());
}

#[test]
fn single_cell_grid_has_no_room() {
    let g = Grid::empty(1, 1);
    for d in Direction::iterator() {
        assert_eq!(g.cells_remaining_in_direction(&Cell { row: 0, col: 0 }, &d), 0);
        assert!(place_word_at_cell(&g, &Cell { row: 0, col: 0 }, &d, &vec!['a', 'b']).is_none());
    }
    assert!(place_word_at_cell(&g, &Cell { row: 0, col: 0 }, &Direction::Up, &vec!['a']).is_some());
    assert!(generate_grid(1, 1, &["ab"]).is_none());
    let one = generate_grid(1, 1, &["q"]).unwrap();
    assert_eq!(one, Grid::new(&[vec!['q']]));
}

#[test]
fn placement_respects_existing_letters() {
    let g = Grid::new(&[vec!['_', 'x', '_'], vec!['_', '_', '_']]);
    let start = Cell { row: 0, col: 0 };
    assert!(place_word_at_cell(&g, &start, &Direction::Right, &vec!['a', 'b', 'c']).is_none());
    let placed = place_word_at_cell(&g, &start, &Direction::Right, &vec!['a', 'x', 'c']).unwrap();
    assert_eq!(placed, Grid::new(&[vec!['a', 'x', 'c'], vec!['_', '_', '_']]));
    assert!(place_word_at_cell(&g, &start, &Direction::Right, &vec!['a', 'x', 'c', 'd']).is_none());
    assert_eq!(g, Grid::new(&[vec!['_', 'x', '_'], vec!['_', '_', '_']]));
    let diag = place_word_at_cell(&g, &start, &Direction::DownRight, &vec!['o', 'k']).unwrap();
    assert_eq!(diag, Grid::new(&[vec!['o', 'x', '_'], vec!['_', 'k', '_']]));
}

#[test]
fn neighbours_stop_at_the_edge() {
    let g = Grid::empty(2, 3);
    let origin = Cell { row: 0, col: 0 };
    assert_eq!(g.next_cell_in_direction(&origin, &Direction::Up), None);
    assert_eq!(g.next_cell_in_direction(&origin, &Direction::Left), None);
    assert_eq!(
        g.next_cell_in_direction(&origin, &Direction::DownRight),
        Some(Cell { row: 1, col: 1 })
    );
    let corner = Cell { row: 1, col: 2 };
    assert_eq!(g.next_cell_in_direction(&corner, &Direction::Right), None);
    assert_eq!(
        g.next_cell_in_direction(&corner, &Direction::UpLeft),
        Some(Cell { row: 0, col: 1 })
    );
    assert_eq!(g.cells_remaining_in_direction(&origin, &Direction::Right), 2);
    assert_eq!(g.cells_remaining_in_direction(&origin, &Direction::DownRight), 1);
    assert_eq!(g.row_count(), 2);
    assert_eq!(g.col_count(), 3);
    assert_eq!(Grid::empty(0, 4).col_count(), 0);
}

#[test]
fn render_separates_letters_by_spaces() {
    let g = Grid::new(&[vec!['a', 'b', 'c'], vec!['d', 'e', 'f']]);
    assert_eq!(g.render(), "a b c\nd e f\n");
    assert_eq!(Grid::new(&[vec!['x']]).render(), "x\n");
    assert_eq!(g.rows()[1], vec!['d', 'e', 'f']);
}

#[test]
fn solvers_agree_on_small_grid() {
    let grid = small_grid();
    let words = ["now", "pen", "tan", "top", "zap"];
    let results = all_solvers(&grid, &words);
    for r in &results {
        assert_eq!(*r, results[0]);
    }
    assert_eq!(results[0].len(), 4);
}

#[test]
fn missing_words_are_left_out() {
    let grid = small_grid();
    let results = all_solvers(&grid, &["cat", "ewe", "nap"]);
    for r in &results {
        assert!(r.is_empty());
    }
}

#[test]
fn shortest_match_wins_along_a_path() {
    let grid = Grid::new(&[vec!['a', 'b', 'c']]);
    let found = solve_grid_naive(&grid, &["abc", "ab"]);
    assert_eq!(
        found,
        vec![WordLocation {
            word: "ab".to_string(),
            start_cell: Cell { row: 0, col: 0 },
            end_cell: Cell { row: 0, col: 1 },
            direction: Direction::Right,
        }]
    );
}

#[test]
fn reversal_scan_differs_on_ambiguous_words() {
    let grid = Grid::new(&[vec!['a', 'b', 'c']]);
    let words = ["abc", "ba"];
    let ba = WordLocation {
        word: "ba".to_string(),
        start_cell: Cell { row: 0, col: 1 },
        end_cell: Cell { row: 0, col: 0 },
        direction: Direction::Left,
    };
    let abc = WordLocation {
        word: "abc".to_string(),
        start_cell: Cell { row: 0, col: 0 },
        end_cell: Cell { row: 0, col: 2 },
        direction: Direction::Right,
    };
    let naive = solve_grid_naive(&grid, &words);
    assert_eq!(naive.len(), 2);
    assert_eq!(naive[0], abc);
    assert_eq!(naive[1], ba);
    let reverse = solve_grid_reverse_words(&grid, &words);
    assert_eq!(reverse.len(), 1);
    assert_eq!(reverse[0], ba);
}

#[test]
fn generated_grid_hides_every_word() {
    let words = ["cat", "dog", "emu"];
    for _ in 0..20 {
        let grid = generate_grid(4, 4, &words).unwrap();
        assert_eq!(grid.row_count(), 4);
        assert_eq!(grid.col_count(), 4);
        for row in grid.rows() {
            for c in row {
                assert!(c.is_ascii_lowercase());
                assert_ne!(*c, EMPTY_CHAR);
            }
        }
        for found in all_solvers(&grid, &words) {
            for w in words.iter() {
                assert!(found.iter().any(|l| l.word == *w));
            }
            for l in &found {
                let path = grid.one_word_grid(l);
                let mut letters = 0;
                for row in path.rows() {
                    for c in row {
                        if *c != EMPTY_CHAR {
                            letters += 1;
                        }
                    }
                }
                assert_eq!(letters, l.word.len());
            }
        }
    }
}

#[test]
fn impossible_word_gives_no_grid() {
    assert!(generate_grid(2, 2, &["abc"]).is_none());
    assert!(generate_grid(0, 3, &["a"]).is_none());
    assert!(generate_grid(2, 2, &["ab", "cd", "ef"]).is_none());
}
