use wordsearch::{
    solve_grid_hash_first_letter, solve_grid_naive, solve_grid_reverse_hash_first_letter,
    solve_grid_reverse_hash_first_two_letters, solve_grid_reverse_words, Cell, Direction, Grid,
    WordLocation,
};

fn grid() -> Grid {
    Grid::new(&vec![
        vec![
            'h', 'b', 'b', 'q', 'd', 'v', 'p', 'n', 'r', 'e', 'w', 'z', 's', 'i', 'h',
        ],
        vec![
            'j', 'g', 'w', 'w', 'e', 'd', 'c', 'r', 'd', 'e', 'm', 'm', 'n', 'x', 'g',
        ],
        vec![
            'k', 'u', 'u', 'o', 't', 'g', 'n', 'e', 'e', 's', 'd', 'i', 'l', 'l', 'r',
        ],
        vec![
            'o', 's', 'q', 'l', 'a', 'm', 'p', 'i', 'i', 's', 't', 'r', 't', 'c', 'i',
        ],
        vec![
            'c', 'p', 'z', 'l', 'n', 'm', 'z', 'l', 'm', 'i', 'c', 'n', 'o', 'y', 'h',
        ],
        vec![
            'k', 'l', 'l', 'o', 'i', 'n', 'p', 'k', 'a', 'h', 'e', 'r', 'v', 'b', 'c',
        ],
        vec![
            'y', 'j', 'l', 'f', 'd', 's', 'r', 't', 'v', 'm', 'q', 'y', 'i', 'h', 'd',
        ],
        vec![
            'e', 'p', 'o', 'h', 'r', 'x', 'e', 'o', 'u', 'a', 'w', 'h', 'v', 'b', 'b',
        ],
        vec![
            'u', 'x', 'm', 'y', 'o', 'b', 't', 'r', 'b', 'd', 'q', 'k', 'a', 'g', 'e',
        ],
        vec![
            'o', 'l', 'r', 'n', 'o', 'm', 't', 'c', 'q', 'i', 'x', 'r', 'c', 'u', 'e',
        ],
        vec![
            'w', 'c', 'o', 't', 'c', 's', 'u', 'o', 'i', 'x', 'n', 'a', 'i', 'e', 'c',
        ],
        vec![
            'v', 's', 'm', 'f', 'n', 'r', 'e', 'c', 'i', 't', 'e', 'j', 'o', 's', 'k',
        ],
        vec![
            'e', 'p', 'i', 'i', 'w', 't', 'o', 'x', 'x', 'g', 'i', 'd', 'u', 's', 'z',
        ],
        vec![
            'p', 'l', 'a', 'u', 's', 'i', 'b', 'l', 'e', 'e', 'k', 'm', 's', 'i', 'i',
        ],
        vec![
            't', 'f', 'a', 'y', 'x', 'v', 'g', 'b', 'h', 'a', 'y', 'q', 'z', 'q', 'e',
        ],
    ])
}

fn words() -> Vec<String> {
    [
        "anxious".to_string(),
        "border".to_string(),
        "coordinated".to_string(),
        "follow".to_string(),
        "guess".to_string(),
        "hope".to_string(),
        "impede".to_string(),
        "initiate".to_string(),
        "instrument".to_string(),
        "mind".to_string(),
        "nose".to_string(),
        "plausible".to_string(),
        "prescribe".to_string(),
        "recite".to_string(),
        "robin".to_string(),
        "vivacious".to_string(),
    ]
    .to_vec()
}

fn assert_found_words(found_words: &[WordLocation]) {
    assert_eq!(found_words.len(), words().len());

    assert_eq!(
        found_words[0],
        WordLocation {
            word: "anxious".to_string(),
            start_cell: Cell { row: 10, col: 11 },
            end_cell: Cell { row: 10, col: 5 },
            direction: Direction::Left,
        }
    );

    assert_eq!(
        found_words[1],
        WordLocation {
            word: "border".to_string(),
            start_cell: Cell { row: 5, col: 13 },
            end_cell: Cell { row: 0, col: 8 },
            direction: Direction::UpLeft,
        }
    );

    assert_eq!(
        found_words[2],
        WordLocation {
            word: "coordinated".to_string(),
            start_cell: Cell { row: 10, col: 4 },
            end_cell: Cell { row: 0, col: 4 },
            direction: Direction::Up,
        }
    );

    assert_eq!(
        found_words[3],
        WordLocation {
            word: "follow".to_string(),
            start_cell: Cell { row: 6, col: 3 },
            end_cell: Cell { row: 1, col: 3 },
            direction: Direction::Up,
        }
    );

    assert_eq!(
        found_words[4],
        WordLocation {
            word: "guess".to_string(),
            start_cell: Cell { row: 8, col: 13 },
            end_cell: Cell { row: 12, col: 13 },
            direction: Direction::Down,
        }
    );

    assert_eq!(
        found_words[5],
        WordLocation {
            word: "hope".to_string(),
            start_cell: Cell { row: 7, col: 3 },
            end_cell: Cell { row: 7, col: 0 },
            direction: Direction::Left,
        }
    );

    assert_eq!(
        found_words[6],
        WordLocation {
            word: "impede".to_string(),
            start_cell: Cell { row: 5, col: 4 },
            end_cell: Cell { row: 0, col: 9 },
            direction: Direction::UpRight,
        }
    );

    assert_eq!(
        found_words[7],
        WordLocation {
            word: "initiate".to_string(),
            start_cell: Cell { row: 0, col: 13 },
            end_cell: Cell { row: 7, col: 6 },
            direction: Direction::DownLeft,
        }
    );

    assert_eq!(
        found_words[8],
        WordLocation {
            word: "instrument".to_string(),
            start_cell: Cell { row: 12, col: 3 },
            end_cell: Cell { row: 3, col: 12 },
            direction: Direction::UpRight,
        }
    );

    assert_eq!(
        found_words[9],
        WordLocation {
            word: "mind".to_string(),
            start_cell: Cell { row: 4, col: 8 },
            end_cell: Cell { row: 1, col: 5 },
            direction: Direction::UpLeft,
        }
    );

    assert_eq!(
        found_words[10],
        WordLocation {
            word: "nose".to_string(),
            start_cell: Cell { row: 9, col: 3 },
            end_cell: Cell { row: 12, col: 0 },
            direction: Direction::DownLeft,
        }
    );

    assert_eq!(
        found_words[11],
        WordLocation {
            word: "plausible".to_string(),
            start_cell: Cell { row: 13, col: 0 },
            end_cell: Cell { row: 13, col: 8 },
            direction: Direction::Right,
        }
    );

    assert_eq!(
        found_words[12],
        WordLocation {
            word: "prescribe".to_string(),
            start_cell: Cell { row: 0, col: 6 },
            end_cell: Cell { row: 8, col: 14 },
            direction: Direction::DownRight,
        }
    );

    assert_eq!(
        found_words[13],
        WordLocation {
            word: "recite".to_string(),
            start_cell: Cell { row: 11, col: 5 },
            end_cell: Cell { row: 11, col: 10 },
            direction: Direction::Right,
        }
    );

    assert_eq!(
        found_words[14],
        WordLocation {
            word: "robin".to_string(),
            start_cell: Cell { row: 6, col: 6 },
            end_cell: Cell { row: 10, col: 10 },
            direction: Direction::DownRight,
        }
    );

    assert_eq!(
        found_words[15],
        WordLocation {
            word: "vivacious".to_string(),
            start_cell: Cell { row: 5, col: 12 },
            end_cell: Cell { row: 13, col: 12 },
            direction: Direction::Down,
        }
    );
}

#[test]
fn test_solve_grid_reverse() {
    assert_found_words(&solve_grid_reverse_words(
        &grid(),
        &words().iter().map(|w| w.as_str()).collect::<Vec<&str>>(),
    ));
}

#[test]
fn test_solve_grid_naive() {
    assert_found_words(&solve_grid_naive(
        &grid(),
        &words().iter().map(|w| w.as_str()).collect::<Vec<&str>>(),
    ));
}

#[test]
fn test_solve_grid_naive_hash_first_letter() {
    assert_found_words(&solve_grid_hash_first_letter(
        &grid(),
        &words().iter().map(|w| w.as_str()).collect::<Vec<&str>>(),
    ));
}

#[test]
fn test_solve_grid_reverse_hash_first_letter() {
    assert_found_words(&solve_grid_reverse_hash_first_letter(
        &grid(),
        &words().iter().map(|w| w.as_str()).collect::<Vec<&str>>(),
    ));
}

#[test]
fn test_solve_grid_reverse_hash_first_two_letters() {
    assert_found_words(&solve_grid_reverse_hash_first_two_letters(
        &grid(),
        &words().iter().map(|w| w.as_str()).collect::<Vec<&str>>(),
    ));
}
