use sudoku_solver::{
    create_peers_dictionary, create_square_vec, create_unit_dictionary, create_unitlist, Game,
    GameSetup, RangeInterval, SudokuError, SudokuResult, SudokuSquare,
};

const EASY: &str =
    "003020600900305001001806400008102900700000008006708200002609500800203009005010300";
const EASY_SOLUTION: &str =
    "483921657967345821251876493548132976729564138136798245372689514814253769695417382";

fn grid_string(game: &Game) -> String {
    let mut out = String::new();
    for sq in &game.game_setup.sorted_squares {
        let cands = game.candidates(sq);
        assert_eq!(cands.len(), 1);
        out.push(cands[0]);
    }
    out
}

fn solve(puzzle: &str) -> Option<String> {
    let setup = GameSetup::standard();
    let mut game = Game::new(&setup);
    if game.init_game_with_values(puzzle).is_err() {
        return None;
    }
    game.search().map(|g| grid_string(&g))
}

/// Checks every row, column and box of an 81-digit grid holds 1..9 once.
fn is_valid_grid(grid: &str) -> bool {
    let d: Vec<u32> = grid.chars().map(|c| c.to_digit(10).unwrap_or(0)).collect();
    if d.len() != 81 {
        return false;
    }
    let setup = GameSetup::standard();
    for unit in &setup.squares {
        let mut seen = [false; 10];
        for sq in unit {
            let v = d[sq.0 * 9 + sq.1] as usize;
            if v == 0 || seen[v] {
                return false;
            }
            seen[v] = true;
        }
    }
    true
}

#[test]
fn every_square_has_twenty_peers_and_three_units() {
    let setup = GameSetup::standard();
    assert_eq!(setup.peers.len(), 81);
    for (n, peers) in setup.peers.iter().enumerate() {
        assert_eq!(peers.len(), 20);
        assert!(!peers.contains(&SudokuSquare(n / 9, n % 9)));
        assert_eq!(setup.units[n].unitvec.len(), 3);
    }
}

#[test]
fn units_partition_the_board() {
    let units = create_unitlist(0..9, 0..9);
    assert_eq!(units.len(), 27);
    for kind in 0..3 {
        let mut covered = vec![0; 81];
        for unit in &units[kind * 9..kind * 9 + 9] {
            assert_eq!(unit.len(), 9);
            for sq in unit {
                covered[sq.0 * 9 + sq.1] += 1;
            }
        }
        assert!(covered.iter().all(|&c| c == 1));
    }
}

#[test]
fn box_unit_lists_squares_in_row_major_order() {
    let units = create_unitlist(0..9, 0..9);
    assert_eq!(
        units[22],
        vec![
            SudokuSquare(3, 3),
            SudokuSquare(3, 4),
            SudokuSquare(3, 5),
            SudokuSquare(4, 3),
            SudokuSquare(4, 4),
            SudokuSquare(4, 5),
            SudokuSquare(5, 3),
            SudokuSquare(5, 4),
            SudokuSquare(5, 5),
        ]
    );
    assert_eq!(units[0][8], SudokuSquare(0, 8));
    assert_eq!(units[9 + 2][4], SudokuSquare(4, 2));
}

#[test]
fn peers_of_corner_square() {
    let units = create_unitlist(0..9, 0..9);
    let dict = create_unit_dictionary(&units);
    let peers = create_peers_dictionary(&dict, &units);
    assert_eq!(dict[0].unitvec, vec![0, 9, 18]);
    assert_eq!(dict[80].unitvec, vec![8, 17, 26]);
    let p = &peers[0];
    assert!(p.contains(&SudokuSquare(0, 8)));
    assert!(p.contains(&SudokuSquare(8, 0)));
    assert!(p.contains(&SudokuSquare(2, 2)));
    assert!(!p.contains(&SudokuSquare(3, 3)));
}

#[test]
fn square_vec_and_intervals() {
    assert_eq!((2..5).interval(), (2, 4));
    assert_eq!((3..=7).interval(), (3, 7));
    let v = create_square_vec(&(1..3), &(4..=5));
    assert_eq!(
        v,
        vec![
            SudokuSquare(1, 4),
            SudokuSquare(1, 5),
            SudokuSquare(2, 4),
            SudokuSquare(2, 5),
        ]
    );
}

#[test]
fn assign_leaves_exactly_the_digit() {
    let setup = GameSetup::standard();
    let mut game = Game::new(&setup);
    let sq = SudokuSquare(4, 4);
    assert!(game.assign(&sq, '7').is_ok());
    assert_eq!(game.candidates(&sq), vec!['7']);
    // the digit left the peers
    assert!(!game.candidates(&SudokuSquare(4, 0)).contains(&'7'));
    assert!(!game.candidates(&SudokuSquare(0, 4)).contains(&'7'));
    assert!(!game.candidates(&SudokuSquare(3, 3)).contains(&'7'));
    assert!(game.candidates(&SudokuSquare(0, 0)).contains(&'7'));
}

#[test]
fn assign_rejects_a_non_digit() {
    let setup = GameSetup::standard();
    let mut game = Game::new(&setup);
    assert!(matches!(
        game.assign(&SudokuSquare(0, 0), '.'),
        Err(SudokuError::NoRemainingValues)
    ));
}

#[test]
fn assign_of_a_removed_digit_fails() {
    let setup = GameSetup::standard();
    let mut game = Game::new(&setup);
    assert!(game.assign(&SudokuSquare(0, 0), '5').is_ok());
    assert!(matches!(
        game.assign(&SudokuSquare(0, 1), '5'),
        Err(SudokuError::NoRemainingValues)
    ));
}

#[test]
fn eliminate_removes_the_digit() {
    let setup = GameSetup::standard();
    let mut game = Game::new(&setup);
    let sq = SudokuSquare(2, 6);
    assert!(game.eliminate(&sq, '3').is_ok());
    assert_eq!(
        game.candidates(&sq),
        vec!['1', '2', '4', '5', '6', '7', '8', '9']
    );
}

#[test]
fn eliminate_twice_equals_once() {
    let setup = GameSetup::standard();
    let mut once = Game::new(&setup);
    assert!(once.assign(&SudokuSquare(0, 1), '4').is_ok());
    let mut twice = once.clone_state();
    let sq = SudokuSquare(0, 0);
    assert!(once.eliminate(&sq, '5').is_ok());
    assert!(twice.eliminate(&sq, '5').is_ok());
    let after_first = twice.clone_state();
    assert!(twice.eliminate(&sq, '5').is_ok());
    assert_eq!(after_first.stats, twice.stats);
    assert_eq!(once.stats, twice.stats);
}

#[test]
fn singletons_with_repeats_are_not_solved() {
    let setup = GameSetup::standard();
    let mut stats = Vec::new();
    for n in 0..81 {
        let mut cands = [false; 9];
        cands[n % 9] = true;
        stats.push(cands);
    }
    let game = Game { game_setup: &setup, stats };
    assert!(matches!(
        game.is_solved(),
        Err(SudokuError::NoRemainingValues)
    ));
}

#[test]
fn eliminate_to_single_clears_peers() {
    let setup = GameSetup::standard();
    let mut game = Game::new(&setup);
    let sq = SudokuSquare(0, 0);
    for c in ['1', '2', '3', '4', '5', '6', '7', '8'] {
        assert!(game.eliminate(&sq, c).is_ok());
    }
    assert_eq!(game.candidates(&sq), vec!['9']);
    for p in &setup.peers[0] {
        assert!(!game.candidates(p).contains(&'9'));
    }
}

#[test]
fn eliminate_last_candidate_fails() {
    let setup = GameSetup::standard();
    let mut game = Game::new(&setup);
    let sq = SudokuSquare(8, 8);
    assert!(game.assign(&sq, '4').is_ok());
    assert!(matches!(
        game.eliminate(&sq, '4'),
        Err(SudokuError::NoRemainingValues)
    ));
}

#[test]
fn count_places_for_value_kinds() {
    let setup = GameSetup::standard();
    let mut game = Game::new(&setup);
    let row0 = &setup.squares[0];
    match game.count_places_for_value(row0, '5') {
        Ok(SudokuResult::MultipleCandidates(v)) => assert_eq!(v.len(), 9),
        _ => panic!("expected nine places"),
    }
    assert!(game.assign(&SudokuSquare(0, 3), '5').is_ok());
    match game.count_places_for_value(row0, '5') {
        Ok(SudokuResult::OneCandidate(s)) => assert_eq!(s, SudokuSquare(0, 3)),
        _ => panic!("expected one place"),
    }
    assert!(matches!(
        game.count_places_for_value(row0, 'x'),
        Err(SudokuError::NoRemainingValues)
    ));
}

#[test]
fn is_solved_on_fresh_board_branches_on_first_square() {
    let setup = GameSetup::standard();
    let game = Game::new(&setup);
    match game.is_solved() {
        Ok((false, s)) => assert_eq!(s, SudokuSquare(0, 0)),
        _ => panic!("fresh board is not solved"),
    }
}

#[test]
fn is_solved_picks_fewest_candidates() {
    let setup = GameSetup::standard();
    let mut game = Game::new(&setup);
    let sq = SudokuSquare(5, 2);
    for c in ['1', '2', '3', '4', '5', '6', '7'] {
        assert!(game.eliminate(&sq, c).is_ok());
    }
    match game.is_solved() {
        Ok((false, s)) => assert_eq!(s, sq),
        _ => panic!("expected a branch square"),
    }
}

#[test]
fn solved_board_is_reported_solved() {
    let setup = GameSetup::standard();
    let mut game = Game::new(&setup);
    assert!(game.init_game_with_values(EASY_SOLUTION).is_ok());
    assert!(matches!(game.is_solved(), Ok((true, _))));
    assert!(is_valid_grid(&grid_string(&game)));
}

#[test]
fn empty_puzzle_reaches_a_valid_grid() {
    let blank = ".".repeat(81);
    let grid = solve(&blank).expect("an empty puzzle has a solution");
    assert!(is_valid_grid(&grid));
}

#[test]
fn one_blank_square_gets_its_digit() {
    let mut puzzle: Vec<char> = EASY_SOLUTION.chars().collect();
    puzzle[40] = '0';
    let puzzle: String = puzzle.into_iter().collect();
    assert_eq!(solve(&puzzle).as_deref(), Some(EASY_SOLUTION));
}

#[test]
fn duplicate_givens_have_no_solution() {
    let mut puzzle: Vec<char> = ".".repeat(81).chars().collect();
    puzzle[0] = '5';
    puzzle[5] = '5';
    let puzzle: String = puzzle.into_iter().collect();
    assert_eq!(solve(&puzzle), None);
    let mut column: Vec<char> = ".".repeat(81).chars().collect();
    column[3] = '2';
    column[75] = '2';
    let column: String = column.into_iter().collect();
    assert_eq!(solve(&column), None);
    let mut boxed: Vec<char> = ".".repeat(81).chars().collect();
    boxed[0] = '8';
    boxed[20] = '8';
    let boxed: String = boxed.into_iter().collect();
    assert_eq!(solve(&boxed), None);
}

#[test]
fn easy_puzzle_gives_known_solution() {
    assert_eq!(solve(EASY).as_deref(), Some(EASY_SOLUTION));
}

#[test]
fn init_fixes_the_givens() {
    let setup = GameSetup::standard();
    let mut game = Game::new(&setup);
    assert!(game.init_game_with_values(EASY).is_ok());
    assert_eq!(game.candidates(&SudokuSquare(0, 2)), vec!['3']);
    assert_eq!(game.candidates(&SudokuSquare(8, 6)), vec!['3']);
}

#[test]
fn unit_with_one_place_left_gets_the_digit() {
    let setup = GameSetup::standard();
    let mut game = Game::new(&setup);
    for col in 0..8 {
        assert!(game.eliminate(&SudokuSquare(0, col), '5').is_ok());
    }
    assert_eq!(game.candidates(&SudokuSquare(0, 8)), vec!['5']);
    assert!(!game.candidates(&SudokuSquare(8, 8)).contains(&'5'));
}

#[test]
fn assign_on_blank_board_clears_exactly_the_peers() {
    let setup = GameSetup::standard();
    let mut game = Game::new(&setup);
    assert!(game.init_game_with_values(&".".repeat(81)).is_ok());
    assert!(game.assign(&SudokuSquare(0, 0), '5').is_ok());
    assert_eq!(game.candidates(&SudokuSquare(0, 0)), vec!['5']);
    let peers = &setup.peers[0];
    for sq in &setup.sorted_squares {
        if *sq == SudokuSquare(0, 0) {
            continue;
        }
        let expected: Vec<char> = if peers.contains(sq) {
            "12346789".chars().collect()
        } else {
            "123456789".chars().collect()
        };
        assert_eq!(game.candidates(sq), expected);
    }
    let row_a = &setup.squares[0];
    match game.count_places_for_value(row_a, '5') {
        Ok(SudokuResult::OneCandidate(s)) => assert_eq!(s, SudokuSquare(0, 0)),
        _ => panic!("expected one place for 5"),
    }
    match game.count_places_for_value(row_a, '1') {
        Ok(SudokuResult::MultipleCandidates(v)) => {
            let expected: Vec<SudokuSquare> = (1..9).map(|c| SudokuSquare(0, c)).collect();
            assert_eq!(v, expected);
        }
        _ => panic!("expected eight places for 1"),
    }
}

#[test]
fn assign_of_the_held_digit_changes_nothing() {
    let setup = GameSetup::standard();
    let mut game = Game::new(&setup);
    assert!(game.assign(&SudokuSquare(3, 3), '2').is_ok());
    let before = game.clone_state();
    assert!(game.assign(&SudokuSquare(3, 3), '2').is_ok());
    assert_eq!(game.stats, before.stats);
}

#[test]
fn eliminate_of_last_candidate_keeps_the_board() {
    let setup = GameSetup::standard();
    let mut game = Game::new(&setup);
    assert!(game.assign(&SudokuSquare(6, 1), '8').is_ok());
    let before = game.clone_state();
    assert!(game.eliminate(&SudokuSquare(6, 1), '8').is_err());
    assert_eq!(game.stats, before.stats);
}

#[test]
fn init_alone_fixes_a_single_blank() {
    let puzzle = format!(".{}", &EASY_SOLUTION[1..]);
    let setup = GameSetup::standard();
    let mut game = Game::new(&setup);
    assert!(game.init_game_with_values(&puzzle).is_ok());
    assert_eq!(game.candidates(&SudokuSquare(0, 0)), vec!['4']);
    assert!(matches!(game.is_solved(), Ok((true, SudokuSquare(0, 0)))));
}

#[test]
fn any_non_digit_marks_a_blank() {
    let setup = GameSetup::standard();
    let mut dots = Game::new(&setup);
    let mut zeros = Game::new(&setup);
    assert!(dots.init_game_with_values(&EASY.replace('0', ".")).is_ok());
    assert!(zeros.init_game_with_values(&format!("{}\n", EASY)).is_ok());
    assert_eq!(dots.stats, zeros.stats);
}

#[test]
fn inclusive_interval_returns_its_bounds() {
    assert_eq!((5..=3).interval(), (5, 3));
    assert_eq!((4..=4).interval(), (4, 4));
}
