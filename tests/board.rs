use minesweeper::{Effect, FlagOutcome, Game, GameState, Grid, RevealOutcome, UNREVEALED};

/// A board of side `n` with mines on the given `(col, row)` cells.
fn board(n: usize, mines: &[(usize, usize)]) -> Grid {
    let mut m = vec![vec![false; n]; n];
    for &(c, r) in mines {
        m[r][c] = true;
    }
    Grid::from_mines(m)
}

fn count_mines(g: &Grid) -> usize {
    let n = g.size();
    let mut k = 0;
    for r in 0..n {
        for c in 0..n {
            if g.is_mine(c, r) {
                k += 1;
            }
        }
    }
    k
}

fn snapshot(g: &Grid) -> Vec<(i32, bool, bool)> {
    let n = g.size();
    let mut v = Vec::new();
    for r in 0..n {
        for c in 0..n {
            v.push((g.cell_value(c, r), g.is_mine(c, r), g.is_flagged(c, r)));
        }
    }
    v
}

#[test]
fn generated_boards_hold_the_rounded_mine_count() {
    for &(n, expected) in &[(1usize, 0usize), (3, 2), (8, 12), (16, 47), (24, 105)] {
        let g = Grid::generate(n);
        assert_eq!(g.size(), n);
        assert_eq!(count_mines(&g), expected);
        for r in 0..n {
            for c in 0..n {
                assert_eq!(g.cell_value(c, r), UNREVEALED);
                assert!(!g.is_flagged(c, r));
            }
        }
    }
}

#[test]
fn generating_twice_gives_fresh_boards_with_the_same_count() {
    for _ in 0..20 {
        let g = Grid::generate(8);
        assert_eq!(count_mines(&g), 12);
    }
}

#[test]
fn adjacent_mines_counts_the_eight_neighbours() {
    let g = board(4, &[(0, 0), (1, 0), (2, 2), (3, 3)]);
    assert_eq!(g.adjacent_mines(1, 1), 3);
    assert_eq!(g.adjacent_mines(0, 1), 2);
    assert_eq!(g.adjacent_mines(3, 0), 0);
    assert_eq!(g.adjacent_mines(2, 3), 2);
    assert_eq!(g.adjacent_mines(0, 0), 1);
}

#[test]
fn revealing_twice_is_a_noop_the_second_time() {
    let mut g = board(4, &[(3, 3)]);
    assert!(matches!(g.reveal_at(2, 2), RevealOutcome::Revealed(_)));
    assert_eq!(g.cell_value(2, 2), 1);
    let before = snapshot(&g);
    assert!(matches!(g.reveal_at(2, 2), RevealOutcome::NoOp));
    assert_eq!(snapshot(&g), before);
}

#[test]
fn a_numbered_cell_reveals_alone_with_five_effects() {
    let mut g = board(4, &[(3, 3)]);
    match g.reveal_at(2, 2) {
        RevealOutcome::Revealed(e) => {
            assert_eq!(e, vec![Effect { col: 2, row: 2 }; 5]);
        }
        other => panic!("unexpected {:?}", other),
    }
    for r in 0..4 {
        for c in 0..4 {
            if (c, r) != (2, 2) {
                assert_eq!(g.cell_value(c, r), UNREVEALED);
            }
        }
    }
}

#[test]
fn flood_fill_uncovers_the_zero_region_and_its_border() {
    // A wall of mines down column 2 keeps the flood on the left.
    let mut g = board(5, &[(2, 0), (2, 1), (2, 2), (2, 3), (2, 4)]);
    match g.reveal_at(0, 0) {
        RevealOutcome::Revealed(e) => {
            assert_eq!(e.len(), 5 * 10);
            for x in &e {
                assert!(x.col < 2);
            }
            let mut seen = Vec::new();
            for run in e.chunks(5) {
                assert!(run.iter().all(|x| *x == run[0]));
                assert!(!seen.contains(&run[0]));
                seen.push(run[0]);
            }
        }
        other => panic!("unexpected {:?}", other),
    }
    for r in 0..5 {
        assert_eq!(g.cell_value(0, r), 0);
        let expected = if r == 0 || r == 4 { 2 } else { 3 };
        assert_eq!(g.cell_value(1, r), expected);
        for c in 2..5 {
            assert_eq!(g.cell_value(c, r), UNREVEALED);
        }
    }
}

#[test]
fn flood_fill_opens_a_mine_free_board_entirely() {
    let mut g = board(6, &[]);
    match g.reveal_at(3, 2) {
        RevealOutcome::Revealed(e) => assert_eq!(e.len(), 5 * 36),
        other => panic!("unexpected {:?}", other),
    }
    for r in 0..6 {
        for c in 0..6 {
            assert_eq!(g.cell_value(c, r), 0);
        }
    }
}

#[test]
fn flood_fill_clears_flags_on_cells_it_uncovers() {
    let mut g = board(3, &[]);
    assert!(matches!(g.toggle_flag_at(2, 2), FlagOutcome::Toggled { won: false, .. }));
    assert!(g.is_flagged(2, 2));
    assert!(matches!(g.reveal_at(0, 0), RevealOutcome::Revealed(_)));
    assert!(!g.is_flagged(2, 2));
    assert_eq!(g.cell_value(2, 2), 0);
}

#[test]
fn flagged_cells_are_protected_and_revealed_cells_cannot_be_flagged() {
    let mut g = board(4, &[(3, 3)]);
    assert!(matches!(g.toggle_flag_at(1, 1), FlagOutcome::Toggled { .. }));
    let before = snapshot(&g);
    assert!(matches!(g.reveal_at(1, 1), RevealOutcome::NoOp));
    assert_eq!(snapshot(&g), before);
    assert!(matches!(g.toggle_flag_at(1, 1), FlagOutcome::Toggled { .. }));
    assert!(!g.is_flagged(1, 1));
    assert!(matches!(g.reveal_at(2, 2), RevealOutcome::Revealed(_)));
    let before = snapshot(&g);
    assert!(matches!(g.toggle_flag_at(2, 2), FlagOutcome::NoOp));
    assert_eq!(snapshot(&g), before);
    for r in 0..4 {
        for c in 0..4 {
            assert!(!(g.is_flagged(c, r) && g.cell_value(c, r) != UNREVEALED));
        }
    }
}

#[test]
fn a_flag_toggle_emits_two_effects() {
    let mut g = board(3, &[(1, 1)]);
    match g.toggle_flag_at(0, 2) {
        FlagOutcome::Toggled { won, effects } => {
            assert!(!won);
            assert_eq!(effects, vec![Effect { col: 0, row: 2 }; 2]);
        }
        other => panic!("unexpected {:?}", other),
    }
}

#[test]
fn win_needs_flags_exactly_on_the_mines() {
    let mut g = board(2, &[(0, 0), (1, 1)]);
    assert!(matches!(g.toggle_flag_at(0, 0), FlagOutcome::Toggled { won: false, .. }));
    assert!(!g.check_for_win());
    assert!(matches!(g.toggle_flag_at(1, 1), FlagOutcome::Toggled { won: true, .. }));
    assert!(g.check_for_win());
    assert!(matches!(g.toggle_flag_at(1, 0), FlagOutcome::Toggled { won: false, .. }));
    assert!(matches!(g.toggle_flag_at(1, 0), FlagOutcome::Toggled { won: true, .. }));
}

#[test]
fn a_board_without_mines_is_won_with_no_flags() {
    let g = board(3, &[]);
    assert!(g.check_for_win());
}

#[test]
fn detonation_bursts_over_every_mine() {
    let mines = [(3, 3), (0, 5), (5, 0), (1, 2)];
    let mut game = Game::new(board(6, &mines));
    match game.reveal_at(3, 3) {
        RevealOutcome::Detonated(e) => {
            assert_eq!(e.len(), 5 * mines.len());
            for x in &e {
                assert!(mines.contains(&(x.col, x.row)));
            }
            for m in &mines {
                assert_eq!(e.iter().filter(|x| (x.col, x.row) == *m).count(), 5);
            }
        }
        other => panic!("unexpected {:?}", other),
    }
    assert_eq!(game.state, GameState::GameOver { won: false });
    assert_eq!(game.grid.cell_value(3, 3), UNREVEALED);
}

#[test]
fn a_finished_game_takes_no_more_moves() {
    let mut game = Game::new(board(2, &[(0, 0)]));
    assert!(matches!(game.toggle_flag_at(0, 0), FlagOutcome::Toggled { won: true, .. }));
    assert_eq!(game.state, GameState::GameOver { won: true });
    assert!(matches!(game.reveal_at(1, 1), RevealOutcome::NoOp));
    assert!(matches!(game.toggle_flag_at(1, 1), FlagOutcome::NoOp));
    assert_eq!(game.grid.cell_value(1, 1), UNREVEALED);
}

#[test]
fn playing_on_keeps_the_game_in_play() {
    let mut game = Game::new(board(3, &[(2, 2)]));
    assert!(matches!(game.reveal_at(0, 0), RevealOutcome::Revealed(_)));
    assert_eq!(game.state, GameState::Playing);
    assert!(matches!(game.toggle_flag_at(2, 2), FlagOutcome::Toggled { won: true, .. }));
    assert_eq!(game.state, GameState::GameOver { won: true });
}

#[test]
fn a_corner_with_two_mined_neighbours_shows_two() {
    for &n in &[2usize, 3, 8, 16, 24] {
        let mut g = board(n, &[(1, 0), (1, 1)]);
        assert!(matches!(g.reveal_at(0, 0), RevealOutcome::Revealed(_)));
        assert_eq!(g.cell_value(0, 0), 2);
        let mut g = board(n, &[(0, 1), (1, 1)]);
        assert!(matches!(g.reveal_at(0, 0), RevealOutcome::Revealed(_)));
        assert_eq!(g.cell_value(0, 0), 2);
    }
}

#[test]
fn new_game_starts_in_play_on_a_covered_board() {
    let game = Game::new_game(16);
    assert_eq!(game.state, GameState::Playing);
    assert_eq!(game.grid.size(), 16);
    assert_eq!(count_mines(&game.grid), 47);
}
