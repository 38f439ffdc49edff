use minesweeper_rs::config::{Config, Difficulty};
use minesweeper_rs::grid::{
    GameBoard, RevealOutcome, Square, DISPLAY, DISPLAY_BLANK, DISPLAY_MINE, DO_NOT_UNCOVER,
    FLAGGED, MINE, RESIZE, VISITED,
};
use minesweeper_rs::util::{LegacyRandomNumberGenerator, RandomNumberGenerator};

/// Hands out a fixed sequence of draws, over and over.
struct Scripted {
    draws: Vec<usize>,
    next: usize,
}

impl RandomNumberGenerator for Scripted {
    fn random_u32(&mut self, max: u32) -> usize {
        let v = self.draws[self.next % self.draws.len()] % max as usize;
        self.next += 1;
        v
    }
}

fn empty_board(rows: usize, columns: usize) -> GameBoard {
    GameBoard {
        grid: vec![Square::blank(); rows * columns],
        num_rows: rows,
        num_columns: columns,
        num_mines: 0,
        num_uncovered_squares: rows * columns,
    }
}

fn board_with_mines(rows: usize, columns: usize, mines: &[(usize, usize)]) -> GameBoard {
    let mut b = empty_board(rows, columns);
    for &(r, c) in mines {
        b.set_mine(r, c);
    }
    b.num_mines = mines.len();
    b.num_uncovered_squares = rows * columns - mines.len();
    b.calculate_adjacent_mines();
    b
}

fn count_mines(b: &GameBoard) -> usize {
    b.grid.iter().filter(|s| s.mine).count()
}

fn beginner_config() -> Config {
    Config::default()
}

#[test]
fn setup_places_exactly_the_configured_mines() {
    for seed in 0..50u16 {
        let mut b = GameBoard::new();
        let mut rng = LegacyRandomNumberGenerator::from_seed(seed);
        let mut config = beginner_config();
        config.difficulty = Difficulty::new(9, 9, 64);
        b.setup(&config, &mut rng);
        assert_eq!(count_mines(&b), 64);
        assert_eq!(b.num_mines, 64);
        assert_eq!(b.num_uncovered_squares, 81 - 64);
        assert!(b.grid.iter().all(|s| !s.visited && !s.flagged && !s.q_marked));
    }
}

#[test]
fn setup_expert_layout() {
    let mut b = GameBoard::new();
    let mut rng = LegacyRandomNumberGenerator::from_seed(42);
    let mut config = beginner_config();
    config.difficulty = Difficulty::expert();
    b.setup(&config, &mut rng);
    assert_eq!((b.num_rows, b.num_columns), (16, 30));
    assert_eq!(b.grid.len(), 480);
    assert_eq!(count_mines(&b), 99);
    assert_eq!(b.num_uncovered_squares, 381);
}

#[test]
fn setup_signals_resize_only_when_dimensions_change() {
    let mut b = GameBoard::new();
    let mut rng = LegacyRandomNumberGenerator::from_seed(3);
    let config = beginner_config();
    assert_eq!(b.setup(&config, &mut rng), RESIZE | DISPLAY);
    assert_eq!(b.setup(&config, &mut rng), DISPLAY);
    let mut bigger = beginner_config();
    bigger.difficulty = Difficulty::intermediate();
    assert_eq!(b.setup(&bigger, &mut rng), RESIZE | DISPLAY);
}

#[test]
fn setup_redraws_when_the_drawn_square_is_taken() {
    // The first two draws name (0, 0) twice; the second mine must go elsewhere.
    let mut rng = Scripted { draws: vec![0, 0, 0, 0, 1, 2, 3, 4, 5, 6, 7, 8], next: 0 };
    let mut b = GameBoard::new();
    b.setup(&beginner_config(), &mut rng);
    assert_eq!(count_mines(&b), 10);
    assert!(b.is_mine(0, 0));
    assert!(b.is_mine(1, 2));
}

#[test]
fn setup_falls_back_when_draws_never_find_a_free_square() {
    // Every draw names (0, 0), so every mine after the first takes the
    // first free square in row-major order.
    let mut rng = Scripted { draws: vec![0], next: 0 };
    let mut b = GameBoard::new();
    b.setup(&beginner_config(), &mut rng);
    assert_eq!(count_mines(&b), 10);
    for c in 0..9 {
        assert!(b.is_mine(0, c));
    }
    assert!(b.is_mine(1, 0));
    assert!(!b.is_mine(1, 1));
}

#[test]
fn adjacency_counts_match_neighbouring_mines() {
    let mut b = GameBoard::new();
    let mut rng = LegacyRandomNumberGenerator::from_seed(11);
    let mut config = beginner_config();
    config.difficulty = Difficulty::new(12, 10, 30);
    b.setup(&config, &mut rng);
    b.calculate_adjacent_mines();
    for r in 0..b.num_rows {
        for c in 0..b.num_columns {
            let mut expected = 0u8;
            if !b.is_mine(r, c) {
                for dr in -1i32..=1 {
                    for dc in -1i32..=1 {
                        let (rr, cc) = (r as i32 + dr, c as i32 + dc);
                        if (dr, dc) != (0, 0)
                            && rr >= 0
                            && cc >= 0
                            && (rr as usize) < b.num_rows
                            && (cc as usize) < b.num_columns
                            && b.is_mine(rr as usize, cc as usize)
                        {
                            expected += 1;
                        }
                    }
                }
            }
            assert_eq!(b.get_adjacent(r, c), expected);
            assert!(expected <= 8);
        }
    }
}

#[test]
fn adjacency_of_surrounded_square_is_eight() {
    let mines = [(0, 0), (0, 1), (0, 2), (1, 0), (1, 2), (2, 0), (2, 1), (2, 2)];
    let b = board_with_mines(9, 9, &mines);
    assert_eq!(b.get_adjacent(1, 1), 8);
    assert_eq!(b.get_adjacent(0, 0), 0);
    assert_eq!(b.get_adjacent(3, 3), 1);
    assert_eq!(b.get_adjacent(3, 1), 3);
}

#[test]
fn neighbour_lists() {
    let b = empty_board(9, 9);
    assert_eq!(b.adjacent_square_indices(0, 0), vec![(0, 1), (1, 0), (1, 1)]);
    assert_eq!(
        b.adjacent_square_indices(4, 4),
        vec![(3, 4), (3, 3), (3, 5), (4, 3), (4, 5), (5, 4), (5, 3), (5, 5)]
    );
    assert_eq!(b.adjacent_square_indices(8, 4).len(), 5);
    assert_eq!(b.adjacent_square_indices_no_diag(0, 0), vec![(0, 1), (1, 0)]);
    assert_eq!(b.adjacent_square_indices_no_diag(4, 4), vec![(3, 4), (4, 3), (4, 5), (5, 4)]);
    assert_eq!(b.adjacent_square_indices_no_diag(8, 8), vec![(7, 8), (8, 7)]);
}

#[test]
fn reveal_on_visited_square_is_noop() {
    let mut b = board_with_mines(9, 9, &[(0, 0)]);
    assert_eq!(b.left_click(0, 1), RevealOutcome::Revealed(1));
    let remaining = b.num_uncovered_squares;
    assert_eq!(b.left_click(0, 1), RevealOutcome::NoOp);
    assert_eq!(b.num_uncovered_squares, remaining);
}

#[test]
fn reveal_twice_after_flood_fill_is_noop() {
    let mut b = board_with_mines(9, 9, &[(0, 0)]);
    assert!(matches!(b.left_click(8, 8), RevealOutcome::Revealed(_)));
    let before = b.grid.clone();
    let remaining = b.num_uncovered_squares;
    assert_eq!(b.left_click(8, 8), RevealOutcome::NoOp);
    assert_eq!(b.grid, before);
    assert_eq!(b.num_uncovered_squares, remaining);
}

#[test]
fn reveal_on_flagged_square_is_noop() {
    let mut b = board_with_mines(9, 9, &[(0, 0)]);
    b.toggle_flag(0, 0);
    b.toggle_flag(5, 5);
    assert_eq!(b.left_click(0, 0), RevealOutcome::NoOp);
    assert_eq!(b.left_click(5, 5), RevealOutcome::NoOp);
    assert!(!b.is_visited(0, 0));
    assert!(!b.is_visited(5, 5));
    assert_eq!(b.num_uncovered_squares, 80);
}

#[test]
fn reveal_on_mine_explodes_that_square_only() {
    let mut b = board_with_mines(9, 9, &[(4, 4), (0, 0)]);
    let before = b.grid.clone();
    assert_eq!(b.left_click(4, 4), RevealOutcome::Exploded);
    let changed: Vec<usize> = (0..81).filter(|&i| b.grid[i] != before[i]).collect();
    assert_eq!(changed, vec![4 * 9 + 4]);
    assert!(b.is_visited(4, 4));
    assert_eq!(b.num_uncovered_squares, 79);
}

#[test]
fn flood_fill_on_mine_free_board_uncovers_everything() {
    let mut b = board_with_mines(9, 9, &[]);
    assert_eq!(b.left_click(3, 7), RevealOutcome::Revealed(81));
    assert_eq!(b.num_uncovered_squares, 0);
    assert!(b.grid.iter().all(|s| s.visited));
}

#[test]
fn numbered_square_uncovers_only_itself() {
    let mut b = board_with_mines(9, 9, &[(4, 4)]);
    assert_eq!(b.left_click(3, 3), RevealOutcome::Revealed(1));
    assert_eq!(b.grid.iter().filter(|s| s.visited).count(), 1);
    assert_eq!(b.num_uncovered_squares, 79);
}

#[test]
fn flood_fill_stops_at_numbered_border() {
    // A wall of mines down column 4 splits the board.
    let wall: Vec<(usize, usize)> = (0..9).map(|r| (r, 4)).collect();
    let mut b = board_with_mines(9, 9, &wall);
    // Columns 0..=2 are blank, column 3 is numbered: 36 squares on the left.
    assert_eq!(b.left_click(0, 0), RevealOutcome::Revealed(36));
    for r in 0..9 {
        for c in 0..4 {
            assert!(b.is_visited(r, c));
        }
        for c in 4..9 {
            assert!(!b.is_visited(r, c));
        }
    }
    assert_eq!(b.num_uncovered_squares, 81 - 9 - 36);
}

#[test]
fn flags_stop_the_flood_fill() {
    let mut b = board_with_mines(9, 9, &[]);
    for r in 0..9 {
        b.toggle_flag(r, 4);
    }
    assert_eq!(b.left_click(0, 0), RevealOutcome::Revealed(36));
    assert!(!b.is_visited(0, 5));
    assert!(!b.is_visited(3, 4));
}

#[test]
fn revealing_every_safe_square_wins_exactly_once() {
    let mut b = GameBoard::new();
    let mut rng = LegacyRandomNumberGenerator::from_seed(2024);
    b.setup(&beginner_config(), &mut rng);
    b.calculate_adjacent_mines();
    assert_eq!(b.num_uncovered_squares, 71);
    let mut zero_hits = 0;
    let mut total = 0;
    for r in 0..9 {
        for c in 0..9 {
            if b.is_mine(r, c) {
                continue;
            }
            let before = b.num_uncovered_squares;
            match b.left_click(r, c) {
                RevealOutcome::Revealed(n) => {
                    total += n;
                    assert_eq!(b.num_uncovered_squares, before - n);
                    if b.num_uncovered_squares == 0 {
                        zero_hits += 1;
                    }
                }
                RevealOutcome::NoOp => assert_eq!(b.num_uncovered_squares, before),
                RevealOutcome::Exploded => panic!("revealed a mine"),
            }
        }
    }
    assert_eq!(total, 71);
    assert_eq!(b.remaining_uncovered_count(), 0);
    assert_eq!(zero_hits, 1);
}

#[test]
fn display_codes() {
    let b = board_with_mines(9, 9, &[(0, 0)]);
    assert_eq!(b.get_display(0, 0), DISPLAY_MINE);
    assert_eq!(b.get_display(0, 1), 1);
    assert_eq!(b.get_display(5, 5), DISPLAY_BLANK);
    assert_eq!(DISPLAY_MINE, 10);
    assert_eq!(DISPLAY_BLANK, 15);
}

#[test]
fn toggles_flip_marks_on_covered_squares_only() {
    let mut b = board_with_mines(9, 9, &[(0, 0)]);
    b.toggle_flag(2, 2);
    assert!(b.is_flagged(2, 2));
    b.toggle_q_mark(2, 2);
    assert!(b.is_q_marked(2, 2));
    assert!(b.is_flagged(2, 2));
    b.toggle_flag(2, 2);
    assert!(!b.is_flagged(2, 2));
    b.toggle_q_mark(2, 2);
    assert!(!b.is_q_marked(2, 2));
    b.left_click(0, 1);
    b.toggle_flag(0, 1);
    b.toggle_q_mark(0, 1);
    assert!(!b.is_flagged(0, 1));
    assert!(!b.is_q_marked(0, 1));
}

#[test]
fn setters_and_masks() {
    let mut b = empty_board(9, 9);
    b.set_visited(1, 1);
    b.set_mine(1, 1);
    assert!(b.mask_matches_exact(1, 1, VISITED | MINE));
    assert!(!b.mask_matches_exact(1, 1, DO_NOT_UNCOVER));
    assert!(b.mask_matches_any(1, 1, DO_NOT_UNCOVER));
    assert!(!b.mask_matches_any(2, 2, DO_NOT_UNCOVER));
    b.set_flagged(2, 2);
    b.set_q_marked(2, 2);
    assert!(b.mask_matches_any(2, 2, FLAGGED));
    assert_eq!(b.get_square(2, 2).flags(), 0b1100);
    b.set_adjacent(3, 3, 7);
    assert_eq!(b.get_adjacent(3, 3), 7);
    assert_eq!(b.get_display(3, 3), 7);
}

#[test]
fn clear_resets_every_square() {
    let mut b = board_with_mines(9, 9, &[(0, 0), (3, 3)]);
    b.left_click(8, 8);
    b.toggle_flag(0, 0);
    b.clear();
    assert_eq!(b.grid.len(), 81);
    assert!(b.grid.iter().all(|s| *s == Square::blank()));
}

#[test]
fn text_symbols() {
    let mut b = board_with_mines(9, 9, &[(0, 0)]);
    assert_eq!(b.symbol_at(0, 0), 'M');
    assert_eq!(b.symbol_at(1, 1), '1');
    assert_eq!(b.symbol_at(5, 5), '0');
    b.left_click(5, 5);
    assert_eq!(b.symbol_at(5, 5), 'X');
    assert_eq!(b.symbol_at(1, 1), '1');
}

#[test]
fn set_flag_and_mark_leave_uncovered_squares_alone() {
    let mut b = board_with_mines(9, 9, &[(0, 0)]);
    b.left_click(0, 1);
    let before = b.grid.clone();
    b.set_flagged(0, 1);
    b.set_q_marked(0, 1);
    assert_eq!(b.grid, before);
    b.set_flagged(2, 2);
    b.set_q_marked(3, 3);
    assert!(b.is_flagged(2, 2));
    assert!(b.is_q_marked(3, 3));
}

#[test]
fn uncovering_all_safe_squares_wins() {
    let mut b = GameBoard::new();
    let mut rng = LegacyRandomNumberGenerator::from_seed(99);
    b.setup(&beginner_config(), &mut rng);
    b.calculate_adjacent_mines();
    b.uncover_all_safe_squares();
    assert_eq!(b.remaining_uncovered_count(), 0);
    assert!(b.grid.iter().all(|s| s.visited != s.mine));
    assert_eq!(count_mines(&b), 10);
}
