use solitaire_chess::{solve, Board, Results};

fn blank_rows() -> [&'static str; 8] {
    [
        "Q       ", "        ", "        ", "        ", "        ", "        ", "        ",
        "        ",
    ]
}

#[test]
fn pos_bit_values() {
    assert_eq!(Board::pos_bit(0, 0), 1);
    assert_eq!(Board::pos_bit(0, 1), 2);
    assert_eq!(Board::pos_bit(1, 0), 256);
    assert_eq!(Board::pos_bit(7, 7), 1u64 << 63);
}

#[test]
fn new_parses_layout() {
    let rows = [
        "QPPP    ", "P    P  ", "P      P", " P    P ", "P     P ", "P     P ", "  P     ",
        "P   P   ",
    ];
    let board = Board::new(&rows);
    assert_eq!(board.q_row, 0);
    assert_eq!(board.q_col, 0);
    assert!(board.occupied(0, 1));
    assert!(board.occupied(0, 2));
    assert!(board.occupied(0, 3));
    assert!(!board.occupied(0, 0));
    assert!(!board.occupied(0, 4));
    assert!(board.occupied(7, 0));
    assert!(board.occupied(7, 4));
    let mut pawns = 0;
    for r in 0..8 {
        for c in 0..8 {
            if board.occupied(r, c) {
                pawns += 1;
            }
        }
    }
    assert_eq!(pawns, 16);
}

#[test]
fn new_takes_first_queen() {
    let rows = [
        "        ", "  Q  Q  ", "        ", "Q       ", "        ", "        ", "        ",
        "        ",
    ];
    let board = Board::new(&rows);
    assert_eq!(board.q_row, 1);
    assert_eq!(board.q_col, 2);
}

#[test]
fn move_to_takes_pawn() {
    let mut rows = blank_rows();
    rows[0] = "Q P     ";
    rows[2] = "  P     ";
    let mut board = Board::new(&rows);
    assert!(board.occupied(0, 2));
    board.move_to(0, 2);
    assert_eq!(board.q_row, 0);
    assert_eq!(board.q_col, 2);
    assert!(!board.occupied(0, 2));
    assert!(board.occupied(2, 2));
}

#[test]
fn next_moves_direction_order() {
    // Mover at (3, 3) surrounded by eight adjacent pawns: one candidate per
    // direction, in the fixed order W, E, N, S, NE, SE, SW, NW.
    let rows = [
        "        ", "        ", "  PPP   ", "  PQP   ", "  PPP   ", "        ", "        ",
        "        ",
    ];
    let board = Board::new(&rows);
    let moves = board.next_moves();
    assert_eq!(
        moves,
        vec![(3, 2), (3, 4), (2, 3), (4, 3), (2, 4), (4, 4), (4, 2), (2, 2)]
    );
}

#[test]
fn next_moves_takes_nearest_pawn_only() {
    let mut rows = blank_rows();
    rows[0] = "Q  P  P ";
    let board = Board::new(&rows);
    // Only the nearest pawn east is reachable; the one beyond it is not.
    assert_eq!(board.next_moves(), vec![(0, 3)]);
}

#[test]
fn micro_layout_two_pawns_east() {
    // Mover at (0, 0), pawns at (0, 1) and (0, 2) only.
    let mut rows = blank_rows();
    rows[0] = "QPP     ";
    let board = Board::new(&rows);

    let first = board.next_moves();
    assert_eq!(first, vec![(0, 1)]);

    let mut stepped = board;
    stepped.move_to(0, 1);
    assert_eq!(stepped.next_moves(), vec![(0, 2)]);

    let results = solve(board, 2);
    assert_eq!(results.solutions, vec![vec![(0, 1), (0, 2)]]);
    // One candidate at each of the two levels.
    assert_eq!(results.games, 2);
    assert_eq!(results.depth_games[14], 1);
    assert_eq!(results.depth_games[15], 1);
    for d in 0..14 {
        assert_eq!(results.depth_games[d], 0);
    }
}

#[test]
fn zero_pawns_yields_nothing() {
    let rows = blank_rows();
    let board = Board::new(&rows);
    assert_eq!(board.next_moves(), Vec::<(u8, u8)>::new());

    let results = solve(board, 1);
    assert_eq!(results.games, 0);
    assert!(results.solutions.is_empty());
    for d in 0..16 {
        assert_eq!(results.depth_games[d], 0);
    }
}

#[test]
fn surrounded_mover_has_eight_first_moves() {
    let rows = [
        "        ", "        ", "  PPP   ", "  PQP   ", "  PPP   ", "        ", "        ",
        "        ",
    ];
    let board = Board::new(&rows);
    assert_eq!(board.next_moves().len(), 8);

    let results = solve(board, 8);
    // Branch count 8 at depth 1: eight pawns left means bucket 16 - 8.
    assert_eq!(results.depth_games[8], 8);
}

#[test]
fn solutions_have_pawn_count_length_and_clear_the_board() {
    let rows = [
        "        ", "        ", "  PPP   ", "  PQP   ", "  PPP   ", "        ", "        ",
        "        ",
    ];
    let board = Board::new(&rows);
    let results = solve(board, 8);
    assert!(!results.solutions.is_empty());
    for sol in results.solutions.iter() {
        assert_eq!(sol.len(), 8);
        let mut replayed = board;
        for &(r, c) in sol.iter() {
            assert!(replayed.occupied(r, c));
            replayed.move_to(r, c);
        }
        for r in 0..8 {
            for c in 0..8 {
                assert!(!replayed.occupied(r, c));
            }
        }
    }
}

#[test]
fn search_is_deterministic() {
    let rows = [
        "        ", "        ", "  PPP   ", "  PQP   ", "  PPP   ", "        ", "        ",
        "        ",
    ];
    let board = Board::new(&rows);
    let a = solve(board, 8);
    let b = solve(board, 8);
    assert_eq!(a.games, b.games);
    assert_eq!(a.depth_games, b.depth_games);
    assert_eq!(a.solutions, b.solutions);
}

#[test]
fn depth_counts_sum_to_total() {
    let rows = [
        "        ", "        ", "  PPP   ", "  PQP   ", "  PPP   ", "        ", "        ",
        "        ",
    ];
    let board = Board::new(&rows);
    let results = solve(board, 8);
    let total: u64 = results.depth_games.iter().sum();
    assert_eq!(total, results.games);
}

#[test]
fn fresh_results_are_empty() {
    let results = Results::new();
    assert_eq!(results.games, 0);
    assert!(results.solutions.is_empty());
    assert_eq!(results.depth_games, [0u64; 16]);
    let defaulted = Results::default();
    assert_eq!(defaulted.games, 0);
    assert!(defaulted.solutions.is_empty());
}

#[test]
fn render_shows_mover_pawns_and_blanks() {
    let mut rows = blank_rows();
    rows[0] = "Q P     ";
    let board = Board::new(&rows);
    let rendered = board.to_string();
    assert_eq!(rendered.len(), 8);
    assert_eq!(rendered[0], "\u{265b}\u{b7}\u{265f}\u{b7}\u{b7}\u{b7}\u{b7}\u{b7}");
    for r in 1..8 {
        assert_eq!(rendered[r], "\u{b7}".repeat(8));
    }
}

#[test]
fn render_follows_moves() {
    let mut rows = blank_rows();
    rows[0] = "QP      ";
    let mut board = Board::new(&rows);
    board.move_to(0, 1);
    let rendered = board.to_string();
    assert_eq!(rendered[0], "\u{b7}\u{265b}\u{b7}\u{b7}\u{b7}\u{b7}\u{b7}\u{b7}");
}

#[test]
fn corner_mover_scans_long_rays() {
    // Mover in the far corner: the west ray finds a pawn seven squares away,
    // the north-west diagonal one in the opposite corner.
    let rows = [
        "P       ", "        ", "        ", "        ", "        ", "        ", "        ",
        "P      Q",
    ];
    let board = Board::new(&rows);
    assert_eq!(board.next_moves(), vec![(7, 0), (0, 0)]);
}
