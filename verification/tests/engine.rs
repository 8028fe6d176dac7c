use ataxxgen::{Board, Move, Player, Square};

#[test]
fn make_random_same_as_movelist_idx() {
    let mut board = Board::default();
    let rng = |lo: usize, hi: usize| {
        if hi > lo + 1 {
            (5427 * (hi - lo / 2)) % (hi - lo) + lo
        } else {
            lo
        }
    };
    for _ in 0..100 {
        let mut board2 = board;
        let moves = board.generate_moves();
        if moves.is_empty() {
            break;
        }
        let idx = rng(0, moves.len());
        board.make_random_move(idx);
        board2.make_move(moves[idx]);
        assert_eq!(board, board2);
    }
}

#[test]
fn squares_correctly_on_board() {
    for sq in Square::all() {
        let ci = sq.compressed_index();
        assert!(ci < 7 * 7);
    }
}

#[test]
fn feature_map_in_bounds() {
    let board = Board::default();
    for idx in board.feature_map() {
        assert!(idx < 7 * 7 * 3);
    }
}

#[test]
fn move_index_roundtrip() {
    let pass = Move::Pass;
    assert_eq!(pass, Move::from_index(pass.index()));
    for single in Square::all() {
        let mv = Move::Single { to: single };
        assert_eq!(mv, Move::from_index(mv.index()));
    }
    for from in Square::all() {
        for to in Square::all()
            .into_iter()
            .filter(|&to| to != from && !(to == Square::new(0) && from == Square::new(54)))
        {
            let mv = Move::Double { from, to };
            assert_eq!(mv, Move::from_index(mv.index()));
        }
    }
}

#[test]
fn starting_position_layout() {
    let board = Board::new();
    assert_eq!(board.turn(), Player::White);
    // White on a7 and g1, black on a1 and g7.
    assert_eq!(board.player_at(Square::new(48)), Some(Player::White));
    assert_eq!(board.player_at(Square::new(6)), Some(Player::White));
    assert_eq!(board.player_at(Square::new(0)), Some(Player::Black));
    assert_eq!(board.player_at(Square::new(54)), Some(Player::Black));
    assert_eq!(board.player_at(Square::new(24)), None);
    // The blocked rank and file.
    assert!(board.wall_at(Square::new(7)));
    assert!(board.wall_at(Square::new(63)));
    assert!(!board.wall_at(Square::new(0)));
    assert!(!board.game_over());
    assert_eq!(board.outcome(), None);
}

#[test]
fn move_generation_is_deterministic() {
    let board = Board::new();
    let first = board.generate_moves();
    let second = board.generate_moves();
    assert_eq!(first, second);
    assert_eq!(first.len(), 16);
}

#[test]
fn generated_moves_are_ordered_singles_then_doubles() {
    let board = Board::new();
    let moves = board.generate_moves();
    let mut seen_double = false;
    for mv in moves {
        match mv {
            Move::Single { .. } => assert!(!seen_double),
            Move::Double { .. } => seen_double = true,
            Move::Pass => panic!("pass among regular moves"),
        }
    }
    assert!(seen_double);
}

#[test]
fn perft_reference_values() {
    let board = Board::new();
    assert_eq!(ataxxgen::perft(&board, 0), 1);
    assert_eq!(ataxxgen::perft(&board, 1), 16);
    assert_eq!(ataxxgen::perft(&board, 2), 256);
    assert_eq!(ataxxgen::perft(&board, 3), 6460);
    assert_eq!(ataxxgen::perft(&board, 4), 155888);
}

#[test]
fn perft_reference_value_depth_five() {
    let board = Board::new();
    assert_eq!(ataxxgen::perft(&board, 5), 4752668);
}

#[test]
fn perft_leaves_board_unchanged() {
    let board = Board::new();
    let copy = board;
    for depth in 1..=3 {
        ataxxgen::perft(&board, depth);
        assert_eq!(board, copy);
    }
}

#[test]
fn capture_flips_adjacent_opponents() {
    let mut board = Board::new();
    assert!(board.reset_from_fen("xo5/7/7/7/7/7/7 x 0 1").is_ok());
    // White places on b6, next to its a7 piece; the black piece on b7
    // sits within one ring of the destination and flips.
    board.make_move(Move::Single { to: Square::new(41) });
    assert_eq!(board.fen(), "xx5/1x5/7/7/7/7/7 o 0 1");
}

#[test]
fn jump_vacates_origin() {
    let mut board = Board::new();
    // White jumps a7 to a5: the origin empties, no captures.
    board.make_move(Move::Double { from: Square::new(48), to: Square::new(32) });
    assert_eq!(board.fen(), "6o/7/x6/7/7/7/o5x o 1 1");
}

#[test]
fn elimination_ends_the_game() {
    let mut board = Board::new();
    assert!(board.reset_from_fen("xx5/7/7/7/7/7/7 x 0 1").is_ok());
    assert!(board.game_over());
    assert_eq!(board.outcome(), Some(Some(Player::White)));
    assert!(board.reset_from_fen("oo5/7/7/7/7/7/7 x 0 1").is_ok());
    assert!(board.game_over());
    assert_eq!(board.outcome(), Some(Some(Player::Black)));
}

#[test]
fn quiet_limit_ends_in_tie_when_counts_equal() {
    let mut board = Board::new();
    assert!(board.reset_from_fen("x5o/7/7/7/7/7/o5x x 100 3").is_ok());
    assert!(board.game_over());
    assert_eq!(board.outcome(), Some(None));
}

#[test]
fn full_board_counts_pieces() {
    let mut board = Board::new();
    assert!(
        board.reset_from_fen("xxxxxxx/xxxxxxx/xxxxxxx/xxxxxxx/ooooooo/ooooooo/ooooooo x 0 1")
            .is_ok()
    );
    assert!(board.game_over());
    assert_eq!(board.outcome(), Some(Some(Player::White)));
    assert!(board.generate_moves().is_empty());
}

#[test]
fn stuck_side_must_pass() {
    let mut board = Board::new();
    // Every empty cell lies outside both rings of white's one piece, but
    // black still has room next to g1, so the game is not over and white
    // is forced to pass.
    assert!(board.reset_from_fen("x--4/---4/---4/7/7/7/6o x 0 1").is_ok());
    assert!(!board.game_over());
    let moves = board.generate_moves();
    assert_eq!(moves, vec![Move::Pass]);
}

#[test]
fn pass_only_advances_the_ply() {
    let mut board = Board::new();
    assert!(board.reset_from_fen("x--4/---4/---4/7/7/7/6o x 0 1").is_ok());
    board.make_move(Move::Pass);
    assert_eq!(board.fen(), "x--4/---4/---4/7/7/7/6o o 0 1");
    assert_eq!(board.turn(), Player::Black);
}

#[test]
fn feature_map_start_exact() {
    let board = Board::new();
    // Mover cells g1 and a7 in increasing cell order, then the opponent
    // cells one block of 49 up; no playable cell is blocked at the start.
    assert_eq!(board.feature_map(), vec![6, 42, 49, 97]);
}

#[test]
fn random_selector_handles_forced_pass() {
    let mut board = Board::new();
    assert!(board.reset_from_fen("x--4/---4/---4/7/7/7/6o x 0 1").is_ok());
    let mut expect = board;
    board.make_random_move(0);
    expect.make_move(Move::Pass);
    assert_eq!(board, expect);
}

#[test]
fn depth_fens_enumerate_leaves() {
    let board = Board::new();
    let level0 = ataxxgen::generate_depth_n_fens(board, 0);
    assert_eq!(level0, vec![String::from("x5o/7/7/7/7/7/o5x x 0 1")]);
    let level1 = ataxxgen::generate_depth_n_fens(board, 1);
    assert_eq!(level1.len(), 16);
    // The first enumerated move is the single onto f1, next to g1.
    assert_eq!(level1[0], "x5o/7/7/7/7/7/o4xx o 0 1");
}
