use ataxxgen::fen::FenError;
use ataxxgen::moves::MoveTextError;
use ataxxgen::{Board, Move, Player, Square};

#[test]
fn starting_record() {
    let board = Board::new();
    assert_eq!(board.fen(), "x5o/7/7/7/7/7/o5x x 0 1");
}

#[test]
fn record_roundtrip_from_start() {
    let board = Board::new();
    let mut back = Board::new();
    assert!(back.reset_from_fen(&board.fen()).is_ok());
    assert_eq!(board, back);
}

#[test]
fn record_roundtrip_along_random_play() {
    let mut board = Board::new();
    let mut state: usize = 9;
    for _ in 0..20 {
        if board.game_over() {
            break;
        }
        let moves = board.generate_moves();
        state = (state * 31 + 17) % 97;
        board.make_random_move(state % moves.len());
        let mut back = Board::new();
        assert!(back.reset_from_fen(&board.fen()).is_ok());
        assert_eq!(board, back);
    }
}

#[test]
fn record_roundtrip_with_blocked_cells() {
    let mut board = Board::new();
    assert!(board.reset_from_fen("x--4/-1-4/2o4/7/7/3x3/o5x o 42 7").is_ok());
    let mut back = Board::new();
    assert!(back.reset_from_fen(&board.fen()).is_ok());
    assert_eq!(board, back);
    assert_eq!(board.fen(), "x--4/-1-4/2o4/7/7/3x3/o5x o 42 7");
    assert_eq!(board.turn(), Player::Black);
}

#[test]
fn record_errors_are_distinct() {
    let mut board = Board::new();
    let pristine = board;
    assert_eq!(board.reset_from_fen("x5o/7/7/7/7/7/o5x x 0"), Err(FenError::NotEnoughParts));
    assert_eq!(board.reset_from_fen("x5o/7/7 x 0 1"), Err(FenError::NotEnoughRanks));
    assert_eq!(
        board.reset_from_fen("x5o/7/7/7/7/7/7/o5x x 0 1"),
        Err(FenError::TooManyRanks)
    );
    assert_eq!(board.reset_from_fen("x5/7/7/7/7/7/o5x x 0 1"), Err(FenError::NotEnoughFiles(0)));
    assert_eq!(board.reset_from_fen("x5o/7/8/7/7/7/o5x x 0 1"), Err(FenError::TooManyFiles(2)));
    assert_eq!(board.reset_from_fen("x5z/7/7/7/7/7/o5x x 0 1"), Err(FenError::InvalidChar('z')));
    assert_eq!(board.reset_from_fen("x5o/7/7/7/7/7/o5x w 0 1"), Err(FenError::InvalidStm));
    assert_eq!(board.reset_from_fen("x5o/7/7/7/7/7/o5x x ab 1"), Err(FenError::InvalidHalfmove));
    assert_eq!(board.reset_from_fen("x5o/7/7/7/7/7/o5x x 256 1"), Err(FenError::InvalidHalfmove));
    assert_eq!(board.reset_from_fen("x5o/7/7/7/7/7/o5x x 0 cd"), Err(FenError::InvalidFullmove));
    assert_eq!(board.reset_from_fen("x5o/7/7/7/7/7/o5x x 0 0"), Err(FenError::InvalidFullmove));
    // A failed reset leaves the board untouched.
    assert_eq!(board, pristine);
}

#[test]
fn record_accepts_split_empty_runs() {
    let mut board = Board::new();
    assert!(board.reset_from_fen("x5o/34/7/7/7/7/o5x x 0 1").is_ok());
    assert_eq!(board.fen(), "x5o/7/7/7/7/7/o5x x 0 1");
}

#[test]
fn move_text_forms() {
    assert_eq!(Move::Pass.text(), "0000");
    assert_eq!(Move::Single { to: Square::new(41) }.text(), "b6");
    assert_eq!(
        Move::Double { from: Square::new(48), to: Square::new(32) }.text(),
        "a7a5"
    );
}

#[test]
fn move_text_roundtrip() {
    assert_eq!(Move::from_text("0000"), Ok(Move::Pass));
    assert_eq!(Move::from_text("b6"), Ok(Move::Single { to: Square::new(41) }));
    assert_eq!(
        Move::from_text("a7a5"),
        Ok(Move::Double { from: Square::new(48), to: Square::new(32) })
    );
    assert_eq!(Move::from_text("z9"), Err(MoveTextError::InvalidSquare));
    assert_eq!(Move::from_text("a7a9"), Err(MoveTextError::InvalidSquare));
    assert_eq!(Move::from_text("abc"), Err(MoveTextError::InvalidMoveText));
    assert_eq!(Move::from_text(""), Err(MoveTextError::InvalidMoveText));
}

#[test]
fn square_names_and_parsing() {
    assert_eq!(Square::new(0).name(), Some(String::from("a1")));
    assert_eq!(Square::new(54).name(), Some(String::from("g7")));
    assert_eq!(Square::new(63).name(), Some(String::from("h8")));
    assert_eq!(Square::new(64).name(), None);
    assert_eq!(Square::from_text("a1"), Ok(Square::new(0)));
    assert_eq!(Square::from_text("g7"), Ok(Square::new(54)));
    assert_eq!(Square::from_text("q1"), Err(MoveTextError::InvalidSquare));
    assert_eq!(Square::from_text("a12"), Err(MoveTextError::InvalidSquare));
}

#[test]
fn pass_index_is_reserved() {
    assert_eq!(Move::Pass.index(), 2352);
    // The jump that would share the reserved index decodes as a pass.
    let mv = Move::Double { from: Square::new(54), to: Square::new(0) };
    assert_eq!(mv.index(), 2352);
    assert_eq!(Move::from_index(2352), Move::Pass);
}

#[test]
fn square_coordinates() {
    let sq = Square::from_rank_file(5, 1);
    assert_eq!(sq.inner(), 41);
    assert_eq!(sq.rank(), 5);
    assert_eq!(sq.file(), 1);
    assert_eq!(sq.index(), 41);
    assert!(sq.on_board());
    assert!(!Square::new(64).on_board());
    assert_eq!(Square::distance(Square::new(48), Square::new(32)), 2);
    assert_eq!(Square::distance(Square::new(0), Square::new(54)), 6);
    assert_eq!(Square::new(0).flip_rank().inner(), 56);
    assert_eq!(Square::new(0).flip_file().inner(), 7);
    assert_eq!(Square::new(12).relative_to(Player::White).inner(), 12);
    assert_eq!(Square::new(12).relative_to(Player::Black).inner(), 52);
    assert_eq!(Square::from_compressed_index(Square::new(41).compressed_index()), Square::new(41));
}

#[test]
fn render_start_position() {
    let board = Board::new();
    let expected = " +---+---+---+---+---+---+---+\n \
                    | x |   |   |   |   |   | o | 7\n \
                    +---+---+---+---+---+---+---+\n \
                    |   |   |   |   |   |   |   | 6\n \
                    +---+---+---+---+---+---+---+\n \
                    |   |   |   |   |   |   |   | 5\n \
                    +---+---+---+---+---+---+---+\n \
                    |   |   |   |   |   |   |   | 4\n \
                    +---+---+---+---+---+---+---+\n \
                    |   |   |   |   |   |   |   | 3\n \
                    +---+---+---+---+---+---+---+\n \
                    |   |   |   |   |   |   |   | 2\n \
                    +---+---+---+---+---+---+---+\n \
                    | o |   |   |   |   |   | x | 1\n \
                    +---+---+---+---+---+---+---+\n   \
                    a   b   c   d   e   f   g\n\nWhite to move";
    assert_eq!(board.render(), expected);
}

#[test]
fn record_error_messages() {
    assert_eq!(FenError::NotEnoughParts.message(), "Incomplete FEN");
    assert_eq!(FenError::NotEnoughFiles(0).message(), "Not enough files in rank 1");
    assert_eq!(FenError::TooManyFiles(6).message(), "Too many files in rank 7");
    assert_eq!(FenError::InvalidHalfmove.message(), "Invalid halfmove clock in FEN");
}

#[test]
fn player_characters() {
    assert_eq!(Player::White.to_char(), 'x');
    assert_eq!(Player::Black.to_char(), 'o');
    assert_eq!(Player::from_char('x'), Some(Player::White));
    assert_eq!(Player::from_char('o'), Some(Player::Black));
    assert_eq!(Player::from_char('q'), None);
}
