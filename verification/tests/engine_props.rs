use reversi::bits::{get_bit, line_bit_at};
use reversi::board::{
    default_position, get_col, get_negative_diag, get_positive_diag, get_row, Board, BoardError,
    Color, Position,
};
use reversi::lines::get_linear_moves;
use reversi::player::Player;

fn stone_count(b: &Board) -> usize {
    let mut count: usize = 0;
    for x in 0..8i32 {
        for y in 0..8i32 {
            if b.is_occupied(Position(x, y)).unwrap() {
                count += 1;
            }
        }
    }
    count
}

#[test]
fn starting_board_has_exactly_four_center_stones() {
    let b = Board::new();
    for x in 0..8i32 {
        for y in 0..8i32 {
            let expected = match (x, y) {
                (4, 3) | (3, 4) => Some(Color::Black),
                (3, 3) | (4, 4) => Some(Color::White),
                _ => None,
            };
            assert_eq!(b.get(Position(x, y)).unwrap(), expected);
        }
    }
    assert_eq!(stone_count(&b), 4);
}

#[test]
fn other_is_involutive() {
    assert_eq!(Color::Black.other(), Color::White);
    assert_eq!(Color::White.other(), Color::Black);
    assert_eq!(Color::Black.other().other(), Color::Black);
    assert_eq!(Color::White.other().other(), Color::White);
}

#[test]
fn occupied_agrees_with_stone_query() {
    let b = Board::new().make_move(Color::Black, Position(2, 3)).unwrap();
    for x in 0..8i32 {
        for y in 0..8i32 {
            let pos = Position(x, y);
            assert_eq!(b.is_occupied(pos).unwrap(), b.get(pos).unwrap().is_some());
        }
    }
}

#[test]
fn out_of_bounds_coordinates_are_rejected() {
    let b = Board::new();
    assert_eq!(b.get(Position(8, 0)), Err(BoardError::OutOfBounds));
    assert_eq!(b.get(Position(-1, 3)), Err(BoardError::OutOfBounds));
    assert_eq!(b.is_occupied(Position(8, 0)), Err(BoardError::OutOfBounds));
    assert_eq!(b.is_occupied(Position(-1, 3)), Err(BoardError::OutOfBounds));
    assert!(b.make_move(Color::Black, Position(8, 0)).is_err());
    assert_eq!(
        b.make_move(Color::White, Position(-1, 3)),
        Err(BoardError::OutOfBounds)
    );
}

#[test]
fn applying_a_move_flips_exactly_the_sandwiched_run() {
    let b = Board::new().make_move(Color::Black, Position(2, 3)).unwrap();
    for x in 0..8i32 {
        for y in 0..8i32 {
            let expected = match (x, y) {
                (2, 3) | (3, 3) | (3, 4) | (4, 3) => Some(Color::Black),
                (4, 4) => Some(Color::White),
                _ => None,
            };
            assert_eq!(b.get(Position(x, y)).unwrap(), expected);
        }
    }
}

#[test]
fn placement_without_captures_flips_nothing() {
    let b = Board::new().make_move(Color::Black, Position(0, 0)).unwrap();
    assert_eq!(b.get(Position(0, 0)).unwrap(), Some(Color::Black));
    for x in 0..8i32 {
        for y in 0..8i32 {
            let expected = match (x, y) {
                (0, 0) | (4, 3) | (3, 4) => Some(Color::Black),
                (3, 3) | (4, 4) => Some(Color::White),
                _ => None,
            };
            assert_eq!(b.get(Position(x, y)).unwrap(), expected);
        }
    }
}

#[test]
fn each_move_adds_exactly_one_stone() {
    let mut b = Board::new();
    let mut expected = 4;
    for side in [Color::Black, Color::White, Color::Black, Color::White] {
        let moves = b.get_moves(side);
        assert!(!moves.is_empty());
        b = b.make_move(side, moves[0]).unwrap();
        expected += 1;
        assert_eq!(stone_count(&b), expected);
    }
}

#[test]
fn starting_moves_match_the_canonical_four() {
    let b = Board::new();
    let moves = b.get_moves(Color::Black);
    assert_eq!(moves.len(), 4);
    for p in [Position(2, 3), Position(3, 2), Position(4, 5), Position(5, 4)] {
        assert!(moves.contains(&p));
    }
    let white_moves = b.get_moves(Color::White);
    assert_eq!(white_moves.len(), 4);
    for p in [Position(2, 4), Position(4, 2), Position(3, 5), Position(5, 3)] {
        assert!(white_moves.contains(&p));
    }
}

#[test]
fn linear_moves_find_sandwiches_on_both_sides() {
    // my stone at offset 0, opponent run at 1..=2, empty target at 3
    assert_eq!(get_linear_moves(0b0000_0001, 0b0000_0110), vec![3]);
    // opponent at 1, my stone at 2: the target just left of the run
    assert_eq!(get_linear_moves(0b0000_0100, 0b0000_0010), vec![0]);
    // closed runs on both sides of one empty cell give that offset once
    assert_eq!(get_linear_moves(0b0001_0001, 0b0000_1010), vec![2]);
    // a run that reaches the line edge without a closing stone is no move
    assert_eq!(get_linear_moves(0b0000_0000, 0b0000_0110), vec![]);
    // adjacent empty cell and my stone without an opponent run is no move
    assert_eq!(get_linear_moves(0b0000_0010, 0b0000_0000), vec![]);
    let empty: Vec<u8> = vec![];
    assert_eq!(get_linear_moves(0, 0), empty);
}

#[test]
fn extraction_packs_lines_of_the_starting_planes() {
    let b = Board::new();
    let black = b.get_stones(Color::Black);
    let white = b.get_stones(Color::White);
    // row 3 of the black plane holds only the stone in column 4
    assert_eq!(get_row(black, 3), 0b0001_0000);
    assert_eq!(get_row(white, 3), 0b0000_1000);
    // column 3 of the black plane holds only the stone in row 4
    assert_eq!(get_col(black, 3), 0b0001_0000);
    assert_eq!(get_col(white, 4), 0b0001_0000);
    // the main down-right diagonal carries both white stones
    assert_eq!(get_positive_diag(white, Position(0, 0)), 0b0001_1000);
    assert_eq!(get_positive_diag(black, Position(0, 0)), 0);
    // the main down-left diagonal carries both black stones
    assert_eq!(get_negative_diag(black, Position(0, 7)), 0b0001_1000);
    assert_eq!(get_negative_diag(white, Position(0, 7)), 0);
}

#[test]
fn bit_primitives_read_planes_and_lines() {
    let b = Board::new();
    let black = b.get_stones(Color::Black);
    assert!(get_bit(black, 28));
    assert!(get_bit(black, 35));
    assert!(!get_bit(black, 27));
    assert!(line_bit_at(0b0001_0000, 4));
    assert!(!line_bit_at(0b0001_0000, 3));
    assert!(!line_bit_at(0b0001_0000, -1));
    assert!(!line_bit_at(0b0001_0000, 8));
}

#[test]
fn player_picks_the_first_available_move() {
    let mut black_player = Player::new(Color::Black);
    let first = black_player.choose_move(default_position());
    // the legal destination with the lowest cell index
    assert_eq!(first, Position(3, 2));
    assert_eq!(
        black_player.board.get(Position(3, 2)).unwrap(),
        Some(Color::Black)
    );
    assert_eq!(
        black_player.board.get(Position(3, 3)).unwrap(),
        Some(Color::Black)
    );

    let mut white_player = Player::new(Color::White);
    let reply = white_player.choose_move(first);
    assert_eq!(reply, Position(2, 2));
}

#[test]
fn default_position_is_the_no_move_marker() {
    assert_eq!(default_position(), Position(-1, -1));
    assert!(!default_position().in_bounds());
    assert!(Position(0, 0).in_bounds());
    assert!(!Position(0, 8).in_bounds());
}
