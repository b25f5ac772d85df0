use reversi::board::{Board, Color, Position};

#[test]
fn test_init() {
    let b = Board::new();
    let black = [Position(3, 4), Position(4, 3)];
    let white = [Position(3, 3), Position(4, 4)];

    assert!(black.iter().all(|p| match b.get(*p) {
        Ok(Some(Color::Black)) => true,
        _ => false,
    }));

    assert!(white.iter().all(|p| match b.get(*p) {
        Ok(Some(Color::White)) => true,
        _ => false,
    }));

    assert!(b.is_occupied(Position(3, 3)).unwrap());
}

#[test]
fn test_get_moves() {
    let mut b = Board::new();

    let mut moves = b.get_moves(Color::Black);
    assert!(moves.contains(&Position(3, 2)));
    assert!(moves.contains(&Position(2, 3)));
    assert!(moves.contains(&Position(4, 5)));
    assert!(moves.contains(&Position(5, 4)));
    assert!(moves.len() == 4);

    b = b.make_move(Color::Black, Position(3, 2)).unwrap();
    moves = b.get_moves(Color::White);
    assert!(moves.contains(&Position(2, 4)));
    assert!(moves.contains(&Position(4, 2)));
    assert!(moves.contains(&Position(2, 2)));
    assert!(moves.len() == 3);

    b = b.make_move(Color::White, Position(4, 2)).unwrap();
    moves = b.get_moves(Color::Black);
    assert!(moves.contains(&Position(5, 1)));
    assert!(moves.contains(&Position(5, 2)));
    assert!(moves.contains(&Position(5, 3)));
    assert!(moves.contains(&Position(5, 4)));
    assert!(moves.contains(&Position(5, 5)));
    assert!(moves.len() == 5);
}

fn test_board_correctness(b: &Board, black: &[Position], white: &[Position]) {
    for x in 0..8i32 {
        for y in 0..8i32 {
            let pos = Position(x, y);
            let pass = match b.get(pos).unwrap() {
                Some(Color::Black) => black.contains(&pos),
                Some(Color::White) => white.contains(&pos),
                None => !(black.contains(&pos) || white.contains(&pos)),
            };
            assert!(pass);
        }
    }
}

#[test]
fn test_make_moves() {
    let mut b = Board::new();

    b = b.make_move(Color::Black, Position(3, 2)).unwrap();
    let mut black = vec![Position(3, 2), Position(3, 3), Position(3, 4), Position(4, 3)];
    let mut white = vec![Position(4, 4)];
    test_board_correctness(&b, &black, &white);

    b = b.make_move(Color::White, Position(4, 2)).unwrap();
    black = vec![Position(3, 2), Position(3, 3), Position(3, 4)];
    white = vec![Position(4, 2), Position(4, 3), Position(4, 4)];
    test_board_correctness(&b, &black, &white);
}
