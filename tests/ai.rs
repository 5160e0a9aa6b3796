use tak::Ai;
use tak::Board;
use tak::Game;
use tak::NaiveBoard;
use tak::Piece;
use tak::Player;
use tak::Point;
use tak::Stone;
use tak::Turn;

// First two turns, behavior is hard-coded
#[test]
fn goes_in_corner() {
    let game = Game::new(5);
    let ai = Ai::new(Player::One);
    assert_eq!(game.predict(ai), Turn::Place { point: Point::new(0, 0), stone: Stone::Flat })
}

#[test]
fn goes_in_other_corner() {
    let mut game = Game::new(5);
    let ai = Ai::new(Player::Two);
    game.play("a1", Player::One, Some(Player::Two)).unwrap();
    assert_eq!(game.predict(ai), Turn::Place { point: Point::new(0, 4), stone: Stone::Flat })
}

#[test]
fn moves_on_empty_board() {
    let ai = Ai::new(Player::One);
    assert_eq!(75, ai.possible_moves(&NaiveBoard::new(5)).len());
}

#[test]
fn no_capstones() {
    let ai = Ai::new(Player::One);
    assert_eq!(32, ai.possible_moves(&NaiveBoard::new(4)).len());
}

#[test]
fn basic_tower() {
    let ai = Ai::new(Player::One);
    let mut board = NaiveBoard::new(4);
    board.place_piece(&Point::new(1,1), Piece::new(Stone::Flat, Player::One)).unwrap();
    assert_eq!(34, ai.possible_moves(&board).len())
}

#[test]
fn unowned_tower() {
    let ai = Ai::new(Player::Two);
    let mut board = NaiveBoard::new(4);
    board.place_piece(&Point::new(1,1), Piece::new(Stone::Flat, Player::One)).unwrap();
    assert_eq!(30, ai.possible_moves(&board).len())
}

#[test]
fn blocked_tower() {
    let ai = Ai::new(Player::One);
    let mut board = NaiveBoard::new(4);
    board.place_piece(&Point::new(1,1), Piece::new(Stone::Flat, Player::One)).unwrap();
    board.place_piece(&Point::new(1,0), Piece::new(Stone::Standing, Player::Two)).unwrap();
    assert_eq!(31, ai.possible_moves(&board).len())
}

#[test]
fn empty_five_board_has_only_placements() {
    let ai = Ai::new(Player::Two);
    let moves = ai.possible_moves(&NaiveBoard::new(5));
    assert_eq!(75, moves.len());
    assert!(moves.iter().all(|m| matches!(m, Turn::Place { .. })));
}

#[test]
fn tall_stack_respects_carry_limit() {
    // A stack of six on a 5x5 board: no slide carries more than five.
    let mut board = NaiveBoard::new(5);
    board.place_piece(&Point::new(0, 0), Piece::new(Stone::Flat, Player::One)).unwrap();
    for _ in 0..5 {
        board.add_piece(&Point::new(0, 0), Piece::new(Stone::Flat, Player::One)).unwrap();
    }
    let ai = Ai::new(Player::One);
    let moves = ai.possible_moves(&board);
    let mut slides = 0;
    for m in moves.iter() {
        if let Turn::Slide { num_pieces, drops, .. } = m {
            slides += 1;
            assert!(*num_pieces >= 1 && *num_pieces <= 5);
            assert_eq!(drops.iter().sum::<usize>(), *num_pieces);
            assert!(drops.iter().all(|d| *d >= 1));
            assert!(drops.len() <= 4);
        }
    }
    // Two directions of four open squares each: compositions of 1..=5 into
    // at most 4 positive parts.
    assert_eq!(slides, 2 * (1 + 2 + 4 + 8 + 15));
    assert_eq!(moves.len(), 24 * 3 + slides);
}

#[test]
fn advantage_is_zero() {
    assert_eq!(tak::ai::advantage(NaiveBoard::new(5)), 0);
}
