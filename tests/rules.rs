use tak::slide::slide_stack;
use tak::Board;
use tak::Direction;
use tak::Game;
use tak::NaiveBoard;
use tak::Piece;
use tak::Player;
use tak::Point;
use tak::Stone;
use tak::TakError;
use tak::Turn;

fn stack(game: &Game, x: usize, y: usize) -> Vec<Piece> {
    game.board().at(&Point::new(x, y)).unwrap().pieces
}

#[test]
fn road_along_file_a() {
    // Player one's flat goes to a1 in the opening; a2, a3 and a4 follow.
    let mut game = Game::new(4);
    assert_eq!(game.play("b1", Player::One, Some(Player::Two)), Ok(None));
    assert_eq!(game.play("a1", Player::Two, Some(Player::One)), Ok(None));
    assert_eq!(game.play("a2", Player::One, Some(Player::One)), Ok(None));
    assert_eq!(game.play("b2", Player::Two, Some(Player::Two)), Ok(None));
    assert_eq!(game.play("a3", Player::One, Some(Player::One)), Ok(None));
    assert_eq!(game.play("b3", Player::Two, Some(Player::Two)), Ok(None));
    assert_eq!(game.play("a4", Player::One, Some(Player::One)), Ok(Some(Player::One)));
}

#[test]
fn capstone_flattens_standing_stone() {
    let mut game = Game::new(5);
    game.play("e5", Player::One, Some(Player::Two)).unwrap();
    game.play("e4", Player::Two, Some(Player::One)).unwrap();
    game.play("Sa1", Player::One, Some(Player::One)).unwrap();
    game.play("d4", Player::Two, Some(Player::Two)).unwrap();
    game.play("Ca2", Player::One, Some(Player::One)).unwrap();
    game.play("d5", Player::Two, Some(Player::Two)).unwrap();
    game.play("a2-", Player::One, None).unwrap();
    assert_eq!(stack(&game, 0, 0),
               vec![Piece::new(Stone::Flat, Player::One), Piece::new(Stone::Capstone, Player::One)]);
    assert_eq!(stack(&game, 0, 0)[0].stone(), Stone::Flat);
}

#[test]
fn carry_limit_leaves_board_unchanged() {
    let mut game = Game::new(5);
    game.play("a1", Player::One, Some(Player::Two)).unwrap();
    game.play("b1", Player::Two, Some(Player::One)).unwrap();
    let before = game.to_string();
    assert_eq!(game.play("6b1>6", Player::One, None), Err(TakError::CarryLimitExceeded));
    assert_eq!(game.to_string(), before);
    assert_eq!(game.turn_number(), 2);
    assert_eq!(game.next(), Player::One);
}

#[test]
fn empty_five_board_moves() {
    let ai = tak::Ai::new(Player::One);
    let moves = ai.possible_moves(&NaiveBoard::new(5));
    let places = moves.iter().filter(|m| matches!(m, Turn::Place { .. })).count();
    assert_eq!(places, 25 * 3);
    assert_eq!(moves.len() - places, 0);
}

#[test]
fn opening_rules() {
    let mut game = Game::new(5);
    assert_eq!(game.play("a1", Player::Two, Some(Player::One)), Err(TakError::WrongTurn));
    assert_eq!(game.play("a1", Player::One, Some(Player::One)), Err(TakError::MustPlaceOpponentPieceOnOpening));
    assert_eq!(game.play("Sa1", Player::One, Some(Player::Two)), Err(TakError::MustPlaceFlatOnOpening));
    assert_eq!(game.play("Ca1", Player::One, Some(Player::Two)), Err(TakError::MustPlaceFlatOnOpening));
    assert_eq!(game.play("a1", Player::One, None), Err(TakError::MissingOwner));
    assert_eq!(game.play("zz", Player::One, Some(Player::Two)), Err(TakError::InvalidNotation));
    assert_eq!(game.play("a1", Player::One, Some(Player::Two)), Ok(None));
    assert_eq!(stack(&game, 0, 0), vec![Piece::new(Stone::Flat, Player::Two)]);
    assert_eq!(game.play_simple("b1"), Ok(None));
    assert_eq!(stack(&game, 1, 0), vec![Piece::new(Stone::Flat, Player::One)]);
    assert_eq!(game.play("c1", Player::One, Some(Player::Two)), Err(TakError::MustPlaceOwnPiece));
    assert_eq!(game.player_move("c1", Player::One), Ok(None));
    assert_eq!(stack(&game, 2, 0), vec![Piece::new(Stone::Flat, Player::One)]);
    assert_eq!(game.play("c1", Player::Two, Some(Player::Two)), Err(TakError::OccupiedSquare));
    assert_eq!(game.play("h8", Player::Two, Some(Player::Two)), Err(TakError::InvalidPoint));
}

#[test]
fn slide_errors() {
    let mut game = Game::new(5);
    game.play("a1", Player::One, Some(Player::Two)).unwrap();
    game.play("b1", Player::Two, Some(Player::One)).unwrap();
    assert_eq!(game.play("2b1>11", Player::One, None), Err(TakError::InsufficientPile));
    assert_eq!(game.play("2b1>1", Player::One, None), Err(TakError::DropMismatch));
    assert_eq!(game.play("a1>", Player::One, None), Err(TakError::NotMover));
    assert_eq!(game.play("b1-", Player::One, None), Err(TakError::OffBoard));
    assert_eq!(game.play("c1+", Player::One, None), Err(TakError::InsufficientPile));
    assert_eq!(game.play("b1<", Player::One, None), Ok(None));
    assert_eq!(stack(&game, 0, 0),
               vec![Piece::new(Stone::Flat, Player::Two), Piece::new(Stone::Flat, Player::One)]);
    assert_eq!(stack(&game, 1, 0), vec![]);
}

#[test]
fn failed_slide_changes_nothing() {
    // The second drop would land on a capstone: nothing moves.
    let mut game = Game::new(5);
    game.play("a1", Player::One, Some(Player::Two)).unwrap();
    game.play("e5", Player::Two, Some(Player::One)).unwrap();
    game.play("b1", Player::One, Some(Player::One)).unwrap();
    game.play("Cc1", Player::Two, Some(Player::Two)).unwrap();
    game.play("b1<", Player::One, None).unwrap();
    game.play("e4", Player::Two, Some(Player::Two)).unwrap();
    let before = game.to_string();
    assert_eq!(game.play("2a1>11", Player::One, None), Err(TakError::OntoCapstone));
    assert_eq!(game.to_string(), before);
    assert_eq!(game.play("2a1>2", Player::One, None), Ok(None));
    assert_eq!(stack(&game, 1, 0).len(), 2);
}

#[test]
fn slide_keeps_every_piece() {
    let mut board = NaiveBoard::new(5);
    let origin = Point::new(0, 2);
    board.place_piece(&origin, Piece::new(Stone::Flat, Player::Two)).unwrap();
    for _ in 0..4 {
        board.add_piece(&origin, Piece::new(Stone::Flat, Player::One)).unwrap();
    }
    board.place_piece(&Point::new(2, 2), Piece::new(Stone::Flat, Player::Two)).unwrap();
    slide_stack(&mut board, 4, &origin, Direction::Right, &vec![1, 2, 1], Player::One).unwrap();
    let count = |x: usize| board.at(&Point::new(x, 2)).unwrap().count();
    assert_eq!(count(0), 1);
    assert_eq!(count(1), 1);
    assert_eq!(count(2), 3);
    assert_eq!(count(3), 1);
    assert_eq!(count(0) + count(1) + (count(2) - 1) + count(3), 5);
}

#[test]
fn exhausted_capstone_refused() {
    let mut game = Game::new(5);
    game.play("e1", Player::One, Some(Player::Two)).unwrap();
    game.play("a1", Player::Two, Some(Player::One)).unwrap();
    game.play("Cc3", Player::One, Some(Player::One)).unwrap();
    game.play("c2", Player::Two, Some(Player::Two)).unwrap();
    assert_eq!(game.play("Cc4", Player::One, Some(Player::One)), Err(TakError::PieceExhausted));
    let c = game.board().count();
    assert_eq!((c.p1_cap, c.max_cap, c.max_flat), (1, 1, 20));
}

#[test]
fn flat_win_counts_only_flat_tops() {
    // A full 4x4 board, eight flat tops each but for the last square,
    // where player two stands a stone: player one has more flat tops.
    let mut game = Game::new(4);
    let moves = ["a2", "a1", "a3", "a4", "b2", "b1", "b4", "b3", "c1", "c2", "c3", "c4", "d2", "d1", "d4"];
    for m in moves.iter() {
        assert_eq!(game.play_simple(m), Ok(None));
    }
    assert_eq!(game.check_flat_winner(), None);
    assert_eq!(game.play_simple("Sd3"), Ok(Some(Player::One)));
    assert_eq!(game.check_flat_winner(), Some(Player::One));
}

#[test]
fn notation_round_trip() {
    for text in ["Fa1", "Sh8", "Cc3", "1a1>1", "3b2+12", "5e5<5", "9a1-111111111"] {
        let t = Turn::parse(text).unwrap();
        assert_eq!(t.to_string(), text);
        assert_eq!(Turn::parse(&t.to_string()), Some(t));
    }
}

#[test]
fn notation_forms() {
    assert_eq!(Turn::parse("a1"), Some(Turn::Place { point: Point::new(0, 0), stone: Stone::Flat }));
    assert_eq!(Turn::parse("c2<"),
               Some(Turn::Slide { num_pieces: 1, point: Point::new(2, 1), direction: Direction::Left, drops: vec![1] }));
    assert_eq!(Turn::parse("3d4-"),
               Some(Turn::Slide { num_pieces: 3, point: Point::new(3, 3), direction: Direction::Down, drops: vec![1] }));
    assert_eq!(Turn::parse("a1").unwrap().to_string(), "Fa1");
    for bad in ["", "a", "a9", "i1", "Fa", "Fa1x", "0a1>", "2a1>0", "2a1", "a1x", "2a1?1"] {
        assert_eq!(Turn::parse(bad), None, "{}", bad);
    }
}

#[test]
fn neighbors_and_adjust() {
    assert_eq!(Direction::neighbors(&Point::new(0, 0), 5), vec![Point::new(1, 0), Point::new(0, 1)]);
    assert_eq!(Direction::neighbors(&Point::new(2, 2), 5).len(), 4);
    assert_eq!(Direction::Up.adjust(&Point::new(1, 1), 3, 5), Some(Point::new(1, 4)));
    assert_eq!(Direction::Up.adjust(&Point::new(1, 1), 4, 5), None);
    assert_eq!(Direction::Left.adjust(&Point::new(1, 1), 2, 5), None);
    assert_eq!(Direction::all().len(), 4);
}

#[test]
fn stack_roles() {
    let mut sq = tak::Square::new();
    sq.place_piece(Piece::new(Stone::Flat, Player::One)).unwrap();
    assert_eq!(sq.place_piece(Piece::new(Stone::Flat, Player::One)), Err(TakError::OccupiedSquare));
    sq.add_piece(Piece::new(Stone::Standing, Player::Two)).unwrap();
    assert_eq!((sq.mover(), sq.owner(), sq.scorer()), (Some(Player::Two), None, None));
    sq.add_piece(Piece::new(Stone::Capstone, Player::One)).unwrap();
    assert_eq!((sq.mover(), sq.owner(), sq.scorer()), (Some(Player::One), Some(Player::One), None));
    assert_eq!(sq.len(), 3);
    assert_eq!(sq.pieces[1], Piece::new(Stone::Flat, Player::Two));
    let mut base = Piece::new(Stone::Standing, Player::Two);
    assert_eq!(Piece::new(Stone::Flat, Player::One).move_onto(&mut base), Err(TakError::OntoStanding));
    assert_eq!(Piece::new(Stone::Capstone, Player::One).move_onto(&mut base), Ok(()));
    assert_eq!(base, Piece::new(Stone::Flat, Player::Two));
    assert_eq!(Player::One.other(), Player::Two);
}

#[test]
fn piece_counts() {
    let mut c = tak::PieceCount::new(6);
    assert_eq!((c.max_flat, c.max_cap), (30, 1));
    let cap = Piece::new(Stone::Capstone, Player::Two);
    assert!(!c.used_up(&cap));
    c.add(&cap);
    assert!(c.used_up(&cap));
    assert_eq!(c.p2_cap, 1);
    assert_eq!(tak::PieceCount::new(8).max_flat, 50);
    assert_eq!(tak::PieceCount::new(4).max_cap, 0);
}

#[test]
fn game_record() {
    let mut game = Game::new(5);
    game.play_simple("a1").unwrap();
    game.play_simple("e5").unwrap();
    game.play_simple("Sb2").unwrap();
    assert_eq!(game.as_ptn(),
               "[Date \"2016.09.16\"]\n[Player1 \"anon1\"]\n[Player2 \"anon2\"]\n[Result \"\"]\n[Size \"5\"]\n\
                1. Fa1 Fe5\n2. Sb2");
    assert_eq!("3c3>12".parse::<Turn>().unwrap().to_string(), "3c3>12");
    assert_eq!("c3x".parse::<Turn>(), Err(TakError::InvalidNotation));
}

#[test]
fn full_slide_without_drops_drops_one() {
    assert_eq!(Turn::parse("1a1>"),
               Some(Turn::Slide { num_pieces: 1, point: Point::new(0, 0), direction: Direction::Right, drops: vec![1] }));
    let mut game = Game::new(5);
    game.play("a1", Player::One, Some(Player::Two)).unwrap();
    game.play("b2", Player::Two, Some(Player::One)).unwrap();
    assert_eq!(game.play("1b2>", Player::One, None), Ok(None));
    assert_eq!(stack(&game, 2, 1), vec![Piece::new(Stone::Flat, Player::One)]);
    assert_eq!(game.play("2a1>", Player::Two, None), Err(TakError::DropMismatch));
}

#[test]
fn zero_slides_are_refused() {
    let mut game = Game::new(5);
    game.play("a1", Player::One, Some(Player::Two)).unwrap();
    game.play("b2", Player::Two, Some(Player::One)).unwrap();
    let nothing = Turn::Slide { num_pieces: 0, point: Point::new(1, 1), direction: Direction::Up, drops: vec![] };
    assert_eq!(game.play_parsed(nothing, None), Err(TakError::DropMismatch));
    assert_eq!(game.turn_number(), 2);
}
