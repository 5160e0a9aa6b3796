use tak::slide::slide_stack;
use tak::Board;
use tak::Board5;
use tak::Direction;
use tak::NaiveBoard;
use tak::Piece;
use tak::Player;
use tak::Point;
use tak::Stone;
use tak::TakError;

fn stacks<B: Board>(b: &B) -> Vec<Vec<Piece>> {
    let mut all = Vec::new();
    for y in 0..5 {
        for x in 0..5 {
            all.push(b.at(&Point::new(x, y)).unwrap().pieces);
        }
    }
    all
}

fn flat(p: Player) -> Piece {
    Piece::new(Stone::Flat, p)
}

#[test]
fn packed_and_reference_agree() {
    let mut a = NaiveBoard::new(5);
    let mut b = Board5::new(5);
    let origin = Point::new(2, 2);
    a.place_piece(&origin, flat(Player::One)).unwrap();
    b.place_piece(&origin, flat(Player::One)).unwrap();
    for i in 0..11 {
        let p = if i % 2 == 0 { Player::Two } else { Player::One };
        a.add_piece(&origin, flat(p)).unwrap();
        b.add_piece(&origin, flat(p)).unwrap();
        assert_eq!(stacks(&a), stacks(&b));
    }
    a.add_piece(&origin, Piece::new(Stone::Capstone, Player::Two)).unwrap();
    b.add_piece(&origin, Piece::new(Stone::Capstone, Player::Two)).unwrap();
    assert_eq!(stacks(&a), stacks(&b));
    assert_eq!(b.at(&origin).unwrap().count(), 13);
    let drops = vec![2, 3];
    slide_stack(&mut a, 5, &origin, Direction::Down, &drops, Player::Two).unwrap();
    slide_stack(&mut b, 5, &origin, Direction::Down, &drops, Player::Two).unwrap();
    assert_eq!(stacks(&a), stacks(&b));
    assert_eq!(b.at(&origin).unwrap().count(), 8);
    assert_eq!(b.at(&Point::new(2, 0)).unwrap().count(), 3);
    assert_eq!(b.at(&Point::new(2, 1)).unwrap().count(), 2);
    assert_eq!(b.at(&Point::new(2, 0)).unwrap().last(), Some(Piece::new(Stone::Capstone, Player::Two)));
    let taken = b.at_reset(&origin).unwrap();
    assert_eq!(taken.count(), 8);
    assert_eq!(b.at(&origin).unwrap().count(), 0);
}

#[test]
fn packed_runs_out_of_room() {
    let mut b = Board5::new(5);
    let mut n = 0;
    let mut result = Ok(());
    // Seven continuation words of five slots, six slots in the word, one top:
    // one square can hold 42 pieces.
    b.place_piece(&Point::new(0, 0), flat(Player::One)).unwrap();
    while result.is_ok() && n < 100 {
        result = b.add_piece(&Point::new(0, 0), flat(Player::Two));
        n += 1;
    }
    assert_eq!(result, Err(TakError::OutOfCapacity));
    assert_eq!(b.at(&Point::new(0, 0)).unwrap().count(), 42);
}

#[test]
fn packed_shares_continuations() {
    let mut b = Board5::new(5);
    let mut a = NaiveBoard::new(5);
    for (x, y) in [(0, 0), (4, 4)] {
        b.place_piece(&Point::new(x, y), flat(Player::One)).unwrap();
        a.place_piece(&Point::new(x, y), flat(Player::One)).unwrap();
        for _ in 0..15 {
            b.add_piece(&Point::new(x, y), flat(Player::Two)).unwrap();
            a.add_piece(&Point::new(x, y), flat(Player::Two)).unwrap();
        }
    }
    assert_eq!(stacks(&a), stacks(&b));
    b.at_reset(&Point::new(0, 0)).unwrap();
    a.at_reset(&Point::new(0, 0)).unwrap();
    for _ in 0..20 {
        b.add_piece(&Point::new(4, 4), flat(Player::One)).unwrap();
        a.add_piece(&Point::new(4, 4), flat(Player::One)).unwrap();
    }
    assert_eq!(stacks(&a), stacks(&b));
}

#[test]
fn packed_rejects_like_reference() {
    let mut b = Board5::new(5);
    assert_eq!(b.place_piece(&Point::new(5, 0), flat(Player::One)), Err(TakError::InvalidPoint));
    b.place_piece(&Point::new(1, 1), Piece::new(Stone::Standing, Player::One)).unwrap();
    assert_eq!(b.place_piece(&Point::new(1, 1), flat(Player::One)), Err(TakError::OccupiedSquare));
    assert_eq!(b.add_piece(&Point::new(1, 1), flat(Player::Two)), Err(TakError::OntoStanding));
    b.add_piece(&Point::new(1, 1), Piece::new(Stone::Capstone, Player::Two)).unwrap();
    assert_eq!(b.add_piece(&Point::new(1, 1), flat(Player::Two)), Err(TakError::OntoCapstone));
    assert!(!b.full());
}

#[test]
fn reading_packed_words_piece_by_piece() {
    let mut b = Board5::new(5);
    let p = Point::new(3, 1);
    b.place_piece(&p, flat(Player::Two)).unwrap();
    for i in 0..17 {
        let owner = if i % 3 == 0 { Player::Two } else { Player::One };
        b.add_piece(&p, flat(owner)).unwrap();
    }
    b.add_piece(&p, Piece::new(Stone::Capstone, Player::One)).unwrap();
    let (mut spot, mut extra) = b.packed(&p).unwrap();
    let mut read = Vec::new();
    while let Some(piece) = tak::board5::advance_piece_iterator(&mut spot, &mut extra) {
        read.push(piece);
    }
    assert_eq!(read.len(), 19);
    assert_eq!(read, b.at(&p).unwrap().pieces);
    assert_eq!(read[18], Piece::new(Stone::Capstone, Player::One));
    assert_eq!((spot, extra), (0, [0; 7]));
    assert_eq!(b.packed(&Point::new(0, 7)).err(), Some(TakError::InvalidPoint));
}

fn tower<B: Board>(b: &mut B, p: Point, height: usize) {
    b.place_piece(&p, flat(Player::One)).unwrap();
    for _ in 1..height {
        b.add_piece(&p, flat(Player::One)).unwrap();
    }
}

#[test]
fn emptying_frees_continuation_words() {
    let mut b = Board5::new(5);
    let a = Point::new(0, 0);
    tower(&mut b, a, 42);
    let (_, extra) = b.packed(&a).unwrap();
    assert!(extra.iter().all(|w| *w != 0));
    b.at_reset(&a).unwrap();
    let (spot, extra) = b.packed(&a).unwrap();
    assert_eq!((spot, extra), (0, [0; 7]));
    // Every word is free again: another square can grow as tall.
    tower(&mut b, Point::new(4, 4), 42);
    assert_eq!(b.at(&Point::new(4, 4)).unwrap().count(), 42);
}

#[test]
fn slide_refused_for_room_changes_nothing() {
    let mut b = Board5::new(5);
    tower(&mut b, Point::new(0, 0), 42);
    let from = Point::new(2, 2);
    tower(&mut b, from, 7);
    tower(&mut b, Point::new(3, 2), 7);
    let before = stacks(&b);
    let r = slide_stack(&mut b, 1, &from, Direction::Right, &vec![1], Player::One);
    assert_eq!(r, Err(TakError::OutOfCapacity));
    assert_eq!(stacks(&b), before);
    // The same slide fits on the reference board.
    let mut a = NaiveBoard::new(5);
    tower(&mut a, from, 7);
    tower(&mut a, Point::new(3, 2), 7);
    slide_stack(&mut a, 1, &from, Direction::Right, &vec![1], Player::One).unwrap();
    assert_eq!(a.at(&Point::new(3, 2)).unwrap().count(), 8);
}

#[test]
fn slide_needs_positive_drops() {
    let mut a = NaiveBoard::new(5);
    tower(&mut a, Point::new(2, 2), 3);
    assert_eq!(slide_stack(&mut a, 0, &Point::new(2, 2), Direction::Up, &vec![], Player::One),
               Err(TakError::DropMismatch));
    assert_eq!(slide_stack(&mut a, 2, &Point::new(2, 2), Direction::Up, &vec![0, 2], Player::One),
               Err(TakError::DropMismatch));
    assert_eq!(a.at(&Point::new(2, 2)).unwrap().count(), 3);
}
