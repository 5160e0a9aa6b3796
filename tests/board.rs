use tak::Board;
use tak::NaiveBoard;
use tak::Board5;
use tak::Stone;
use tak::Point;
use tak::Piece;
use tak::Player;

#[test]
fn empty() {
    "x,x,x,x,x/x,x,x,x,x/x,x,x,x,x/x,x,x,x,x/x,x,x,x,x".parse::<NaiveBoard>().unwrap();
}

#[test]
fn empty_condensed() {
    "x5/x5/x5/x5/x5".parse::<NaiveBoard>().unwrap();
    "x5/x5/x5/x5/x5".parse::<Board5>().unwrap();
}

#[test]
fn fail_condensed() {
    match "x5/x5/x5/x5".parse::<NaiveBoard>() {
        Ok(_) => panic!(""),
        Err(_) => return,
    }
    match "x5/x5/x5/x5".parse::<Board5>() {
        Ok(_) => panic!(""),
        Err(_) => return,
    }
}

#[test]
fn r_tak_example() {
    "x5/x2,121,x2/x5/x,2C,x3/x5".parse::<NaiveBoard>().unwrap();
    "x5/x2,121,x2/x5/x,2C,x3/x5".parse::<Board5>().unwrap();
}

#[test]
fn single() {
    let g = "1,x,x,x,x/x,x,x,x,x/x,x,x,x,x/x,x,x,x,x/x,x,x,x,x".parse::<NaiveBoard>().unwrap();
    assert_eq!(g.at(&Point{ x: 0, y: 4}).unwrap().nth(0).unwrap(), Piece::new(Stone::Flat, Player::One));
    let h = "1,x,x,x,x/x,x,x,x,x/x,x,x,x,x/x,x,x,x,x/x,x,x,x,x".parse::<Board5>().unwrap();
    assert_eq!(h.at(&Point{ x: 0, y: 4}).unwrap().nth(0).unwrap(), Piece::new(Stone::Flat, Player::One));
}

#[test]
fn stack() {
    let g = "122,x,x,x,x/x,x,x,x,x/x,x,x,x,x/x,x,x,x,x/x,x,x,x,x".parse::<NaiveBoard>().unwrap();
    assert_eq!(g.at(&Point{ x: 0, y: 4}).unwrap().nth(0).unwrap(), Piece::new(Stone::Flat, Player::One));
    assert_eq!(g.at(&Point{ x: 0, y: 4}).unwrap().nth(1).unwrap(), Piece::new(Stone::Flat, Player::Two));
    assert_eq!(g.at(&Point{ x: 0, y: 4}).unwrap().nth(2).unwrap(), Piece::new(Stone::Flat, Player::Two));
    let h = "122,x,x,x,x/x,x,x,x,x/x,x,x,x,x/x,x,x,x,x/x,x,x,x,x".parse::<Board5>().unwrap();
    assert_eq!(h.at(&Point{ x: 0, y: 4}).unwrap().nth(0).unwrap(), Piece::new(Stone::Flat, Player::One));
    assert_eq!(h.at(&Point{ x: 0, y: 4}).unwrap().nth(1).unwrap(), Piece::new(Stone::Flat, Player::Two));
    assert_eq!(h.at(&Point{ x: 0, y: 4}).unwrap().nth(2).unwrap(), Piece::new(Stone::Flat, Player::Two));
}

#[test]
fn fail_stack() {
    match "x5/x4,1SS2/x5/x5/x5".parse::<NaiveBoard>() {
        Ok(_) => panic!(""),
        Err(_) => return,
    }
    match "x5/x4,1SS2/x5/x5/x5".parse::<Board5>() {
        Ok(_) => panic!(""),
        Err(_) => return,
    }
}

use tak::board_text::board_from_str;
use tak::TakError;

fn stack_of<B: Board>(b: &B, x: usize, y: usize) -> Vec<Piece> {
    b.at(&Point::new(x, y)).unwrap().pieces
}

#[test]
fn text_wrong_cell_count() {
    assert_eq!("x4/x5/x5/x5/x5".parse::<NaiveBoard>().err(), Some(TakError::InvalidNotation));
    assert_eq!("x5/x5/x5/x5/x5,1".parse::<NaiveBoard>().err(), Some(TakError::InvalidNotation));
}

#[test]
fn text_four_by_four() {
    let b = "x4/x4/x4/1,2,x2".parse::<NaiveBoard>().unwrap();
    assert_eq!(b.size(), 4);
    assert_eq!(stack_of(&b, 1, 0), vec![Piece::new(Stone::Flat, Player::Two)]);
    assert!("x4/x4/x4/x4".parse::<Board5>().is_err());
}

#[test]
fn text_capstone_flattens() {
    let b = "x5/x5/x5/x5/1S1C,x4".parse::<Board5>().unwrap();
    assert_eq!(stack_of(&b, 0, 0),
               vec![Piece::new(Stone::Flat, Player::One), Piece::new(Stone::Capstone, Player::One)]);
    assert!("x5/x5/x5/x5/1C1,x4".parse::<NaiveBoard>().is_err());
}

#[test]
fn text_matches_between_boards() {
    let text = "x5/x2,121,x2/x5/x,2C,x3/12121212121212121212,x4";
    let g = text.parse::<NaiveBoard>().unwrap();
    let h = board_from_str::<Board5>(text).unwrap();
    for x in 0..5 {
        for y in 0..5 {
            assert_eq!(stack_of(&g, x, y), stack_of(&h, x, y));
        }
    }
    assert_eq!(stack_of(&h, 0, 0).len(), 20);
}
