use tak::render::grid_string;
use tak::setup::{play, SetupMove};
use tak::win::check_winner;
use tak::Board;
use tak::NaiveBoard;
use tak::Player;
use tak::TakError;

fn edit(text: &str, board: &mut NaiveBoard) -> Result<(), TakError> {
    play(&SetupMove::parse(text).unwrap(), board)
}

#[test]
fn main_basic_placement() {
    let mut game = NaiveBoard::new(4);
    edit("a1S1", &mut game).unwrap();
    edit("a2F2", &mut game).unwrap();
    edit("d3C2", &mut game).unwrap();
    assert_eq!(grid_string(&game), "____________\n\
                                    |  |  |  |  \n\
                                    |  |  |  |C2\n\
                                    |F2|  |  |  \n\
                                    |S1|  |  |  \n");
}

#[test]
fn main_basic_movement() {
    let mut game = NaiveBoard::new(4);
    edit("a1S1", &mut game).unwrap();
    edit("a2F2", &mut game).unwrap();
    edit("a1U1", &mut game).unwrap();
    edit("a2R12", &mut game).unwrap();
    assert_eq!(grid_string(&game), "____________\n\
                                    |  |  |  |  \n\
                                    |  |  |  |  \n\
                                    |  |F2|S1|  \n\
                                    |  |  |  |  \n");
}

#[test]
fn main_invalid_movement_onto_standing() {
    let mut game = NaiveBoard::new(4);
    edit("a1S1", &mut game).unwrap();
    edit("a2F2", &mut game).unwrap();
    match edit("a2D1", &mut game) {
        Ok(_) => panic!(""),
        Err(_) => return,
    }
}

#[test]
fn main_invalid_movement_onto_capstone() {
    let mut game = NaiveBoard::new(4);
    edit("a1C1", &mut game).unwrap();
    edit("a2F2", &mut game).unwrap();
    match edit("a2D1", &mut game) {
        Ok(_) => panic!(""),
        Err(_) => return,
    }
}

#[test]
fn main_squash() {
    let mut game = NaiveBoard::new(4);
    edit("a1S1", &mut game).unwrap();
    edit("a2C2", &mut game).unwrap();
    edit("a2D1", &mut game).unwrap();
    assert_eq!(grid_string(&game), "____________________\n\
                                    |    |    |    |    \n\
                                    |    |    |    |    \n\
                                    |    |    |    |    \n\
                                    |F1C2|    |    |    \n");
}

#[test]
fn main_win_across() {
    let mut game = NaiveBoard::new(4);
    edit("a1F1", &mut game).unwrap();
    edit("a2C1", &mut game).unwrap();
    edit("a3F1", &mut game).unwrap();
    edit("a4F1", &mut game).unwrap();
    assert_eq!(check_winner(&game), Some(Player::One));
}

#[test]
fn main_almost() {
    let mut game = NaiveBoard::new(4);
    edit("a1F1", &mut game).unwrap();
    edit("b1F1", &mut game).unwrap();
    edit("c1F1", &mut game).unwrap();
    assert_eq!(check_winner(&game), None);
}

#[test]
fn main_win_up() {
    let mut game = NaiveBoard::new(4);
    edit("a1F1", &mut game).unwrap();
    edit("b1F1", &mut game).unwrap();
    edit("c1F1", &mut game).unwrap();
    edit("d1C1", &mut game).unwrap();
    assert_eq!(check_winner(&game), Some(Player::One));
}

#[test]
fn main_cant_win_with_standing() {
    let mut game = NaiveBoard::new(4);
    edit("a1F1", &mut game).unwrap();
    edit("b1F1", &mut game).unwrap();
    edit("c1F1", &mut game).unwrap();
    edit("d1S1", &mut game).unwrap();
    assert_eq!(check_winner(&game), None);
}

#[test]
fn edit_errors() {
    let mut board = NaiveBoard::new(4);
    assert!(SetupMove::parse("a9F1").is_none());
    assert!(SetupMove::parse("a1X").is_none());
    edit("a1F1", &mut board).unwrap();
    assert_eq!(edit("a1F2", &mut board), Err(TakError::OccupiedSquare));
    assert_eq!(edit("a1U12", &mut board), Err(TakError::DropMismatch));
    assert_eq!(edit("a1L1", &mut board), Err(TakError::OffBoard));
}
