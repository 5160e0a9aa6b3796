//! Editing a board directly, outside of turn order and the stone supply:
//! how positions are set up by hand. A placement names its owner, and a
//! slide moves every piece of a stack, each by its own offset.

use vstd::prelude::*;
use crate::board::{Board, add_model, on_board, sq, with_stack};
use crate::error::TakError;
use crate::piece::{Piece, Player, Stone, stone_of_char};
use crate::point::{Point, point_of};
use crate::text::{char_to_digit, chars_of, digit_of};
use crate::turn::{Direction, adjust_spec};

verus! {

/// An edit of a board.
#[derive(Clone, Debug)]
pub enum SetupMove {
    /// Puts `piece` on an empty square.
    Placement { point: Point, piece: Piece },
    /// Lifts the whole stack at `point` and moves its `i`-th piece from the
    /// bottom `offsets[i]` squares towards `direction`.
    Slide { point: Point, direction: Direction, offsets: Vec<usize> },
}

pub enum SetupModel {
    Placement { point: Point, piece: Piece },
    Slide { point: Point, direction: Direction, offsets: Seq<usize> },
}

impl View for SetupMove {
    type V = SetupModel;

    open spec fn view(&self) -> SetupModel {
        match self {
            SetupMove::Placement { point, piece } => SetupModel::Placement { point: *point, piece: *piece },
            SetupMove::Slide { point, direction, offsets } => SetupModel::Slide {
                point: *point,
                direction: *direction,
                offsets: offsets@,
            },
        }
    }
}

/// The directions of the edit notation: `U`p, `D`own, `L`eft, `R`ight.
pub open spec fn edit_direction_of(c: char) -> Option<Direction> {
    if c == 'U' {
        Some(Direction::Up)
    } else if c == 'D' {
        Some(Direction::Down)
    } else if c == 'L' {
        Some(Direction::Left)
    } else if c == 'R' {
        Some(Direction::Right)
    } else {
        None
    }
}

pub open spec fn owner_of(c: char) -> Option<Player> {
    if c == '1' { Some(Player::One) } else if c == '2' { Some(Player::Two) } else { None }
}

pub open spec fn offsets_of(s: Seq<char>) -> Option<Seq<usize>> {
    if forall|i: int| 0 <= i < s.len() ==> (#[trigger] digit_of(s[i])) is Some {
        Some(Seq::new(s.len(), |i: int| digit_of(s[i])->0))
    } else {
        None
    }
}

/// The edit notation: `a1S1` puts a standing stone of player one on `a1`;
/// `a2R12` moves the two pieces of `a2` one and two squares right.
pub open spec fn parse_setup(s: Seq<char>) -> Option<SetupModel> {
    if s.len() < 3 || point_of(s[0], s[1]) is None {
        None
    } else if s.len() == 4 && stone_of_char(s[2]) is Some && owner_of(s[3]) is Some {
        Some(SetupModel::Placement {
            point: point_of(s[0], s[1])->0,
            piece: Piece { stone: stone_of_char(s[2])->0, owner: owner_of(s[3])->0 },
        })
    } else if edit_direction_of(s[2]) is Some && offsets_of(s.subrange(3, s.len() as int)) is Some {
        Some(SetupModel::Slide {
            point: point_of(s[0], s[1])->0,
            direction: edit_direction_of(s[2])->0,
            offsets: offsets_of(s.subrange(3, s.len() as int))->0,
        })
    } else {
        None
    }
}

/// The board after the first `k` pieces of `h` land, each `offsets[i]`
/// squares from `p`.
pub open spec fn drop_each(w: Seq<Seq<Piece>>, size: nat, h: Seq<Piece>, p: Point, dir: Direction,
    offsets: Seq<usize>, k: nat) -> Result<Seq<Seq<Piece>>, TakError>
    decreases k,
{
    if k == 0 {
        Ok(w)
    } else {
        match drop_each(w, size, h, p, dir, offsets, (k - 1) as nat) {
            Ok(v) => match adjust_spec(dir, p, offsets[k - 1] as int, size as int) {
                Some(q) => add_model(v, size, q, h[k - 1]),
                None => Err(TakError::OffBoard),
            },
            Err(e) => Err(e),
        }
    }
}

/// The board after an edit, or why it is refused.
pub open spec fn setup_model(stacks: Seq<Seq<Piece>>, size: nat, m: SetupModel) -> Result<Seq<Seq<Piece>>, TakError> {
    match m {
        SetupModel::Placement { point, piece } => if !on_board(point, size) {
            Err(TakError::InvalidPoint)
        } else if stacks[sq(point, size)].len() != 0 {
            Err(TakError::OccupiedSquare)
        } else {
            Ok(with_stack(stacks, size, point, seq![piece]))
        },
        SetupModel::Slide { point, direction, offsets } => if !on_board(point, size) {
            Err(TakError::InvalidPoint)
        } else if offsets.len() != stacks[sq(point, size)].len() {
            Err(TakError::DropMismatch)
        } else {
            drop_each(with_stack(stacks, size, point, Seq::empty()), size, stacks[sq(point, size)], point,
                direction, offsets, offsets.len())
        },
    }
}

/// After a refused slide, the board holds the pieces dropped before the
/// refused one; the rest of the lifted stack is gone.
pub open spec fn dropped_some(stacks: Seq<Seq<Piece>>, size: nat, m: SetupModel, now: Seq<Seq<Piece>>) -> bool {
    m is Slide && on_board(m->Slide_point, size)
        && exists|i: nat| i < m->Slide_offsets.len() && #[trigger] drop_each(
            with_stack(stacks, size, m->Slide_point, Seq::empty()), size, stacks[sq(m->Slide_point, size)],
            m->Slide_point, m->Slide_direction, m->Slide_offsets, i) == Ok::<Seq<Seq<Piece>>, TakError>(now)
}

/// A board may refuse an edit for want of room only where the stack it
/// would build is taller than every square of that board can always hold:
/// the single piece of a placement, or the stack a slide's next piece
/// would land on, on the board as it stands after the earlier drops.
pub open spec fn refused_for_room<B: Board>(stacks: Seq<Seq<Piece>>, size: nat, m: SetupModel,
    now: Seq<Seq<Piece>>) -> bool {
    match m {
        SetupModel::Placement { point, piece } => !B::roomy(1),
        SetupModel::Slide { point, direction, offsets } => {
            let h = stacks[sq(point, size)];
            exists|i: nat| i < offsets.len() && #[trigger] drop_each(
                with_stack(stacks, size, point, Seq::empty()), size, h, point, direction, offsets, i)
                == Ok::<Seq<Seq<Piece>>, TakError>(now)
                && adjust_spec(direction, point, offsets[i as int] as int, size as int) is Some
                && add_model(now, size, adjust_spec(direction, point, offsets[i as int] as int, size as int)->Some_0,
                    h[i as int]) is Ok
                && !B::roomy(add_model(now, size, adjust_spec(direction, point, offsets[i as int] as int, size as int)->Some_0,
                    h[i as int])->Ok_0[sq(adjust_spec(direction, point, offsets[i as int] as int, size as int)->Some_0, size)].len())
        },
    }
}

impl SetupMove {
    /// Reads an edit from its notation.
    pub fn parse(s: &str) -> (r: Option<SetupMove>)
        ensures
            match parse_setup(s@) {
                Some(m) => r is Some && r->0@ == m,
                None => r is None,
            },
    {
        let c = chars_of(s);
        let n = c.len();
        if n < 3 {
            return None;
        }
        let point = match Point::from_chars(c[0], c[1]) {
            Some(p) => p,
            None => {
                return None;
            },
        };
        if n == 4 {
            if let Some(stone) = Stone::from_char(c[2]) {
                let owner = if c[3] == '1' { Some(Player::One) } else if c[3] == '2' { Some(Player::Two) } else { None };
                if let Some(o) = owner {
                    return Some(SetupMove::Placement { point, piece: Piece::new(stone, o) });
                }
            }
        }
        let direction = if c[2] == 'U' {
            Direction::Up
        } else if c[2] == 'D' {
            Direction::Down
        } else if c[2] == 'L' {
            Direction::Left
        } else if c[2] == 'R' {
            Direction::Right
        } else {
            return None;
        };
        let mut offsets: Vec<usize> = Vec::new();
        let mut i: usize = 3;
        let ghost t = c@.subrange(3, n as int);
        while i < n
            invariant
                3 <= i <= n == c@.len(),
                c@ == s@,
                point_of(c@[0], c@[1]) == Some(point),
                edit_direction_of(c@[2]) == Some(direction),
                !(n == 4 && stone_of_char(c@[2]) is Some && owner_of(c@[3]) is Some),
                t == c@.subrange(3, n as int),
                forall|j: int| 3 <= j < i ==> (#[trigger] digit_of(c@[j])) is Some,
                offsets@ == Seq::new((i - 3) as nat, |j: int| digit_of(c@[3 + j])->0),
            decreases n - i,
        {
            match char_to_digit(c[i]) {
                Some(d) => offsets.push(d),
                None => {
                    assert(digit_of(t[i - 3]) is None);
                    return None;
                },
            }
            i = i + 1;
        }
        assert forall|j: int| 0 <= j < t.len() implies (#[trigger] digit_of(t[j])) is Some by {
            assert(t[j] == c@[3 + j]);
        }
        assert(offsets@ == Seq::new(t.len(), |j: int| digit_of(t[j])->0));
        Some(SetupMove::Slide { point, direction, offsets })
    }
}

proof fn lemma_drop_each_err(w: Seq<Seq<Piece>>, size: nat, h: Seq<Piece>, p: Point, dir: Direction,
    offsets: Seq<usize>, k: nat, m: nat)
    requires
        k <= m,
        drop_each(w, size, h, p, dir, offsets, k) is Err,
    ensures
        drop_each(w, size, h, p, dir, offsets, m) == drop_each(w, size, h, p, dir, offsets, k),
    decreases m - k,
{
    if k < m {
        lemma_drop_each_err(w, size, h, p, dir, offsets, k, (m - 1) as nat);
    }
}

/// Applies an edit to a board. A refused slide leaves the pieces it had
/// already moved where they landed.
pub fn play<B: Board>(turn: &SetupMove, board: &mut B) -> (r: Result<(), TakError>)
    requires
        old(board).wf(),
    ensures
        final(board).wf(),
        final(board).size_view() == old(board).size_view(),
        final(board).counts() == old(board).counts(),
        r is Ok ==> setup_model(old(board).stacks(), old(board).size_view(), turn@)
            == Ok::<Seq<Seq<Piece>>, TakError>(final(board).stacks()),
        r is Err && r->Err_0 != TakError::OutOfCapacity ==>
            setup_model(old(board).stacks(), old(board).size_view(), turn@) == Err::<Seq<Seq<Piece>>, TakError>(r->Err_0),
        B::unbounded() && setup_model(old(board).stacks(), old(board).size_view(), turn@) is Ok ==> r is Ok,
        r is Err ==> *final(board) == *old(board)
            || dropped_some(old(board).stacks(), old(board).size_view(), turn@, final(board).stacks()),
        r == Err::<(), TakError>(TakError::OutOfCapacity) ==>
            refused_for_room::<B>(old(board).stacks(), old(board).size_view(), turn@, final(board).stacks()),
{
    proof {
        board.lemma_wf();
    }
    let ghost stacks = board.stacks();
    let ghost n = board.size_view();
    match turn {
        SetupMove::Placement { point, piece } => {
            let height = match board.at(point) {
                Ok(it) => it.pieces.len(),
                Err(e) => {
                    return Err(e);
                },
            };
            if height != 0 {
                return Err(TakError::OccupiedSquare);
            }
            let r = board.add_piece(point, *piece);
            proof {
                crate::board::lemma_sq(*point, *point, n);
                if B::unbounded() {
                    old(board).lemma_unbounded(*point, 1);
                }
                if B::roomy(1) {
                    old(board).lemma_roomy(*point, 1);
                }
                assert(crate::board::stack_push(Seq::<Piece>::empty(), *piece) == Ok::<Seq<Piece>, TakError>(seq![*piece]));
            }
            r
        },
        SetupMove::Slide { point, direction, offsets } => {
            let size = board.size();
            let height = match board.at(point) {
                Ok(it) => it.pieces.len(),
                Err(e) => {
                    return Err(e);
                },
            };
            if offsets.len() != height {
                return Err(TakError::DropMismatch);
            }
            let lifted = board.at_reset(point).unwrap().pieces;
            let ghost w = board.stacks();
            let mut i: usize = 0;
            while i < lifted.len()
                invariant
                    board.wf(),
                    board.size_view() == n,
                    n == old(board).size_view(),
                    size == n,
                    stacks == old(board).stacks(),
                    board.counts() == old(board).counts(),
                    on_board(*point, n),
                    turn@ == (SetupModel::Slide { point: *point, direction: *direction, offsets: offsets@ }),
                    stacks.len() == n * n,
                    lifted@ == stacks[sq(*point, n)],
                    offsets@.len() == lifted@.len(),
                    w == with_stack(stacks, n, *point, Seq::empty()),
                    setup_model(stacks, n, turn@) == drop_each(w, n, lifted@, *point, *direction, offsets@, offsets@.len()),
                    i <= lifted@.len(),
                    drop_each(w, n, lifted@, *point, *direction, offsets@, i as nat)
                        == Ok::<Seq<Seq<Piece>>, TakError>(board.stacks()),
                decreases lifted@.len() - i,
            {
                let target = direction.adjust(point, offsets[i], size);
                match target {
                    Some(q) => {
                        let ghost before = *board;
                        match board.add_piece(&q, lifted[i]) {
                            Ok(()) => {},
                            Err(e) => {
                                proof {
                                    assert(drop_each(w, n, lifted@, *point, *direction, offsets@, i as nat)
                                        == Ok::<Seq<Seq<Piece>>, TakError>(board.stacks()));
                                    let m = turn@;
                                    assert(m->Slide_point == *point && m->Slide_direction == *direction && m->Slide_offsets == offsets@);
                                    assert(drop_each(with_stack(stacks, n, m->Slide_point, Seq::empty()), n, stacks[sq(m->Slide_point, n)],
                                        m->Slide_point, m->Slide_direction, m->Slide_offsets, i as nat)
                                        == Ok::<Seq<Seq<Piece>>, TakError>(board.stacks()));
                                    assert(dropped_some(stacks, n, m, board.stacks()));
                                    let s2 = add_model(before.stacks(), n, q, lifted@[i as int]);
                                    if e == TakError::OutOfCapacity && B::roomy(s2->Ok_0[sq(q, n)].len()) {
                                        before.lemma_roomy(q, s2->Ok_0[sq(q, n)].len());
                                    }
                                    if e != TakError::OutOfCapacity {
                                        lemma_drop_each_err(w, n, lifted@, *point, *direction, offsets@, (i + 1) as nat,
                                            offsets@.len());
                                    }
                                    if B::unbounded() {
                                        before.lemma_unbounded(q, 0);
                                        let s = add_model(before.stacks(), n, q, lifted@[i as int]);
                                        if s is Ok {
                                            before.lemma_unbounded(q, s->Ok_0[sq(q, n)].len());
                                        }
                                        lemma_drop_each_err(w, n, lifted@, *point, *direction, offsets@, (i + 1) as nat,
                                            offsets@.len());
                                    }
                                }
                                return Err(e);
                            },
                        }
                    },
                    None => {
                        proof {
                            assert(drop_each(w, n, lifted@, *point, *direction, offsets@, i as nat)
                                == Ok::<Seq<Seq<Piece>>, TakError>(board.stacks()));
                            let m = turn@;
                            assert(m->Slide_point == *point && m->Slide_direction == *direction && m->Slide_offsets == offsets@);
                            assert(drop_each(with_stack(stacks, n, m->Slide_point, Seq::empty()), n, stacks[sq(m->Slide_point, n)],
                                m->Slide_point, m->Slide_direction, m->Slide_offsets, i as nat)
                                == Ok::<Seq<Seq<Piece>>, TakError>(board.stacks()));
                            assert(dropped_some(stacks, n, m, board.stacks()));
                            lemma_drop_each_err(w, n, lifted@, *point, *direction, offsets@, (i + 1) as nat,
                                offsets@.len());
                        }
                        return Err(TakError::OffBoard);
                    },
                }
                i = i + 1;
            }
            Ok(())
        },
    }
}

} // verus!
