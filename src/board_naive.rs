use vstd::prelude::*;
use crate::board::{Board, replay, stack_views, PieceCount, PieceIter, all_legal, empty_stacks, legal_stack, lemma_push_legal, lemma_sq, max_cap_for, max_flat_for, on_board, push_piece, sq, stack_mover, stack_owner, stack_push, stack_scorer, valid_size, with_stack};
use crate::error::TakError;
use crate::piece::{Piece, Player, Stone};
use crate::point::Point;

verus! {

/// One square of the reference board: its pieces, bottom to top.
#[derive(Clone, Debug)]
pub struct Square {
    pub pieces: Vec<Piece>,
}

impl Square {
    pub fn new() -> (r: Square)
        ensures
            r.pieces@ == Seq::<Piece>::empty(),
    {
        Square { pieces: Vec::new() }
    }

    pub fn len(&self) -> (r: usize)
        ensures
            r == self.pieces@.len(),
    {
        self.pieces.len()
    }

    /// Lands a piece on this square, by the stacking rules.
    pub fn add_piece(&mut self, piece: Piece) -> (r: Result<(), TakError>)
        ensures
            match stack_push(old(self).pieces@, piece) {
                Ok(t) => r is Ok && final(self).pieces@ == t,
                Err(e) => r == Err::<(), TakError>(e) && final(self).pieces@ == old(self).pieces@,
            },
    {
        push_piece(&mut self.pieces, piece)
    }

    /// Puts a new stone on this square, which must be empty.
    pub fn place_piece(&mut self, piece: Piece) -> (r: Result<(), TakError>)
        ensures
            old(self).pieces@.len() == 0 ==> r is Ok && final(self).pieces@ == seq![piece],
            old(self).pieces@.len() != 0 ==> r == Err::<(), TakError>(TakError::OccupiedSquare)
                && final(self).pieces@ == old(self).pieces@,
    {
        if self.pieces.len() != 0 {
            return Err(TakError::OccupiedSquare);
        }
        self.pieces.push(piece);
        Ok(())
    }

    /// The player who may move this stack.
    pub fn mover(&self) -> (r: Option<Player>)
        ensures
            r == stack_mover(self.pieces@),
    {
        if self.pieces.len() == 0 {
            None
        } else {
            Some(self.pieces[self.pieces.len() - 1].owner)
        }
    }

    /// The player this stack counts for in a road.
    pub fn owner(&self) -> (r: Option<Player>)
        ensures
            r == stack_owner(self.pieces@),
    {
        if self.pieces.len() == 0 {
            None
        } else {
            let p = self.pieces[self.pieces.len() - 1];
            if p.stone == Stone::Standing { None } else { Some(p.owner) }
        }
    }

    /// The player this stack scores for in a flat count.
    pub fn scorer(&self) -> (r: Option<Player>)
        ensures
            r == stack_scorer(self.pieces@),
    {
        if self.pieces.len() == 0 {
            None
        } else {
            let p = self.pieces[self.pieces.len() - 1];
            if p.stone == Stone::Flat { Some(p.owner) } else { None }
        }
    }
}

/// The reference board: each square holds its own growable stack.
#[derive(Clone, Debug)]
pub struct NaiveBoard {
    grid: Vec<Square>,
    size: usize,
    count: PieceCount,
}

impl NaiveBoard {
    /// The reference board never runs out of room.
    pub proof fn lemma_room(&self, p: Point, height: nat)
        ensures
            self.has_room(p, height),
    {
    }

    fn index(&self, point: &Point) -> (r: usize)
        requires
            self.wf(),
            on_board(*point, self.size as nat),
        ensures
            r as int == sq(*point, self.size as nat),
            r < self.grid@.len(),
    {
        proof {
            lemma_sq(*point, *point, self.size as nat);
        }
        assert(point.y * self.size + point.x < 64) by (nonlinear_arith)
            requires point.y < self.size, point.x < self.size, self.size <= 8;
        point.y * self.size + point.x
    }
}

impl Board for NaiveBoard {
    closed spec fn size_view(&self) -> nat {
        self.size as nat
    }

    closed spec fn stacks(&self) -> Seq<Seq<Piece>> {
        Seq::new(self.grid@.len(), |i: int| self.grid@[i].pieces@)
    }

    closed spec fn counts(&self) -> PieceCount {
        self.count
    }

    closed spec fn wf(&self) -> bool {
        &&& valid_size(self.size as nat)
        &&& self.grid@.len() == self.size * self.size
        &&& self.count.within_limits()
        &&& self.count.max_flat == max_flat_for(self.size as nat)
        &&& self.count.max_cap == max_cap_for(self.size as nat)
        &&& all_legal(self.stacks())
    }

    open spec fn accepts_size(size: nat) -> bool {
        valid_size(size)
    }

    closed spec fn has_room(&self, p: Point, height: nat) -> bool {
        true
    }

    open spec fn reserved(&self, p: Point) -> nat {
        0
    }

    open spec fn unbounded() -> bool {
        true
    }

    open spec fn roomy(height: nat) -> bool {
        true
    }

    proof fn lemma_roomy(&self, p: Point, height: nat) {
    }

    proof fn lemma_unbounded_roomy(height: nat) {
    }

    proof fn lemma_unbounded(&self, p: Point, height: nat) {
    }

    proof fn lemma_accepts(size: nat) {
    }

    proof fn lemma_wf(&self) {
    }

    fn accepts(size: usize) -> (r: bool) {
        4 <= size && size <= 8
    }

    fn new(size: usize) -> (r: NaiveBoard) {
        let mut grid: Vec<Square> = Vec::new();
        assert(size * size <= 64) by (nonlinear_arith)
            requires size <= 8;
        let n = size * size;
        let mut i: usize = 0;
        while i < n
            invariant
                i <= n,
                grid@.len() == i,
                forall|j: int| 0 <= j < i ==> (#[trigger] grid@[j]).pieces@ == Seq::<Piece>::empty(),
            decreases n - i,
        {
            grid.push(Square::new());
            i = i + 1;
        }
        let r = NaiveBoard { grid, size, count: PieceCount::new(size) };
        assert(r.stacks() == empty_stacks(size as nat));
        r
    }

    fn size(&self) -> (r: usize) {
        self.size
    }

    fn count(&self) -> (r: PieceCount) {
        self.count
    }

    fn full(&self) -> (r: bool) {
        let mut i: usize = 0;
        while i < self.grid.len()
            invariant
                i <= self.grid@.len(),
                forall|j: int| 0 <= j < i ==> (#[trigger] self.stacks()[j]).len() > 0,
            decreases self.grid@.len() - i,
        {
            if self.grid[i].pieces.len() == 0 {
                assert(self.stacks()[i as int].len() == 0);
                return false;
            }
            i = i + 1;
        }
        true
    }

    fn at(&self, point: &Point) -> (r: Result<PieceIter, TakError>) {
        if point.x >= self.size || point.y >= self.size {
            return Err(TakError::InvalidPoint);
        }
        let i = self.index(point);
        let pieces = self.grid[i].pieces.clone();
        assert(pieces@ == self.grid@[i as int].pieces@);
        Ok(PieceIter::new(pieces))
    }

    fn at_reset(&mut self, point: &Point) -> (r: Result<PieceIter, TakError>) {
        if point.x >= self.size || point.y >= self.size {
            return Err(TakError::InvalidPoint);
        }
        let i = self.index(point);
        let mut square = Square::new();
        self.grid.set_and_swap(i, &mut square);
        assert(self.stacks() == with_stack(old(self).stacks(), old(self).size_view(), *point, Seq::empty()));
        assert(all_legal(self.stacks())) by {
            assert forall|j: int| 0 <= j < self.stacks().len() implies legal_stack(#[trigger] self.stacks()[j]) by {
                if j != i {
                    assert(self.stacks()[j] == old(self).stacks()[j]);
                }
            }
        }
        Ok(PieceIter::new(square.pieces))
    }

    fn place_piece(&mut self, point: &Point, piece: Piece) -> (r: Result<(), TakError>) {
        if point.x >= self.size || point.y >= self.size {
            return Err(TakError::InvalidPoint);
        }
        let i = self.index(point);
        if self.grid[i].pieces.len() != 0 {
            return Err(TakError::OccupiedSquare);
        }
        if self.count.used_up(&piece) {
            return Err(TakError::PieceExhausted);
        }
        let mut square = Square::new();
        square.pieces.push(piece);
        self.grid.set(i, square);
        self.count.add(&piece);
        assert(self.stacks() == with_stack(old(self).stacks(), old(self).size_view(), *point, seq![piece]));
        assert(all_legal(self.stacks())) by {
            assert forall|j: int| 0 <= j < self.stacks().len() implies legal_stack(#[trigger] self.stacks()[j]) by {
                if j != i {
                    assert(self.stacks()[j] == old(self).stacks()[j]);
                }
            }
        }
        Ok(())
    }

    fn add_piece(&mut self, point: &Point, piece: Piece) -> (r: Result<(), TakError>) {
        if point.x >= self.size || point.y >= self.size {
            return Err(TakError::InvalidPoint);
        }
        let i = self.index(point);
        let n = self.grid[i].pieces.len();
        if n > 0 {
            let mut base = self.grid[i].pieces[n - 1];
            if let Err(e) = piece.move_onto(&mut base) {
                return Err(e);
            }
        }
        let mut square = Square::new();
        self.grid.set_and_swap(i, &mut square);
        let r = square.add_piece(piece);
        proof {
            lemma_push_legal(old(self).stacks()[i as int], piece);
        }
        self.grid.set(i, square);
        assert(self.stacks() == with_stack(old(self).stacks(), old(self).size_view(), *point, square.pieces@));
        assert(all_legal(self.stacks())) by {
            assert forall|j: int| 0 <= j < self.stacks().len() implies legal_stack(#[trigger] self.stacks()[j]) by {
                if j != i {
                    assert(self.stacks()[j] == old(self).stacks()[j]);
                }
            }
        }
        r
    }

    fn set_stacks(&mut self, points: &Vec<Point>, stacks: &Vec<Vec<Piece>>) -> (r: Result<(), TakError>) {
        let mut i: usize = 0;
        while i < points.len()
            invariant
                self.wf(),
                self.size_view() == old(self).size_view(),
                self.counts() == old(self).counts(),
                i <= points@.len() == stacks@.len(),
                forall|j: int| 0 <= j < points@.len() ==> on_board(#[trigger] points@[j], old(self).size_view()),
                forall|j: int| 0 <= j < stacks@.len() ==> legal_stack(#[trigger] stacks@[j]@),
                self.stacks() == replay(old(self).stacks(), old(self).size_view(), points@, stack_views(stacks@), i as nat),
            decreases points@.len() - i,
        {
            let r = self.set_stack(&points[i], &stacks[i]);
            assert(r is Ok);
            i = i + 1;
        }
        Ok(())
    }

    fn set_stack(&mut self, point: &Point, pieces: &Vec<Piece>) -> (r: Result<(), TakError>) {
        let i = self.index(point);
        let square = Square { pieces: pieces.clone() };
        assert(square.pieces@ == pieces@);
        self.grid.set(i, square);
        assert(self.stacks() == with_stack(old(self).stacks(), old(self).size_view(), *point, pieces@));
        assert(all_legal(self.stacks())) by {
            assert forall|j: int| 0 <= j < self.stacks().len() implies legal_stack(#[trigger] self.stacks()[j]) by {
                if j != i {
                    assert(self.stacks()[j] == old(self).stacks()[j]);
                }
            }
        }
        Ok(())
    }
}

} // verus!
