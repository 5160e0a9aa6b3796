use vstd::prelude::*;
use crate::error::TakError;
use crate::piece::{Piece, Player, Stone, landing};
use crate::point::Point;

verus! {

/// Flat stones each player has on a board of the given size.
pub open spec fn max_flat_for(size: nat) -> usize {
    if size == 4 { 15 }
    else if size == 5 { 20 }
    else if size == 6 { 30 }
    else if size == 7 { 40 }
    else { 50 }
}

/// Capstones each player has on a board of the given size.
pub open spec fn max_cap_for(size: nat) -> usize {
    if size == 4 { 0 }
    else if size == 5 { 1 }
    else if size == 6 { 1 }
    else { 2 }
}

pub open spec fn valid_size(size: nat) -> bool {
    4 <= size <= 8
}

/// How many stones of each kind each player has placed, and how many they may.
#[derive(Clone, Copy, Debug, PartialEq, Eq, Structural)]
pub struct PieceCount {
    pub p1_flat: usize,
    pub p1_cap: usize,
    pub p2_flat: usize,
    pub p2_cap: usize,
    pub max_flat: usize,
    pub max_cap: usize,
}

impl PieceCount {
    /// The counter that a placement of `piece` advances; standing stones
    /// come out of the flat supply.
    pub open spec fn placed(self, piece: Piece) -> usize {
        if piece.owner == Player::One {
            if piece.stone == Stone::Capstone { self.p1_cap } else { self.p1_flat }
        } else {
            if piece.stone == Stone::Capstone { self.p2_cap } else { self.p2_flat }
        }
    }

    pub open spec fn allowed(self, piece: Piece) -> usize {
        if piece.stone == Stone::Capstone { self.max_cap } else { self.max_flat }
    }

    pub open spec fn spec_used_up(self, piece: Piece) -> bool {
        self.placed(piece) >= self.allowed(piece)
    }

    /// The counts after one more placement of `piece`.
    pub open spec fn added(self, piece: Piece) -> PieceCount {
        if piece.owner == Player::One {
            if piece.stone == Stone::Capstone {
                PieceCount { p1_cap: (self.p1_cap + 1) as usize, ..self }
            } else {
                PieceCount { p1_flat: (self.p1_flat + 1) as usize, ..self }
            }
        } else {
            if piece.stone == Stone::Capstone {
                PieceCount { p2_cap: (self.p2_cap + 1) as usize, ..self }
            } else {
                PieceCount { p2_flat: (self.p2_flat + 1) as usize, ..self }
            }
        }
    }

    /// No counter is above its maximum.
    pub open spec fn within_limits(self) -> bool {
        &&& self.p1_flat <= self.max_flat
        &&& self.p2_flat <= self.max_flat
        &&& self.p1_cap <= self.max_cap
        &&& self.p2_cap <= self.max_cap
    }

    pub open spec fn fresh(size: nat) -> PieceCount {
        PieceCount {
            p1_flat: 0,
            p1_cap: 0,
            p2_flat: 0,
            p2_cap: 0,
            max_flat: max_flat_for(size),
            max_cap: max_cap_for(size),
        }
    }

    /// No stones placed yet, with the supply of a board of this size.
    pub fn new(size: usize) -> (r: PieceCount)
        requires
            valid_size(size as nat),
        ensures
            r == PieceCount::fresh(size as nat),
    {
        let flat_counts: [usize; 5] = [15, 20, 30, 40, 50];
        let capstone_counts: [usize; 5] = [0, 1, 1, 2, 2];
        let r = PieceCount {
            p1_flat: 0,
            p1_cap: 0,
            p2_flat: 0,
            p2_cap: 0,
            max_flat: flat_counts[size - 4],
            max_cap: capstone_counts[size - 4],
        };
        assert(flat_counts@ == seq![15usize, 20, 30, 40, 50]);
        assert(capstone_counts@ == seq![0usize, 1, 1, 2, 2]);
        r
    }

    /// Records one more placement of `piece`.
    pub fn add(&mut self, piece: &Piece)
        requires
            old(self).placed(*piece) < usize::MAX,
        ensures
            *final(self) == old(self).added(*piece),
    {
        if piece.owner == Player::One {
            if piece.stone == Stone::Capstone {
                self.p1_cap = self.p1_cap + 1;
            } else {
                self.p1_flat = self.p1_flat + 1;
            }
        } else {
            if piece.stone == Stone::Capstone {
                self.p2_cap = self.p2_cap + 1;
            } else {
                self.p2_flat = self.p2_flat + 1;
            }
        }
    }

    /// Whether the owner of `piece` has placed all stones of its kind.
    pub fn used_up(&self, piece: &Piece) -> (r: bool)
        ensures
            r == self.spec_used_up(*piece),
    {
        if piece.owner == Player::One {
            if piece.stone == Stone::Capstone {
                self.p1_cap >= self.max_cap
            } else {
                self.p1_flat >= self.max_flat
            }
        } else {
            if piece.stone == Stone::Capstone {
                self.p2_cap >= self.max_cap
            } else {
                self.p2_flat >= self.max_flat
            }
        }
    }
}

/// Placing one more piece that is not used up keeps every counter within
/// its maximum.
pub proof fn lemma_add_within_limits(c: PieceCount, piece: Piece)
    requires
        c.within_limits(),
        !c.spec_used_up(piece),
    ensures
        c.added(piece).within_limits(),
{
}

// ---------------------------------------------------------------------------
// Stacks, bottom to top.

/// The stack after `p` lands on `s`, or why it may not.
pub open spec fn stack_push(s: Seq<Piece>, p: Piece) -> Result<Seq<Piece>, TakError> {
    if s.len() == 0 {
        Ok(seq![p])
    } else {
        match landing(p, s.last()) {
            Ok(base) => Ok(s.drop_last().push(base).push(p)),
            Err(e) => Err(e),
        }
    }
}

/// The stack after the pieces of `ps` land on `s` one after the other.
pub open spec fn stack_push_all(s: Seq<Piece>, ps: Seq<Piece>) -> Result<Seq<Piece>, TakError>
    decreases ps.len(),
{
    if ps.len() == 0 {
        Ok(s)
    } else {
        match stack_push_all(s, ps.drop_last()) {
            Ok(t) => stack_push(t, ps.last()),
            Err(e) => Err(e),
        }
    }
}

/// Every piece under the top is flat: what any stack built by the rules looks like.
pub open spec fn legal_stack(s: Seq<Piece>) -> bool {
    forall|i: int| 0 <= i < s.len() - 1 ==> (#[trigger] s[i]).stone == Stone::Flat
}

/// The player who may move the stack: the owner of its top piece.
pub open spec fn stack_mover(s: Seq<Piece>) -> Option<Player> {
    if s.len() == 0 { None } else { Some(s.last().owner) }
}

/// The player the stack counts for in a road: the owner of its top piece,
/// unless that is a standing stone.
pub open spec fn stack_owner(s: Seq<Piece>) -> Option<Player> {
    if s.len() == 0 || s.last().stone == Stone::Standing { None } else { Some(s.last().owner) }
}

/// The player the stack scores for in a flat count: the owner of a flat top.
pub open spec fn stack_scorer(s: Seq<Piece>) -> Option<Player> {
    if s.len() > 0 && s.last().stone == Stone::Flat { Some(s.last().owner) } else { None }
}

/// Landing a piece keeps the height plus one and keeps a stack legal.
pub proof fn lemma_push_legal(s: Seq<Piece>, p: Piece)
    requires
        legal_stack(s),
    ensures
        stack_push(s, p) is Ok ==> legal_stack(stack_push(s, p)->Ok_0)
            && stack_push(s, p)->Ok_0.len() == s.len() + 1,
{
    if s.len() > 0 && stack_push(s, p) is Ok {
        let t = stack_push(s, p)->Ok_0;
        assert forall|i: int| 0 <= i < t.len() - 1 implies (#[trigger] t[i]).stone == Stone::Flat by {
            if i < s.len() - 1 {
                assert(t[i] == s[i]);
            }
        }
    }
}

/// Landing several pieces adds their number to the height.
pub proof fn lemma_push_all_len(s: Seq<Piece>, ps: Seq<Piece>)
    ensures
        stack_push_all(s, ps) is Ok ==> stack_push_all(s, ps)->Ok_0.len() == s.len() + ps.len(),
    decreases ps.len(),
{
    if ps.len() > 0 {
        lemma_push_all_len(s, ps.drop_last());
    }
}

/// Landing several pieces keeps a stack legal.
pub proof fn lemma_push_all_legal(s: Seq<Piece>, ps: Seq<Piece>)
    requires
        legal_stack(s),
    ensures
        stack_push_all(s, ps) is Ok ==> legal_stack(stack_push_all(s, ps)->Ok_0),
    decreases ps.len(),
{
    if ps.len() > 0 {
        lemma_push_all_legal(s, ps.drop_last());
        if stack_push_all(s, ps.drop_last()) is Ok {
            lemma_push_legal(stack_push_all(s, ps.drop_last())->Ok_0, ps.last());
        }
    }
}

/// What `s` becomes when `p` lands on it, or why it may not.
pub fn push_piece(s: &mut Vec<Piece>, p: Piece) -> (r: Result<(), TakError>)
    ensures
        match stack_push(old(s)@, p) {
            Ok(t) => r is Ok && final(s)@ == t,
            Err(e) => r == Err::<(), TakError>(e) && final(s)@ == old(s)@,
        },
{
    let n = s.len();
    if n > 0 {
        let mut base = s[n - 1];
        match p.move_onto(&mut base) {
            Ok(()) => {
                s.set(n - 1, base);
            },
            Err(e) => {
                return Err(e);
            },
        }
        assert(s@ == old(s)@.drop_last().push(base));
    }
    s.push(p);
    Ok(())
}

// ---------------------------------------------------------------------------
// Boards: a grid of stacks, `size` squares on each side.

pub open spec fn on_board(p: Point, size: nat) -> bool {
    p.x < size && p.y < size
}

/// The index of a square in the stacks of a board: rank by rank.
pub open spec fn sq(p: Point, size: nat) -> int {
    p.y * size + p.x
}

/// Square indices of points on the board are in range and tell points apart.
pub proof fn lemma_sq(p: Point, q: Point, size: nat)
    requires
        on_board(p, size),
        on_board(q, size),
    ensures
        0 <= sq(p, size) < size * size,
        sq(p, size) == sq(q, size) <==> p == q,
{
    assert(0 <= p.y * size + p.x < size * size) by (nonlinear_arith)
        requires p.x < size, p.y < size;
    if p != q {
        if p.y == q.y {
            assert(sq(p, size) != sq(q, size));
        } else if p.y < q.y {
            assert(p.y * size + p.x < q.y * size + q.x) by (nonlinear_arith)
                requires p.x < size, p.y < q.y;
        } else {
            assert(q.y * size + q.x < p.y * size + p.x) by (nonlinear_arith)
                requires q.x < size, q.y < p.y;
        }
    }
}

/// The point of each square index.
pub open spec fn point_at(i: int, size: nat) -> Point {
    Point { x: (i % size as int) as usize, y: (i / size as int) as usize }
}

/// Every square index names a point on the board.
pub proof fn lemma_point_at(i: int, size: nat)
    requires
        0 <= i < size * size,
        valid_size(size),
    ensures
        on_board(point_at(i, size), size),
        sq(point_at(i, size), size) == i,
{
    let n = size as int;
    let q = i / n;
    let r = i % n;
    assert(q * n + r == i) by (nonlinear_arith)
        requires n > 0, q == i / n, r == i % n;
    assert(q < n) by (nonlinear_arith)
        requires 0 <= i < n * n, n > 0, q == i / n;
    assert(0 <= r < n) by (nonlinear_arith)
        requires n > 0, 0 <= i, r == i % n;
    assert(0 <= q) by (nonlinear_arith)
        requires n > 0, 0 <= i, q == i / n;
    let p = point_at(i, size);
    assert(p.x as int == r);
    assert(p.y as int == q);
    assert(sq(p, size) == q * n + r);
}

/// The stacks of an empty board.
pub open spec fn empty_stacks(size: nat) -> Seq<Seq<Piece>> {
    Seq::new(size * size, |i: int| Seq::<Piece>::empty())
}

/// A board with `p` set to hold `s`, the rest as it was.
pub open spec fn with_stack(stacks: Seq<Seq<Piece>>, size: nat, p: Point, s: Seq<Piece>) -> Seq<Seq<Piece>> {
    stacks.update(sq(p, size), s)
}

/// Placing `piece` on the empty square `p`.
pub open spec fn place_model(stacks: Seq<Seq<Piece>>, counts: PieceCount, size: nat, p: Point, piece: Piece)
    -> Result<(Seq<Seq<Piece>>, PieceCount), TakError> {
    if !on_board(p, size) {
        Err(TakError::InvalidPoint)
    } else if stacks[sq(p, size)].len() != 0 {
        Err(TakError::OccupiedSquare)
    } else if counts.spec_used_up(piece) {
        Err(TakError::PieceExhausted)
    } else {
        Ok((with_stack(stacks, size, p, seq![piece]), counts.added(piece)))
    }
}

/// Landing `piece` on the stack at `p`.
pub open spec fn add_model(stacks: Seq<Seq<Piece>>, size: nat, p: Point, piece: Piece)
    -> Result<Seq<Seq<Piece>>, TakError> {
    if !on_board(p, size) {
        Err(TakError::InvalidPoint)
    } else {
        match stack_push(stacks[sq(p, size)], piece) {
            Ok(s) => Ok(with_stack(stacks, size, p, s)),
            Err(e) => Err(e),
        }
    }
}

/// Every square holds at least one piece.
pub open spec fn all_occupied(stacks: Seq<Seq<Piece>>) -> bool {
    forall|i: int| 0 <= i < stacks.len() ==> (#[trigger] stacks[i]).len() > 0
}

pub open spec fn all_legal(stacks: Seq<Seq<Piece>>) -> bool {
    forall|i: int| 0 <= i < stacks.len() ==> legal_stack(#[trigger] stacks[i])
}

/// The pieces of one square, read bottom to top.
#[derive(Clone, Debug)]
pub struct PieceIter {
    pub pieces: Vec<Piece>,
    pub index: usize,
}

impl PieceIter {
    /// The pieces not yet read.
    pub open spec fn rest(&self) -> Seq<Piece> {
        self.pieces@.subrange(self.index as int, self.pieces@.len() as int)
    }

    pub open spec fn well_formed(&self) -> bool {
        self.index <= self.pieces@.len()
    }

    pub fn new(pieces: Vec<Piece>) -> (r: PieceIter)
        ensures
            r.pieces@ == pieces@,
            r.index == 0,
            r.well_formed(),
            r.rest() == pieces@,
    {
        let r = PieceIter { pieces, index: 0 };
        assert(r.rest() == pieces@);
        r
    }

    /// The next piece up, if any.
    pub fn next(&mut self) -> (r: Option<Piece>)
        requires
            old(self).well_formed(),
        ensures
            final(self).well_formed(),
            final(self).pieces@ == old(self).pieces@,
            old(self).rest().len() == 0 ==> r is None && final(self).index == old(self).index,
            old(self).rest().len() > 0 ==> r == Some(old(self).rest()[0])
                && final(self).rest() == old(self).rest().drop_first(),
    {
        if self.index >= self.pieces.len() {
            return None;
        }
        let s = self.pieces[self.index];
        self.index = self.index + 1;
        assert(self.rest() == old(self).rest().drop_first());
        Some(s)
    }

    /// Skips `n` pieces and reads the next.
    pub fn nth(&mut self, n: usize) -> (r: Option<Piece>)
        requires
            old(self).well_formed(),
        ensures
            final(self).well_formed(),
            final(self).pieces@ == old(self).pieces@,
            n < old(self).rest().len() ==> r == Some(old(self).rest()[n as int]),
            n >= old(self).rest().len() ==> r is None,
    {
        if n >= self.pieces.len() - self.index {
            self.index = self.pieces.len();
            return None;
        }
        self.index = self.index + n;
        self.next()
    }

    /// How many pieces are not yet read.
    pub fn count(&self) -> (r: usize)
        requires
            self.well_formed(),
        ensures
            r == self.rest().len(),
    {
        self.pieces.len() - self.index
    }

    /// The top piece, if any is left.
    pub fn last(&self) -> (r: Option<Piece>)
        requires
            self.well_formed(),
        ensures
            r == (if self.rest().len() == 0 { None } else { Some(self.rest().last()) }),
    {
        if self.index >= self.pieces.len() {
            None
        } else {
            Some(self.pieces[self.pieces.len() - 1])
        }
    }

    /// The player who may move this stack.
    pub fn mover(&self) -> (r: Option<Player>)
        requires
            self.well_formed(),
        ensures
            r == stack_mover(self.rest()),
    {
        match self.last() {
            Some(p) => Some(p.owner),
            None => None,
        }
    }

    /// The player this stack counts for in a road.
    pub fn owner(&self) -> (r: Option<Player>)
        requires
            self.well_formed(),
        ensures
            r == stack_owner(self.rest()),
    {
        match self.last() {
            Some(p) => if p.stone == Stone::Standing { None } else { Some(p.owner) },
            None => None,
        }
    }

    /// The player this stack scores for in a flat count.
    pub fn scorer(&self) -> (r: Option<Player>)
        requires
            self.well_formed(),
        ensures
            r == stack_scorer(self.rest()),
    {
        match self.last() {
            Some(p) => if p.stone == Stone::Flat { Some(p.owner) } else { None },
            None => None,
        }
    }
}

} // verus!

verus! {

/// Writing the first `k` stacks depends only on the first `k` points and stacks.
pub proof fn lemma_replay_prefix(s0: Seq<Seq<Piece>>, size: nat, pts: Seq<Point>, ns: Seq<Seq<Piece>>,
    pts2: Seq<Point>, ns2: Seq<Seq<Piece>>, k: nat)
    requires
        k <= pts.len(),
        k <= pts2.len(),
        k <= ns.len(),
        k <= ns2.len(),
        forall|j: int| 0 <= j < k ==> pts[j] == pts2[j] && ns[j] == ns2[j],
    ensures
        replay(s0, size, pts, ns, k) == replay(s0, size, pts2, ns2, k),
    decreases k,
{
    if k > 0 {
        lemma_replay_prefix(s0, size, pts, ns, pts2, ns2, (k - 1) as nat);
    }
}

/// Writes the stacks `ns[j]` at the points `pts[j]`, for `j` below `k`, in order.
pub open spec fn replay(s0: Seq<Seq<Piece>>, size: nat, pts: Seq<Point>, ns: Seq<Seq<Piece>>, k: nat)
    -> Seq<Seq<Piece>>
    decreases k,
{
    if k == 0 {
        s0
    } else {
        with_stack(replay(s0, size, pts, ns, (k - 1) as nat), size, pts[k - 1], ns[k - 1])
    }
}

/// The stacks that the vectors `v` hold.
pub open spec fn stack_views(v: Seq<Vec<Piece>>) -> Seq<Seq<Piece>> {
    Seq::new(v.len(), |i: int| v[i]@)
}

/// Pushing a vector pushes its stack.
pub proof fn lemma_views_push(v: Seq<Vec<Piece>>, x: Vec<Piece>)
    ensures
        stack_views(v.push(x)) == stack_views(v).push(x@),
{
    assert(stack_views(v.push(x)) =~= stack_views(v).push(x@));
}

} // verus!

verus! {


/// A grid of stacks of pieces, with the count of stones placed. Every
/// representation offers the same operations, stated over the same model:
/// the stacks of the squares, rank by rank (see `sq`).
pub trait Board: Sized {
    spec fn size_view(&self) -> nat;

    spec fn stacks(&self) -> Seq<Seq<Piece>>;

    spec fn counts(&self) -> PieceCount;

    spec fn wf(&self) -> bool;

    /// The board sizes this representation can be built with.
    spec fn accepts_size(size: nat) -> bool;

    /// Whether the square at `p` can hold a stack of `height` pieces,
    /// given what the other squares hold.
    spec fn has_room(&self, p: Point, height: nat) -> bool;

    /// How many words of shared storage the square at `p` holds beyond its
    /// own (the packed board's continuation words).
    spec fn reserved(&self, p: Point) -> nat;

    /// Whether every square always has room, whatever the board holds.
    spec fn unbounded() -> bool;

    /// Whether a stack of `height` pieces fits on any square, whatever the
    /// board holds.
    spec fn roomy(height: nat) -> bool;

    proof fn lemma_roomy(&self, p: Point, height: nat)
        requires
            Self::roomy(height),
        ensures
            self.has_room(p, height),
    ;

    proof fn lemma_unbounded_roomy(height: nat)
        requires
            Self::unbounded(),
        ensures
            Self::roomy(height),
    ;

    proof fn lemma_unbounded(&self, p: Point, height: nat)
        requires
            Self::unbounded(),
        ensures
            self.has_room(p, height),
    ;

    proof fn lemma_accepts(size: nat)
        ensures
            Self::accepts_size(size) ==> valid_size(size),
    ;

    proof fn lemma_wf(&self)
        requires
            self.wf(),
        ensures
            valid_size(self.size_view()),
            self.stacks().len() == self.size_view() * self.size_view(),
            self.counts().within_limits(),
            self.counts().max_flat == max_flat_for(self.size_view()),
            self.counts().max_cap == max_cap_for(self.size_view()),
            all_legal(self.stacks()),
    ;

    /// Whether this representation can be built with the given size.
    fn accepts(size: usize) -> (r: bool)
        ensures
            r == Self::accepts_size(size as nat),
    ;

    /// An empty board.
    fn new(size: usize) -> (r: Self)
        requires
            Self::accepts_size(size as nat),
        ensures
            r.wf(),
            r.size_view() == size,
            r.stacks() == empty_stacks(size as nat),
            r.counts() == PieceCount::fresh(size as nat),
    ;

    fn size(&self) -> (r: usize)
        requires
            self.wf(),
        ensures
            r == self.size_view(),
    ;

    fn count(&self) -> (r: PieceCount)
        requires
            self.wf(),
        ensures
            r == self.counts(),
    ;

    /// Whether every square holds at least one piece.
    fn full(&self) -> (r: bool)
        requires
            self.wf(),
        ensures
            r == all_occupied(self.stacks()),
    ;

    /// The pieces of the square at `point`, bottom to top.
    fn at(&self, point: &Point) -> (r: Result<PieceIter, TakError>)
        requires
            self.wf(),
        ensures
            on_board(*point, self.size_view()) ==> r is Ok
                && r->Ok_0.well_formed()
                && r->Ok_0.index == 0
                && r->Ok_0.pieces@ == self.stacks()[sq(*point, self.size_view())],
            !on_board(*point, self.size_view()) ==> r == Err::<PieceIter, TakError>(TakError::InvalidPoint),
    ;

    /// Takes every piece off the square at `point`.
    fn at_reset(&mut self, point: &Point) -> (r: Result<PieceIter, TakError>)
        requires
            old(self).wf(),
        ensures
            final(self).wf(),
            on_board(*point, old(self).size_view()) ==> r is Ok
                && r->Ok_0.well_formed()
                && r->Ok_0.index == 0
                && r->Ok_0.pieces@ == old(self).stacks()[sq(*point, old(self).size_view())]
                && final(self).size_view() == old(self).size_view()
                && final(self).counts() == old(self).counts()
                && final(self).stacks() == with_stack(old(self).stacks(), old(self).size_view(), *point, Seq::empty())
                && final(self).reserved(*point) == 0,
            !on_board(*point, old(self).size_view()) ==> r == Err::<PieceIter, TakError>(TakError::InvalidPoint)
                && *final(self) == *old(self),
    ;

    /// Places a new stone on an empty square and counts it.
    fn place_piece(&mut self, point: &Point, piece: Piece) -> (r: Result<(), TakError>)
        requires
            old(self).wf(),
        ensures
            final(self).wf(),
            match place_model(old(self).stacks(), old(self).counts(), old(self).size_view(), *point, piece) {
                Ok((s, c)) => r is Ok && final(self).stacks() == s && final(self).counts() == c
                    && final(self).size_view() == old(self).size_view(),
                Err(e) => r == Err::<(), TakError>(e) && *final(self) == *old(self),
            },
    ;

    /// Lands a piece on the stack at `point`, by the stacking rules.
    fn add_piece(&mut self, point: &Point, piece: Piece) -> (r: Result<(), TakError>)
        requires
            old(self).wf(),
        ensures
            final(self).wf(),
            match add_model(old(self).stacks(), old(self).size_view(), *point, piece) {
                Ok(s) => if old(self).has_room(*point, s[sq(*point, old(self).size_view())].len()) {
                    r is Ok && final(self).stacks() == s && final(self).counts() == old(self).counts()
                        && final(self).size_view() == old(self).size_view()
                } else {
                    r == Err::<(), TakError>(TakError::OutOfCapacity) && *final(self) == *old(self)
                },
                Err(e) => r == Err::<(), TakError>(e) && *final(self) == *old(self),
            },
    ;

    /// Replaces the stacks at `points[i]` with `stacks[i]`, in order, all or
    /// nothing: when a stack does not fit, nothing changes.
    fn set_stacks(&mut self, points: &Vec<Point>, stacks: &Vec<Vec<Piece>>) -> (r: Result<(), TakError>)
        requires
            old(self).wf(),
            points@.len() == stacks@.len(),
            forall|i: int| 0 <= i < points@.len() ==> on_board(#[trigger] points@[i], old(self).size_view()),
            forall|i: int| 0 <= i < stacks@.len() ==> legal_stack(#[trigger] stacks@[i]@),
        ensures
            final(self).wf(),
            final(self).size_view() == old(self).size_view(),
            final(self).counts() == old(self).counts(),
            r is Ok ==> final(self).stacks() == replay(old(self).stacks(), old(self).size_view(), points@,
                stack_views(stacks@), points@.len()),
            r is Err ==> r == Err::<(), TakError>(TakError::OutOfCapacity) && *final(self) == *old(self)
                && exists|i: int| 0 <= i < stacks@.len() && !Self::roomy(#[trigger] stacks@[i]@.len()),
    ;

    /// Replaces the stack at `point`.
    fn set_stack(&mut self, point: &Point, pieces: &Vec<Piece>) -> (r: Result<(), TakError>)
        requires
            old(self).wf(),
            on_board(*point, old(self).size_view()),
            legal_stack(pieces@),
        ensures
            final(self).wf(),
            old(self).has_room(*point, pieces@.len()) ==> r is Ok
                && final(self).stacks() == with_stack(old(self).stacks(), old(self).size_view(), *point, pieces@)
                && final(self).counts() == old(self).counts()
                && final(self).size_view() == old(self).size_view(),
            !old(self).has_room(*point, pieces@.len()) ==> r == Err::<(), TakError>(TakError::OutOfCapacity)
                && *final(self) == *old(self),
    ;
}

} // verus!

verus! {

/// A step that both board representations offer.
pub enum BoardStep {
    Place { point: Point, piece: Piece },
    Reset { point: Point },
    Add { point: Point, piece: Piece },
    Slide {
        count: usize,
        point: Point,
        direction: crate::turn::Direction,
        drops: Seq<usize>,
        mover: Player,
    },
}

/// `after` is what `before` becomes when the step succeeds: what the
/// contracts of `place_piece`, `at_reset`, `add_piece` and `slide_stack`
/// promise on success.
pub open spec fn step_done<B: Board>(before: B, after: B, step: BoardStep) -> bool {
    &&& after.size_view() == before.size_view()
    &&& match step {
        BoardStep::Place { point, piece } =>
            place_model(before.stacks(), before.counts(), before.size_view(), point, piece)
                == Ok::<(Seq<Seq<Piece>>, PieceCount), TakError>((after.stacks(), after.counts())),
        BoardStep::Reset { point } => on_board(point, before.size_view())
            && after.stacks() == with_stack(before.stacks(), before.size_view(), point, Seq::empty())
            && after.counts() == before.counts(),
        BoardStep::Add { point, piece } =>
            add_model(before.stacks(), before.size_view(), point, piece) == Ok::<Seq<Seq<Piece>>, TakError>(after.stacks())
                && after.counts() == before.counts(),
        BoardStep::Slide { count, point, direction, drops, mover } =>
            crate::slide::slide_model(before.stacks(), before.size_view(), count, point, direction, drops, mover)
                == Ok::<Seq<Seq<Piece>>, TakError>(after.stacks())
                && after.counts() == before.counts(),
    }
}

/// Two representations that start from the same stacks and replay the
/// same successful placements, emptyings, additions and slides hold the same stacks, bottom to
/// top on every square, after every step.
pub proof fn lemma_representation_equivalence<A: Board, B: Board>(xs: Seq<A>, ys: Seq<B>, steps: Seq<BoardStep>)
    requires
        xs.len() == steps.len() + 1,
        ys.len() == steps.len() + 1,
        xs[0].stacks() == ys[0].stacks(),
        xs[0].counts() == ys[0].counts(),
        xs[0].size_view() == ys[0].size_view(),
        forall|i: int| 0 <= i < steps.len() ==> step_done(xs[i], xs[i + 1], #[trigger] steps[i]),
        forall|i: int| 0 <= i < steps.len() ==> step_done(ys[i], ys[i + 1], #[trigger] steps[i]),
    ensures
        forall|i: int| 0 <= i < xs.len() ==> (#[trigger] xs[i]).stacks() == ys[i].stacks()
            && xs[i].counts() == ys[i].counts(),
{
    assert forall|i: int| 0 <= i < xs.len() implies (#[trigger] xs[i]).stacks() == ys[i].stacks()
        && xs[i].counts() == ys[i].counts() by {
        lemma_equivalence_upto(xs, ys, steps, i);
    }
}

proof fn lemma_equivalence_upto<A: Board, B: Board>(xs: Seq<A>, ys: Seq<B>, steps: Seq<BoardStep>, k: int)
    requires
        xs.len() == steps.len() + 1,
        ys.len() == steps.len() + 1,
        0 <= k < xs.len(),
        xs[0].stacks() == ys[0].stacks(),
        xs[0].counts() == ys[0].counts(),
        xs[0].size_view() == ys[0].size_view(),
        forall|i: int| 0 <= i < steps.len() ==> step_done(xs[i], xs[i + 1], #[trigger] steps[i]),
        forall|i: int| 0 <= i < steps.len() ==> step_done(ys[i], ys[i + 1], #[trigger] steps[i]),
    ensures
        xs[k].stacks() == ys[k].stacks(),
        xs[k].counts() == ys[k].counts(),
        xs[k].size_view() == ys[k].size_view(),
    decreases k,
{
    if k > 0 {
        lemma_equivalence_upto(xs, ys, steps, k - 1);
        assert(step_done(xs[k - 1], xs[k], steps[k - 1]));
        assert(step_done(ys[k - 1], ys[k], steps[k - 1]));
    }
}

/// A placement of a stone that its owner has used up is refused, and the
/// counts of a well-formed board never pass their maxima.
pub proof fn lemma_piece_limits<B: Board>(b: B, point: Point, piece: Piece)
    requires
        b.wf(),
        on_board(point, b.size_view()),
        b.stacks()[sq(point, b.size_view())].len() == 0,
        b.counts().spec_used_up(piece),
    ensures
        place_model(b.stacks(), b.counts(), b.size_view(), point, piece) == Err::<(Seq<Seq<Piece>>, PieceCount), TakError>(TakError::PieceExhausted),
        b.counts().p1_flat <= max_flat_for(b.size_view()),
        b.counts().p2_flat <= max_flat_for(b.size_view()),
        b.counts().p1_cap <= max_cap_for(b.size_view()),
        b.counts().p2_cap <= max_cap_for(b.size_view()),
{
    b.lemma_wf();
}

} // verus!
