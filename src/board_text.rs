//! The text form of a board: ranks from the top down separated by `/`,
//! squares from file `a` separated by `,`. A run of empty squares is `x`
//! with an optional count (`x3`); a stack lists its pieces bottom to top,
//! each an owner digit followed by `S` or `C` for a standing stone or a
//! capstone (`12C` is a flat of player one under a capstone of player two).

use vstd::prelude::*;
use crate::board::{Board, stack_views, lemma_views_push, PieceCount, legal_stack, lemma_push_all_legal, lemma_sq, sq, stack_push_all, valid_size};
use crate::error::TakError;
use crate::piece::{Piece, Player, Stone};
use crate::point::Point;
use crate::text::{char_to_digit, chars_of, digit_of};

verus! {

/// The pieces of `s` split at each `sep`.
pub open spec fn split(s: Seq<char>, sep: char) -> Seq<Seq<char>>
    decreases s.len(),
{
    if s.len() == 0 {
        seq![Seq::empty()]
    } else {
        let parts = split(s.drop_last(), sep);
        if s.last() == sep {
            parts.push(Seq::empty())
        } else {
            parts.update(parts.len() - 1, parts.last().push(s.last()))
        }
    }
}

proof fn lemma_split_nonempty(s: Seq<char>, sep: char)
    ensures
        split(s, sep).len() >= 1,
    decreases s.len(),
{
    if s.len() > 0 {
        lemma_split_nonempty(s.drop_last(), sep);
    }
}

pub open spec fn owner_of(c: char) -> Option<Player> {
    if c == '1' { Some(Player::One) } else if c == '2' { Some(Player::Two) } else { None }
}

/// The pieces a cell lists, bottom to top.
pub open spec fn pieces_of(c: Seq<char>) -> Option<Seq<Piece>>
    decreases c.len(),
{
    if c.len() == 0 {
        Some(Seq::empty())
    } else if owner_of(c[0]) is None {
        None
    } else {
        let o = owner_of(c[0])->0;
        let (stone, used) = if c.len() >= 2 && c[1] == 'S' {
            (Stone::Standing, 2int)
        } else if c.len() >= 2 && c[1] == 'C' {
            (Stone::Capstone, 2int)
        } else {
            (Stone::Flat, 1int)
        };
        match pieces_of(c.subrange(used, c.len() as int)) {
            Some(rest) => Some(seq![Piece { stone, owner: o }] + rest),
            None => None,
        }
    }
}

/// The squares one cell stands for.
pub open spec fn cell_squares(c: Seq<char>) -> Option<Seq<Seq<Piece>>> {
    if c.len() >= 1 && c[0] == 'x' {
        if c.len() == 1 {
            Some(seq![Seq::<Piece>::empty()])
        } else if c.len() == 2 && digit_of(c[1]) is Some && digit_of(c[1])->0 >= 1 {
            Some(Seq::new(digit_of(c[1])->0 as nat, |i: int| Seq::<Piece>::empty()))
        } else {
            None
        }
    } else {
        match pieces_of(c) {
            Some(ps) => if ps.len() >= 1 && stack_push_all(Seq::empty(), ps) is Ok {
                Some(seq![stack_push_all(Seq::empty(), ps)->Ok_0])
            } else {
                None
            },
            None => None,
        }
    }
}

/// The squares of the first `k` cells of a rank.
pub open spec fn rank_squares(cells: Seq<Seq<char>>, k: nat) -> Option<Seq<Seq<Piece>>>
    decreases k,
{
    if k == 0 {
        Some(Seq::empty())
    } else {
        match (rank_squares(cells, (k - 1) as nat), cell_squares(cells[k - 1])) {
            (Some(a), Some(b)) => Some(a + b),
            _ => None,
        }
    }
}

pub open spec fn rank_of(rank: Seq<char>) -> Option<Seq<Seq<Piece>>> {
    let cells = split(rank, ',');
    rank_squares(cells, cells.len())
}

/// The size and stacks a board text describes: as many ranks as squares
/// in each rank.
pub open spec fn board_text(s: Seq<char>) -> Option<(nat, Seq<Seq<Piece>>)> {
    let ranks = split(s, '/');
    let size = ranks.len();
    if forall|r: int| 0 <= r < size ==> (#[trigger] rank_of(ranks[r])) is Some && rank_of(ranks[r])->0.len() == size {
        Some((size, Seq::new(size * size, |i: int| rank_of(ranks[size - 1 - i / size as int])->0[i % size as int])))
    } else {
        None
    }
}

fn split_chars(s: &Vec<char>, sep: char) -> (r: Vec<Vec<char>>)
    ensures
        r@.len() == split(s@, sep).len(),
        forall|i: int| 0 <= i < r@.len() ==> (#[trigger] r@[i])@ == split(s@, sep)[i],
{
    let mut parts: Vec<Vec<char>> = Vec::new();
    parts.push(Vec::new());
    let mut i: usize = 0;
    assert(s@.subrange(0, 0) == Seq::<char>::empty());
    while i < s.len()
        invariant
            i <= s@.len(),
            parts@.len() == split(s@.subrange(0, i as int), sep).len(),
            parts@.len() >= 1,
            forall|j: int| 0 <= j < parts@.len() ==> (#[trigger] parts@[j])@ == split(s@.subrange(0, i as int), sep)[j],
        decreases s@.len() - i,
    {
        assert(s@.subrange(0, i + 1).drop_last() == s@.subrange(0, i as int));
        let c = s[i];
        if c == sep {
            parts.push(Vec::new());
        } else {
            let last = parts.len() - 1;
            let mut cur: Vec<char> = Vec::new();
            parts.set_and_swap(last, &mut cur);
            cur.push(c);
            parts.set(last, cur);
        }
        i = i + 1;
    }
    assert(s@.subrange(0, s@.len() as int) == s@);
    parts
}

fn parse_pieces(c: &Vec<char>) -> (r: Option<Vec<Piece>>)
    ensures
        match pieces_of(c@) {
            Some(ps) => r is Some && r->0@ == ps,
            None => r is None,
        },
{
    let mut acc: Vec<Piece> = Vec::new();
    let mut i: usize = 0;
    let n = c.len();
    assert(c@.subrange(0, n as int) == c@);
    proof {
        if let Some(rest) = pieces_of(c@) {
            assert(acc@ + rest =~= rest);
        }
    }
    while i < n
        invariant
            i <= n == c@.len(),
            pieces_of(c@) == match pieces_of(c@.subrange(i as int, n as int)) {
                Some(rest) => Some(acc@ + rest),
                None => None::<Seq<Piece>>,
            },
        decreases n - i,
    {
        let ghost t = c@.subrange(i as int, n as int);
        let owner = if c[i] == '1' {
            Player::One
        } else if c[i] == '2' {
            Player::Two
        } else {
            return None;
        };
        let mut used: usize = 1;
        let mut stone = Stone::Flat;
        if i + 1 < n && c[i + 1] == 'S' {
            stone = Stone::Standing;
            used = 2;
        } else if i + 1 < n && c[i + 1] == 'C' {
            stone = Stone::Capstone;
            used = 2;
        }
        assert(t.subrange(used as int, t.len() as int) == c@.subrange(i + used, n as int));
        acc.push(Piece { stone, owner });
        i = i + used;
    }
    assert(c@.subrange(n as int, n as int) == Seq::<char>::empty());
    assert(acc@ + Seq::<Piece>::empty() == acc@);
    Some(acc)
}

fn parse_cell(c: &Vec<char>) -> (r: Option<Vec<Vec<Piece>>>)
    ensures
        match cell_squares(c@) {
            Some(sq) => r is Some && stack_views(r->0@) == sq,
            None => r is None,
        },
{
    if c.len() >= 1 && c[0] == 'x' {
        let mut count: usize = 1;
        if c.len() == 2 {
            match char_to_digit(c[1]) {
                Some(d) => {
                    if d < 1 {
                        return None;
                    }
                    count = d;
                },
                None => {
                    return None;
                },
            }
        } else if c.len() != 1 {
            return None;
        }
        let mut r: Vec<Vec<Piece>> = Vec::new();
        let mut i: usize = 0;
        while i < count
            invariant
                i <= count,
                stack_views(r@) == Seq::new(i as nat, |j: int| Seq::<Piece>::empty()),
            decreases count - i,
        {
            let e: Vec<Piece> = Vec::new();
            proof {
                lemma_views_push(r@, e);
            }
            r.push(e);
            i = i + 1;
            assert(stack_views(r@) =~= Seq::new(i as nat, |j: int| Seq::<Piece>::empty()));
        }
        assert(c@.len() == 1 ==> Seq::new(1, |j: int| Seq::<Piece>::empty()) =~= seq![Seq::<Piece>::empty()]);
        Some(r)
    } else {
        match parse_pieces(c) {
            Some(ps) => {
                if ps.len() < 1 {
                    return None;
                }
                match crate::slide::push_pieces(Vec::new(), &ps) {
                    Ok(st) => {
                        let mut r: Vec<Vec<Piece>> = Vec::new();
                        r.push(st);
                        assert(stack_views(r@) =~= seq![st@]);
                        Some(r)
                    },
                    Err(_) => None,
                }
            },
            None => None,
        }
    }
}

fn parse_rank(rank: &Vec<char>) -> (r: Option<Vec<Vec<Piece>>>)
    ensures
        match rank_of(rank@) {
            Some(sq) => r is Some && stack_views(r->0@) == sq,
            None => r is None,
        },
{
    let cells = split_chars(rank, ',');
    let ghost model = split(rank@, ',');
    let mut acc: Vec<Vec<Piece>> = Vec::new();
    let mut k: usize = 0;
    while k < cells.len()
        invariant
            k <= cells@.len() == model.len(),
            forall|i: int| 0 <= i < cells@.len() ==> (#[trigger] cells@[i])@ == model[i],
            model == split(rank@, ','),
            rank_squares(model, k as nat) == Some(stack_views(acc@)),
        decreases cells@.len() - k,
    {
        match parse_cell(&cells[k]) {
            Some(squares) => {
                let ghost before = acc@;
                let mut j: usize = 0;
                while j < squares.len()
                    invariant
                        j <= squares@.len(),
                        stack_views(acc@) == stack_views(before) + stack_views(squares@).subrange(0, j as int),
                    decreases squares@.len() - j,
                {
                    let mut st: Vec<Piece> = Vec::new();
                    let mut i: usize = 0;
                    while i < squares[j].len()
                        invariant
                            j < squares@.len(),
                            i <= squares@[j as int]@.len(),
                            st@ == squares@[j as int]@.subrange(0, i as int),
                        decreases squares@[j as int]@.len() - i,
                    {
                        st.push(squares[j][i]);
                        i = i + 1;
                    }
                    assert(st@ == squares@[j as int]@);
                    proof {
                        lemma_views_push(acc@, st);
                    }
                    acc.push(st);
                    assert(stack_views(acc@) =~= stack_views(before) + stack_views(squares@).subrange(0, j + 1));
                    j = j + 1;
                }
                assert(stack_views(squares@).subrange(0, squares@.len() as int) == stack_views(squares@));
            },
            None => {
                proof {
                    lemma_rank_err(model, (k + 1) as nat, model.len());
                }
                return None;
            },
        }
        k = k + 1;
    }
    Some(acc)
}

proof fn lemma_rank_err(cells: Seq<Seq<char>>, k: nat, m: nat)
    requires
        k <= m,
        rank_squares(cells, k) is None,
    ensures
        rank_squares(cells, m) is None,
    decreases m - k,
{
    if k < m {
        lemma_rank_err(cells, k, (m - 1) as nat);
    }
}

proof fn lemma_rank_legal(cells: Seq<Seq<char>>, k: nat)
    requires
        rank_squares(cells, k) is Some,
    ensures
        forall|i: int| 0 <= i < rank_squares(cells, k)->0.len() ==> legal_stack(#[trigger] rank_squares(cells, k)->0[i]),
    decreases k,
{
    if k > 0 {
        lemma_rank_legal(cells, (k - 1) as nat);
        let a = rank_squares(cells, (k - 1) as nat)->0;
        let b = cell_squares(cells[k - 1])->0;
        let c = cells[k - 1];
        if !(c.len() >= 1 && c[0] == 'x') {
            let ps = pieces_of(c)->0;
            lemma_push_all_legal(Seq::empty(), ps);
        }
        assert forall|i: int| 0 <= i < (a + b).len() implies legal_stack(#[trigger] (a + b)[i]) by {
            if i >= a.len() {
                assert((a + b)[i] == b[i - a.len()]);
            }
        }
    }
}

/// Reads a board from its text form. The number of ranks is the size of
/// the board, and each rank must hold that many squares.
pub fn board_from_str<B: Board>(s: &str) -> (r: Result<B, TakError>)
    ensures
        match board_text(s@) {
            None => r == Err::<B, TakError>(TakError::InvalidNotation),
            Some((size, st)) => if !B::accepts_size(size) {
                r == Err::<B, TakError>(TakError::InvalidNotation)
            } else {
                (r is Ok && r->Ok_0.wf() && r->Ok_0.size_view() == size && r->Ok_0.stacks() == st
                    && r->Ok_0.counts() == PieceCount::fresh(size))
                || (r == Err::<B, TakError>(TakError::OutOfCapacity)
                    && exists|i: int| 0 <= i < st.len() && !B::roomy(#[trigger] st[i].len()))
            },
        },
{
    let chars = chars_of(s);
    let ranks = split_chars(&chars, '/');
    let ghost model = split(s@, '/');
    let size = ranks.len();
    if !B::accepts(size) {
        return Err(TakError::InvalidNotation);
    }
    proof {
        B::lemma_accepts(size as nat);
    }
    let ghost n = size as nat;
    let mut rows: Vec<Vec<Vec<Piece>>> = Vec::new();
    let mut r: usize = 0;
    while r < size
        invariant
            size == ranks@.len() == model.len() == n,
            valid_size(n),
            model == split(s@, '/'),
            forall|i: int| 0 <= i < ranks@.len() ==> (#[trigger] ranks@[i])@ == model[i],
            r <= size,
            rows@.len() == r,
            forall|i: int| 0 <= i < r ==> (#[trigger] rank_of(model[i])) is Some
                && rank_of(model[i])->0.len() == n
                && stack_views(rows@[i]@) == rank_of(model[i])->0,
        decreases size - r,
    {
        match parse_rank(&ranks[r]) {
            Some(row) => {
                if row.len() != size {
                    assert(!(rank_of(model[r as int])->0.len() == n));
                    return Err(TakError::InvalidNotation);
                }
                rows.push(row);
            },
            None => {
                assert(rank_of(model[r as int]) is None);
                return Err(TakError::InvalidNotation);
            },
        }
        r = r + 1;
    }
    let ghost target = Seq::new(n * n, |i: int| rank_of(model[n - 1 - i / n as int])->0[i % n as int]);
    assert(board_text(s@) == Some((n, target)));
    let mut board = B::new(size);
    proof {
        board.lemma_wf();
    }
    let mut y: usize = 0;
    while y < size
        invariant
            size == n,
            valid_size(n),
            rows@.len() == n,
            forall|i: int| 0 <= i < n ==> (#[trigger] rank_of(model[i])) is Some
                && rank_of(model[i])->0.len() == n
                && stack_views(rows@[i]@) == rank_of(model[i])->0,
            target == Seq::new(n * n, |i: int| rank_of(model[n - 1 - i / n as int])->0[i % n as int]),
            board_text(s@) == Some((n, target)),
            B::accepts_size(n),
            model.len() == n,
            board.wf(),
            board.size_view() == n,
            board.counts() == PieceCount::fresh(n),
            y <= size,
            board.stacks() == Seq::new(n * n, |i: int| if i < y * n { target[i] } else { Seq::<Piece>::empty() }),
        decreases size - y,
    {
        let row = &rows[size - 1 - y];
        assert(rank_of(model[n - 1 - y]) is Some);
        assert(row@.len() == stack_views(rows@[n - 1 - y]@).len());
        let mut x: usize = 0;
        while x < size
            invariant
                size == n,
                valid_size(n),
                y < size,
                rows@.len() == n,
                *row == rows@[n - 1 - y],
                row@.len() == n,
                forall|i: int| 0 <= i < n ==> (#[trigger] rank_of(model[i])) is Some
                    && rank_of(model[i])->0.len() == n
                    && stack_views(rows@[i]@) == rank_of(model[i])->0,
                target == Seq::new(n * n, |i: int| rank_of(model[n - 1 - i / n as int])->0[i % n as int]),
                board_text(s@) == Some((n, target)),
                B::accepts_size(n),
                model.len() == n,
                board.wf(),
                board.size_view() == n,
                board.counts() == PieceCount::fresh(n),
                x <= size,
                board.stacks() == Seq::new(n * n, |i: int| if i < y * n + x { target[i] } else { Seq::<Piece>::empty() }),
            decreases size - x,
        {
            let p = Point { x, y };
            let ghost i = sq(p, n);
            proof {
                lemma_sq(p, p, n);
                vstd::arithmetic::div_mod::lemma_fundamental_div_mod_converse(i, n as int, y as int, x as int);
                assert(stack_views(rows@[n - 1 - y]@)[x as int] == row@[x as int]@);
                assert(target[i] == row@[x as int]@);
                lemma_rank_legal(split(model[n - 1 - y], ','), split(model[n - 1 - y], ',').len());
                assert(legal_stack(rank_of(model[n - 1 - y])->0[x as int]));
            }
            if row[x].len() > 0 {
                let ghost before = board;
                match board.set_stack(&p, &row[x]) {
                    Ok(()) => {},
                    Err(_) => {
                        proof {
                            if B::roomy(row@[x as int]@.len()) {
                                before.lemma_roomy(p, row@[x as int]@.len());
                            }
                            assert(!B::roomy(target[i].len()));
                            assert(0 <= i < target.len());
                            assert(exists|j: int| 0 <= j < target.len() && !B::roomy(#[trigger] target[j].len()));
                            assert(board_text(s@) == Some((n, target)));
                            assert(B::accepts_size(n));
                            let (sz, st) = board_text(s@)->0;
                            assert(st == target && sz == n);
                        }
                        return Err(TakError::OutOfCapacity);
                    },
                }
            }
            proof {
                assert(i == y * n + x);
                if row@[x as int]@.len() == 0 {
                    assert(row@[x as int]@ =~= Seq::<Piece>::empty());
                }
                assert(board.stacks() =~= Seq::new(n * n, |j: int| if j < y * n + x + 1 { target[j] } else { Seq::<Piece>::empty() }));
            }
            x = x + 1;
        }
        assert(y * n + n == (y + 1) * n) by (nonlinear_arith);
        y = y + 1;
    }
    assert(board.stacks() =~= target);
    Ok(board)
}

impl std::str::FromStr for crate::board_naive::NaiveBoard {
    type Err = TakError;

    fn from_str(s: &str) -> Result<crate::board_naive::NaiveBoard, TakError> {
        board_from_str(s)
    }
}

impl std::str::FromStr for crate::board5::Board5 {
    type Err = TakError;

    fn from_str(s: &str) -> Result<crate::board5::Board5, TakError> {
        board_from_str(s)
    }
}

} // verus!
