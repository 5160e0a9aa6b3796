use vstd::prelude::*;
use crate::board::{Board, PieceCount, lemma_sq, on_board, sq, stack_mover, valid_size};
use crate::piece::{Piece, Player, Stone};
use crate::point::Point;
use crate::slide::{lemma_sum_nonneg, sum};
use crate::turn::{Direction, Turn, TurnModel, adjust_spec, all_directions, turn_point};

verus! {

/// A way to share the carried pieces among the origin (slot 0) and the
/// squares of a slide (slots 1 on), filled slot by slot: slots up to
/// `last_index` past the origin hold at least one piece, the rest none.
#[derive(Clone, Debug)]
struct Drops {
    last_index: usize,
    contents: Vec<usize>,
}

/// A state of the enumeration that shares `t` pieces among `clear + 1` slots.
pub open spec fn valid_state(last: nat, c: Seq<usize>, clear: nat, t: nat) -> bool {
    &&& c.len() == clear + 1
    &&& last <= clear
    &&& forall|i: int| 1 <= i <= last ==> #[trigger] c[i] >= 1
    &&& forall|i: int| last < i <= clear ==> #[trigger] c[i] == 0
    &&& sum(c) == t
}

/// The drops of a slide that moves at most `carry` pieces onto at most
/// `clear` squares, with at least one piece on each.
pub open spec fn drops_fit(drops: Seq<usize>, clear: nat, carry: nat) -> bool {
    &&& 1 <= drops.len() <= clear
    &&& forall|i: int| 0 <= i < drops.len() ==> #[trigger] drops[i] >= 1
    &&& sum(drops) <= carry
}

pub open spec fn zeros(n: nat) -> Seq<usize> {
    Seq::new(n, |i: int| 0usize)
}

proof fn lemma_sum_single(x: usize)
    ensures
        sum(seq![x]) == x,
{
    reveal_with_fuel(sum, 2);
    assert(seq![x].drop_last() == Seq::<usize>::empty());
}

proof fn lemma_sum_update(c: Seq<usize>, i: int, v: usize)
    requires
        0 <= i < c.len(),
    ensures
        sum(c.update(i, v)) == sum(c) - c[i] + v,
    decreases c.len(),
{
    if i < c.len() - 1 {
        assert(c.update(i, v).drop_last() == c.drop_last().update(i, v));
        lemma_sum_update(c.drop_last(), i, v);
    } else {
        assert(c.update(i, v).drop_last() == c.drop_last());
    }
}

proof fn lemma_sum_concat(a: Seq<usize>, b: Seq<usize>)
    ensures
        sum(a + b) == sum(a) + sum(b),
    decreases b.len(),
{
    if b.len() > 0 {
        assert((a + b).drop_last() == a + b.drop_last());
        lemma_sum_concat(a, b.drop_last());
    } else {
        assert(a + b == a);
    }
}

proof fn lemma_sum_zeros(n: nat)
    ensures
        sum(zeros(n)) == 0,
    decreases n,
{
    if n > 0 {
        assert(zeros(n).drop_last() == zeros((n - 1) as nat));
        lemma_sum_zeros((n - 1) as nat);
    }
}

proof fn lemma_sum_ge_elem(c: Seq<usize>, i: int)
    requires
        0 <= i < c.len(),
    ensures
        c[i] <= sum(c),
        sum(c) >= 0,
    decreases c.len(),
{
    if i < c.len() - 1 {
        lemma_sum_ge_elem(c.drop_last(), i);
    } else {
        lemma_sum_nonneg(c.drop_last());
    }
}

/// A state whose slots past the origin are empty holds everything at the origin.
proof fn lemma_sum_first(c: Seq<usize>)
    requires
        c.len() >= 1,
        forall|i: int| 1 <= i < c.len() ==> #[trigger] c[i] == 0,
    ensures
        sum(c) == c[0],
    decreases c.len(),
{
    if c.len() > 1 {
        lemma_sum_first(c.drop_last());
    } else {
        assert(c == seq![c[0]]);
        lemma_sum_single(c[0]);
    }
}

/// The slide that a final state stands for: its drops are the slots past
/// the origin that hold pieces.
pub open spec fn drops_of_state(last: nat, c: Seq<usize>) -> Seq<usize> {
    c.subrange(1, last as int + 1)
}

/// The state that stands for the drops `d`.
pub open spec fn state_contents(d: Seq<usize>, clear: nat, carry: nat) -> Seq<usize> {
    seq![(carry - sum(d)) as usize] + d + zeros((clear - d.len()) as nat)
}

proof fn lemma_state_of_drops(d: Seq<usize>, clear: nat, carry: nat)
    requires
        drops_fit(d, clear, carry),
        carry <= usize::MAX,
    ensures
        valid_state(d.len(), state_contents(d, clear, carry), clear, carry),
        drops_of_state(d.len(), state_contents(d, clear, carry)) == d,
        state_contents(d, clear, carry)[0] < carry,
{
    let c = state_contents(d, clear, carry);
    lemma_sum_nonneg(d);
    lemma_sum_zeros((clear - d.len()) as nat);
    lemma_sum_concat(seq![(carry - sum(d)) as usize] + d, zeros((clear - d.len()) as nat));
    lemma_sum_concat(seq![(carry - sum(d)) as usize], d);
    lemma_sum_single((carry - sum(d)) as usize);
    assert(forall|i: int| 1 <= i <= d.len() ==> #[trigger] c[i] == d[i - 1]);
    assert(forall|i: int| d.len() < i <= clear ==> #[trigger] c[i] == 0);
    assert(drops_of_state(d.len(), c) =~= d);
    assert(d[0] >= 1);
    lemma_sum_ge_elem(d, 0);
}

proof fn lemma_drops_of_valid_state(last: nat, c: Seq<usize>, clear: nat, carry: nat)
    requires
        valid_state(last, c, clear, carry),
        c[0] < carry,
    ensures
        drops_fit(drops_of_state(last, c), clear, carry),
        state_contents(drops_of_state(last, c), clear, carry) == c,
        drops_of_state(last, c).len() == last,
{
    let d = drops_of_state(last, c);
    let z = zeros((clear - last) as nat);
    assert(c =~= seq![c[0]] + d + z);
    lemma_sum_concat(seq![c[0]] + d, z);
    lemma_sum_concat(seq![c[0]], d);
    lemma_sum_zeros((clear - last) as nat);
    lemma_sum_single(c[0]);
    if last == 0 {
        lemma_sum_first(c);
    }
    assert(forall|i: int| 0 <= i < d.len() ==> #[trigger] d[i] == c[i + 1]);
    assert(state_contents(d, clear, carry) =~= c);
}

} // verus!

verus! {

spec fn sv(d: Drops) -> (nat, Seq<usize>) {
    (d.last_index as nat, d.contents@)
}

pub open spec fn succ_last(s: (nat, Seq<usize>)) -> (nat, Seq<usize>) {
    (s.0, s.1.update(s.0 as int, (s.1[s.0 as int] + 1) as usize))
}

pub open spec fn succ_len(s: (nat, Seq<usize>)) -> (nat, Seq<usize>) {
    (s.0 + 1, s.1.update(s.0 as int + 1, 1usize))
}

/// The state that a state of the next round was reached from.
pub open spec fn pred(s: (nat, Seq<usize>)) -> (nat, Seq<usize>) {
    if s.0 >= 1 && s.1[s.0 as int] == 1 {
        ((s.0 - 1) as nat, s.1.update(s.0 as int, 0usize))
    } else {
        (s.0, s.1.update(s.0 as int, (s.1[s.0 as int] - 1) as usize))
    }
}

proof fn lemma_succ_valid(s: (nat, Seq<usize>), clear: nat, t: nat)
    requires
        valid_state(s.0, s.1, clear, t),
        t < 8,
    ensures
        valid_state(succ_last(s).0, succ_last(s).1, clear, t + 1),
        s.0 < clear ==> valid_state(succ_len(s).0, succ_len(s).1, clear, t + 1),
{
    lemma_sum_ge_elem(s.1, s.0 as int);
    lemma_sum_update(s.1, s.0 as int, (s.1[s.0 as int] + 1) as usize);
    if s.0 < clear {
        lemma_sum_update(s.1, s.0 as int + 1, 1usize);
    }
}

proof fn lemma_pred(s: (nat, Seq<usize>), clear: nat, t: nat)
    requires
        valid_state(s.0, s.1, clear, t + 1),
    ensures
        valid_state(pred(s).0, pred(s).1, clear, t),
        pred(s).0 < clear && succ_len(pred(s)) == s || succ_last(pred(s)) == s,
{
    let (last, c) = s;
    if last == 0 {
        lemma_sum_first(c);
    }
    assert(c[last as int] >= 1);
    if last >= 1 && c[last as int] == 1 {
        lemma_sum_update(c, last as int, 0usize);
        assert(succ_len(pred(s)).1 =~= c);
    } else {
        lemma_sum_update(c, last as int, (c[last as int] - 1) as usize);
        assert(succ_last(pred(s)).1 =~= c);
    }
}

fn same_state(a: &Drops, b: &Drops) -> (r: bool)
    ensures
        r == (sv(*a) == sv(*b)),
{
    if a.last_index != b.last_index || a.contents.len() != b.contents.len() {
        return false;
    }
    let mut i: usize = 0;
    while i < a.contents.len()
        invariant
            i <= a.contents@.len() == b.contents@.len(),
            forall|j: int| 0 <= j < i ==> a.contents@[j] == b.contents@[j],
        decreases a.contents@.len() - i,
    {
        if a.contents[i] != b.contents[i] {
            return false;
        }
        i = i + 1;
    }
    assert(a.contents@ =~= b.contents@);
    true
}

fn contains_state(v: &Vec<Drops>, a: &Drops) -> (r: bool)
    ensures
        r == exists|i: int| 0 <= i < v@.len() && #[trigger] sv(v@[i]) == sv(*a),
{
    let mut i: usize = 0;
    while i < v.len()
        invariant
            i <= v@.len(),
            forall|j: int| 0 <= j < i ==> #[trigger] sv(v@[j]) != sv(*a),
        decreases v@.len() - i,
    {
        if same_state(&v[i], a) {
            return true;
        }
        i = i + 1;
    }
    false
}

fn copy_contents(v: &Vec<usize>) -> (r: Vec<usize>)
    ensures
        r@ == v@,
{
    let mut r: Vec<usize> = Vec::new();
    let mut i: usize = 0;
    while i < v.len()
        invariant
            i <= v@.len(),
            r@ == v@.subrange(0, i as int),
        decreases v@.len() - i,
    {
        r.push(v[i]);
        i = i + 1;
    }
    assert(v@.subrange(0, v@.len() as int) == v@);
    r
}

/// One more piece in the last filled slot.
fn add_to_last(v: &Drops) -> (r: Drops)
    requires
        v.last_index < v.contents@.len(),
        v.contents@[v.last_index as int] < usize::MAX,
    ensures
        sv(r) == succ_last(sv(*v)),
{
    let mut contents = copy_contents(&v.contents);
    let x = contents[v.last_index] + 1;
    contents.set(v.last_index, x);
    Drops { last_index: v.last_index, contents }
}

/// One piece in the next slot, if there is one.
fn add_to_length(v: &Drops) -> (r: Option<Drops>)
    requires
        v.last_index < v.contents@.len(),
    ensures
        v.last_index + 1 < v.contents@.len() ==> r == Some(r->0) && sv(r->0) == succ_len(sv(*v)),
        v.last_index + 1 >= v.contents@.len() ==> r is None,
{
    if v.last_index < v.contents.len() - 1 {
        let mut contents = copy_contents(&v.contents);
        contents.set(v.last_index + 1, 1);
        Some(Drops { last_index: v.last_index + 1, contents })
    } else {
        None
    }
}

spec fn frontier_inv(f: Seq<Drops>, clear: nat, t: nat) -> bool {
    &&& forall|i: int| 0 <= i < f.len() ==> valid_state(#[trigger] sv(f[i]).0, sv(f[i]).1, clear, t)
    &&& forall|i: int, j: int| 0 <= i < j < f.len() ==> #[trigger] sv(f[i]) != #[trigger] sv(f[j])
    &&& forall|last: nat, c: Seq<usize>| #[trigger] valid_state(last, c, clear, t)
        ==> exists|i: int| 0 <= i < f.len() && #[trigger] sv(f[i]) == (last, c)
}

fn push_new(next: &mut Vec<Drops>, d: Drops)
    ensures
        final(next)@ == old(next)@ || final(next)@ == old(next)@.push(d),
        exists|i: int| 0 <= i < final(next)@.len() && #[trigger] sv(final(next)@[i]) == sv(d),
        (forall|i: int, j: int| 0 <= i < j < old(next)@.len() ==> #[trigger] sv(old(next)@[i]) != #[trigger] sv(old(next)@[j]))
            ==> (forall|i: int, j: int| 0 <= i < j < final(next)@.len() ==> #[trigger] sv(final(next)@[i]) != #[trigger] sv(final(next)@[j])),
{
    if !contains_state(next, &d) {
        next.push(d);
        assert(sv(next@[next@.len() - 1]) == sv(d));
    }
}

impl Ai {
    /// Every way to share `carry` pieces among the origin and up to `clear`
    /// squares, filling the squares in order: each state once.
    fn bounded_slide(&self, carry: usize, clear: usize) -> (r: Vec<Drops>)
        requires
            carry <= 8,
            clear < 8,
        ensures
            frontier_inv(r@, clear as nat, carry as nat),
    {
        let mut zero: Vec<usize> = Vec::new();
        let mut i: usize = 0;
        while i <= clear
            invariant
                i <= clear + 1,
                clear < 8,
                zero@ == zeros(i as nat),
            decreases clear + 1 - i,
        {
            zero.push(0);
            i = i + 1;
            assert(zero@ =~= zeros(i as nat));
        }
        let mut evolving: Vec<Drops> = Vec::new();
        evolving.push(Drops { last_index: 0, contents: zero });
        proof {
            lemma_sum_zeros((clear + 1) as nat);
            assert forall|last: nat, c: Seq<usize>| #[trigger] valid_state(last, c, clear as nat, 0)
                implies exists|i: int| 0 <= i < evolving@.len() && #[trigger] sv(evolving@[i]) == (last, c) by {
                if last >= 1 {
                    lemma_sum_ge_elem(c, 1);
                }
                assert forall|i: int| 0 <= i < c.len() implies c[i] == 0 by {
                    lemma_sum_ge_elem(c, i);
                }
                assert(c =~= zeros((clear + 1) as nat));
                assert(sv(evolving@[0]) == (last, c));
            }
        }
        let mut t: usize = 0;
        while t < carry
            invariant
                t <= carry <= 8,
                clear < 8,
                frontier_inv(evolving@, clear as nat, t as nat),
            decreases carry - t,
        {
            let mut next: Vec<Drops> = Vec::new();
            let mut j: usize = 0;
            while j < evolving.len()
                invariant
                    t < carry <= 8,
                    clear < 8,
                    j <= evolving@.len(),
                    frontier_inv(evolving@, clear as nat, t as nat),
                    forall|i: int| 0 <= i < next@.len() ==> valid_state(#[trigger] sv(next@[i]).0, sv(next@[i]).1, clear as nat, (t + 1) as nat),
                    forall|a: int, b: int| 0 <= a < b < next@.len() ==> #[trigger] sv(next@[a]) != #[trigger] sv(next@[b]),
                    forall|k: int| 0 <= k < j ==> exists|i: int| 0 <= i < next@.len() && #[trigger] sv(next@[i]) == succ_last(#[trigger] sv(evolving@[k])),
                    forall|k: int| 0 <= k < j && sv(evolving@[k]).0 < clear ==> exists|i: int| 0 <= i < next@.len() && #[trigger] sv(next@[i]) == succ_len(#[trigger] sv(evolving@[k])),
                decreases evolving@.len() - j,
            {
                let ghost s = sv(evolving@[j as int]);
                proof {
                    lemma_succ_valid(s, clear as nat, t as nat);
                    lemma_sum_ge_elem(s.1, s.0 as int);
                }
                let ghost n0 = next@;
                let a = add_to_last(&evolving[j]);
                push_new(&mut next, a);
                let ghost n1 = next@;
                proof {
                    assert forall|k: int| 0 <= k < j implies exists|i: int| 0 <= i < next@.len() && #[trigger] sv(next@[i]) == succ_last(#[trigger] sv(evolving@[k])) by {
                        let i = choose|i: int| 0 <= i < n0.len() && #[trigger] sv(n0[i]) == succ_last(sv(evolving@[k]));
                        assert(sv(next@[i]) == sv(n0[i]));
                    }
                }
                match add_to_length(&evolving[j]) {
                    Some(b) => {
                        push_new(&mut next, b);
                    },
                    None => {},
                }
                proof {
                    assert forall|k: int| 0 <= k < j + 1 implies exists|i: int| 0 <= i < next@.len() && #[trigger] sv(next@[i]) == succ_last(#[trigger] sv(evolving@[k])) by {
                        let i = choose|i: int| 0 <= i < n1.len() && #[trigger] sv(n1[i]) == succ_last(sv(evolving@[k]));
                        assert(sv(next@[i]) == sv(n1[i]));
                    }
                    assert forall|k: int| 0 <= k < j + 1 && sv(evolving@[k]).0 < clear implies exists|i: int| 0 <= i < next@.len() && #[trigger] sv(next@[i]) == succ_len(#[trigger] sv(evolving@[k])) by {
                        if k < j {
                            let i = choose|i: int| 0 <= i < n0.len() && #[trigger] sv(n0[i]) == succ_len(sv(evolving@[k]));
                            assert(sv(next@[i]) == sv(n0[i]));
                        }
                    }
                }
                j = j + 1;
            }
            proof {
                assert forall|last: nat, c: Seq<usize>| #[trigger] valid_state(last, c, clear as nat, (t + 1) as nat)
                    implies exists|i: int| 0 <= i < next@.len() && #[trigger] sv(next@[i]) == (last, c) by {
                    lemma_pred((last, c), clear as nat, t as nat);
                    let p = pred((last, c));
                    assert(valid_state(p.0, p.1, clear as nat, t as nat));
                    let k = choose|k: int| 0 <= k < evolving@.len() && #[trigger] sv(evolving@[k]) == p;
                    assert(sv(evolving@[k]) == p);
                }
            }
            assert(forall|i: int| 0 <= i < next@.len() ==> valid_state(#[trigger] sv(next@[i]).0, sv(next@[i]).1, clear as nat, (t + 1) as nat));
            assert(forall|i: int, j: int| 0 <= i < j < next@.len() ==> #[trigger] sv(next@[i]) != #[trigger] sv(next@[j]));
            assert(frontier_inv(next@, clear as nat, (t + 1) as nat));
            evolving = next;
            t = t + 1;
        }
        evolving
    }
}

/// A player's view of the moves available to them.
pub struct Ai {
    player: Player,
}

} // verus!

verus! {

/// A slide may pass over `q`: it is empty or topped by a flat stone.
pub open spec fn open_square(stacks: Seq<Seq<Piece>>, size: nat, q: Point) -> bool {
    stacks[sq(q, size)].len() == 0 || stacks[sq(q, size)].last().stone == Stone::Flat
}

/// The first `k` squares from `p` towards `dir` are on the board and open.
pub open spec fn clear_for(stacks: Seq<Seq<Piece>>, size: nat, p: Point, dir: Direction, k: nat) -> bool {
    forall|i: int| 1 <= i <= k ==> (#[trigger] adjust_spec(dir, p, i, size as int)) is Some
        && open_square(stacks, size, adjust_spec(dir, p, i, size as int)->Some_0)
}

/// The most pieces a slide from a stack of `height` may carry.
pub open spec fn carry_of(height: nat, size: nat) -> nat {
    if height < size { height } else { size }
}

/// The moves the generator offers `player`: a placement of each kind of
/// stone the player still has on each empty square, and every slide of
/// the player's stacks that carries at most the carry limit, drops at
/// least one piece on each square it passes, and passes only empty or
/// flat-topped squares.
pub open spec fn generated(stacks: Seq<Seq<Piece>>, size: nat, counts: PieceCount, player: Player, m: TurnModel) -> bool {
    match m {
        TurnModel::Place { point, stone } => {
            &&& on_board(point, size)
            &&& stacks[sq(point, size)].len() == 0
            &&& if stone == Stone::Capstone {
                !counts.spec_used_up(Piece { stone: Stone::Capstone, owner: player })
            } else {
                !counts.spec_used_up(Piece { stone: Stone::Flat, owner: player })
            }
        },
        TurnModel::Slide { num_pieces, point, direction, drops } => {
            &&& on_board(point, size)
            &&& stack_mover(stacks[sq(point, size)]) == Some(player)
            &&& clear_for(stacks, size, point, direction, drops.len())
            &&& drops_fit(drops, drops.len(), carry_of(stacks[sq(point, size)].len(), size))
            &&& num_pieces == sum(drops)
        },
    }
}

pub open spec fn views(v: Seq<Turn>) -> Seq<TurnModel> {
    v.map_values(|t: Turn| t@)
}

pub open spec fn distinct(s: Seq<TurnModel>) -> bool {
    forall|i: int, j: int| 0 <= i < j < s.len() ==> s[i] != s[j]
}

pub open spec fn is_slide_from(m: TurnModel, p: Point, dir: Direction) -> bool {
    m is Slide && m->Slide_point == p && m->Slide_direction == dir
}

proof fn lemma_clear_prefix(stacks: Seq<Seq<Piece>>, size: nat, p: Point, dir: Direction, k: nat, m: nat)
    requires
        clear_for(stacks, size, p, dir, m),
        k <= m,
    ensures
        clear_for(stacks, size, p, dir, k),
{
}

fn copy_drops(c: &Vec<usize>, last: usize) -> (r: Vec<usize>)
    requires
        last < c@.len(),
    ensures
        r@ == drops_of_state(last as nat, c@),
{
    let mut r: Vec<usize> = Vec::new();
    let mut j: usize = 0;
    while j < last
        invariant
            j <= last < c@.len(),
            r@ == c@.subrange(1, j as int + 1),
        decreases last - j,
    {
        r.push(c[j + 1]);
        j = j + 1;
    }
    r
}

impl Ai {
    /// The player whose moves this generator offers.
    pub closed spec fn plays_for(&self) -> Player {
        self.player
    }

    pub fn new(player: Player) -> (r: Ai)
        ensures
            r.plays_for() == player,
    {
        Ai { player }
    }

    /// The opening move: the first free corner of the first file on the
    /// first two turns, the corner `a1` afterwards.
    pub fn next_move<B: Board>(&self, turn: usize, board: &B) -> (r: Turn)
        requires
            board.wf(),
        ensures
            r@ == suggested(board.stacks(), board.size_view(), turn as nat),
    {
        proof {
            board.lemma_wf();
        }
        if turn < 2 {
            let corner = board.at(&Point::new(0, 0)).unwrap();
            if corner.count() == 0 {
                Turn::Place { point: Point::new(0, 0), stone: Stone::Flat }
            } else {
                Turn::Place { point: Point::new(0, board.size() - 1), stone: Stone::Flat }
            }
        } else {
            Turn::Place { point: Point::new(0, 0), stone: Stone::Flat }
        }
    }

    /// Every move `player` may make on `board`, each once.
    pub fn possible_moves<B: Board>(&self, board: &B) -> (r: Vec<Turn>)
        requires
            board.wf(),
        ensures
            distinct(views(r@)),
            forall|m: TurnModel| views(r@).contains(m)
                <==> generated(board.stacks(), board.size_view(), board.counts(), self.plays_for(), m),
            all_empty(board.stacks()) ==> r@.len()
                == board.size_view() * board.size_view() * place_count(board.counts(), self.plays_for()),
    {
        proof {
            board.lemma_wf();
        }
        let ghost stacks = board.stacks();
        let ghost n = board.size_view();
        let size = board.size();
        let mut moves: Vec<Turn> = Vec::new();
        let mut x: usize = 0;
        assert((0 * n) * place_count(board.counts(), self.player) == 0) by (nonlinear_arith);
        while x < size
            invariant
                board.wf(),
                stacks == board.stacks(),
                n == board.size_view(),
                size == n,
                valid_size(n),
                x <= size,
                stacks.len() == n * n,
                distinct(views(moves@)),
                forall|m: TurnModel| views(moves@).contains(m)
                    <==> generated(stacks, n, board.counts(), self.player, m) && turn_point(m).x < x,
                all_empty(stacks) ==> moves@.len() == (x * n) * place_count(board.counts(), self.player),
            decreases size - x,
        {
            let mut y: usize = 0;
            while y < size
                invariant
                    board.wf(),
                    stacks == board.stacks(),
                    n == board.size_view(),
                    size == n,
                    valid_size(n),
                    x < size,
                    y <= size,
                    stacks.len() == n * n,
                    all_empty(stacks) ==> moves@.len() == (x * n + y) * place_count(board.counts(), self.player),
                    distinct(views(moves@)),
                    forall|m: TurnModel| views(moves@).contains(m)
                        <==> generated(stacks, n, board.counts(), self.player, m)
                            && (turn_point(m).x < x || (turn_point(m).x == x && turn_point(m).y < y)),
                decreases size - y,
            {
                let point = Point::new(x, y);
                proof {
                    lemma_sq(point, point, n);
                }
                let square = board.at(&point).unwrap();
                assert(square.rest() == square.pieces@);
                let ghost before = moves@;
                let empty = square.count() == 0;
                let mine = square.mover() == Some(self.player);
                if empty {
                    self.possible_moves_place(board, point, &mut moves);
                } else if mine {
                    self.possible_moves_slide(board, point, &mut moves);
                }
                proof {
                    let a = views(before);
                    let b = views(moves@);
                    if empty || mine {
                        assert forall|i: int, j: int| 0 <= i < a.len() && a.len() <= j < b.len() implies a[i] != b[j] by {
                            assert(a.contains(a[i]));
                            let seg = b.subrange(a.len() as int, b.len() as int);
                            assert(seg[j - a.len()] == b[j]);
                            assert(seg.contains(b[j]));
                        }
                        lemma_append(a, b);
                    } else {
                        assert(b == a);
                    }
                    assert forall|m: TurnModel| b.contains(m)
                        <==> generated(stacks, n, board.counts(), self.player, m)
                            && (turn_point(m).x < x || (turn_point(m).x == x && turn_point(m).y < y + 1)) by {
                        if generated(stacks, n, board.counts(), self.player, m) && turn_point(m) == point {
                            if empty || mine {
                                let seg = b.subrange(a.len() as int, b.len() as int);
                                assert(seg.contains(m));
                            }
                        }
                    }
                }
                proof {
                    if all_empty(stacks) {
                        let pc = place_count(board.counts(), self.player);
                        assert(stacks[sq(point, n)].len() == 0);
                        assert((x * n + y) * pc + pc == (x * n + y + 1) * pc) by (nonlinear_arith);
                    }
                }
                y = y + 1;
            }
            proof {
                let pc = place_count(board.counts(), self.player);
                assert((x * n + n) * pc == ((x + 1) * n) * pc) by (nonlinear_arith);
            }
            x = x + 1;
        }
        moves
    }

    /// The placements on the empty square `point`, appended to `moves`.
    fn possible_moves_place<B: Board>(&self, board: &B, point: Point, moves: &mut Vec<Turn>)
        requires
            board.wf(),
            on_board(point, board.size_view()),
            board.stacks()[sq(point, board.size_view())].len() == 0,
        ensures
            views(final(moves)@).subrange(0, old(moves)@.len() as int) == views(old(moves)@),
            final(moves)@.len() >= old(moves)@.len(),
            distinct(views(final(moves)@).subrange(old(moves)@.len() as int, final(moves)@.len() as int)),
            forall|m: TurnModel| views(final(moves)@).subrange(old(moves)@.len() as int, final(moves)@.len() as int).contains(m)
                <==> m is Place && turn_point(m) == point
                    && generated(board.stacks(), board.size_view(), board.counts(), self.player, m),
            final(moves)@.len() == old(moves)@.len() + place_count(board.counts(), self.player),
    {
        let ghost start = moves@;
        let count = board.count();
        let flat = !count.used_up(&Piece::new(Stone::Flat, self.player));
        let cap = !count.used_up(&Piece::new(Stone::Capstone, self.player));
        if flat {
            moves.push(Turn::Place { point, stone: Stone::Flat });
            moves.push(Turn::Place { point, stone: Stone::Standing });
        }
        if cap {
            moves.push(Turn::Place { point, stone: Stone::Capstone });
        }
        proof {
            let seg = views(moves@).subrange(start.len() as int, moves@.len() as int);
            let f = TurnModel::Place { point, stone: Stone::Flat };
            let st = TurnModel::Place { point, stone: Stone::Standing };
            let c = TurnModel::Place { point, stone: Stone::Capstone };
            assert(views(moves@).subrange(0, start.len() as int) == views(start));
            if flat && cap {
                assert(seg == seq![f, st, c]);
            } else if flat {
                assert(seg == seq![f, st]);
            } else if cap {
                assert(seg == seq![c]);
            } else {
                assert(seg == Seq::<TurnModel>::empty());
            }
            assert forall|m: TurnModel| seg.contains(m) <==> m is Place && turn_point(m) == point
                && generated(board.stacks(), board.size_view(), board.counts(), self.player, m) by {
                if m is Place && turn_point(m) == point
                    && generated(board.stacks(), board.size_view(), board.counts(), self.player, m) {
                    if m->Place_stone == Stone::Flat {
                        assert(m == f);
                        assert(seg[0] == f);
                    } else if m->Place_stone == Stone::Standing {
                        assert(m == st);
                        assert(seg[1] == st);
                    } else {
                        assert(m == c);
                        assert(seg[seg.len() - 1] == c);
                    }
                }
            }
        }
    }

    /// Every slide of the stack at `point`, appended to `moves`.
    fn possible_moves_slide<B: Board>(&self, board: &B, point: Point, moves: &mut Vec<Turn>)
        requires
            board.wf(),
            on_board(point, board.size_view()),
            stack_mover(board.stacks()[sq(point, board.size_view())]) == Some(self.player),
        ensures
            views(final(moves)@).subrange(0, old(moves)@.len() as int) == views(old(moves)@),
            final(moves)@.len() >= old(moves)@.len(),
            distinct(views(final(moves)@).subrange(old(moves)@.len() as int, final(moves)@.len() as int)),
            forall|m: TurnModel| views(final(moves)@).subrange(old(moves)@.len() as int, final(moves)@.len() as int).contains(m)
                <==> m is Slide && turn_point(m) == point
                    && generated(board.stacks(), board.size_view(), board.counts(), self.player, m),
    {
        let ghost start = moves@;
        let dirs = Direction::all();
        let mut d: usize = 0;
        while d < 4
            invariant
                board.wf(),
                on_board(point, board.size_view()),
                stack_mover(board.stacks()[sq(point, board.size_view())]) == Some(self.player),
                dirs@ == all_directions(),
                d <= 4,
                moves@.len() >= start.len(),
                views(moves@).subrange(0, start.len() as int) == views(start),
                distinct(views(moves@).subrange(start.len() as int, moves@.len() as int)),
                forall|m: TurnModel| views(moves@).subrange(start.len() as int, moves@.len() as int).contains(m)
                    <==> exists|k: int| 0 <= k < d && #[trigger] is_slide_from(m, point, dirs@[k])
                        && generated(board.stacks(), board.size_view(), board.counts(), self.player, m),
            decreases 4 - d,
        {
            let ghost before = moves@;
            self.slides_towards(board, point, dirs[d], moves);
            proof {
                let a = views(before).subrange(start.len() as int, before.len() as int);
                let b = views(moves@).subrange(start.len() as int, moves@.len() as int);
                assert(b.subrange(0, a.len() as int) == a) by {
                    assert(views(moves@).subrange(0, before.len() as int) == views(before));
                }
                assert(b.subrange(a.len() as int, b.len() as int)
                    == views(moves@).subrange(before.len() as int, moves@.len() as int));
                let seg2 = views(moves@).subrange(before.len() as int, moves@.len() as int);
                assert forall|i: int, j: int| 0 <= i < a.len() && a.len() <= j < b.len() implies a[i] != b[j] by {
                    assert(a.contains(a[i]));
                    let k = choose|k: int| 0 <= k < d && #[trigger] is_slide_from(a[i], point, dirs@[k])
                        && generated(board.stacks(), board.size_view(), board.counts(), self.player, a[i]);
                    assert(seg2[j - a.len()] == b[j]);
                    assert(seg2.contains(b[j]));
                    assert(is_slide_from(b[j], point, dirs@[d as int]));
                    assert(dirs@[k] != dirs@[d as int]);
                }
                lemma_append(a, b);
                assert(views(moves@).subrange(0, start.len() as int) == views(start)) by {
                    assert(views(moves@).subrange(0, start.len() as int)
                        == views(moves@).subrange(0, before.len() as int).subrange(0, start.len() as int));
                }
                assert forall|m: TurnModel| b.contains(m)
                    <==> exists|k: int| 0 <= k < d + 1 && #[trigger] is_slide_from(m, point, dirs@[k])
                        && generated(board.stacks(), board.size_view(), board.counts(), self.player, m) by {
                    if exists|k: int| 0 <= k < d + 1 && #[trigger] is_slide_from(m, point, dirs@[k])
                        && generated(board.stacks(), board.size_view(), board.counts(), self.player, m) {
                        let k = choose|k: int| 0 <= k < d + 1 && #[trigger] is_slide_from(m, point, dirs@[k])
                            && generated(board.stacks(), board.size_view(), board.counts(), self.player, m);
                        if k < d {
                            assert(a.contains(m));
                        } else {
                            assert(seg2.contains(m));
                        }
                    }
                    if b.contains(m) {
                        if !a.contains(m) {
                            assert(seg2.contains(m));
                            assert(is_slide_from(m, point, dirs@[d as int]));
                        }
                    }
                }
            }
            d = d + 1;
        }
        proof {
            let seg = views(moves@).subrange(start.len() as int, moves@.len() as int);
            assert forall|m: TurnModel| m is Slide && turn_point(m) == point
                && generated(board.stacks(), board.size_view(), board.counts(), self.player, m) implies seg.contains(m) by {
                let dir = m->Slide_direction;
                let k: int = if dir == Direction::Right { 0 } else if dir == Direction::Left { 1 }
                    else if dir == Direction::Down { 2 } else { 3 };
                assert(is_slide_from(m, point, dirs@[k]));
            }
        }
    }

    /// The slides from `point` towards `dir`, appended to `moves`.
    fn slides_towards<B: Board>(&self, board: &B, point: Point, dir: Direction, moves: &mut Vec<Turn>)
        requires
            board.wf(),
            on_board(point, board.size_view()),
            stack_mover(board.stacks()[sq(point, board.size_view())]) == Some(self.player),
        ensures
            views(final(moves)@).subrange(0, old(moves)@.len() as int) == views(old(moves)@),
            final(moves)@.len() >= old(moves)@.len(),
            distinct(views(final(moves)@).subrange(old(moves)@.len() as int, final(moves)@.len() as int)),
            forall|m: TurnModel| views(final(moves)@).subrange(old(moves)@.len() as int, final(moves)@.len() as int).contains(m)
                <==> is_slide_from(m, point, dir) && generated(board.stacks(), board.size_view(), board.counts(), self.player, m),
    {
        proof {
            board.lemma_wf();
            lemma_sq(point, point, board.size_view());
        }
        let ghost stacks = board.stacks();
        let ghost n = board.size_view();
        let size = board.size();
        let height = board.at(&point).unwrap().pieces.len();
        let carry = if height < size { height } else { size };
        let mut clear: usize = 0;
        loop
            invariant
                board.wf(),
                stacks == board.stacks(),
                n == board.size_view(),
                size == n,
                valid_size(n),
                on_board(point, n),
                clear < size,
                clear_for(stacks, n, point, dir, clear as nat),
            ensures
                clear < size,
                clear_for(stacks, n, point, dir, clear as nat),
                !clear_for(stacks, n, point, dir, (clear + 1) as nat),
            decreases size - clear,
        {
            match dir.adjust(&point, clear + 1, size) {
                Some(q) => {
                    proof {
                        crate::slide::lemma_adjust_shorter(dir, point, clear as int + 1, clear as int + 1, n);
                        lemma_sq(q, q, n);
                    }
                    let it = board.at(&q).unwrap();
                    match it.last() {
                        Some(top) => {
                            if top.stone != Stone::Flat {
                                assert(it.rest() == it.pieces@);
                                break;
                            }
                        },
                        None => {},
                    }
                    assert(it.rest() == it.pieces@);
                    assert(open_square(stacks, n, q));
                    proof {
                        assert forall|i: int| 1 <= i <= clear + 1 implies (#[trigger] adjust_spec(dir, point, i, n as int)) is Some
                            && open_square(stacks, n, adjust_spec(dir, point, i, n as int)->Some_0) by {
                            if i <= clear {
                            }
                        }
                    }
                    if clear + 1 >= size {
                        assert(false) by {
                            assert(adjust_spec(dir, point, clear as int + 1, n as int) is Some);
                        }
                    }
                    clear = clear + 1;
                },
                None => {
                    break;
                },
            }
        }
        let ghost start = moves@;
        if clear == 0 {
            proof {
                assert(views(moves@).subrange(0, start.len() as int) == views(start));
                assert forall|m: TurnModel| is_slide_from(m, point, dir) && generated(stacks, n, board.counts(), self.player, m)
                    implies false by {
                    let d = m->Slide_drops;
                    lemma_clear_prefix(stacks, n, point, dir, 1, d.len());
                }
            }
            return;
        }
        let states = self.bounded_slide(carry, clear);
        let mut k: usize = 0;
        while k < states.len()
            invariant
                board.wf(),
                stacks == board.stacks(),
                n == board.size_view(),
                size == n,
                valid_size(n),
                on_board(point, n),
                0 < clear < size,
                carry == carry_of(stacks[sq(point, n)].len(), n),
                carry <= 8,
                clear_for(stacks, n, point, dir, clear as nat),
                !clear_for(stacks, n, point, dir, (clear + 1) as nat),
                stack_mover(stacks[sq(point, n)]) == Some(self.player),
                frontier_inv(states@, clear as nat, carry as nat),
                k <= states@.len(),
                moves@.len() >= start.len(),
                views(moves@).subrange(0, start.len() as int) == views(start),
                distinct(views(moves@).subrange(start.len() as int, moves@.len() as int)),
                forall|m: TurnModel| views(moves@).subrange(start.len() as int, moves@.len() as int).contains(m)
                    <==> exists|i: int| 0 <= i < k && sv(states@[i]).1[0] < carry
                        && m == #[trigger] slide_of(point, dir, carry as nat, sv(states@[i])),
            decreases states@.len() - k,
        {
            let s = &states[k];
            if s.contents[0] < carry {
                let drops = copy_drops(&s.contents, s.last_index);
                proof {
                    lemma_drops_of_valid_state(sv(*s).0, sv(*s).1, clear as nat, carry as nat);
                    lemma_state_of_drops(drops@, clear as nat, carry as nat);
                }
                let t = Turn::Slide { num_pieces: carry - s.contents[0], point, direction: dir, drops };
                assert(t@ == slide_of(point, dir, carry as nat, sv(states@[k as int])));
                let ghost before = moves@;
                moves.push(t);
                proof {
                    assert(views(moves@) == views(before).push(t@));
                    assert(views(moves@).subrange(0, start.len() as int) == views(start));
                    let seg0 = views(before).subrange(start.len() as int, before.len() as int);
                    let seg = views(moves@).subrange(start.len() as int, moves@.len() as int);
                    assert(seg == seg0.push(t@));
                    assert forall|i: int| 0 <= i < seg0.len() implies seg0[i] != t@ by {
                        assert(seg0.contains(seg0[i]));
                        let i2 = choose|i2: int| 0 <= i2 < k && sv(states@[i2]).1[0] < carry
                            && seg0[i] == #[trigger] slide_of(point, dir, carry as nat, sv(states@[i2]));
                        lemma_slide_of_injective(point, dir, clear as nat, carry as nat, sv(states@[i2]), sv(states@[k as int]));
                    }
                    assert forall|m: TurnModel| seg.contains(m)
                        <==> exists|i: int| 0 <= i < k + 1 && sv(states@[i]).1[0] < carry
                            && m == #[trigger] slide_of(point, dir, carry as nat, sv(states@[i])) by {
                        if seg.contains(m) && m != t@ {
                            let j = choose|j: int| 0 <= j < seg.len() && seg[j] == m;
                            assert(seg0.contains(m)) by {
                                assert(seg0[j] == m);
                            }
                        }
                        if exists|i: int| 0 <= i < k + 1 && sv(states@[i]).1[0] < carry
                            && m == #[trigger] slide_of(point, dir, carry as nat, sv(states@[i])) {
                            let i = choose|i: int| 0 <= i < k + 1 && sv(states@[i]).1[0] < carry
                                && m == #[trigger] slide_of(point, dir, carry as nat, sv(states@[i]));
                            if i < k {
                                assert(seg0.contains(m));
                                let j = choose|j: int| 0 <= j < seg0.len() && seg0[j] == m;
                                assert(seg[j] == m);
                            } else {
                                assert(seg[seg.len() - 1] == m);
                            }
                        }
                    }
                }
            }
            k = k + 1;
        }
        proof {
            let seg = views(moves@).subrange(start.len() as int, moves@.len() as int);
            assert forall|m: TurnModel| seg.contains(m)
                implies is_slide_from(m, point, dir) && generated(stacks, n, board.counts(), self.player, m) by {
                let i = choose|i: int| 0 <= i < states@.len() && sv(states@[i]).1[0] < carry
                    && m == #[trigger] slide_of(point, dir, carry as nat, sv(states@[i]));
                let st = sv(states@[i]);
                assert(valid_state(st.0, st.1, clear as nat, carry as nat));
                lemma_drops_of_valid_state(st.0, st.1, clear as nat, carry as nat);
                let d = drops_of_state(st.0, st.1);
                lemma_state_of_drops(d, clear as nat, carry as nat);
                lemma_clear_prefix(stacks, n, point, dir, st.0, clear as nat);
                lemma_sum_nonneg(d);
                assert(state_contents(d, clear as nat, carry as nat)[0] == (carry - sum(d)) as usize);
                assert(st.1[0] == carry - sum(d));
                assert(m->Slide_num_pieces == sum(d));
                assert(drops_fit(d, d.len(), carry as nat));
            }
            assert forall|m: TurnModel| is_slide_from(m, point, dir) && generated(stacks, n, board.counts(), self.player, m)
                implies seg.contains(m) by {
                let d = m->Slide_drops;
                if d.len() > clear {
                    lemma_clear_prefix(stacks, n, point, dir, (clear + 1) as nat, d.len());
                }
                assert(drops_fit(d, clear as nat, carry as nat));
                lemma_state_of_drops(d, clear as nat, carry as nat);
                let st = (d.len(), state_contents(d, clear as nat, carry as nat));
                assert(valid_state(st.0, st.1, clear as nat, carry as nat));
                let i = choose|i: int| 0 <= i < states@.len() && #[trigger] sv(states@[i]) == st;
                assert(m == slide_of(point, dir, carry as nat, sv(states@[i])));
            }
        }
    }
}

proof fn lemma_append(a: Seq<TurnModel>, b: Seq<TurnModel>)
    requires
        b.len() >= a.len(),
        b.subrange(0, a.len() as int) == a,
        distinct(a),
        distinct(b.subrange(a.len() as int, b.len() as int)),
        forall|i: int, j: int| 0 <= i < a.len() && a.len() <= j < b.len() ==> a[i] != b[j],
    ensures
        distinct(b),
        forall|m: TurnModel| b.contains(m) <==> a.contains(m) || b.subrange(a.len() as int, b.len() as int).contains(m),
{
    let seg = b.subrange(a.len() as int, b.len() as int);
    assert forall|i: int, j: int| 0 <= i < j < b.len() implies b[i] != b[j] by {
        if j < a.len() {
            assert(a[i] == b[i] && a[j] == b[j]);
        } else if i < a.len() {
            assert(a[i] == b[i]);
        } else {
            assert(seg[i - a.len()] == b[i] && seg[j - a.len()] == b[j]);
        }
    }
    assert forall|m: TurnModel| b.contains(m) implies a.contains(m) || seg.contains(m) by {
        let j = choose|j: int| 0 <= j < b.len() && b[j] == m;
        if j < a.len() {
            assert(a[j] == m);
        } else {
            assert(seg[j - a.len()] == m);
        }
    }
    assert forall|m: TurnModel| a.contains(m) || seg.contains(m) implies b.contains(m) by {
        if a.contains(m) {
            let j = choose|j: int| 0 <= j < a.len() && a[j] == m;
            assert(b[j] == m);
        } else {
            let j = choose|j: int| 0 <= j < seg.len() && seg[j] == m;
            assert(b[j + a.len()] == m);
        }
    }
}

/// How good the position is for the player to move. No position is
/// scored yet: every board evaluates to zero.
pub fn advantage(board: crate::board_naive::NaiveBoard) -> (r: i64)
    ensures
        r == 0,
{
    0
}

/// How many placements a player has on each empty square: flat and
/// standing while flat stones are left, and a capstone while one is left.
pub open spec fn place_count(c: PieceCount, player: Player) -> nat {
    (if !c.spec_used_up(Piece { stone: Stone::Flat, owner: player }) { 2nat } else { 0nat })
        + (if !c.spec_used_up(Piece { stone: Stone::Capstone, owner: player }) { 1nat } else { 0nat })
}

pub open spec fn all_empty(stacks: Seq<Seq<Piece>>) -> bool {
    forall|i: int| 0 <= i < stacks.len() ==> (#[trigger] stacks[i]).len() == 0
}

/// On a board where nothing has been placed, each player has three
/// placements per square, or two on a board without capstones.
pub proof fn lemma_fresh_place_count(size: nat, player: Player)
    requires
        valid_size(size),
    ensures
        place_count(PieceCount::fresh(size), player) == if crate::board::max_cap_for(size) == 0 { 2nat } else { 3nat },
{
}

/// The move the placeholder strategy picks at turn `turn`.
pub open spec fn suggested(stacks: Seq<Seq<Piece>>, size: nat, turn: nat) -> TurnModel {
    if turn < 2 && stacks[sq(Point { x: 0, y: 0 }, size)].len() != 0 {
        TurnModel::Place { point: Point { x: 0, y: (size - 1) as usize }, stone: Stone::Flat }
    } else {
        TurnModel::Place { point: Point { x: 0, y: 0 }, stone: Stone::Flat }
    }
}

/// The slide that a final state of the enumeration stands for.
spec fn slide_of(p: Point, dir: Direction, carry: nat, s: (nat, Seq<usize>)) -> TurnModel {
    TurnModel::Slide {
        num_pieces: (carry - s.1[0]) as usize,
        point: p,
        direction: dir,
        drops: drops_of_state(s.0, s.1),
    }
}

proof fn lemma_slide_of_injective(p: Point, dir: Direction, clear: nat, carry: nat, a: (nat, Seq<usize>),
    b: (nat, Seq<usize>))
    requires
        valid_state(a.0, a.1, clear, carry),
        valid_state(b.0, b.1, clear, carry),
        a.1[0] < carry,
        b.1[0] < carry,
        a != b,
    ensures
        slide_of(p, dir, carry, a) != slide_of(p, dir, carry, b),
{
    lemma_drops_of_valid_state(a.0, a.1, clear, carry);
    lemma_drops_of_valid_state(b.0, b.1, clear, carry);
}

} // verus!
