use vstd::prelude::*;
use crate::board::{Board, all_legal, legal_stack, lemma_push_all_legal, lemma_push_all_len, on_board, push_piece, sq,
    stack_mover, stack_push_all, valid_size, with_stack, replay, lemma_replay_prefix, stack_views};
use crate::error::TakError;
use crate::piece::{Piece, Player};
use crate::point::Point;
use crate::turn::{Direction, adjust_spec};

verus! {

pub open spec fn sum(s: Seq<usize>) -> int
    decreases s.len(),
{
    if s.len() == 0 { 0 } else { sum(s.drop_last()) + s.last() }
}

/// The number of pieces dropped before step `k` of a slide.
pub open spec fn dropped_before(drops: Seq<usize>, k: int) -> int {
    sum(drops.subrange(0, k))
}

/// The pieces lifted off a stack of `h` when `count` are carried.
pub open spec fn lifted(h: Seq<Piece>, count: int) -> Seq<Piece> {
    h.subrange(h.len() - count, h.len() as int)
}

/// What stays on the origin square.
pub open spec fn left_behind(h: Seq<Piece>, count: int) -> Seq<Piece> {
    h.subrange(0, h.len() - count)
}

/// The pieces dropped at step `k` of a slide.
pub open spec fn chunk(lift: Seq<Piece>, drops: Seq<usize>, k: int) -> Seq<Piece> {
    lift.subrange(dropped_before(drops, k), dropped_before(drops, k + 1))
}

/// The square reached at step `k` (from 0) of a slide: `k + 1` squares away.
pub open spec fn landing_point(p: Point, dir: Direction, size: nat, k: int) -> Point {
    adjust_spec(dir, p, k + 1, size as int)->Some_0
}

/// The board `w` after the first `k` drops of a slide, each landing on the
/// stack that `stacks` holds at its square.
pub open spec fn land(stacks: Seq<Seq<Piece>>, w: Seq<Seq<Piece>>, size: nat, lift: Seq<Piece>, p: Point,
    dir: Direction, drops: Seq<usize>, k: nat) -> Result<Seq<Seq<Piece>>, TakError>
    decreases k,
{
    if k == 0 {
        Ok(w)
    } else {
        match land(stacks, w, size, lift, p, dir, drops, (k - 1) as nat) {
            Ok(v) => {
                let q = landing_point(p, dir, size, k - 1);
                match stack_push_all(stacks[sq(q, size)], chunk(lift, drops, k - 1)) {
                    Ok(t) => Ok(with_stack(v, size, q, t)),
                    Err(e) => Err(e),
                }
            },
            Err(e) => Err(e),
        }
    }
}

/// The stack that step `k` of a slide leaves on its landing square.
pub open spec fn landed_stack(stacks: Seq<Seq<Piece>>, size: nat, lift: Seq<Piece>, p: Point, dir: Direction,
    drops: Seq<usize>, k: int) -> Seq<Piece> {
    stack_push_all(stacks[sq(landing_point(p, dir, size, k), size)], chunk(lift, drops, k))->Ok_0
}

/// A lawful slide that a board may refuse for want of room: one of the
/// stacks it leaves, on the origin or a landing square, is taller than
/// every square of that board can always hold.
pub open spec fn slide_too_tall<B: Board>(stacks: Seq<Seq<Piece>>, size: nat, count: usize, p: Point,
    dir: Direction, drops: Seq<usize>) -> bool {
    let h = stacks[sq(p, size)];
    ||| !B::roomy(left_behind(h, count as int).len())
    ||| exists|k: int| 0 <= k < drops.len()
        && !B::roomy(#[trigger] landed_stack(stacks, size, lifted(h, count as int), p, dir, drops, k).len())
}

/// Every drop leaves at least one piece.
pub open spec fn positive(drops: Seq<usize>) -> bool {
    forall|i: int| 0 <= i < drops.len() ==> #[trigger] drops[i] >= 1
}

fn all_positive(drops: &Vec<usize>) -> (r: bool)
    ensures
        r == positive(drops@),
{
    let mut i: usize = 0;
    while i < drops.len()
        invariant
            i <= drops@.len(),
            forall|j: int| 0 <= j < i ==> #[trigger] drops@[j] >= 1,
        decreases drops@.len() - i,
    {
        if drops[i] == 0 {
            return false;
        }
        i = i + 1;
    }
    true
}

/// A slide of `count` pieces from `p` towards `dir`, dropping `drops[k]`
/// pieces on the square `k + 1` steps away, made by `mover`: the board
/// after it, or the first rule it breaks. A slide carries at least one
/// piece and drops at least one on each square it reaches.
pub open spec fn slide_model(stacks: Seq<Seq<Piece>>, size: nat, count: usize, p: Point, dir: Direction,
    drops: Seq<usize>, mover: Player) -> Result<Seq<Seq<Piece>>, TakError> {
    if count > size {
        Err(TakError::CarryLimitExceeded)
    } else if count == 0 || !positive(drops) || sum(drops) != count {
        Err(TakError::DropMismatch)
    } else if !on_board(p, size) {
        Err(TakError::InvalidPoint)
    } else if count > stacks[sq(p, size)].len() {
        Err(TakError::InsufficientPile)
    } else if stack_mover(stacks[sq(p, size)]) != Some(mover) {
        Err(TakError::NotMover)
    } else if drops.len() > 0 && adjust_spec(dir, p, drops.len() as int, size as int) is None {
        Err(TakError::OffBoard)
    } else {
        let h = stacks[sq(p, size)];
        land(stacks, with_stack(stacks, size, p, left_behind(h, count as int)), size,
            lifted(h, count as int), p, dir, drops, drops.len())
    }
}

proof fn lemma_sum_prefix(drops: Seq<usize>, k: int)
    requires
        0 <= k < drops.len(),
    ensures
        dropped_before(drops, k + 1) == dropped_before(drops, k) + drops[k],
        0 <= dropped_before(drops, k) <= dropped_before(drops, k + 1),
{
    assert(drops.subrange(0, k + 1).drop_last() == drops.subrange(0, k));
    lemma_sum_nonneg(drops.subrange(0, k));
}

/// A sum of counts is never negative.
pub proof fn lemma_sum_nonneg(s: Seq<usize>)
    ensures
        sum(s) >= 0,
    decreases s.len(),
{
    if s.len() > 0 {
        lemma_sum_nonneg(s.drop_last());
    }
}

proof fn lemma_sum_le(drops: Seq<usize>, k: int)
    requires
        0 <= k <= drops.len(),
    ensures
        dropped_before(drops, k) <= sum(drops),
    decreases drops.len() - k,
{
    if k == drops.len() {
        assert(drops.subrange(0, k) == drops);
    } else {
        lemma_sum_prefix(drops, k);
        lemma_sum_le(drops, k + 1);
    }
}

/// A step within the length of a slide that stays on the board stays on it
/// at every shorter step.
pub proof fn lemma_adjust_shorter(dir: Direction, p: Point, m: int, k: int, size: nat)
    requires
        valid_size(size),
        on_board(p, size),
        1 <= k <= m,
        adjust_spec(dir, p, m, size as int) is Some,
    ensures
        adjust_spec(dir, p, k, size as int) is Some,
        on_board(adjust_spec(dir, p, k, size as int)->Some_0, size),
        adjust_spec(dir, p, k, size as int)->Some_0 != p,
{
}

fn copy_range(v: &Vec<Piece>, a: usize, b: usize) -> (r: Vec<Piece>)
    requires
        a <= b <= v@.len(),
    ensures
        r@ == v@.subrange(a as int, b as int),
{
    let mut r: Vec<Piece> = Vec::new();
    let mut i: usize = a;
    while i < b
        invariant
            a <= i <= b <= v@.len(),
            r@ == v@.subrange(a as int, i as int),
        decreases b - i,
    {
        r.push(v[i]);
        i = i + 1;
    }
    r
}

/// Lands the pieces of `ps` on `s` one after the other.
pub fn push_pieces(s: Vec<Piece>, ps: &Vec<Piece>) -> (r: Result<Vec<Piece>, TakError>)
    ensures
        match stack_push_all(s@, ps@) {
            Ok(t) => r is Ok && r->Ok_0@ == t,
            Err(e) => r == Err::<Vec<Piece>, TakError>(e),
        },
{
    let mut cur = s;
    let mut i: usize = 0;
    while i < ps.len()
        invariant
            i <= ps@.len(),
            stack_push_all(s@, ps@.subrange(0, i as int)) == Ok::<Seq<Piece>, TakError>(cur@),
        decreases ps@.len() - i,
    {
        assert(ps@.subrange(0, i + 1).drop_last() == ps@.subrange(0, i as int));
        match push_piece(&mut cur, ps[i]) {
            Ok(()) => {},
            Err(e) => {
                proof {
                    lemma_push_all_err_extends(s@, ps@, i + 1);
                }
                return Err(e);
            },
        }
        i = i + 1;
    }
    assert(ps@.subrange(0, ps@.len() as int) == ps@);
    Ok(cur)
}

proof fn lemma_push_all_err_extends(s: Seq<Piece>, ps: Seq<Piece>, k: int)
    requires
        0 <= k <= ps.len(),
        stack_push_all(s, ps.subrange(0, k)) is Err,
    ensures
        stack_push_all(s, ps) == stack_push_all(s, ps.subrange(0, k)),
    decreases ps.len() - k,
{
    if k < ps.len() {
        assert(ps.subrange(0, k + 1).drop_last() == ps.subrange(0, k));
        lemma_push_all_err_extends(s, ps, k + 1);
    } else {
        assert(ps.subrange(0, k) == ps);
    }
}

proof fn lemma_land_err_extends(stacks: Seq<Seq<Piece>>, w: Seq<Seq<Piece>>, size: nat, lift: Seq<Piece>,
    p: Point, dir: Direction, drops: Seq<usize>, k: nat, m: nat)
    requires
        k <= m,
        land(stacks, w, size, lift, p, dir, drops, k) is Err,
    ensures
        land(stacks, w, size, lift, p, dir, drops, m) == land(stacks, w, size, lift, p, dir, drops, k),
    decreases m - k,
{
    if k < m {
        lemma_land_err_extends(stacks, w, size, lift, p, dir, drops, k, (m - 1) as nat);
    }
}

/// The sum of `drops`, or `None` once it passes `limit`.
fn sum_up_to(drops: &Vec<usize>, limit: usize) -> (r: Option<usize>)
    ensures
        sum(drops@) >= 0,
        sum(drops@) <= limit ==> r == Some(sum(drops@) as usize),
        sum(drops@) > limit ==> r is None,
{
    proof {
        lemma_sum_nonneg(drops@);
    }
    let mut total: usize = 0;
    let mut i: usize = 0;
    while i < drops.len()
        invariant
            i <= drops@.len(),
            total == dropped_before(drops@, i as int),
            total <= limit,
        decreases drops@.len() - i,
    {
        proof {
            lemma_sum_prefix(drops@, i as int);
        }
        if drops[i] > limit - total {
            proof {
                lemma_sum_le(drops@, i as int + 1);
            }
            return None;
        }
        total = total + drops[i];
        i = i + 1;
    }
    assert(drops@.subrange(0, drops@.len() as int) == drops@);
    Some(total)
}

/// Moves `count` pieces off the stack at `point` towards `dir`, dropping
/// `drops[k]` of them, bottom first, on the square `k + 1` steps away. A
/// slide that breaks a rule changes nothing. A board that can run out of
/// room refuses a lawful slide only when a stack it would leave is taller
/// than every square can always hold, and then also changes nothing.
pub fn slide_stack<B: Board>(board: &mut B, count: usize, point: &Point, dir: Direction, drops: &Vec<usize>,
    mover: Player) -> (r: Result<(), TakError>)
    requires
        old(board).wf(),
    ensures
        final(board).wf(),
        final(board).size_view() == old(board).size_view(),
        final(board).counts() == old(board).counts(),
        match slide_model(old(board).stacks(), old(board).size_view(), count, *point, dir, drops@, mover) {
            Ok(s) => (r is Ok && final(board).stacks() == s)
                || (r == Err::<(), TakError>(TakError::OutOfCapacity) && *final(board) == *old(board)
                    && slide_too_tall::<B>(old(board).stacks(), old(board).size_view(), count, *point, dir, drops@)),
            Err(e) => r == Err::<(), TakError>(e) && *final(board) == *old(board),
        },
{
    let ghost stacks = board.stacks();
    proof {
        board.lemma_wf();
    }
    let size = board.size();
    if count > size {
        return Err(TakError::CarryLimitExceeded);
    }
    if count == 0 || !all_positive(drops) {
        return Err(TakError::DropMismatch);
    }
    match sum_up_to(drops, count) {
        Some(total) => {
            if total != count {
                return Err(TakError::DropMismatch);
            }
        },
        None => {
            return Err(TakError::DropMismatch);
        },
    }
    let h = match board.at(point) {
        Ok(it) => it.pieces,
        Err(e) => {
            return Err(e);
        },
    };
    assert(h@.subrange(0, h@.len() as int) == h@);
    let height = h.len();
    if count > height {
        return Err(TakError::InsufficientPile);
    }
    let top_owner = if height == 0 { None } else { Some(h[height - 1].owner) };
    if top_owner != Some(mover) {
        return Err(TakError::NotMover);
    }
    let steps = drops.len();
    if steps > 0 && dir.adjust(point, steps, size).is_none() {
        return Err(TakError::OffBoard);
    }
    let rest = copy_range(&h, 0, height - count);
    let lift = copy_range(&h, height - count, height);
    let ghost s0 = with_stack(stacks, size as nat, *point, rest@);
    // Work out every landing stack before touching the board.
    let mut points: Vec<Point> = Vec::new();
    let mut news: Vec<Vec<Piece>> = Vec::new();
    proof {
        assert(legal_stack(rest@)) by {
            assert(legal_stack(h@));
        }
        crate::board::lemma_views_push(news@, rest);
    }
    points.push(*point);
    news.push(rest);
    let ghost mut w = s0;
    let mut start: usize = 0;
    let mut k: usize = 0;
    proof {
        crate::board::lemma_sq(*point, *point, size as nat);
        reveal_with_fuel(replay, 2);
        assert(stack_views(news@)[0] == rest@);
        assert(points@[0] == *point);
        assert(replay(stacks, size as nat, points@, stack_views(news@), 1) == s0);
    }
    while k < steps
        invariant
            board.wf(),
            *board == *old(board),
            stacks == old(board).stacks(),
            size == old(board).size_view(),
            slide_model(stacks, size as nat, count, *point, dir, drops@, mover)
                == land(stacks, s0, size as nat, lift@, *point, dir, drops@, drops@.len()),
            board.stacks() == stacks,
            board.size_view() == size,
            on_board(*point, size as nat),
            valid_size(size as nat),
            stacks.len() == size * size,
            all_legal(stacks),
            k <= steps == drops@.len(),
            steps > 0 ==> adjust_spec(dir, *point, steps as int, size as int) is Some,
            sum(drops@) == count,
            lift@ == lifted(h@, count as int),
            h@ == stacks[sq(*point, size as nat)],
            count <= h@.len(),
            lift@.len() == count,
            start == crate::slide::dropped_before(drops@, k as int),
            land(stacks, s0, size as nat, lift@, *point, dir, drops@, k as nat) == Ok::<Seq<Seq<Piece>>, TakError>(w),
            points@.len() == k + 1,
            news@.len() == k + 1,
            points@[0] == *point,
            news@[0]@ == rest@,
            rest@ == left_behind(h@, count as int),
            forall|j: int| 0 <= j < k ==> #[trigger] points@[j + 1] == landing_point(*point, dir, size as nat, j),
            forall|j: int| 0 <= j < k ==> (#[trigger] news@[j + 1])@
                == landed_stack(stacks, size as nat, lift@, *point, dir, drops@, j),
            forall|j: int| 0 <= j < k + 1 ==> legal_stack(#[trigger] news@[j]@),
            forall|j: int| 0 <= j < k + 1 ==> on_board(#[trigger] points@[j], size as nat),
            w == replay(stacks, size as nat, points@, stack_views(news@), (k + 1) as nat),
        decreases steps - k,
    {
        proof {
            lemma_sum_prefix(drops@, k as int);
            lemma_sum_le(drops@, k as int + 1);
            lemma_adjust_shorter(dir, *point, steps as int, k as int + 1, size as nat);
        }
        let q = dir.adjust(point, k + 1, size).unwrap();
        assert(on_board(q, size as nat));
        assert(q == landing_point(*point, dir, size as nat, k as int));
        let cur = match board.at(&q) {
            Ok(it) => it.pieces,
            Err(e) => {
                return Err(e);
            },
        };
        let piece_run = copy_range(&lift, start, start + drops[k]);
        assert(piece_run@ == chunk(lift@, drops@, k as int));
        proof {
            crate::board::lemma_sq(q, q, size as nat);
        }
        let landed = match push_pieces(cur, &piece_run) {
            Ok(t) => t,
            Err(e) => {
                proof {
                    lemma_land_err_extends(stacks, s0, size as nat, lift@, *point, dir, drops@, (k + 1) as nat,
                        drops@.len());
                }
                return Err(e);
            },
        };
        let ghost before_points = points@;
        let ghost before_news = news@;
        proof {
            assert(legal_stack(stacks[sq(q, size as nat)]));
            lemma_push_all_legal(stacks[sq(q, size as nat)], piece_run@);
            crate::board::lemma_views_push(news@, landed);
            lemma_replay_prefix(stacks, size as nat, points@, stack_views(news@), points@.push(q),
                stack_views(news@).push(landed@), (k + 1) as nat);
            w = with_stack(w, size as nat, q, landed@);
        }
        points.push(q);
        news.push(landed);
        proof {
            assert forall|j: int| 0 <= j < k + 1 implies #[trigger] points@[j + 1] == landing_point(*point, dir, size as nat, j) by {
                if j < k {
                    assert(points@[j + 1] == before_points[j + 1]);
                }
            }
            assert forall|j: int| 0 <= j < k + 1 implies (#[trigger] news@[j + 1])@
                == landed_stack(stacks, size as nat, lift@, *point, dir, drops@, j) by {
                if j < k {
                    assert(news@[j + 1] == before_news[j + 1]);
                }
            }
        }
        start = start + drops[k];
        k = k + 1;
    }
    assert(land(stacks, s0, size as nat, lift@, *point, dir, drops@, drops@.len()) == Ok::<Seq<Seq<Piece>>, TakError>(w));
    match board.set_stacks(&points, &news) {
        Ok(()) => {},
        Err(e) => {
            proof {
                let i = choose|i: int| 0 <= i < news@.len() && !B::roomy(#[trigger] news@[i]@.len());
                if i > 0 {
                    assert(news@[(i - 1) + 1] == news@[i]);
                    assert(!B::roomy(landed_stack(stacks, size as nat, lift@, *point, dir, drops@, i - 1).len()));
                }
            }
            return Err(e);
        },
    }
    Ok(())
}

} // verus!

verus! {

/// The pieces that the landing squares of a slide gained, over its first `k` steps.
pub open spec fn gained(before: Seq<Seq<Piece>>, after: Seq<Seq<Piece>>, size: nat, p: Point, dir: Direction,
    k: nat) -> int
    decreases k,
{
    if k == 0 {
        0
    } else {
        let q = landing_point(p, dir, size, k - 1);
        gained(before, after, size, p, dir, (k - 1) as nat) + after[sq(q, size)].len() - before[sq(q, size)].len()
    }
}

proof fn lemma_landing_distinct(p: Point, dir: Direction, size: nat, m: int, i: int, j: int)
    requires
        valid_size(size),
        on_board(p, size),
        0 <= i < j < m,
        adjust_spec(dir, p, m, size as int) is Some,
    ensures
        sq(landing_point(p, dir, size, i), size) != sq(landing_point(p, dir, size, j), size),
        sq(landing_point(p, dir, size, i), size) != sq(p, size),
        on_board(landing_point(p, dir, size, i), size),
{
    lemma_adjust_shorter(dir, p, m, i + 1, size);
    lemma_adjust_shorter(dir, p, m, j + 1, size);
    crate::board::lemma_sq(landing_point(p, dir, size, i), landing_point(p, dir, size, j), size);
    crate::board::lemma_sq(landing_point(p, dir, size, i), p, size);
}

proof fn lemma_land_heights(stacks: Seq<Seq<Piece>>, s0: Seq<Seq<Piece>>, size: nat, lift: Seq<Piece>, p: Point,
    dir: Direction, drops: Seq<usize>, k: nat)
    requires
        valid_size(size),
        on_board(p, size),
        stacks.len() == size * size,
        s0.len() == size * size,
        k <= drops.len(),
        drops.len() > 0 ==> adjust_spec(dir, p, drops.len() as int, size as int) is Some,
        sum(drops) == lift.len(),
        land(stacks, s0, size, lift, p, dir, drops, k) is Ok,
    ensures
        ({
            let w = land(stacks, s0, size, lift, p, dir, drops, k)->Ok_0;
            &&& w.len() == s0.len()
            &&& w[sq(p, size)] == s0[sq(p, size)]
            &&& forall|j: int| 0 <= j < k ==>
                #[trigger] w[sq(landing_point(p, dir, size, j), size)].len()
                    == stacks[sq(landing_point(p, dir, size, j), size)].len() + drops[j]
            &&& gained(stacks, w, size, p, dir, k) == dropped_before(drops, k as int)
        }),
    decreases k,
{
    crate::board::lemma_sq(p, p, size);
    if k == 0 {
        assert(drops.subrange(0, 0) == Seq::<usize>::empty());
    } else {
        let m = drops.len() as int;
        lemma_land_heights(stacks, s0, size, lift, p, dir, drops, (k - 1) as nat);
        let v = land(stacks, s0, size, lift, p, dir, drops, (k - 1) as nat)->Ok_0;
        let w = land(stacks, s0, size, lift, p, dir, drops, k)->Ok_0;
        let q = landing_point(p, dir, size, k - 1);
        lemma_adjust_shorter(dir, p, m, k as int, size);
        crate::board::lemma_sq(q, q, size);
        crate::board::lemma_sq(q, p, size);
        lemma_sum_prefix(drops, k - 1);
        lemma_sum_le(drops, k as int);
        let c = chunk(lift, drops, k - 1);
        assert(c.len() == drops[k - 1]);
        lemma_push_all_len(stacks[sq(q, size)], c);
        assert(w == with_stack(v, size, q, stack_push_all(stacks[sq(q, size)], c)->Ok_0));
        assert forall|j: int| 0 <= j < k implies
            #[trigger] w[sq(landing_point(p, dir, size, j), size)].len()
                == stacks[sq(landing_point(p, dir, size, j), size)].len() + drops[j] by {
            if j < k - 1 {
                lemma_landing_distinct(p, dir, size, m, j, k - 1);
                crate::board::lemma_sq(landing_point(p, dir, size, j), q, size);
                assert(w[sq(landing_point(p, dir, size, j), size)] == v[sq(landing_point(p, dir, size, j), size)]);
            }
        }
        lemma_gained_frame(stacks, v, w, size, p, dir, (k - 1) as nat, k - 1, q, m);
        assert(w.len() == s0.len());
        assert(w[sq(p, size)] == s0[sq(p, size)]);
        assert(gained(stacks, w, size, p, dir, (k - 1) as nat) == dropped_before(drops, k - 1));
        assert(gained(stacks, w, size, p, dir, k) == dropped_before(drops, k as int));
    }
}

proof fn lemma_gained_frame(before: Seq<Seq<Piece>>, v: Seq<Seq<Piece>>, w: Seq<Seq<Piece>>, size: nat, p: Point,
    dir: Direction, k: nat, t: int, q: Point, m: int)
    requires
        valid_size(size),
        on_board(p, size),
        k <= t < m,
        adjust_spec(dir, p, m, size as int) is Some,
        q == landing_point(p, dir, size, t),
        v.len() == w.len(),
        w.len() == size * size,
        forall|i: int| 0 <= i < w.len() && i != sq(q, size) ==> #[trigger] w[i] == v[i],
    ensures
        gained(before, w, size, p, dir, k) == gained(before, v, size, p, dir, k),
    decreases k,
{
    if k > 0 {
        lemma_landing_distinct(p, dir, size, m, k - 1, t);
        crate::board::lemma_sq(landing_point(p, dir, size, k - 1), q, size);
        lemma_gained_frame(before, v, w, size, p, dir, (k - 1) as nat, t, q, m);
    }
}

/// After a slide the origin holds `count` pieces fewer, and the square
/// `k + 1` steps away holds `drops[k]` more; every other square is as it was.
pub proof fn lemma_slide_heights(stacks: Seq<Seq<Piece>>, size: nat, count: usize, p: Point, dir: Direction,
    drops: Seq<usize>, mover: Player)
    requires
        valid_size(size),
        stacks.len() == size * size,
        slide_model(stacks, size, count, p, dir, drops, mover) is Ok,
    ensures
        ({
            let after = slide_model(stacks, size, count, p, dir, drops, mover)->Ok_0;
            &&& after.len() == stacks.len()
            &&& after[sq(p, size)].len() == stacks[sq(p, size)].len() - count
            &&& forall|k: int| 0 <= k < drops.len() ==>
                #[trigger] after[sq(landing_point(p, dir, size, k), size)].len()
                    == stacks[sq(landing_point(p, dir, size, k), size)].len() + drops[k]
        }),
{
    let h = stacks[sq(p, size)];
    let s0 = with_stack(stacks, size, p, left_behind(h, count as int));
    crate::board::lemma_sq(p, p, size);
    lemma_sum_nonneg(drops);
    lemma_land_heights(stacks, s0, size, lifted(h, count as int), p, dir, drops, drops.len());
}

/// A slide keeps every piece it moves: the pieces left on the origin and
/// the pieces its landing squares gained add up to the height of the
/// stack before the move.
pub proof fn lemma_slide_conserves_pieces(stacks: Seq<Seq<Piece>>, size: nat, count: usize, p: Point,
    dir: Direction, drops: Seq<usize>, mover: Player)
    requires
        valid_size(size),
        stacks.len() == size * size,
        slide_model(stacks, size, count, p, dir, drops, mover) is Ok,
    ensures
        ({
            let after = slide_model(stacks, size, count, p, dir, drops, mover)->Ok_0;
            &&& after[sq(p, size)].len() == stacks[sq(p, size)].len() - count
            &&& after[sq(p, size)].len() + gained(stacks, after, size, p, dir, drops.len())
                == stacks[sq(p, size)].len()
        }),
{
    let h = stacks[sq(p, size)];
    let s0 = with_stack(stacks, size, p, left_behind(h, count as int));
    crate::board::lemma_sq(p, p, size);
    lemma_sum_nonneg(drops);
    lemma_land_heights(stacks, s0, size, lifted(h, count as int), p, dir, drops, drops.len());
    assert(drops.subrange(0, drops.len() as int) == drops);
}

} // verus!
