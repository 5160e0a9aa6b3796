use vstd::prelude::*;
use crate::board::{Board, PieceCount, all_occupied, lemma_point_at, lemma_sq, on_board, point_at, sq, stack_owner,
    stack_scorer, valid_size};
use crate::piece::{Piece, Player, Stone};
use crate::point::Point;
use crate::turn::{Direction, adjust_spec};

verus! {

/// `q` is one step from `p` in one of the four directions.
pub open spec fn step(p: Point, q: Point, size: nat) -> bool {
    ||| adjust_spec(Direction::Right, p, 1, size as int) == Some(q)
    ||| adjust_spec(Direction::Left, p, 1, size as int) == Some(q)
    ||| adjust_spec(Direction::Down, p, 1, size as int) == Some(q)
    ||| adjust_spec(Direction::Up, p, 1, size as int) == Some(q)
}

/// The square at `q` counts for `player` in a road.
pub open spec fn road_square(stacks: Seq<Seq<Piece>>, size: nat, player: Player, q: Point) -> bool {
    on_board(q, size) && stack_owner(stacks[sq(q, size)]) == Some(player)
}

/// The coordinate that a road must carry from zero to `size - 1`: `y` for
/// a road from the bottom edge, `x` for one from the left edge.
pub open spec fn coord(q: Point, vertical: bool) -> int {
    if vertical { q.y as int } else { q.x as int }
}

/// A chain of road squares of `player`, each a step from the one before,
/// starting on the edge where `coord` is zero.
pub open spec fn road_path(stacks: Seq<Seq<Piece>>, size: nat, player: Player, vertical: bool, path: Seq<Point>) -> bool {
    &&& path.len() >= 1
    &&& coord(path[0], vertical) == 0
    &&& forall|i: int| 0 <= i < path.len() ==> road_square(stacks, size, player, #[trigger] path[i])
    &&& forall|i: int| 0 <= i < path.len() - 1 ==> step(#[trigger] path[i], path[i + 1], size)
}

/// `q` can be reached by a road of `player` from the starting edge.
pub open spec fn connected(stacks: Seq<Seq<Piece>>, size: nat, player: Player, vertical: bool, q: Point) -> bool {
    exists|path: Seq<Point>| road_path(stacks, size, player, vertical, path) && path.last() == q
}

/// `player` has a road from one edge to the opposite one.
pub open spec fn has_road(stacks: Seq<Seq<Piece>>, size: nat, player: Player, vertical: bool) -> bool {
    exists|q: Point| connected(stacks, size, player, vertical, q) && coord(q, vertical) == size - 1
}

/// The road winner, checked in a fixed order: player one then player two
/// from the left edge, then player one then player two from the bottom edge.
pub open spec fn road_winner(stacks: Seq<Seq<Piece>>, size: nat) -> Option<Player> {
    if has_road(stacks, size, Player::One, false) {
        Some(Player::One)
    } else if has_road(stacks, size, Player::Two, false) {
        Some(Player::Two)
    } else if has_road(stacks, size, Player::One, true) {
        Some(Player::One)
    } else if has_road(stacks, size, Player::Two, true) {
        Some(Player::Two)
    } else {
        None
    }
}

/// How many stacks score for `player`.
pub open spec fn score(stacks: Seq<Seq<Piece>>, player: Player) -> nat
    decreases stacks.len(),
{
    if stacks.len() == 0 {
        0
    } else {
        score(stacks.drop_last(), player) + if stack_scorer(stacks.last()) == Some(player) { 1nat } else { 0nat }
    }
}

/// The player has placed all of both kinds of stone.
pub open spec fn exhausted(c: PieceCount, player: Player) -> bool {
    c.spec_used_up(Piece { stone: Stone::Flat, owner: player })
        && c.spec_used_up(Piece { stone: Stone::Capstone, owner: player })
}

/// Once a player is out of stones or the board is full, the player with
/// more flat-topped stacks wins, and player two on a tie.
pub open spec fn flat_winner(stacks: Seq<Seq<Piece>>, c: PieceCount) -> Option<Player> {
    if exhausted(c, Player::One) || exhausted(c, Player::Two) || all_occupied(stacks) {
        if score(stacks, Player::One) > score(stacks, Player::Two) {
            Some(Player::One)
        } else {
            Some(Player::Two)
        }
    } else {
        None
    }
}

/// A road win first, else a flat win.
pub open spec fn winner(stacks: Seq<Seq<Piece>>, size: nat, c: PieceCount) -> Option<Player> {
    match road_winner(stacks, size) {
        Some(p) => Some(p),
        None => flat_winner(stacks, c),
    }
}

pub open spec fn count_true(s: Seq<bool>) -> nat
    decreases s.len(),
{
    if s.len() == 0 { 0 } else { count_true(s.drop_last()) + if s.last() { 1nat } else { 0nat } }
}

proof fn lemma_count_update(s: Seq<bool>, i: int)
    requires
        0 <= i < s.len(),
        !s[i],
    ensures
        count_true(s.update(i, true)) == count_true(s) + 1,
    decreases s.len(),
{
    let t = s.update(i, true);
    if i < s.len() - 1 {
        assert(t.drop_last() == s.drop_last().update(i, true));
        lemma_count_update(s.drop_last(), i);
    } else {
        assert(t.drop_last() == s.drop_last());
    }
}

proof fn lemma_count_le(s: Seq<bool>)
    ensures
        count_true(s) <= s.len(),
    decreases s.len(),
{
    if s.len() > 0 {
        lemma_count_le(s.drop_last());
    }
}

proof fn lemma_point_sq(p: Point, size: nat)
    requires
        valid_size(size),
        on_board(p, size),
    ensures
        point_at(sq(p, size), size) == p,
{
    lemma_sq(p, p, size);
    lemma_point_at(sq(p, size), size);
    lemma_sq(point_at(sq(p, size), size), p, size);
}

/// A road of `player` reaching `p` reaches each road square a step away.
pub proof fn lemma_connected_step(stacks: Seq<Seq<Piece>>, size: nat, player: Player, vertical: bool, p: Point,
    q: Point)
    requires
        connected(stacks, size, player, vertical, p),
        step(p, q, size),
        road_square(stacks, size, player, q),
    ensures
        connected(stacks, size, player, vertical, q),
{
    let path = choose|path: Seq<Point>| road_path(stacks, size, player, vertical, path) && path.last() == p;
    let longer = path.push(q);
    assert(longer[longer.len() - 2] == p);
    assert(road_path(stacks, size, player, vertical, longer));
    assert(longer.last() == q);
}

/// The search state: `seen` marks exactly the squares in `queue`, every one
/// of them reached by a road from the starting edge.
pub open spec fn search_inv(stacks: Seq<Seq<Piece>>, size: nat, player: Player, vertical: bool, seen: Seq<bool>,
    queue: Seq<Point>) -> bool {
    &&& seen.len() == size * size
    &&& queue.len() == count_true(seen)
    &&& forall|i: int| 0 <= i < size * size ==> (#[trigger] seen[i] <==> queue.contains(point_at(i, size)))
    &&& forall|j: int| 0 <= j < queue.len() ==> on_board(#[trigger] queue[j], size)
        && road_square(stacks, size, player, queue[j])
        && connected(stacks, size, player, vertical, queue[j])
}

fn is_road_square<B: Board>(board: &B, q: &Point, player: Player) -> (r: bool)
    requires
        board.wf(),
    ensures
        r == road_square(board.stacks(), board.size_view(), player, *q),
{
    match board.at(q) {
        Ok(it) => {
            assert(it.rest() == it.pieces@);
            it.owner() == Some(player)
        },
        Err(_) => false,
    }
}

/// Adds `q` to the search when it is an unseen road square.
fn visit<B: Board>(board: &B, player: Player, vertical: bool, q: Point, seen: &mut Vec<bool>,
    queue: &mut Vec<Point>)
    requires
        board.wf(),
        valid_size(board.size_view()),
        on_board(q, board.size_view()),
        search_inv(board.stacks(), board.size_view(), player, vertical, old(seen)@, old(queue)@),
        road_square(board.stacks(), board.size_view(), player, q)
            ==> connected(board.stacks(), board.size_view(), player, vertical, q),
    ensures
        search_inv(board.stacks(), board.size_view(), player, vertical, final(seen)@, final(queue)@),
        final(queue)@.subrange(0, old(queue)@.len() as int) == old(queue)@,
        final(queue)@.len() >= old(queue)@.len(),
        forall|i: int| 0 <= i < old(seen)@.len() && old(seen)@[i] ==> #[trigger] final(seen)@[i],
        road_square(board.stacks(), board.size_view(), player, q) ==> final(seen)@[sq(q, board.size_view())],
{
    let ghost n = board.size_view();
    let ghost stacks = board.stacks();
    proof {
        board.lemma_wf();
        lemma_sq(q, q, n);
        lemma_point_sq(q, n);
    }
    let size = board.size();
    assert(q.y * size + q.x < 64) by (nonlinear_arith)
        requires q.y < size, q.x < size, size <= 8;
    assert(q.y * size + q.x == sq(q, n));
    let k = q.y * size + q.x;
    if is_road_square(board, &q, player) && !seen[k] {
        let ghost s0 = seen@;
        let ghost q0 = queue@;
        seen.set(k, true);
        queue.push(q);
        proof {
            lemma_count_update(s0, k as int);
            assert forall|i: int| 0 <= i < n * n implies (#[trigger] seen@[i] <==> queue@.contains(point_at(i, n))) by {
                lemma_point_at(i, n);
                if i != k {
                    assert(point_at(i, n) != q);
                    if queue@.contains(point_at(i, n)) {
                        let j = choose|j: int| 0 <= j < queue@.len() && queue@[j] == point_at(i, n);
                        assert(q0[j] == point_at(i, n));
                    }
                    if q0.contains(point_at(i, n)) {
                        let j = choose|j: int| 0 <= j < q0.len() && q0[j] == point_at(i, n);
                        assert(queue@[j] == point_at(i, n));
                    }
                } else {
                    assert(queue@[q0.len() as int] == q);
                }
            }
            assert(queue@.subrange(0, q0.len() as int) == q0);
        }
    }
}

proof fn lemma_road_reaches(stacks: Seq<Seq<Piece>>, size: nat, player: Player, vertical: bool, path: Seq<Point>,
    seen: Seq<bool>, queue: Seq<Point>, i: int)
    requires
        valid_size(size),
        road_path(stacks, size, player, vertical, path),
        0 <= i < path.len(),
        search_inv(stacks, size, player, vertical, seen, queue),
        forall|q: Point| on_board(q, size) && coord(q, vertical) == 0 && road_square(stacks, size, player, q)
            ==> #[trigger] seen[sq(q, size)],
        forall|j: int, q: Point| 0 <= j < queue.len() && step(#[trigger] queue[j], q, size)
            && road_square(stacks, size, player, q) ==> #[trigger] seen[sq(q, size)],
    ensures
        queue.contains(path[i]),
    decreases i,
{
    assert(road_square(stacks, size, player, path[i]));
    lemma_sq(path[i], path[i], size);
    lemma_point_sq(path[i], size);
    if i > 0 {
        lemma_road_reaches(stacks, size, player, vertical, path, seen, queue, i - 1);
        let j = choose|j: int| 0 <= j < queue.len() && queue[j] == path[i - 1];
        assert(step(path[i - 1], path[i], size));
        assert(step(queue[j], path[i], size));
    }
    assert(seen[sq(path[i], size)]);
}

/// The squares that a road of `player` reaches from the starting edge
/// (the left edge, or the bottom edge when `vertical`), in breadth-first
/// order.
pub fn follow<B: Board>(board: &B, player: Player, vertical: bool) -> (r: Vec<Point>)
    requires
        board.wf(),
    ensures
        forall|q: Point| r@.contains(q) <==> connected(board.stacks(), board.size_view(), player, vertical, q),
{
    proof {
        board.lemma_wf();
    }
    let ghost stacks = board.stacks();
    let size = board.size();
    let ghost n = size as nat;
    assert(size * size <= 64) by (nonlinear_arith)
        requires size <= 8;
    let total = size * size;
    let mut seen: Vec<bool> = Vec::new();
    let mut i: usize = 0;
    while i < total
        invariant
            total == size * size,
            i <= total,
            seen@.len() == i,
            forall|j: int| 0 <= j < i ==> !(#[trigger] seen@[j]),
            count_true(seen@) == 0,
        decreases total - i,
    {
        let ghost s0 = seen@;
        seen.push(false);
        assert(seen@.drop_last() == s0);
        i = i + 1;
    }
    let mut queue: Vec<Point> = Vec::new();
    assert(search_inv(stacks, n, player, vertical, seen@, queue@));
    let mut e: usize = 0;
    while e < size
        invariant
            board.wf(),
            stacks == board.stacks(),
            n == board.size_view(),
            valid_size(n),
            size == n,
            e <= size,
            search_inv(stacks, n, player, vertical, seen@, queue@),
            forall|q: Point| on_board(q, n) && coord(q, vertical) == 0 && road_square(stacks, n, player, q)
                && (if vertical { q.x < e } else { q.y < e }) ==> #[trigger] seen@[sq(q, n)],
        decreases size - e,
    {
        let q = if vertical { Point { x: e, y: 0 } } else { Point { x: 0, y: e } };
        proof {
            if road_square(stacks, n, player, q) {
                let path = seq![q];
                assert(road_path(stacks, n, player, vertical, path));
                assert(path.last() == q);
            }
        }
        let ghost before = seen@;
        visit(board, player, vertical, q, &mut seen, &mut queue);
        proof {
            assert forall|q2: Point| on_board(q2, n) && coord(q2, vertical) == 0 && road_square(stacks, n, player, q2)
                && (if vertical { q2.x < e + 1 } else { q2.y < e + 1 }) implies #[trigger] seen@[sq(q2, n)] by {
                lemma_sq(q2, q2, n);
                if vertical && q2.x == e {
                    assert(q2 == q);
                } else if !vertical && q2.y == e {
                    assert(q2 == q);
                } else {
                    assert(before[sq(q2, n)]);
                }
            }
        }
        e = e + 1;
    }
    let mut head: usize = 0;
    while head < queue.len()
        invariant
            board.wf(),
            stacks == board.stacks(),
            n == board.size_view(),
            valid_size(n),
            size == n,
            head <= queue@.len(),
            search_inv(stacks, n, player, vertical, seen@, queue@),
            forall|q: Point| on_board(q, n) && coord(q, vertical) == 0 && road_square(stacks, n, player, q)
                ==> #[trigger] seen@[sq(q, n)],
            forall|j: int, q: Point| 0 <= j < head && step(#[trigger] queue@[j], q, n)
                && road_square(stacks, n, player, q) ==> #[trigger] seen@[sq(q, n)],
        decreases n * n - head,
    {
        proof {
            lemma_count_le(seen@);
        }
        let p = queue[head];
        let ghost s0 = seen@;
        let ghost q0 = queue@;
        let dirs = Direction::all();
        let mut d: usize = 0;
        while d < 4
            invariant
                board.wf(),
                stacks == board.stacks(),
                n == board.size_view(),
                valid_size(n),
                size == n,
                head < q0.len(),
                s0.len() == n * n,
                p == q0[head as int],
                dirs@ == crate::turn::all_directions(),
                d <= 4,
                search_inv(stacks, n, player, vertical, seen@, queue@),
                queue@.subrange(0, q0.len() as int) == q0,
                queue@.len() >= q0.len(),
                forall|i: int| 0 <= i < s0.len() && s0[i] ==> #[trigger] seen@[i],
                forall|k: int| 0 <= k < d && (#[trigger] adjust_spec(dirs@[k], p, 1, n as int)) is Some
                    && road_square(stacks, n, player, adjust_spec(dirs@[k], p, 1, n as int)->Some_0)
                    ==> seen@[sq(adjust_spec(dirs@[k], p, 1, n as int)->Some_0, n)],
            decreases 4 - d,
        {
            assert(queue@[head as int] == p);
            let ghost seen_before = seen@;
            if let Some(q) = dirs[d].adjust(&p, 1, size) {
                proof {
                    if road_square(stacks, n, player, q) {
                        lemma_connected_step(stacks, n, player, vertical, p, q);
                    }
                }
                let ghost before_q = queue@;
                visit(board, player, vertical, q, &mut seen, &mut queue);
                proof {
                    assert(queue@.subrange(0, q0.len() as int)
                        == queue@.subrange(0, before_q.len() as int).subrange(0, q0.len() as int));
                }
            }
            proof {
                assert forall|k: int| 0 <= k < d + 1 && (#[trigger] adjust_spec(dirs@[k], p, 1, n as int)) is Some
                    && road_square(stacks, n, player, adjust_spec(dirs@[k], p, 1, n as int)->Some_0)
                    implies seen@[sq(adjust_spec(dirs@[k], p, 1, n as int)->Some_0, n)] by {
                    let q2 = adjust_spec(dirs@[k], p, 1, n as int)->Some_0;
                    lemma_sq(q2, q2, n);
                    if k < d {
                        assert(seen_before[sq(q2, n)]);
                    }
                }
            }
            d = d + 1;
        }
        proof {
            assert forall|q: Point| on_board(q, n) && coord(q, vertical) == 0 && road_square(stacks, n, player, q)
                implies #[trigger] seen@[sq(q, n)] by {
                lemma_sq(q, q, n);
                assert(s0[sq(q, n)]);
            }
            assert forall|j: int, q: Point| 0 <= j < head + 1 && step(#[trigger] queue@[j], q, n)
                && road_square(stacks, n, player, q) implies #[trigger] seen@[sq(q, n)] by {
                lemma_sq(q, q, n);
                assert(queue@[j] == q0[j]);
                if j < head {
                    assert(s0[sq(q, n)]);
                } else {
                    assert(adjust_spec(dirs@[0], p, 1, n as int) == adjust_spec(Direction::Right, p, 1, n as int));
                    assert(adjust_spec(dirs@[1], p, 1, n as int) == adjust_spec(Direction::Left, p, 1, n as int));
                    assert(adjust_spec(dirs@[2], p, 1, n as int) == adjust_spec(Direction::Down, p, 1, n as int));
                    assert(adjust_spec(dirs@[3], p, 1, n as int) == adjust_spec(Direction::Up, p, 1, n as int));
                }
            }
        }
        head = head + 1;
    }
    proof {
        assert forall|q: Point| connected(stacks, n, player, vertical, q) implies queue@.contains(q) by {
            let path = choose|path: Seq<Point>| road_path(stacks, n, player, vertical, path) && path.last() == q;
            lemma_road_reaches(stacks, n, player, vertical, path, seen@, queue@, path.len() - 1);
        }
        assert forall|q: Point| queue@.contains(q) implies connected(stacks, n, player, vertical, q) by {
            let j = choose|j: int| 0 <= j < queue@.len() && queue@[j] == q;
        }
    }
    queue
}

} // verus!

verus! {

fn reaches_far_edge(reached: &Vec<Point>, size: usize, vertical: bool) -> (r: bool)
    ensures
        r == exists|j: int| 0 <= j < reached@.len() && coord(#[trigger] reached@[j], vertical) == size - 1,
{
    let mut i: usize = 0;
    while i < reached.len()
        invariant
            i <= reached@.len(),
            forall|j: int| 0 <= j < i ==> coord(#[trigger] reached@[j], vertical) != size - 1,
        decreases reached@.len() - i,
    {
        let q = reached[i];
        let c = if vertical { q.y } else { q.x };
        if size > 0 && c == size - 1 {
            return true;
        }
        i = i + 1;
    }
    false
}

/// Whether `player` has a road, from the left edge to the right one, or
/// from the bottom edge to the top one when `vertical`.
pub fn road_exists<B: Board>(board: &B, player: Player, vertical: bool) -> (r: bool)
    requires
        board.wf(),
    ensures
        r == has_road(board.stacks(), board.size_view(), player, vertical),
{
    let reached = follow(board, player, vertical);
    let size = board.size();
    let r = reaches_far_edge(&reached, size, vertical);
    proof {
        board.lemma_wf();
        if r {
            let j = choose|j: int| 0 <= j < reached@.len() && coord(#[trigger] reached@[j], vertical) == size - 1;
            assert(reached@.contains(reached@[j]));
        } else {
            assert forall|q: Point| connected(board.stacks(), board.size_view(), player, vertical, q)
                implies coord(q, vertical) != size - 1 by {
                assert(reached@.contains(q));
                let j = choose|j: int| 0 <= j < reached@.len() && reached@[j] == q;
            }
        }
    }
    r
}

/// The winner by a road, checked in the order of `road_winner`.
pub fn check_road_winner<B: Board>(board: &B) -> (r: Option<Player>)
    requires
        board.wf(),
    ensures
        r == road_winner(board.stacks(), board.size_view()),
{
    if road_exists(board, Player::One, false) {
        return Some(Player::One);
    }
    if road_exists(board, Player::Two, false) {
        return Some(Player::Two);
    }
    if road_exists(board, Player::One, true) {
        return Some(Player::One);
    }
    if road_exists(board, Player::Two, true) {
        return Some(Player::Two);
    }
    None
}

/// The winner by the flat count, once a player is out of stones or the
/// board is full.
pub fn check_flat_winner<B: Board>(board: &B) -> (r: Option<Player>)
    requires
        board.wf(),
    ensures
        r == flat_winner(board.stacks(), board.counts()),
{
    proof {
        board.lemma_wf();
    }
    let count = board.count();
    let used = (count.used_up(&Piece::new(Stone::Flat, Player::One))
        && count.used_up(&Piece::new(Stone::Capstone, Player::One)))
        || (count.used_up(&Piece::new(Stone::Flat, Player::Two))
        && count.used_up(&Piece::new(Stone::Capstone, Player::Two)));
    if !used && !board.full() {
        return None;
    }
    let size = board.size();
    let ghost stacks = board.stacks();
    let ghost n = size as nat;
    assert(size * size <= 64) by (nonlinear_arith)
        requires size <= 8;
    let total = size * size;
    let mut p1_top: usize = 0;
    let mut p2_top: usize = 0;
    let mut i: usize = 0;
    while i < total
        invariant
            board.wf(),
            stacks == board.stacks(),
            n == board.size_view(),
            size == n,
            valid_size(n),
            total == n * n,
            stacks.len() == total,
            i <= total,
            p1_top == score(stacks.subrange(0, i as int), Player::One),
            p2_top == score(stacks.subrange(0, i as int), Player::Two),
            p1_top <= i,
            p2_top <= i,
        decreases total - i,
    {
        proof {
            lemma_point_at(i as int, n);
            assert(stacks.subrange(0, i + 1).drop_last() == stacks.subrange(0, i as int));
        }
        let p = Point { x: i % size, y: i / size };
        assert(p == point_at(i as int, n));
        let square = board.at(&p).unwrap();
        assert(square.rest() == square.pieces@);
        match square.scorer() {
            Some(Player::One) => {
                p1_top = p1_top + 1;
            },
            Some(Player::Two) => {
                p2_top = p2_top + 1;
            },
            None => {},
        }
        i = i + 1;
    }
    assert(stacks.subrange(0, total as int) == stacks);
    if p1_top > p2_top {
        Some(Player::One)
    } else {
        Some(Player::Two)
    }
}

/// The winner of the position: a road first, else a flat count.
pub fn check_winner<B: Board>(board: &B) -> (r: Option<Player>)
    requires
        board.wf(),
    ensures
        r == winner(board.stacks(), board.size_view(), board.counts()),
{
    match check_road_winner(board) {
        Some(p) => Some(p),
        None => check_flat_winner(board),
    }
}

} // verus!
