use vstd::prelude::*;
use crate::board::{Board, PieceCount, lemma_sq, sq, valid_size};
use crate::piece::{Piece, player_char, stone_char};
use crate::point::Point;
use crate::text::{decimal, push_all, push_decimal, string_of};

verus! {

pub open spec fn repeat(c: char, n: nat) -> Seq<char> {
    Seq::new(n, |i: int| c)
}

/// Each piece as its stone letter and owner digit, bottom to top.
pub open spec fn pieces_chars(s: Seq<Piece>) -> Seq<char>
    decreases s.len(),
{
    if s.len() == 0 {
        Seq::empty()
    } else {
        pieces_chars(s.drop_last()) + seq![stone_char(s.last().stone), player_char(s.last().owner)]
    }
}

/// The height of the tallest of the first `k` stacks.
pub open spec fn tallest(stacks: Seq<Seq<Piece>>, k: nat) -> nat
    decreases k,
{
    if k == 0 {
        0
    } else {
        let t = tallest(stacks, (k - 1) as nat);
        if stacks[k - 1].len() > t { stacks[k - 1].len() } else { t }
    }
}

/// One cell: a bar, the pieces, and two spaces for each piece it lacks
/// against the tallest stack.
pub open spec fn cell_chars(s: Seq<Piece>, max: nat) -> Seq<char> {
    seq!['|'] + pieces_chars(s) + repeat(' ', (2 * (max - s.len())) as nat)
}

/// The first `k` cells of rank `y`, from file `a`.
pub open spec fn row_chars(stacks: Seq<Seq<Piece>>, size: nat, y: nat, max: nat, k: nat) -> Seq<char>
    decreases k,
{
    if k == 0 {
        Seq::empty()
    } else {
        row_chars(stacks, size, y, max, (k - 1) as nat)
            + cell_chars(stacks[sq(Point { x: (k - 1) as usize, y: y as usize }, size)], max)
    }
}

/// The first `k` lines of the grid, from the top rank down.
pub open spec fn rows_chars(stacks: Seq<Seq<Piece>>, size: nat, max: nat, k: nat) -> Seq<char>
    decreases k,
{
    if k == 0 {
        Seq::empty()
    } else {
        rows_chars(stacks, size, max, (k - 1) as nat)
            + row_chars(stacks, size, (size - k) as nat, max, size) + seq!['\n']
    }
}

/// The grid: a rule of underscores, then one line per rank, top first.
pub open spec fn grid_chars(stacks: Seq<Seq<Piece>>, size: nat) -> Seq<char> {
    let max = tallest(stacks, stacks.len());
    repeat('_', ((max * 2 + 1) * size) as nat) + seq!['\n'] + rows_chars(stacks, size, max, size)
}

pub open spec fn count_line(player: char, used: nat, max: nat, what: Seq<char>) -> Seq<char> {
    seq!['P', player, ':', ' '] + decimal(used) + seq!['/'] + decimal(max) + seq![' '] + what + seq!['\n']
}

pub open spec fn flatstones() -> Seq<char> {
    seq!['F', 'l', 'a', 't', 's', 't', 'o', 'n', 'e', 's']
}

pub open spec fn capstones() -> Seq<char> {
    seq!['C', 'a', 'p', 's', 't', 'o', 'n', 'e', 's']
}

/// The stones each player has placed, out of how many.
pub open spec fn counts_chars(c: PieceCount) -> Seq<char> {
    count_line('1', c.p1_flat as nat, c.max_flat as nat, flatstones())
        + count_line('1', c.p1_cap as nat, c.max_cap as nat, capstones())
        + count_line('2', c.p2_flat as nat, c.max_flat as nat, flatstones())
        + count_line('2', c.p2_cap as nat, c.max_cap as nat, capstones())
}

/// Appends `2 * m` copies of `c`.
fn push_repeat2(out: &mut Vec<char>, c: char, m: usize)
    ensures
        final(out)@ == old(out)@ + repeat(c, 2 * m as nat),
{
    let ghost start = out@;
    let mut i: usize = 0;
    while i < m
        invariant
            i <= m,
            out@ == start + repeat(c, 2 * i as nat),
        decreases m - i,
    {
        out.push(c);
        out.push(c);
        assert(repeat(c, 2 * (i + 1) as nat) == repeat(c, 2 * i as nat).push(c).push(c));
        i = i + 1;
    }
}

proof fn lemma_repeat_add(c: char, a: nat, b: nat)
    ensures
        repeat(c, a) + repeat(c, b) == repeat(c, a + b),
{
    assert(repeat(c, a) + repeat(c, b) =~= repeat(c, a + b));
}

fn push_pieces(out: &mut Vec<char>, pieces: &Vec<Piece>)
    ensures
        final(out)@ == old(out)@ + pieces_chars(pieces@),
{
    let ghost start = out@;
    let mut i: usize = 0;
    while i < pieces.len()
        invariant
            i <= pieces@.len(),
            out@ == start + pieces_chars(pieces@.subrange(0, i as int)),
        decreases pieces@.len() - i,
    {
        assert(pieces@.subrange(0, i + 1).drop_last() == pieces@.subrange(0, i as int));
        let (s, o) = pieces[i].to_chars();
        out.push(s);
        out.push(o);
        i = i + 1;
    }
    assert(pieces@.subrange(0, pieces@.len() as int) == pieces@);
}

fn push_count_line(out: &mut Vec<char>, player: char, used: usize, max: usize, what: &[char])
    ensures
        final(out)@ == old(out)@ + count_line(player, used as nat, max as nat, what@),
{
    out.push('P');
    out.push(player);
    out.push(':');
    out.push(' ');
    push_decimal(out, used);
    out.push('/');
    push_decimal(out, max);
    out.push(' ');
    push_all(out, what);
    out.push('\n');
}

/// Appends the grid of the board to `out`.
pub fn push_grid<B: Board>(b: &B, out: &mut Vec<char>)
    requires
        b.wf(),
    ensures
        final(out)@ == old(out)@ + grid_chars(b.stacks(), b.size_view()),
{
    proof {
        b.lemma_wf();
    }
    let ghost stacks = b.stacks();
    let size = b.size();
    let ghost n = size as nat;
    // The tallest stack.
    let mut max: usize = 0;
    let mut i: usize = 0;
    assert(size * size <= 64) by (nonlinear_arith)
        requires size <= 8;
    let total = size * size;
    while i < total
        invariant
            b.wf(),
            stacks == b.stacks(),
            size == n,
            n == b.size_view(),
            valid_size(n),
            total == n * n,
            stacks.len() == total,
            i <= total,
            max == tallest(stacks, i as nat),
        decreases total - i,
    {
        proof {
            crate::board::lemma_point_at(i as int, n);
        }
        let p = Point { x: i % size, y: i / size };
        assert(p == crate::board::point_at(i as int, n));
        let it = b.at(&p).unwrap();
        if it.pieces.len() > max {
            max = it.pieces.len();
        }
        i = i + 1;
    }
    let ghost start = out@;
    let mut k: usize = 0;
    while k < size
        invariant
            k <= size,
            out@ == start + repeat('_', (k * (2 * max + 1)) as nat),
        decreases size - k,
    {
        let ghost before = out@;
        out.push('_');
        push_repeat2(out, '_', max);
        proof {
            lemma_repeat_add('_', (k * (2 * max + 1)) as nat, 1);
            lemma_repeat_add('_', (k * (2 * max + 1) + 1) as nat, 2 * max as nat);
            assert(repeat('_', 1) == seq!['_']);
            assert((k * (2 * max + 1) + 1) + 2 * max == (k + 1) * (2 * max + 1)) by (nonlinear_arith);
        }
        k = k + 1;
    }
    assert(size * (2 * max + 1) == (max * 2 + 1) * size) by (nonlinear_arith);
    out.push('\n');
    let ghost head = out@;
    let mut k: usize = 0;
    while k < size
        invariant
            b.wf(),
            stacks == b.stacks(),
            size == n,
            n == b.size_view(),
            valid_size(n),
            stacks.len() == n * n,
            max == tallest(stacks, stacks.len()),
            k <= size,
            out@ == head + rows_chars(stacks, n, max as nat, k as nat),
        decreases size - k,
    {
        let y = size - 1 - k;
        let ghost line_start = out@;
        let mut x: usize = 0;
        while x < size
            invariant
                b.wf(),
                stacks == b.stacks(),
                size == n,
                n == b.size_view(),
                valid_size(n),
                stacks.len() == n * n,
                max == tallest(stacks, stacks.len()),
                y < size,
                x <= size,
                out@ == line_start + row_chars(stacks, n, y as nat, max as nat, x as nat),
            decreases size - x,
        {
            let p = Point { x, y };
            proof {
                lemma_sq(p, p, n);
                lemma_tallest_ge(stacks, stacks.len(), sq(p, n));
            }
            let it = b.at(&p).unwrap();
            out.push('|');
            push_pieces(out, &it.pieces);
            push_repeat2(out, ' ', max - it.pieces.len());
            x = x + 1;
        }
        out.push('\n');
        k = k + 1;
    }
}

proof fn lemma_tallest_ge(stacks: Seq<Seq<Piece>>, k: nat, i: int)
    requires
        0 <= i < k <= stacks.len(),
    ensures
        stacks[i].len() <= tallest(stacks, k),
    decreases k,
{
    if i < k - 1 {
        lemma_tallest_ge(stacks, (k - 1) as nat, i);
    }
}

/// The board as text: the grid, then the stones each player has placed.
pub fn str_from_board<B: Board>(b: &B) -> (r: String)
    requires
        b.wf(),
    ensures
        r@ == grid_chars(b.stacks(), b.size_view()) + counts_chars(b.counts()),
{
    let mut out: Vec<char> = Vec::new();
    push_grid(b, &mut out);
    let c = b.count();
    let flat = ['F', 'l', 'a', 't', 's', 't', 'o', 'n', 'e', 's'];
    let cap = ['C', 'a', 'p', 's', 't', 'o', 'n', 'e', 's'];
    assert(flat@ == flatstones());
    assert(cap@ == capstones());
    push_count_line(&mut out, '1', c.p1_flat, c.max_flat, &flat);
    push_count_line(&mut out, '1', c.p1_cap, c.max_cap, &cap);
    push_count_line(&mut out, '2', c.p2_flat, c.max_flat, &flat);
    push_count_line(&mut out, '2', c.p2_cap, c.max_cap, &cap);
    string_of(&out)
}

/// The grid of the board as text, without the counts.
pub fn grid_string<B: Board>(b: &B) -> (r: String)
    requires
        b.wf(),
    ensures
        r@ == grid_chars(b.stacks(), b.size_view()),
{
    let mut out: Vec<char> = Vec::new();
    push_grid(b, &mut out);
    string_of(&out)
}

} // verus!
