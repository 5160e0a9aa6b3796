//! The packed 5×5 board. Each square is one 16-bit word: bits 15 to 13 hold
//! the code of the top piece (zero when the square is empty), bits 11 to 0
//! six 2-bit slots for the pieces just below it (1 a flat of player one,
//! 2 a flat of player two, 0 none), nearest the bottom first. Pieces below
//! those go to a shared pool of seven continuation words, each tagged in
//! bits 15 to 11 with its square (index plus one; zero when free) and
//! holding five more slots in bits 9 to 0. A square's continuation words,
//! in pool order, hold its lowest pieces, bottom first.

use vstd::prelude::*;
use twiddle::Twiddle;
use crate::board::{Board, on_board, replay, stack_views, PieceCount, legal_stack, lemma_push_legal, max_cap_for, max_flat_for, push_piece, sq, with_stack, PieceIter};
use crate::error::TakError;
use crate::piece::{Piece, Player, Stone};
use crate::point::Point;

verus! {

/// Relies on twiddle's `Twiddle::bits` for `u16`: the bits `hi` down to
/// `lo` of `w`, moved down to bit zero.
#[verifier::external_body]
fn field(w: u16, hi: u16, lo: u16) -> (r: u16)
    requires
        lo <= hi < 16,
    ensures
        r == (w >> lo) & (0xffffu16 >> ((15 - hi + lo) as u16)),
{
    w.bits((hi as usize)..=(lo as usize))
}

pub open spec fn top_code(w: u16) -> u16 {
    w >> 13u16
}

pub open spec fn low_slots(w: u16) -> u16 {
    w & 0xfffu16
}

pub open spec fn tag_of(c: u16) -> u16 {
    c >> 11u16
}

pub open spec fn cont_slots(c: u16) -> u16 {
    c & 0x3ffu16
}

/// The code of a piece: its owner (4 for player one) plus its stone (1
/// flat, 2 standing, 3 capstone).
pub open spec fn piece_code(p: Piece) -> u16 {
    ((if p.owner == Player::One { 4u16 } else { 0u16 }) + match p.stone {
        Stone::Flat => 1u16,
        Stone::Standing => 2u16,
        Stone::Capstone => 3u16,
    }) as u16
}

pub open spec fn code_piece(c: u16) -> Option<Piece> {
    if c == 1 { Some(Piece { stone: Stone::Flat, owner: Player::Two }) }
    else if c == 2 { Some(Piece { stone: Stone::Standing, owner: Player::Two }) }
    else if c == 3 { Some(Piece { stone: Stone::Capstone, owner: Player::Two }) }
    else if c == 5 { Some(Piece { stone: Stone::Flat, owner: Player::One }) }
    else if c == 6 { Some(Piece { stone: Stone::Standing, owner: Player::One }) }
    else if c == 7 { Some(Piece { stone: Stone::Capstone, owner: Player::One }) }
    else { None }
}

/// The slot value of a flat stone.
pub open spec fn slot_code(p: Piece) -> u16 {
    if p.owner == Player::One { 1u16 } else { 2u16 }
}

pub open spec fn slot_piece(v: u16) -> Piece {
    Piece { stone: Stone::Flat, owner: if v == 1 { Player::One } else { Player::Two } }
}

/// The pieces in the slots of `x`, lowest slot first, up to the first
/// empty slot or `k` slots.
pub open spec fn unpack(x: u16, k: nat) -> Seq<Piece>
    decreases k,
{
    if k == 0 || x & 3u16 == 0 {
        Seq::empty()
    } else {
        seq![slot_piece(x & 3u16)] + unpack(x >> 2u16, (k - 1) as nat)
    }
}

/// The slots holding the flat stones of `b`, first in the lowest slot.
pub open spec fn pack(b: Seq<Piece>) -> u16
    decreases b.len(),
{
    if b.len() == 0 {
        0
    } else {
        slot_code(b[0]) | (pack(b.drop_first()) << 2u16)
    }
}

pub open spec fn pow4(m: nat) -> nat
    decreases m,
{
    if m == 0 { 1 } else { 4 * pow4((m - 1) as nat) }
}

pub open spec fn all_flat(b: Seq<Piece>) -> bool {
    forall|i: int| 0 <= i < b.len() ==> (#[trigger] b[i]).stone == Stone::Flat
}

proof fn lemma_slot_bits(v: u16, x: u16)
    requires
        1 <= v <= 2,
        x < 0x4000,
    ensures
        (v | (x << 2u16)) & 3u16 == v,
        (v | (x << 2u16)) >> 2u16 == x,
        (v | (x << 2u16)) & 3u16 != 0,
        (v | (x << 2u16)) < 4 * x + 4,
{
    assert((v | (x << 2u16)) & 3u16 == v) by (bit_vector)
        requires 1u16 <= v <= 2u16, x < 0x4000u16;
    assert((v | (x << 2u16)) >> 2u16 == x) by (bit_vector)
        requires 1u16 <= v <= 2u16, x < 0x4000u16;
    assert((v | (x << 2u16)) == v + 4 * x) by (bit_vector)
        requires 1u16 <= v <= 2u16, x < 0x4000u16;
}

proof fn lemma_pack(b: Seq<Piece>, k: nat)
    requires
        all_flat(b),
        b.len() <= k,
        b.len() <= 6,
    ensures
        (pack(b) as nat) < pow4(b.len()),
        unpack(pack(b), k) == b,
    decreases b.len(),
{
    if b.len() == 0 {
        assert(0u16 & 3u16 == 0) by (bit_vector);
    } else {
        let rest = b.drop_first();
        lemma_pack(rest, (k - 1) as nat);
        assert(pow4(rest.len()) <= 1024) by {
            lemma_pow4_mono(rest.len(), 5);
            reveal_with_fuel(pow4, 6);
        }
        lemma_slot_bits(slot_code(b[0]), pack(rest));
        assert(slot_piece(slot_code(b[0])) == b[0]);
        assert(unpack(pack(b), k) == seq![b[0]] + rest);
        assert(seq![b[0]] + rest == b);
    }
}

proof fn lemma_pow4_mono(a: nat, b: nat)
    requires
        a <= b,
    ensures
        pow4(a) <= pow4(b),
    decreases b,
{
    if a < b {
        lemma_pow4_mono(a, (b - 1) as nat);
    }
}

proof fn lemma_unpack_flat(x: u16, k: nat)
    ensures
        all_flat(unpack(x, k)),
        unpack(x, k).len() <= k,
    decreases k,
{
    if k > 0 && x & 3u16 != 0 {
        lemma_unpack_flat(x >> 2u16, (k - 1) as nat);
        let u = unpack(x, k);
        assert forall|i: int| 0 <= i < u.len() implies (#[trigger] u[i]).stone == Stone::Flat by {
            if i > 0 {
                assert(u[i] == unpack(x >> 2u16, (k - 1) as nat)[i - 1]);
            }
        }
    }
}

/// The primary word of a square: the code of the top piece and the slots below it.
proof fn lemma_primary_bits(code: u16, x: u16)
    requires
        code < 8,
        x < 0x1000,
    ensures
        top_code((code << 13u16) | x) == code,
        low_slots((code << 13u16) | x) == x,
{
    assert(((code << 13u16) | x) >> 13u16 == code) by (bit_vector)
        requires code < 8u16, x < 0x1000u16;
    assert(((code << 13u16) | x) & 0xfffu16 == x) by (bit_vector)
        requires code < 8u16, x < 0x1000u16;
}

/// A continuation word: the tag of its square and its slots.
proof fn lemma_cont_bits(tag: u16, x: u16)
    requires
        tag < 32,
        x < 0x400,
    ensures
        tag_of((tag << 11u16) | x) == tag,
        cont_slots((tag << 11u16) | x) == x,
{
    assert(((tag << 11u16) | x) >> 11u16 == tag) by (bit_vector)
        requires tag < 32u16, x < 0x400u16;
    assert(((tag << 11u16) | x) & 0x3ffu16 == x) by (bit_vector)
        requires tag < 32u16, x < 0x400u16;
}

/// What twiddle's field reads, for the fields this board uses.
proof fn lemma_fields(w: u16)
    ensures
        (w >> 13u16) & (0xffffu16 >> 13u16) == top_code(w),
        (w >> 0u16) & (0xffffu16 >> 4u16) == low_slots(w),
        (w >> 11u16) & (0xffffu16 >> 11u16) == tag_of(w),
        (w >> 0u16) & (0xffffu16 >> 6u16) == cont_slots(w),
        (w >> 0u16) & (0xffffu16 >> 14u16) == w & 3u16,
        top_code(w) < 8,
        tag_of(w) < 32,
{
    assert((w >> 13u16) & (0xffffu16 >> 13u16) == w >> 13u16) by (bit_vector);
    assert((w >> 0u16) & (0xffffu16 >> 4u16) == w & 0xfffu16) by (bit_vector);
    assert((w >> 11u16) & (0xffffu16 >> 11u16) == w >> 11u16) by (bit_vector);
    assert((w >> 0u16) & (0xffffu16 >> 6u16) == w & 0x3ffu16) by (bit_vector);
    assert((w >> 0u16) & (0xffffu16 >> 14u16) == w & 3u16) by (bit_vector);
    assert(w >> 13u16 < 8u16) by (bit_vector);
    assert(w >> 11u16 < 32u16) by (bit_vector);
}

} // verus!

verus! {

/// The pieces that the continuation words among the first `k` of `cs`
/// tagged `tag` hold, in pool order.
pub open spec fn conts_pieces(cs: Seq<u16>, tag: u16, k: nat) -> Seq<Piece>
    decreases k,
{
    if k == 0 {
        Seq::empty()
    } else {
        conts_pieces(cs, tag, (k - 1) as nat) + if tag_of(cs[k - 1]) == tag {
            unpack(cont_slots(cs[k - 1]), 5)
        } else {
            Seq::empty()
        }
    }
}

/// The stack of square `t`, bottom to top.
pub open spec fn decode_square(w: u16, cs: Seq<u16>, t: int) -> Seq<Piece> {
    match code_piece(top_code(w)) {
        None => Seq::empty(),
        Some(top) => conts_pieces(cs, (t + 1) as u16, 7) + unpack(low_slots(w), 6) + seq![top],
    }
}

/// The continuation words a square may use: the free ones and its own.
pub open spec fn available(cs: Seq<u16>, tag: u16, k: nat) -> nat
    decreases k,
{
    if k == 0 {
        0
    } else {
        available(cs, tag, (k - 1) as nat) + if tag_of(cs[k - 1]) == 0 || tag_of(cs[k - 1]) == tag { 1nat } else { 0nat }
    }
}

/// How many of the first `k` words of `cs` are tagged `tag`.
pub open spec fn owned(cs: Seq<u16>, tag: u16, k: nat) -> nat
    decreases k,
{
    if k == 0 {
        0
    } else {
        owned(cs, tag, (k - 1) as nat) + if tag_of(cs[k - 1]) == tag { 1nat } else { 0nat }
    }
}

proof fn lemma_owned_none(cs: Seq<u16>, tag: u16, k: nat)
    requires
        k <= cs.len(),
        forall|j: int| 0 <= j < k ==> tag_of(#[trigger] cs[j]) != tag,
    ensures
        owned(cs, tag, k) == 0,
    decreases k,
{
    if k > 0 {
        lemma_owned_none(cs, tag, (k - 1) as nat);
    }
}

/// How many pieces of a stack of `height` lie below the primary word.
pub open spec fn bottom_len(height: nat) -> nat {
    if height > 7 { (height - 7) as nat } else { 0 }
}

/// Continuation words a stack of `height` needs.
pub open spec fn needed(height: nat) -> nat {
    (bottom_len(height) + 4) / 5
}

/// The packed board of size 5.
#[derive(Clone, Copy, Debug)]
pub struct Board5 {
    grid: [u16; 25],
    continuations: [u16; 7],
    count: PieceCount,
}

proof fn lemma_conts_frame(a: Seq<u16>, b: Seq<u16>, tag: u16, k: nat)
    requires
        k <= a.len(),
        k <= b.len(),
        forall|j: int| 0 <= j < k && (tag_of(a[j]) == tag || tag_of(b[j]) == tag) ==> a[j] == b[j],
    ensures
        conts_pieces(a, tag, k) == conts_pieces(b, tag, k),
    decreases k,
{
    if k > 0 {
        lemma_conts_frame(a, b, tag, (k - 1) as nat);
    }
}

proof fn lemma_conts_flat(cs: Seq<u16>, tag: u16, k: nat)
    ensures
        all_flat(conts_pieces(cs, tag, k)),
    decreases k,
{
    if k > 0 {
        lemma_conts_flat(cs, tag, (k - 1) as nat);
        lemma_unpack_flat(cont_slots(cs[k - 1]), 5);
        let a = conts_pieces(cs, tag, (k - 1) as nat);
        let b = if tag_of(cs[k - 1]) == tag { unpack(cont_slots(cs[k - 1]), 5) } else { Seq::empty() };
        assert forall|i: int| 0 <= i < (a + b).len() implies (#[trigger] (a + b)[i]).stone == Stone::Flat by {
            if i >= a.len() {
                assert((a + b)[i] == b[i - a.len()]);
            }
        }
    }
}

proof fn lemma_decode_legal(w: u16, cs: Seq<u16>, t: int)
    ensures
        legal_stack(decode_square(w, cs, t)),
{
    lemma_conts_flat(cs, (t + 1) as u16, 7);
    lemma_unpack_flat(low_slots(w), 6);
    let a = conts_pieces(cs, (t + 1) as u16, 7);
    let b = unpack(low_slots(w), 6);
    let s = decode_square(w, cs, t);
    if code_piece(top_code(w)) is Some {
        assert forall|i: int| 0 <= i < s.len() - 1 implies (#[trigger] s[i]).stone == Stone::Flat by {
            if i < a.len() {
                assert(s[i] == a[i]);
            } else {
                assert(s[i] == b[i - a.len()]);
            }
        }
    }
}

proof fn lemma_code_round_trip(p: Piece)
    ensures
        code_piece(piece_code(p)) == Some(p),
        1 <= piece_code(p) < 8,
{
}

fn code_to_piece(c: u16) -> (r: Option<Piece>)
    ensures
        r == code_piece(c),
{
    if c == 1 { Some(Piece { stone: Stone::Flat, owner: Player::Two }) }
    else if c == 2 { Some(Piece { stone: Stone::Standing, owner: Player::Two }) }
    else if c == 3 { Some(Piece { stone: Stone::Capstone, owner: Player::Two }) }
    else if c == 5 { Some(Piece { stone: Stone::Flat, owner: Player::One }) }
    else if c == 6 { Some(Piece { stone: Stone::Standing, owner: Player::One }) }
    else if c == 7 { Some(Piece { stone: Stone::Capstone, owner: Player::One }) }
    else { None }
}

fn piece_to_code(p: Piece) -> (r: u16)
    ensures
        r == piece_code(p),
{
    let owner: u16 = if p.owner == Player::One { 4 } else { 0 };
    let stone: u16 = match p.stone {
        Stone::Flat => 1,
        Stone::Standing => 2,
        Stone::Capstone => 3,
    };
    owner + stone
}

/// Appends the pieces in the slots of `x` to `out`.
fn unpack_into(x: u16, k: usize, out: &mut Vec<Piece>)
    ensures
        final(out)@ == old(out)@ + unpack(x, k as nat),
{
    let ghost start = out@;
    let mut x = x;
    let mut k = k;
    let ghost x0 = x;
    let ghost k0 = k;
    assert(out@ + unpack(x, k as nat) == start + unpack(x0, k0 as nat));
    while k > 0 && x & 3 != 0
        invariant
            out@ + unpack(x, k as nat) == start + unpack(x0, k0 as nat),
        decreases k,
    {
        let ghost before = out@;
        let v = x & 3;
        out.push(Piece { stone: Stone::Flat, owner: if v == 1 { Player::One } else { Player::Two } });
        assert(unpack(x, k as nat) == seq![slot_piece(x & 3u16)] + unpack(x >> 2u16, (k - 1) as nat));
        assert(out@ + unpack(x >> 2u16, (k - 1) as nat) == before + unpack(x, k as nat));
        x = x >> 2;
        k = k - 1;
    }
    assert(unpack(x, k as nat) == Seq::<Piece>::empty());
    assert(out@ + Seq::<Piece>::empty() == out@);
}

/// The slots for the flat stones `b[from..to]`.
fn pack_range(b: &Vec<Piece>, from: usize, to: usize) -> (r: u16)
    requires
        from <= to <= b@.len(),
        to - from <= 6,
        all_flat(b@.subrange(from as int, to as int)),
    ensures
        r == pack(b@.subrange(from as int, to as int)),
{
    let mut w: u16 = 0;
    let mut j: usize = to;
    assert(b@.subrange(to as int, to as int) == Seq::<Piece>::empty());
    while j > from
        invariant
            from <= j <= to <= b@.len(),
            to - from <= 6,
            all_flat(b@.subrange(from as int, to as int)),
            w == pack(b@.subrange(j as int, to as int)),
        decreases j,
    {
        let ghost sub = b@.subrange(j - 1, to as int);
        assert(sub.drop_first() == b@.subrange(j as int, to as int));
        assert(sub[0] == b@[j - 1]);
        assert(b@.subrange(from as int, to as int)[j - 1 - from] == b@[j - 1]);
        let code: u16 = if b[j - 1].owner == Player::One { 1 } else { 2 };
        w = code | (w << 2);
        j = j - 1;
    }
    w
}

} // verus!

verus! {

proof fn lemma_zero_word()
    ensures
        top_code(0) == 0,
        tag_of(0) == 0,
{
    assert(0u16 >> 13u16 == 0u16) by (bit_vector);
    assert(0u16 >> 11u16 == 0u16) by (bit_vector);
}

proof fn lemma_available_cleared(orig: Seq<u16>, cleared: Seq<u16>, tag: u16, k: nat)
    requires
        k <= orig.len() == cleared.len(),
        tag != 0,
        tag_of(0) == 0,
        forall|j: int| 0 <= j < orig.len() ==> #[trigger] cleared[j] == if tag_of(orig[j]) == tag { 0u16 } else { orig[j] },
    ensures
        available(orig, tag, k) == available(cleared, tag, k),
        forall|j: int| 0 <= j < cleared.len() ==> tag_of(#[trigger] cleared[j]) != tag,
    decreases k,
{
    if k > 0 {
        lemma_available_cleared(orig, cleared, tag, (k - 1) as nat);
    }
}

proof fn lemma_room_arith(f: nat, b: nat, pos: nat)
    requires
        pos == if 5 * f < b { 5 * f } else { b },
    ensures
        (pos < b) <==> !((b + 4) / 5 <= f),
{
    assert((5 * f < b) <==> (f < (b + 4) / 5)) by (nonlinear_arith);
}

impl Board5 {
    spec fn stack_spec(&self, t: int) -> Seq<Piece> {
        decode_square(self.grid@[t], self.continuations@, t)
    }

    fn stack_at(&self, t: usize) -> (r: Vec<Piece>)
        requires
            t < 25,
        ensures
            r@ == decode_square(self.grid@[t as int], self.continuations@, t as int),
    {
        let w = self.grid[t];
        proof {
            lemma_fields(w);
        }
        let code = field(w, 15, 13);
        match code_to_piece(code) {
            None => Vec::new(),
            Some(top) => {
                let tag: u16 = (t + 1) as u16;
                let mut out: Vec<Piece> = Vec::new();
                let mut i: usize = 0;
                while i < 7
                    invariant
                        i <= 7,
                        t < 25,
                        tag == (t + 1) as u16,
                        out@ == conts_pieces(self.continuations@, tag, i as nat),
                    decreases 7 - i,
                {
                    let c = self.continuations[i];
                    proof {
                        lemma_fields(c);
                    }
                    if field(c, 15, 11) == tag {
                        unpack_into(field(c, 9, 0), 5, &mut out);
                    } else {
                        assert(out@ == out@ + Seq::<Piece>::empty());
                    }
                    i = i + 1;
                }
                unpack_into(field(w, 11, 0), 6, &mut out);
                out.push(top);
                out
            },
        }
    }

    /// Stores `s` as the stack of square `t`, claiming continuation words
    /// as needed; when too few are free, changes nothing.
    fn store(&mut self, t: usize, s: &Vec<Piece>) -> (r: Result<(), TakError>)
        requires
            t < 25,
            legal_stack(s@),
        ensures
            needed(s@.len()) <= available(old(self).continuations@, (t + 1) as u16, 7) ==> r is Ok
                && final(self).count == old(self).count
                && (s@.len() <= 7 ==> forall|j: int| 0 <= j < 7 ==> tag_of(#[trigger] final(self).continuations@[j]) != (t + 1) as u16)
                && forall|u: int| 0 <= u < 25 ==> #[trigger] final(self).stack_spec(u)
                    == if u == t { s@ } else { old(self).stack_spec(u) },
            !(needed(s@.len()) <= available(old(self).continuations@, (t + 1) as u16, 7))
                ==> r == Err::<(), TakError>(TakError::OutOfCapacity) && *final(self) == *old(self),
    {
        proof {
            lemma_zero_word();
        }
        let tag: u16 = (t + 1) as u16;
        let ghost orig = self.continuations@;
        let mut c = self.continuations;
        let mut i: usize = 0;
        while i < 7
            invariant
                i <= 7,
                c@.len() == 7,
                orig.len() == 7,
                forall|j: int| 0 <= j < i ==> #[trigger] c@[j] == if tag_of(orig[j]) == tag { 0u16 } else { orig[j] },
                forall|j: int| i <= j < 7 ==> #[trigger] c@[j] == orig[j],
            decreases 7 - i,
        {
            let w = c[i];
            proof {
                lemma_fields(w);
            }
            if field(w, 15, 11) == tag {
                c.set(i, 0);
            }
            i = i + 1;
        }
        let ghost cleared = c@;
        proof {
            lemma_available_cleared(orig, cleared, tag, 7);
        }
        let n = s.len();
        let low_start: usize = if n > 7 { n - 7 } else { 0 };
        let primary: u16 = if n == 0 {
            0
        } else {
            assert(all_flat(s@.subrange(low_start as int, n - 1))) by {
                assert forall|i: int| 0 <= i < n - 1 - low_start implies
                    (#[trigger] s@.subrange(low_start as int, n - 1)[i]).stone == Stone::Flat by {
                    assert(s@.subrange(low_start as int, n - 1)[i] == s@[low_start + i]);
                }
            }
            let low = pack_range(s, low_start, n - 1);
            proof {
                lemma_pack(s@.subrange(low_start as int, n - 1), 6);
                reveal_with_fuel(pow4, 7);
                lemma_pow4_mono((n - 1 - low_start) as nat, 6);
                lemma_code_round_trip(s@[n - 1]);
                lemma_primary_bits(piece_code(s@[n - 1]), low);
            }
            (piece_to_code(s[n - 1]) << 13) | low
        };
        let mut pos: usize = 0;
        let mut i: usize = 0;
        assert(s@.subrange(0, 0) == Seq::<Piece>::empty());
        while i < 7
            invariant
                i <= 7,
                t < 25,
                tag == (t + 1) as u16,
                tag != 0,
                tag_of(0) == 0,
                c@.len() == 7,
                orig.len() == 7,
                cleared.len() == 7,
                legal_stack(s@),
                n == s@.len(),
                low_start == if n > 7 { n - 7 } else { 0 },
                pos <= low_start,
                pos == if 5 * available(cleared, tag, i as nat) < low_start { 5 * available(cleared, tag, i as nat) } else { low_start as nat },
                forall|j: int| 0 <= j < 7 ==> tag_of(#[trigger] cleared[j]) != tag,
                forall|j: int| i <= j < 7 ==> #[trigger] c@[j] == cleared[j],
                forall|j: int| 0 <= j < 7 ==> #[trigger] cleared[j] == if tag_of(orig[j]) == tag { 0u16 } else { orig[j] },
                forall|j: int| 0 <= j < 7 && tag_of(orig[j]) != 0 && tag_of(orig[j]) != tag ==> #[trigger] c@[j] == orig[j],
                forall|j: int| 0 <= j < 7 ==> tag_of(#[trigger] c@[j]) == 0 || tag_of(c@[j]) == tag || c@[j] == orig[j],
                conts_pieces(c@, tag, i as nat) == s@.subrange(0, pos as int),
                low_start == 0 ==> c@ == cleared,
            decreases 7 - i,
        {
            let w = c[i];
            proof {
                lemma_fields(w);
            }
            let ghost before = c@;
            if field(w, 15, 11) == 0 && pos < low_start {
                let end = if pos + 5 < low_start { pos + 5 } else { low_start };
                assert(all_flat(s@.subrange(pos as int, end as int))) by {
                    assert forall|k: int| 0 <= k < end - pos implies
                        (#[trigger] s@.subrange(pos as int, end as int)[k]).stone == Stone::Flat by {
                        assert(s@.subrange(pos as int, end as int)[k] == s@[pos + k]);
                    }
                }
                let slots = pack_range(s, pos, end);
                proof {
                    lemma_pack(s@.subrange(pos as int, end as int), 5);
                    reveal_with_fuel(pow4, 6);
                    lemma_pow4_mono((end - pos) as nat, 5);
                    lemma_cont_bits(tag, slots);
                }
                c.set(i, (tag << 11) | slots);
                proof {
                    lemma_conts_frame(c@, before, tag, i as nat);
                    assert(s@.subrange(0, end as int) == s@.subrange(0, pos as int) + s@.subrange(pos as int, end as int));
                }
                pos = end;
            } else {
                proof {
                    assert(tag_of(c@[i as int]) != tag);
                }
            }
            i = i + 1;
        }
        proof {
            lemma_room_arith(available(cleared, tag, 7), low_start as nat, pos as nat);
        }
        if pos < low_start {
            return Err(TakError::OutOfCapacity);
        }
        let ghost old_self = *self;
        self.grid.set(t, primary);
        self.continuations = c;
        proof {
            assert forall|u: int| 0 <= u < 25 implies #[trigger] self.stack_spec(u)
                == if u == t { s@ } else { old_self.stack_spec(u) } by {
                if u == t {
                    if n == 0 {
                        assert(s@ =~= Seq::<Piece>::empty());
                    } else {
                        assert(s@ =~= s@.subrange(0, low_start as int) + s@.subrange(low_start as int, n - 1) + seq![s@[n - 1]]);
                    }
                } else {
                    let tu = (u + 1) as u16;
                    assert(tu != tag);
                    lemma_conts_frame(c@, orig, tu, 7);
                }
            }
        }
        Ok(())
    }
}

} // verus!

verus! {

impl Board for Board5 {
    open spec fn size_view(&self) -> nat {
        5
    }

    closed spec fn stacks(&self) -> Seq<Seq<Piece>> {
        Seq::new(25, |t: int| self.stack_spec(t))
    }

    closed spec fn counts(&self) -> PieceCount {
        self.count
    }

    closed spec fn wf(&self) -> bool {
        &&& self.count.within_limits()
        &&& self.count.max_flat == max_flat_for(5)
        &&& self.count.max_cap == max_cap_for(5)
    }

    open spec fn accepts_size(size: nat) -> bool {
        size == 5
    }

    closed spec fn has_room(&self, p: Point, height: nat) -> bool {
        needed(height) <= available(self.continuations@, (sq(p, 5) + 1) as u16, 7)
    }

    closed spec fn reserved(&self, p: Point) -> nat {
        owned(self.continuations@, (sq(p, 5) + 1) as u16, 7)
    }

    open spec fn unbounded() -> bool {
        false
    }

    open spec fn roomy(height: nat) -> bool {
        height <= 7
    }

    proof fn lemma_roomy(&self, p: Point, height: nat) {
    }

    proof fn lemma_unbounded_roomy(height: nat) {
    }

    proof fn lemma_unbounded(&self, p: Point, height: nat) {
    }

    proof fn lemma_accepts(size: nat) {
    }

    proof fn lemma_wf(&self) {
        assert forall|t: int| 0 <= t < self.stacks().len() implies legal_stack(#[trigger] self.stacks()[t]) by {
            lemma_decode_legal(self.grid@[t], self.continuations@, t);
        }
    }

    fn accepts(size: usize) -> (r: bool) {
        size == 5
    }

    fn new(size: usize) -> (r: Board5) {
        let r = Board5 { grid: [0u16; 25], continuations: [0u16; 7], count: PieceCount::new(5) };
        proof {
            lemma_zero_word();
        }
        assert(r.stacks() =~= crate::board::empty_stacks(5));
        r
    }

    fn size(&self) -> (r: usize) {
        5
    }

    fn count(&self) -> (r: PieceCount) {
        self.count
    }

    fn full(&self) -> (r: bool) {
        let mut t: usize = 0;
        while t < 25
            invariant
                t <= 25,
                forall|u: int| 0 <= u < t ==> (#[trigger] self.stacks()[u]).len() > 0,
            decreases 25 - t,
        {
            let w = self.grid[t];
            proof {
                lemma_fields(w);
            }
            if code_to_piece(field(w, 15, 13)).is_none() {
                assert(self.stacks()[t as int].len() == 0);
                return false;
            }
            assert(self.stacks()[t as int].len() > 0);
            t = t + 1;
        }
        true
    }

    fn at(&self, point: &Point) -> (r: Result<PieceIter, TakError>) {
        if point.x >= 5 || point.y >= 5 {
            return Err(TakError::InvalidPoint);
        }
        let t = point.y * 5 + point.x;
        Ok(PieceIter::new(self.stack_at(t)))
    }

    fn at_reset(&mut self, point: &Point) -> (r: Result<PieceIter, TakError>) {
        if point.x >= 5 || point.y >= 5 {
            return Err(TakError::InvalidPoint);
        }
        let t = point.y * 5 + point.x;
        let pieces = self.stack_at(t);
        let empty: Vec<Piece> = Vec::new();
        let ghost before = *self;
        let r = self.store(t, &empty);
        assert(r is Ok);
        assert(self.stacks() =~= with_stack(before.stacks(), 5, *point, Seq::empty()));
        proof {
            lemma_owned_none(self.continuations@, (t + 1) as u16, 7);
        }
        Ok(PieceIter::new(pieces))
    }

    fn place_piece(&mut self, point: &Point, piece: Piece) -> (r: Result<(), TakError>) {
        if point.x >= 5 || point.y >= 5 {
            return Err(TakError::InvalidPoint);
        }
        let t = point.y * 5 + point.x;
        let w = self.grid[t];
        proof {
            lemma_fields(w);
        }
        if code_to_piece(field(w, 15, 13)).is_some() {
            assert(self.stacks()[t as int].len() != 0);
            return Err(TakError::OccupiedSquare);
        }
        assert(self.stacks()[t as int].len() == 0);
        if self.count.used_up(&piece) {
            return Err(TakError::PieceExhausted);
        }
        let mut single: Vec<Piece> = Vec::new();
        single.push(piece);
        assert(single@ == seq![piece]);
        let ghost before = *self;
        let r = self.store(t, &single);
        assert(r is Ok);
        assert(self.stacks() =~= with_stack(before.stacks(), 5, *point, seq![piece]));
        let ghost stored = self.stacks();
        self.count.add(&piece);
        assert(self.stacks() =~= stored);
        Ok(())
    }

    fn add_piece(&mut self, point: &Point, piece: Piece) -> (r: Result<(), TakError>) {
        if point.x >= 5 || point.y >= 5 {
            return Err(TakError::InvalidPoint);
        }
        let t = point.y * 5 + point.x;
        let mut cur = self.stack_at(t);
        proof {
            lemma_decode_legal(self.grid@[t as int], self.continuations@, t as int);
            lemma_push_legal(cur@, piece);
        }
        if let Err(e) = push_piece(&mut cur, piece) {
            return Err(e);
        }
        let ghost before = *self;
        let r = self.store(t, &cur);
        proof {
            if r is Ok {
                assert(self.stacks() =~= with_stack(before.stacks(), 5, *point, cur@));
            }
        }
        r
    }

    fn set_stacks(&mut self, points: &Vec<Point>, stacks: &Vec<Vec<Piece>>) -> (r: Result<(), TakError>) {
        let mut work = *self;
        let mut i: usize = 0;
        while i < points.len()
            invariant
                work.wf(),
                work.size_view() == old(self).size_view(),
                work.counts() == old(self).counts(),
                *self == *old(self),
                i <= points@.len() == stacks@.len(),
                forall|j: int| 0 <= j < points@.len() ==> on_board(#[trigger] points@[j], old(self).size_view()),
                forall|j: int| 0 <= j < stacks@.len() ==> legal_stack(#[trigger] stacks@[j]@),
                work.stacks() == replay(old(self).stacks(), old(self).size_view(), points@, stack_views(stacks@), i as nat),
            decreases points@.len() - i,
        {
            let ghost before = work;
            match work.set_stack(&points[i], &stacks[i]) {
                Ok(()) => {},
                Err(e) => {
                    proof {
                        if Board5::roomy(stacks@[i as int]@.len()) {
                            before.lemma_roomy(points@[i as int], stacks@[i as int]@.len());
                        }
                    }
                    return Err(e);
                },
            }
            i = i + 1;
        }
        *self = work;
        Ok(())
    }

    fn set_stack(&mut self, point: &Point, pieces: &Vec<Piece>) -> (r: Result<(), TakError>) {
        let t = point.y * 5 + point.x;
        let ghost before = *self;
        let r = self.store(t, pieces);
        proof {
            if r is Ok {
                assert(self.stacks() =~= with_stack(before.stacks(), 5, *point, pieces@));
            }
        }
        r
    }
}

} // verus!

verus! {

/// The pieces that the tagged words among the first `k` of `cs` hold.
pub open spec fn tagged_pieces(cs: Seq<u16>, k: nat) -> Seq<Piece>
    decreases k,
{
    if k == 0 {
        Seq::empty()
    } else {
        tagged_pieces(cs, (k - 1) as nat) + if tag_of(cs[k - 1]) != 0 {
            unpack(cont_slots(cs[k - 1]), 5)
        } else {
            Seq::empty()
        }
    }
}

/// The pieces left to read from a packed square, bottom first: its
/// continuation words, its slots, then its top piece.
pub open spec fn snapshot_pieces(spot: u16, extra: Seq<u16>) -> Seq<Piece> {
    tagged_pieces(extra, 7) + unpack(low_slots(spot), 6) + match code_piece(top_code(spot)) {
        Some(p) => seq![p],
        None => Seq::empty(),
    }
}

proof fn lemma_unpack_shift(x: u16, k: nat)
    requires
        k >= 1,
        (x as nat) < pow4(k),
    ensures
        unpack(x >> 2u16, k) == unpack(x >> 2u16, (k - 1) as nat),
        (x >> 2u16) as nat * 4 <= x as nat,
    decreases k,
{
    assert((x >> 2u16) * 4 <= x) by (bit_vector);
    let y = x >> 2u16;
    assert(y as nat * 4 < 4 * pow4((k - 1) as nat));
    lemma_unpack_bound(y, k);
}

proof fn lemma_unpack_bound(y: u16, k: nat)
    requires
        k >= 1,
        (y as nat) < pow4((k - 1) as nat),
    ensures
        unpack(y, k) == unpack(y, (k - 1) as nat),
    decreases k,
{
    if y & 3u16 == 0 {
    } else if k == 1 {
        assert(y == 0);
        assert(0u16 & 3u16 == 0) by (bit_vector);
    } else {
        assert((y >> 2u16) * 4 <= y) by (bit_vector);
        assert((y >> 2u16) as nat * 4 < 4 * pow4((k - 2) as nat));
        lemma_unpack_bound(y >> 2u16, (k - 1) as nat);
    }
}

/// Reads the lowest piece left in a packed square and removes it: from the
/// continuation words first, in pool order, then from the slots of the
/// square's word, and last the top piece.
pub fn advance_piece_iterator(spot: &mut u16, extra: &mut [u16; 7]) -> (r: Option<Piece>)
    ensures
        snapshot_pieces(*old(spot), old(extra)@).len() == 0 ==> r is None,
        snapshot_pieces(*old(spot), old(extra)@).len() > 0 ==> r == Some(snapshot_pieces(*old(spot), old(extra)@)[0])
            && snapshot_pieces(*final(spot), final(extra)@) == snapshot_pieces(*old(spot), old(extra)@).drop_first(),
{
    proof {
        lemma_zero_word();
    }
    let ghost start = extra@;
    assert(start.len() == 7);
    let mut i: usize = 0;
    while i < 7
        invariant
            i <= 7,
            *extra == *old(extra),
            *spot == *old(spot),
            start == extra@,
            start.len() == 7,
            tagged_pieces(extra@, i as nat) == Seq::<Piece>::empty(),
        decreases 7 - i,
    {
        let c = extra[i];
        proof {
            lemma_fields(c);
        }
        let tag = field(c, 15, 11);
        let slots = field(c, 9, 0);
        if tag != 0 && slots & 3 != 0 {
            let v = slots & 3;
            let piece = Piece { stone: Stone::Flat, owner: if v == 1 { Player::One } else { Player::Two } };
            let rest = slots >> 2;
            proof {
                assert(slots < 0x400) by (bit_vector)
                    requires slots == c & 0x3ffu16;
                reveal_with_fuel(pow4, 6);
                lemma_unpack_shift(slots, 5);
                assert(rest < 0x400) by (bit_vector)
                    requires rest == slots >> 2u16, slots < 0x400u16;
                lemma_cont_bits(tag, rest);
            }
            let word: u16 = if rest == 0 { 0 } else { (tag << 11) | rest };
            extra.set(i, word);
            proof {
                lemma_tagged_frame(start, extra@, i as nat);
                assert(unpack(cont_slots(c), 5) == seq![piece] + unpack(rest, 4));
                if rest == 0 {
                    assert(rest & 3u16 == 0) by (bit_vector)
                        requires rest == 0u16;
                    assert(unpack(rest, 4) == Seq::<Piece>::empty());
                    assert(unpack(cont_slots(0), 5) == Seq::<Piece>::empty()) by {
                        assert(0u16 & 0x3ffu16 == 0u16) by (bit_vector);
                        assert(0u16 & 3u16 == 0u16) by (bit_vector);
                    }
                }
                lemma_tagged_after(start, extra@, i as nat, piece);
                let ta = tagged_pieces(start, 7);
                let rest_old = unpack(low_slots(*spot), 6) + match code_piece(top_code(*spot)) {
                    Some(p) => seq![p],
                    None => Seq::<Piece>::empty(),
                };
                assert(snapshot_pieces(*spot, start) =~= ta + rest_old);
                assert(snapshot_pieces(*spot, extra@) =~= ta.drop_first() + rest_old);
                assert((ta + rest_old)[0] == piece);
                assert(ta.drop_first() + rest_old =~= (ta + rest_old).drop_first());
            }
            return Some(piece);
        }
        proof {
            assert(tagged_pieces(extra@, i as nat + 1) == tagged_pieces(extra@, i as nat)) by {
                if tag_of(c) != 0 {
                    assert(cont_slots(c) & 3u16 == 0);
                }
            }
        }
        i = i + 1;
    }
    let w = *spot;
    proof {
        lemma_fields(w);
    }
    let top = field(w, 15, 13);
    let low = field(w, 11, 0);
    if low & 3 != 0 {
        let v = low & 3;
        let piece = Piece { stone: Stone::Flat, owner: if v == 1 { Player::One } else { Player::Two } };
        let rest = low >> 2;
        proof {
            assert(low < 0x1000) by (bit_vector)
                requires low == w & 0xfffu16;
            reveal_with_fuel(pow4, 7);
            lemma_unpack_shift(low, 6);
            assert(rest < 0x1000) by (bit_vector)
                requires rest == low >> 2u16, low < 0x1000u16;
            lemma_primary_bits(top, rest);
        }
        *spot = (top << 13) | rest;
        proof {
            assert(unpack(low_slots(w), 6) == seq![piece] + unpack(rest, 5));
            assert(snapshot_pieces(*spot, extra@) =~= snapshot_pieces(w, extra@).drop_first());
        }
        return Some(piece);
    }
    match code_to_piece(top) {
        Some(p) => {
            *spot = 0;
            proof {
                assert(low_slots(0) == 0) by {
                    assert(0u16 & 0xfffu16 == 0u16) by (bit_vector);
                }
                assert(0u16 & 3u16 == 0u16) by (bit_vector);
                assert(snapshot_pieces(*spot, extra@) =~= snapshot_pieces(w, extra@).drop_first());
            }
            Some(p)
        },
        None => None,
    }
}

proof fn lemma_tagged_frame(a: Seq<u16>, b: Seq<u16>, k: nat)
    requires
        k <= a.len(),
        k <= b.len(),
        forall|j: int| 0 <= j < k ==> a[j] == b[j],
    ensures
        tagged_pieces(a, k) == tagged_pieces(b, k),
    decreases k,
{
    if k > 0 {
        lemma_tagged_frame(a, b, (k - 1) as nat);
    }
}

proof fn lemma_tagged_after(a: Seq<u16>, b: Seq<u16>, i: nat, piece: Piece)
    requires
        i < 7,
        a.len() == 7,
        b == a.update(i as int, b[i as int]),
        tagged_pieces(a, i) == Seq::<Piece>::empty(),
        tagged_pieces(b, i) == Seq::<Piece>::empty(),
        tag_of(a[i as int]) != 0,
        unpack(cont_slots(a[i as int]), 5) == seq![piece] + (if tag_of(b[i as int]) != 0 {
            unpack(cont_slots(b[i as int]), 5)
        } else {
            Seq::<Piece>::empty()
        }),
    ensures
        tagged_pieces(b, 7) == tagged_pieces(a, 7).drop_first(),
        tagged_pieces(a, 7).len() >= 1,
        tagged_pieces(a, 7)[0] == piece,
{
    lemma_tagged_suffix(a, b, i, 7, piece);
}

proof fn lemma_tagged_suffix(a: Seq<u16>, b: Seq<u16>, i: nat, k: nat, piece: Piece)
    requires
        i < k <= 7,
        a.len() == 7,
        b == a.update(i as int, b[i as int]),
        tagged_pieces(a, i) == Seq::<Piece>::empty(),
        tagged_pieces(b, i) == Seq::<Piece>::empty(),
        tag_of(a[i as int]) != 0,
        unpack(cont_slots(a[i as int]), 5) == seq![piece] + (if tag_of(b[i as int]) != 0 {
            unpack(cont_slots(b[i as int]), 5)
        } else {
            Seq::<Piece>::empty()
        }),
    ensures
        tagged_pieces(a, k).len() >= 1,
        tagged_pieces(a, k)[0] == piece,
        tagged_pieces(b, k) == tagged_pieces(a, k).drop_first(),
    decreases k,
{
    if k > i + 1 {
        lemma_tagged_suffix(a, b, i, (k - 1) as nat, piece);
        assert(b[k - 1] == a[k - 1]);
    }
}

impl Board5 {
    /// The word of the square at `point` and the continuation words it
    /// owns, the others cleared: what `advance_piece_iterator` reads.
    pub fn packed(&self, point: &Point) -> (r: Result<(u16, [u16; 7]), TakError>)
        ensures
            on_board_5(*point) ==> r is Ok && snapshot_pieces(r->Ok_0.0, r->Ok_0.1@)
                == self.stacks()[sq(*point, 5)],
            !on_board_5(*point) ==> r == Err::<(u16, [u16; 7]), TakError>(TakError::InvalidPoint),
    {
        if point.x >= 5 || point.y >= 5 {
            return Err(TakError::InvalidPoint);
        }
        proof {
            lemma_zero_word();
        }
        let t = point.y * 5 + point.x;
        let tag: u16 = (t + 1) as u16;
        let w = self.grid[t];
        proof {
            lemma_fields(w);
        }
        let mut extra = [0u16; 7];
        if code_to_piece(field(w, 15, 13)).is_none() {
            assert(snapshot_pieces(0, extra@) =~= Seq::<Piece>::empty()) by {
                assert(0u16 & 0xfffu16 == 0u16) by (bit_vector);
                assert(0u16 & 3u16 == 0u16) by (bit_vector);
                lemma_tagged_zero(extra@, 7);
            }
            return Ok((0, extra));
        }
        let mut i: usize = 0;
        while i < 7
            invariant
                i <= 7,
                tag == (t + 1) as u16,
                tag_of(0) == 0,
                extra@.len() == 7,
                forall|j: int| 0 <= j < i ==> #[trigger] extra@[j] == if tag_of(self.continuations@[j]) == tag {
                    self.continuations@[j]
                } else {
                    0u16
                },
                forall|j: int| i <= j < 7 ==> #[trigger] extra@[j] == 0,
            decreases 7 - i,
        {
            let c = self.continuations[i];
            proof {
                lemma_fields(c);
            }
            if field(c, 15, 11) == tag {
                extra.set(i, c);
            }
            i = i + 1;
        }
        proof {
            lemma_tagged_filter(self.continuations@, extra@, tag, 7);
        }
        Ok((w, extra))
    }
}

pub open spec fn on_board_5(p: Point) -> bool {
    p.x < 5 && p.y < 5
}

proof fn lemma_tagged_zero(cs: Seq<u16>, k: nat)
    requires
        k <= cs.len(),
        forall|j: int| 0 <= j < cs.len() ==> cs[j] == 0,
        tag_of(0) == 0,
    ensures
        tagged_pieces(cs, k) == Seq::<Piece>::empty(),
    decreases k,
{
    if k > 0 {
        lemma_tagged_zero(cs, (k - 1) as nat);
    }
}

proof fn lemma_tagged_filter(cs: Seq<u16>, extra: Seq<u16>, tag: u16, k: nat)
    requires
        k <= 7,
        cs.len() == 7,
        extra.len() == 7,
        tag != 0,
        tag_of(0) == 0,
        forall|j: int| 0 <= j < 7 ==> #[trigger] extra[j] == if tag_of(cs[j]) == tag { cs[j] } else { 0u16 },
    ensures
        tagged_pieces(extra, k) == conts_pieces(cs, tag, k),
    decreases k,
{
    if k > 0 {
        lemma_tagged_filter(cs, extra, tag, (k - 1) as nat);
    }
}

} // verus!
