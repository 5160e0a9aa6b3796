use vstd::prelude::*;
use crate::board::{Board, PieceCount, place_model, valid_size};
use crate::board_naive::NaiveBoard;
use crate::error::TakError;
use crate::piece::{Piece, Player, Stone};
use crate::point::Point;
use crate::slide::{slide_model, slide_stack};
use crate::board::on_board;
use crate::point::writable;
use crate::text::{chars_of, decimal, push_all, push_decimal, string_of};
use crate::turn::{Direction, Turn, TurnModel, parse_turn, render_turn, turn_point};
use crate::win::{check_flat_winner as flat_winner_of, check_winner, flat_winner, winner};

verus! {

/// Who may place what: during the first two turns each player places a
/// flat stone of the opponent, afterwards stones of their own.
pub open spec fn placement_rule(turn_number: nat, next: Player, stone: Stone, owner: Player) -> Result<(), TakError> {
    if turn_number >= 2 {
        if next != owner { Err(TakError::MustPlaceOwnPiece) } else { Ok(()) }
    } else if next == owner {
        Err(TakError::MustPlaceOpponentPieceOnOpening)
    } else if stone != Stone::Flat {
        Err(TakError::MustPlaceFlatOnOpening)
    } else {
        Ok(())
    }
}

/// The board and counts after `next` makes the move `m` at turn
/// `turn_number`, a placement being of a stone of `owner`; or the first
/// rule the move breaks.
pub open spec fn move_model(stacks: Seq<Seq<Piece>>, counts: PieceCount, size: nat, turn_number: nat, next: Player,
    m: TurnModel, owner: Option<Player>) -> Result<(Seq<Seq<Piece>>, PieceCount), TakError> {
    match m {
        TurnModel::Place { point, stone } => match owner {
            None => Err(TakError::MissingOwner),
            Some(o) => match placement_rule(turn_number, next, stone, o) {
                Err(e) => Err(e),
                Ok(()) => if counts.spec_used_up(Piece { stone, owner: o }) {
                    Err(TakError::PieceExhausted)
                } else {
                    place_model(stacks, counts, size, point, Piece { stone, owner: o })
                },
            },
        },
        TurnModel::Slide { num_pieces, point, direction, drops } =>
            match slide_model(stacks, size, num_pieces, point, direction, drops, next) {
                Ok(s) => Ok((s, counts)),
                Err(e) => Err(e),
            },
    }
}

/// A match: the board, the player to move and the moves made so far.
#[derive(Clone, Debug)]
pub struct Game {
    board: NaiveBoard,
    next: Player,
    history: Vec<Turn>,
}

/// What a move does to a game: on success the board follows the rules,
/// the turn passes, the move is recorded and the winner, if any, is
/// returned; on failure nothing changes.
pub open spec fn move_post(before: Game, after: Game, m: TurnModel, owner: Option<Player>,
    r: Result<Option<Player>, TakError>) -> bool {
    &&& after.wf()
    &&& match move_model(before.stacks(), before.counts(), before.size_view(), before.turn_count(),
        before.next_player(), m, owner) {
        Ok((s, c)) => {
            &&& r == Ok::<Option<Player>, TakError>(winner(s, before.size_view(), c))
            &&& after.stacks() == s
            &&& after.counts() == c
            &&& after.size_view() == before.size_view()
            &&& after.next_player() == before.next_player().spec_other()
            &&& after.moves() == before.moves().push(m)
        },
        Err(e) => r == Err::<Option<Player>, TakError>(e) && after == before,
    }
}

/// Once a player has placed every stone of a kind, placing another of
/// that kind is refused whatever else the move gets right.
pub proof fn lemma_exhausted_move_refused(stacks: Seq<Seq<Piece>>, counts: PieceCount, size: nat, turn_number: nat,
    next: Player, point: Point, stone: Stone, owner: Player)
    requires
        placement_rule(turn_number, next, stone, owner) is Ok,
        counts.spec_used_up(Piece { stone, owner }),
    ensures
        move_model(stacks, counts, size, turn_number, next, TurnModel::Place { point, stone }, Some(owner))
            == Err::<(Seq<Seq<Piece>>, PieceCount), TakError>(TakError::PieceExhausted),
{
}

/// The header of a game record, up to the moves.
pub open spec fn ptn_header(size: nat) -> Seq<char> {
    "[Date \"2016.09.16\"]\n[Player1 \"anon1\"]\n[Player2 \"anon2\"]\n[Result \"\"]\n[Size \""@ + decimal(size) + "\"]\n"@
}

/// Moves `2 * j` and `2 * j + 1` of a record, numbered `j + 1`.
pub open spec fn ptn_pair(ms: Seq<TurnModel>, j: int) -> Seq<char> {
    decimal((j + 1) as nat) + seq!['.', ' '] + render_turn(ms[2 * j]) + if 2 * j + 1 < ms.len() {
        seq![' '] + render_turn(ms[2 * j + 1]) + seq!['\n']
    } else {
        Seq::empty()
    }
}

/// The first `k` numbered pairs of moves.
pub open spec fn ptn_moves(ms: Seq<TurnModel>, k: nat) -> Seq<char>
    decreases k,
{
    if k == 0 { Seq::empty() } else { ptn_moves(ms, (k - 1) as nat) + ptn_pair(ms, k - 1) }
}

impl Game {
    pub closed spec fn wf(&self) -> bool {
        &&& self.board.wf()
        &&& forall|i: int| 0 <= i < self.history@.len() ==> writable(turn_point(#[trigger] self.history@[i]@))
    }

    pub closed spec fn stacks(&self) -> Seq<Seq<Piece>> {
        self.board.stacks()
    }

    pub closed spec fn counts(&self) -> PieceCount {
        self.board.counts()
    }

    pub closed spec fn size_view(&self) -> nat {
        self.board.size_view()
    }

    pub closed spec fn next_player(&self) -> Player {
        self.next
    }

    /// The moves made so far.
    pub closed spec fn moves(&self) -> Seq<TurnModel> {
        self.history@.map_values(|t: Turn| t@)
    }

    pub open spec fn turn_count(&self) -> nat {
        self.moves().len()
    }

    /// The board of a game never holds more stones of a kind than its
    /// owner has.
    pub proof fn lemma_within_limits(&self)
        requires
            self.wf(),
        ensures
            self.counts().within_limits(),
            valid_size(self.size_view()),
            self.counts().max_flat == crate::board::max_flat_for(self.size_view()),
            self.counts().max_cap == crate::board::max_cap_for(self.size_view()),
    {
        self.board.lemma_wf();
    }

    /// A new game on an empty board; player one moves first.
    pub fn new(size: usize) -> (r: Game)
        requires
            valid_size(size as nat),
        ensures
            r.wf(),
            r.size_view() == size,
            r.stacks() == crate::board::empty_stacks(size as nat),
            r.counts() == PieceCount::fresh(size as nat),
            r.next_player() == Player::One,
            r.moves().len() == 0,
    {
        let r = Game { board: NaiveBoard::new(size), next: Player::One, history: Vec::new() };
        assert(r.moves() == Seq::<TurnModel>::empty());
        r
    }

    /// How many moves have been made.
    pub fn turn_number(&self) -> (r: usize)
        ensures
            r == self.turn_count(),
    {
        self.history.len()
    }

    pub fn size(&self) -> (r: usize)
        requires
            self.wf(),
        ensures
            r == self.size_view(),
    {
        self.board.size()
    }

    /// The board the game is played on.
    pub fn board(&self) -> (r: &NaiveBoard)
        ensures
            r.stacks() == self.stacks(),
            r.counts() == self.counts(),
            r.size_view() == self.size_view(),
            self.wf() ==> r.wf(),
    {
        &self.board
    }

    /// The board as text: the grid, top rank first, and the stones placed.
    pub fn to_string(&self) -> (r: String)
        requires
            self.wf(),
        ensures
            r@ == crate::render::grid_chars(self.stacks(), self.size_view()) + crate::render::counts_chars(self.counts()),
    {
        crate::render::str_from_board(&self.board)
    }

    /// The move `ai` suggests in this position.
    pub fn predict(&self, ai: crate::ai::Ai) -> (r: Turn)
        requires
            self.wf(),
        ensures
            r@ == crate::ai::suggested(self.stacks(), self.size_view(), self.turn_count()),
    {
        ai.next_move(self.history.len(), &self.board)
    }

    /// The game as a record: a header with the board size, then the moves
    /// in full notation, numbered two by two.
    #[verifier::rlimit(60)]
    pub fn as_ptn(&self) -> (r: String)
        requires
            self.wf(),
        ensures
            r@ == ptn_header(self.size_view()) + ptn_moves(self.moves(), ((self.moves().len() + 1) / 2) as nat),
    {
        let mut out = chars_of("[Date \"2016.09.16\"]\n[Player1 \"anon1\"]\n[Player2 \"anon2\"]\n[Result \"\"]\n[Size \"");
        push_decimal(&mut out, self.board.size());
        let tail = chars_of("\"]\n");
        push_all(&mut out, tail.as_slice());
        let ghost head = out@;
        let ghost ms = self.moves();
        let n = self.history.len();
        let mut j: usize = 0;
        while j < n - j
            invariant
                n == self.history@.len() == ms.len(),
                ms == self.moves(),
                self.wf(),
                2 * j <= n + 1,
                out@ == head + ptn_moves(ms, j as nat),
            decreases n + 1 - 2 * j,
        {
            assert(writable(turn_point(self.history@[2 * j as int]@)));
            push_decimal(&mut out, j + 1);
            out.push('.');
            out.push(' ');
            let first = self.history[j + j].to_chars();
            push_all(&mut out, first.as_slice());
            if j + j + 1 < n {
                assert(writable(turn_point(self.history@[2 * j + 1]@)));
                out.push(' ');
                let second = self.history[j + j + 1].to_chars();
                push_all(&mut out, second.as_slice());
                out.push('\n');
            }
            j = j + 1;
        }
        assert(j == (n + 1) / 2);
        string_of(&out)
    }

    /// The player to move.
    pub fn next(&self) -> (r: Player)
        ensures
            r == self.next_player(),
    {
        self.next
    }

    /// The winner of the current position, if any.
    pub fn check_winner(&self) -> (r: Option<Player>)
        requires
            self.wf(),
        ensures
            r == winner(self.stacks(), self.size_view(), self.counts()),
    {
        check_winner(&self.board)
    }

    /// The winner by the flat count, if a player is out of stones or the board is full.
    pub fn check_flat_winner(&self) -> (r: Option<Player>)
        requires
            self.wf(),
        ensures
            r == flat_winner(self.stacks(), self.counts()),
    {
        flat_winner_of(&self.board)
    }

    fn place(&mut self, point: &Point, stone: Stone, owner: Player) -> (r: Result<(), TakError>)
        requires
            old(self).wf(),
        ensures
            final(self).wf(),
            final(self).next == old(self).next,
            final(self).history == old(self).history,
            match placement_rule(old(self).turn_count(), old(self).next, stone, owner) {
                Err(e) => r == Err::<(), TakError>(e) && *final(self) == *old(self),
                Ok(()) => if old(self).counts().spec_used_up(Piece { stone, owner }) {
                    r == Err::<(), TakError>(TakError::PieceExhausted) && *final(self) == *old(self)
                } else {
                    match place_model(old(self).stacks(), old(self).counts(), old(self).size_view(), *point,
                        Piece { stone, owner }) {
                        Ok((s, c)) => r is Ok && final(self).stacks() == s && final(self).counts() == c
                            && final(self).size_view() == old(self).size_view(),
                        Err(e) => r == Err::<(), TakError>(e) && *final(self) == *old(self),
                    }
                },
            },
    {
        if self.history.len() >= 2 {
            if self.next != owner {
                return Err(TakError::MustPlaceOwnPiece);
            }
        } else if self.next == owner {
            return Err(TakError::MustPlaceOpponentPieceOnOpening);
        } else if stone != Stone::Flat {
            return Err(TakError::MustPlaceFlatOnOpening);
        }
        let piece = Piece::new(stone, owner);
        if self.board.count().used_up(&piece) {
            return Err(TakError::PieceExhausted);
        }
        self.board.place_piece(point, piece)
    }

    fn slide(&mut self, num_pieces: usize, point: &Point, dir: Direction, drops: &Vec<usize>)
        -> (r: Result<(), TakError>)
        requires
            old(self).wf(),
        ensures
            final(self).wf(),
            final(self).next == old(self).next,
            final(self).history == old(self).history,
            final(self).counts() == old(self).counts(),
            final(self).size_view() == old(self).size_view(),
            match slide_model(old(self).stacks(), old(self).size_view(), num_pieces, *point, dir, drops@,
                old(self).next) {
                Ok(s) => r is Ok && final(self).stacks() == s,
                Err(e) => r == Err::<(), TakError>(e) && *final(self) == *old(self),
            },
    {
        let next = self.next;
        slide_stack(&mut self.board, num_pieces, point, dir, drops, next)
    }

    /// Applies a parsed move for the player to move; `owner` says whose
    /// stone a placement puts down.
    pub fn play_parsed(&mut self, turn: Turn, owner: Option<Player>) -> (r: Result<Option<Player>, TakError>)
        requires
            old(self).wf(),
        ensures
            move_post(*old(self), *final(self), turn@, owner, r),
            r is Ok && old(self).turn_count() < 2 && turn@ is Place ==> turn@->Place_stone == Stone::Flat
                && owner == Some(old(self).next_player().spec_other()),
    {
        match &turn {
            Turn::Place { point, stone } => {
                match owner {
                    Some(player) => {
                        if let Err(e) = self.place(point, *stone, player) {
                            return Err(e);
                        }
                    },
                    None => {
                        return Err(TakError::MissingOwner);
                    },
                }
            },
            Turn::Slide { num_pieces, point, direction, drops } => {
                if let Err(e) = self.slide(*num_pieces, point, *direction, drops) {
                    return Err(e);
                }
            },
        }
        let ghost m = turn@;
        proof {
            self.board.lemma_wf();
            assert(on_board(turn_point(m), self.board.size_view()));
        }
        self.history.push(turn);
        self.next = self.next.other();
        assert(self.moves() == old(self).moves().push(m));
        assert forall|i: int| 0 <= i < self.history@.len() implies writable(turn_point(#[trigger] self.history@[i]@)) by {
            if i < old(self).history@.len() {
                assert(self.history@[i] == old(self).history@[i]);
            }
        }
        Ok(self.check_winner())
    }

    /// Reads and applies a move of `player`, who must be the player to move.
    pub fn play(&mut self, turn: &str, player: Player, owner: Option<Player>) -> (r: Result<Option<Player>, TakError>)
        requires
            old(self).wf(),
        ensures
            old(self).next_player() != player ==> r == Err::<Option<Player>, TakError>(TakError::WrongTurn)
                && *final(self) == *old(self),
            old(self).next_player() == player ==> match parse_turn(turn@) {
                None => r == Err::<Option<Player>, TakError>(TakError::InvalidNotation) && *final(self) == *old(self),
                Some(m) => move_post(*old(self), *final(self), m, owner, r),
            },
    {
        if self.next != player {
            return Err(TakError::WrongTurn);
        }
        match Turn::parse(turn) {
            Some(t) => self.play_parsed(t, owner),
            None => Err(TakError::InvalidNotation),
        }
    }

    /// Applies a move of `player`, placing stones as the turn number asks:
    /// the opponent's on the first two turns, the player's own afterwards.
    pub fn player_move(&mut self, turn: &str, player: Player) -> (r: Result<Option<Player>, TakError>)
        requires
            old(self).wf(),
        ensures
            old(self).next_player() != player ==> r == Err::<Option<Player>, TakError>(TakError::WrongTurn)
                && *final(self) == *old(self),
            old(self).next_player() == player ==> match parse_turn(turn@) {
                None => r == Err::<Option<Player>, TakError>(TakError::InvalidNotation) && *final(self) == *old(self),
                Some(m) => move_post(*old(self), *final(self), m,
                    Some(if old(self).turn_count() >= 2 { player } else { player.spec_other() }), r),
            },
    {
        let owner = if self.history.len() >= 2 { Some(player) } else { Some(player.other()) };
        self.play(turn, player, owner)
    }

    /// Applies a move of whoever's turn it is by the count of moves made:
    /// player one after an even number, player two after an odd one.
    pub fn play_simple(&mut self, turn: &str) -> (r: Result<Option<Player>, TakError>)
        requires
            old(self).wf(),
        ensures
            ({
                let player = if old(self).turn_count() % 2 == 0 { Player::One } else { Player::Two };
                &&& old(self).next_player() != player ==> r == Err::<Option<Player>, TakError>(TakError::WrongTurn)
                    && *final(self) == *old(self)
                &&& old(self).next_player() == player ==> match parse_turn(turn@) {
                    None => r == Err::<Option<Player>, TakError>(TakError::InvalidNotation) && *final(self) == *old(self),
                    Some(m) => move_post(*old(self), *final(self), m,
                        Some(if old(self).turn_count() >= 2 { player } else { player.spec_other() }), r),
                }
            }),
    {
        let player = if self.history.len() % 2 == 0 { Player::One } else { Player::Two };
        self.player_move(turn, player)
    }
}

} // verus!
