use vstd::prelude::*;
use crate::piece::{Stone, stone_char, stone_of_char};
use crate::point::{Point, point_of, point_chars, writable};
use crate::text::{decimal, digit_char, digit_of, char_to_digit, push_decimal};

verus! {

/// One of the four directions a stack can slide in.
#[derive(Clone, Copy, Debug, PartialEq, Eq, Structural)]
pub enum Direction {
    Right,
    Left,
    Up,
    Down,
}

/// The point `offset` steps from `p` in direction `d`, when it stays below
/// `size` on the axis of the move (and at or above zero).
pub open spec fn adjust_spec(d: Direction, p: Point, offset: int, size: int) -> Option<Point> {
    match d {
        Direction::Right => if p.x + offset < size {
            Some(Point { x: (p.x + offset) as usize, y: p.y })
        } else {
            None
        },
        Direction::Left => if p.x >= offset {
            Some(Point { x: (p.x - offset) as usize, y: p.y })
        } else {
            None
        },
        Direction::Up => if p.y + offset < size {
            Some(Point { x: p.x, y: (p.y + offset) as usize })
        } else {
            None
        },
        Direction::Down => if p.y >= offset {
            Some(Point { x: p.x, y: (p.y - offset) as usize })
        } else {
            None
        },
    }
}

pub open spec fn all_directions() -> Seq<Direction> {
    seq![Direction::Right, Direction::Left, Direction::Down, Direction::Up]
}

pub open spec fn push_some(s: Seq<Point>, o: Option<Point>) -> Seq<Point> {
    match o {
        Some(p) => s.push(p),
        None => s,
    }
}

/// The points next to `p`, in the order right, left, down, up.
pub open spec fn neighbors_spec(p: Point, size: int) -> Seq<Point> {
    push_some(
        push_some(
            push_some(
                push_some(Seq::empty(), adjust_spec(Direction::Right, p, 1, size)),
                adjust_spec(Direction::Left, p, 1, size),
            ),
            adjust_spec(Direction::Down, p, 1, size),
        ),
        adjust_spec(Direction::Up, p, 1, size),
    )
}

pub open spec fn direction_char(d: Direction) -> char {
    match d {
        Direction::Right => '>',
        Direction::Left => '<',
        Direction::Up => '+',
        Direction::Down => '-',
    }
}

pub open spec fn direction_of(c: char) -> Option<Direction> {
    if c == '>' {
        Some(Direction::Right)
    } else if c == '<' {
        Some(Direction::Left)
    } else if c == '+' {
        Some(Direction::Up)
    } else if c == '-' {
        Some(Direction::Down)
    } else {
        None
    }
}

impl Direction {
    /// Steps `offset` squares from `point`; `None` when that leaves the
    /// board along the axis of the move.
    pub fn adjust(&self, point: &Point, offset: usize, size: usize) -> (r: Option<Point>)
        ensures
            r == adjust_spec(*self, *point, offset as int, size as int),
    {
        match self {
            Direction::Right => if offset < size && point.x < size - offset {
                Some(Point { x: point.x + offset, y: point.y })
            } else {
                None
            },
            Direction::Left => if point.x >= offset {
                Some(Point { x: point.x - offset, y: point.y })
            } else {
                None
            },
            Direction::Up => if offset < size && point.y < size - offset {
                Some(Point { x: point.x, y: point.y + offset })
            } else {
                None
            },
            Direction::Down => if point.y >= offset {
                Some(Point { x: point.x, y: point.y - offset })
            } else {
                None
            },
        }
    }

    /// The four directions.
    pub fn all() -> (r: Vec<Direction>)
        ensures
            r@ == all_directions(),
    {
        vec![Direction::Right, Direction::Left, Direction::Down, Direction::Up]
    }

    /// All of the neighbors of `point` on a board of the given size.
    pub fn neighbors(point: &Point, size: usize) -> (r: Vec<Point>)
        ensures
            r@ == neighbors_spec(*point, size as int),
    {
        let mut r: Vec<Point> = Vec::new();
        if let Some(q) = Direction::Right.adjust(point, 1, size) {
            r.push(q);
        }
        if let Some(q) = Direction::Left.adjust(point, 1, size) {
            r.push(q);
        }
        if let Some(q) = Direction::Down.adjust(point, 1, size) {
            r.push(q);
        }
        if let Some(q) = Direction::Up.adjust(point, 1, size) {
            r.push(q);
        }
        r
    }

    /// The symbol of the direction in the notation.
    pub fn to_char(&self) -> (c: char)
        ensures
            c == direction_char(*self),
    {
        match self {
            Direction::Right => '>',
            Direction::Left => '<',
            Direction::Up => '+',
            Direction::Down => '-',
        }
    }

    pub fn from_char(c: char) -> (r: Option<Direction>)
        ensures
            r == direction_of(c),
    {
        if c == '>' {
            Some(Direction::Right)
        } else if c == '<' {
            Some(Direction::Left)
        } else if c == '+' {
            Some(Direction::Up)
        } else if c == '-' {
            Some(Direction::Down)
        } else {
            None
        }
    }
}

/// A move: place a new stone, or slide part of a stack.
#[derive(Clone, Debug)]
pub enum Turn {
    Place { point: Point, stone: Stone },
    Slide { num_pieces: usize, point: Point, direction: Direction, drops: Vec<usize> },
}

/// The mathematical value of a move.
pub enum TurnModel {
    Place { point: Point, stone: Stone },
    Slide { num_pieces: usize, point: Point, direction: Direction, drops: Seq<usize> },
}

impl View for Turn {
    type V = TurnModel;

    open spec fn view(&self) -> TurnModel {
        match self {
            Turn::Place { point, stone } => TurnModel::Place { point: *point, stone: *stone },
            Turn::Slide { num_pieces, point, direction, drops } => TurnModel::Slide {
                num_pieces: *num_pieces,
                point: *point,
                direction: *direction,
                drops: drops@,
            },
        }
    }
}

pub open spec fn drop_digit(c: char) -> bool {
    '1' <= c && c <= '9'
}

/// Each drop digit of a slide is `1` to `9`; `None` if any is not.
pub open spec fn drops_of(s: Seq<char>) -> Option<Seq<usize>> {
    if forall|i: int| 0 <= i < s.len() ==> drop_digit(#[trigger] s[i]) {
        Some(Seq::new(s.len(), |i: int| digit_of(s[i])->0))
    } else {
        None
    }
}

/// The notation of moves. Placement: `Fa1`, `Sa1`, `Ca1`, or `a1` for a
/// flat stone. Slide: `3a1>12` (count, point, direction, drops), or `a1>`
/// and `a1>1` for a slide of one piece. Drops left out of either form
/// default to a single drop of one piece.
pub open spec fn parse_turn(s: Seq<char>) -> Option<TurnModel> {
    if s.len() >= 1 && stone_of_char(s[0]) is Some {
        if s.len() == 3 && point_of(s[1], s[2]) is Some {
            Some(TurnModel::Place { point: point_of(s[1], s[2])->0, stone: stone_of_char(s[0])->0 })
        } else {
            None
        }
    } else if s.len() >= 1 && digit_of(s[0]) is Some {
        if s.len() >= 4 && digit_of(s[0])->0 >= 1 && point_of(s[1], s[2]) is Some
            && direction_of(s[3]) is Some && drops_of(s.subrange(4, s.len() as int)) is Some {
            Some(TurnModel::Slide {
                num_pieces: digit_of(s[0])->0,
                point: point_of(s[1], s[2])->0,
                direction: direction_of(s[3])->0,
                drops: if drops_of(s.subrange(4, s.len() as int))->0.len() == 0 {
                    seq![1usize]
                } else {
                    drops_of(s.subrange(4, s.len() as int))->0
                },
            })
        } else {
            None
        }
    } else if s.len() == 2 && point_of(s[0], s[1]) is Some {
        Some(TurnModel::Place { point: point_of(s[0], s[1])->0, stone: Stone::Flat })
    } else if s.len() >= 3 && point_of(s[0], s[1]) is Some && direction_of(s[2]) is Some
        && drops_of(s.subrange(3, s.len() as int)) is Some {
        let d = drops_of(s.subrange(3, s.len() as int))->0;
        Some(TurnModel::Slide {
            num_pieces: 1,
            point: point_of(s[0], s[1])->0,
            direction: direction_of(s[2])->0,
            drops: if d.len() == 0 { seq![1usize] } else { d },
        })
    } else {
        None
    }
}

/// The drops of a slide, each in decimal.
pub open spec fn drops_chars(d: Seq<usize>) -> Seq<char>
    decreases d.len(),
{
    if d.len() == 0 {
        Seq::empty()
    } else {
        drops_chars(d.drop_last()) + decimal(d.last() as nat)
    }
}

/// The full notation of a move.
pub open spec fn render_turn(t: TurnModel) -> Seq<char> {
    match t {
        TurnModel::Place { point, stone } => seq![stone_char(stone)] + point_chars(point),
        TurnModel::Slide { num_pieces, point, direction, drops } =>
            decimal(num_pieces as nat) + point_chars(point) + seq![direction_char(direction)]
                + drops_chars(drops),
    }
}

pub open spec fn turn_point(t: TurnModel) -> Point {
    match t {
        TurnModel::Place { point, stone } => point,
        TurnModel::Slide { num_pieces, point, direction, drops } => point,
    }
}

/// A move that the full notation can write: its point is on an eight by
/// eight board, and its count and its drops, of which there is at least
/// one, are single digits from 1 to 9.
pub open spec fn representable(t: TurnModel) -> bool {
    match t {
        TurnModel::Place { point, stone } => writable(point),
        TurnModel::Slide { num_pieces, point, direction, drops } =>
            writable(point) && 1 <= num_pieces <= 9 && drops.len() >= 1
                && forall|i: int| 0 <= i < drops.len() ==> 1 <= #[trigger] drops[i] <= 9,
    }
}

proof fn lemma_drops_chars(d: Seq<usize>)
    requires
        forall|i: int| 0 <= i < d.len() ==> 1 <= #[trigger] d[i] <= 9,
    ensures
        drops_chars(d).len() == d.len(),
        forall|i: int| 0 <= i < d.len() ==> #[trigger] drops_chars(d)[i] == digit_char(d[i] as nat),
    decreases d.len(),
{
    if d.len() > 0 {
        lemma_drops_chars(d.drop_last());
        assert(decimal(d.last() as nat) == seq![digit_char(d.last() as nat)]);
        assert forall|i: int| 0 <= i < d.len() implies #[trigger] drops_chars(d)[i] == digit_char(d[i] as nat) by {
            if i < d.len() - 1 {
                assert(d.drop_last()[i] == d[i]);
            }
        }
    }
}

/// Reading back the full notation of a move gives the move, for every move
/// that the notation can write.
pub proof fn lemma_notation_round_trip(m: TurnModel)
    requires
        representable(m),
    ensures
        parse_turn(render_turn(m)) == Some(m),
{
    let s = render_turn(m);
    match m {
        TurnModel::Place { point, stone } => {
            assert(s[0] == stone_char(stone));
            assert(s[1] == crate::point::file_char(point.x as nat));
            assert(s[2] == crate::point::rank_char(point.y as nat));
            crate::point::lemma_point_round_trip(point);
        },
        TurnModel::Slide { num_pieces, point, direction, drops } => {
            assert(decimal(num_pieces as nat) == seq![digit_char(num_pieces as nat)]);
            assert(s[0] == digit_char(num_pieces as nat));
            assert(s[1] == crate::point::file_char(point.x as nat));
            assert(s[2] == crate::point::rank_char(point.y as nat));
            assert(s[3] == direction_char(direction));
            crate::point::lemma_point_round_trip(point);
            lemma_drops_chars(drops);
            let t = s.subrange(4, s.len() as int);
            assert(t == drops_chars(drops));
            assert forall|i: int| 0 <= i < t.len() implies drop_digit(#[trigger] t[i]) by {
                assert(1 <= drops[i] <= 9);
            }
            assert(Seq::new(t.len(), |i: int| digit_of(t[i])->0) == drops);
        },
    }
}

/// A slide read from text carries one to nine pieces and has at least one
/// drop, each of one to nine pieces.
pub proof fn lemma_parsed_slide_shape(s: Seq<char>)
    requires
        parse_turn(s) matches Some(TurnModel::Slide { .. }),
    ensures
        ({
            let m = parse_turn(s)->0;
            &&& 1 <= m->Slide_num_pieces <= 9
            &&& m->Slide_drops.len() >= 1
            &&& forall|i: int| 0 <= i < m->Slide_drops.len() ==> 1 <= #[trigger] m->Slide_drops[i] <= 9
        }),
{
    if s.len() >= 1 && digit_of(s[0]) is Some {
        let t = s.subrange(4, s.len() as int);
        assert forall|i: int| 0 <= i < t.len() implies 1 <= #[trigger] drops_of(t)->0[i] <= 9 by {
            assert(drop_digit(t[i]));
        }
    } else {
        let t = s.subrange(3, s.len() as int);
        assert forall|i: int| 0 <= i < t.len() implies 1 <= #[trigger] drops_of(t)->0[i] <= 9 by {
            assert(drop_digit(t[i]));
        }
    }
}

fn parse_drops(s: &Vec<char>, from: usize) -> (r: Option<Vec<usize>>)
    requires
        from <= s@.len(),
    ensures
        match drops_of(s@.subrange(from as int, s@.len() as int)) {
            Some(d) => r is Some && r->0@ == d,
            None => r is None,
        },
{
    let mut d: Vec<usize> = Vec::new();
    let mut i: usize = from;
    let ghost t = s@.subrange(from as int, s@.len() as int);
    while i < s.len()
        invariant
            from <= i <= s@.len(),
            t == s@.subrange(from as int, s@.len() as int),
            forall|j: int| from <= j < i ==> drop_digit(#[trigger] s@[j]),
            d@ == Seq::new((i - from) as nat, |j: int| digit_of(s@[from + j])->0),
        decreases s@.len() - i,
    {
        let c = s[i];
        if '1' <= c && c <= '9' {
            let v = char_to_digit(c).unwrap();
            d.push(v);
        } else {
            assert(!drop_digit(t[i - from]));
            return None;
        }
        i = i + 1;
    }
    assert forall|j: int| 0 <= j < t.len() implies drop_digit(#[trigger] t[j]) by {
        assert(t[j] == s@[from + j]);
    }
    assert(d@ == Seq::new(t.len(), |j: int| digit_of(t[j])->0));
    Some(d)
}

impl std::str::FromStr for Turn {
    type Err = crate::error::TakError;

    fn from_str(s: &str) -> Result<Turn, crate::error::TakError> {
        match Turn::parse(s) {
            Some(t) => Ok(t),
            None => Err(crate::error::TakError::InvalidNotation),
        }
    }
}

impl PartialEq for Turn {
    fn eq(&self, other: &Turn) -> (r: bool)
        ensures
            r == (self@ == other@),
    {
        match (self, other) {
            (Turn::Place { point: p1, stone: s1 }, Turn::Place { point: p2, stone: s2 }) => p1 == p2 && s1 == s2,
            (
                Turn::Slide { num_pieces: n1, point: p1, direction: d1, drops: v1 },
                Turn::Slide { num_pieces: n2, point: p2, direction: d2, drops: v2 },
            ) => {
                if n1 != n2 || p1 != p2 || d1 != d2 || v1.len() != v2.len() {
                    return false;
                }
                let mut i: usize = 0;
                while i < v1.len()
                    invariant
                        i <= v1@.len() == v2@.len(),
                        self@ is Slide && other@ is Slide,
                        self@->Slide_drops == v1@,
                        other@->Slide_drops == v2@,
                        forall|j: int| 0 <= j < i ==> v1@[j] == v2@[j],
                    decreases v1@.len() - i,
                {
                    if v1[i] != v2[i] {
                        assert(self@->Slide_drops[i as int] != other@->Slide_drops[i as int]);
                        return false;
                    }
                    i = i + 1;
                }
                assert(v1@ =~= v2@);
                true
            },
            _ => false,
        }
    }
}

impl vstd::std_specs::cmp::PartialEqSpecImpl for Turn {
    open spec fn obeys_eq_spec() -> bool {
        true
    }

    open spec fn eq_spec(&self, other: &Turn) -> bool {
        self@ == other@
    }
}

impl Turn {
    /// Reads a move in either notation.
    pub fn parse_chars(s: &Vec<char>) -> (r: Option<Turn>)
        ensures
            match parse_turn(s@) {
                Some(m) => r is Some && r->0@ == m,
                None => r is None,
            },
    {
        let n = s.len();
        if n >= 1 && Stone::from_char(s[0]).is_some() {
            let stone = Stone::from_char(s[0]).unwrap();
            if n == 3 {
                if let Some(point) = Point::from_chars(s[1], s[2]) {
                    return Some(Turn::Place { point, stone });
                }
            }
            None
        } else if n >= 1 && char_to_digit(s[0]).is_some() {
            let count = char_to_digit(s[0]).unwrap();
            if n >= 4 && count >= 1 {
                if let Some(point) = Point::from_chars(s[1], s[2]) {
                    if let Some(direction) = Direction::from_char(s[3]) {
                        if let Some(drops) = parse_drops(s, 4) {
                            if drops.len() == 0 {
                                let one = vec![1usize];
                                assert(one@ == seq![1usize]);
                                return Some(Turn::Slide { num_pieces: count, point, direction, drops: one });
                            }
                            return Some(Turn::Slide { num_pieces: count, point, direction, drops });
                        }
                    }
                }
            }
            None
        } else if n >= 2 && Point::from_chars(s[0], s[1]).is_some() {
            let point = Point::from_chars(s[0], s[1]).unwrap();
            if n == 2 {
                return Some(Turn::Place { point, stone: Stone::Flat });
            }
            if let Some(direction) = Direction::from_char(s[2]) {
                if let Some(drops) = parse_drops(s, 3) {
                    if drops.len() == 0 {
                        let one = vec![1usize];
                        assert(one@ == seq![1usize]);
                        return Some(Turn::Slide { num_pieces: 1, point, direction, drops: one });
                    }
                    return Some(Turn::Slide { num_pieces: 1, point, direction, drops });
                }
            }
            None
        } else {
            None
        }
    }

    /// Reads a move from text in either notation.
    pub fn parse(s: &str) -> (r: Option<Turn>)
        ensures
            match parse_turn(s@) {
                Some(m) => r is Some && r->0@ == m,
                None => r is None,
            },
    {
        let chars = crate::text::chars_of(s);
        Turn::parse_chars(&chars)
    }

    /// The full notation of the move.
    pub fn to_chars(&self) -> (r: Vec<char>)
        requires
            writable(turn_point(self@)),
        ensures
            r@ == render_turn(self@),
    {
        let mut r: Vec<char> = Vec::new();
        match self {
            Turn::Place { point, stone } => {
                r.push(stone.to_char());
                let (f, k) = point.to_chars();
                r.push(f);
                r.push(k);
            },
            Turn::Slide { num_pieces, point, direction, drops } => {
                push_decimal(&mut r, *num_pieces);
                let (f, k) = point.to_chars();
                r.push(f);
                r.push(k);
                r.push(direction.to_char());
                let ghost head = r@;
                let mut i: usize = 0;
                while i < drops.len()
                    invariant
                        i <= drops@.len(),
                        r@ == head + drops_chars(drops@.subrange(0, i as int)),
                    decreases drops@.len() - i,
                {
                    assert(drops@.subrange(0, i + 1).drop_last() == drops@.subrange(0, i as int));
                    push_decimal(&mut r, drops[i]);
                    i = i + 1;
                }
                assert(drops@.subrange(0, drops@.len() as int) == drops@);
            },
        }
        r
    }

    /// The full notation of the move, as a string.
    pub fn to_string(&self) -> (r: String)
        requires
            writable(turn_point(self@)),
        ensures
            r@ == render_turn(self@),
    {
        crate::text::string_of(&self.to_chars())
    }
}

} // verus!
