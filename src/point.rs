use vstd::prelude::*;

verus! {

/// A square of the grid: `x` is the file (`a` = 0), `y` the rank (`1` = 0).
#[derive(Clone, Copy, Debug, PartialEq, Eq, Structural, PartialOrd, Ord)]
pub struct Point {
    pub x: usize,
    pub y: usize,
}

/// The file letters of the notation, `a` to `h`.
pub open spec fn file_char(x: nat) -> char {
    if x == 0 { 'a' }
    else if x == 1 { 'b' }
    else if x == 2 { 'c' }
    else if x == 3 { 'd' }
    else if x == 4 { 'e' }
    else if x == 5 { 'f' }
    else if x == 6 { 'g' }
    else { 'h' }
}

/// The rank digits of the notation, `1` to `8`.
pub open spec fn rank_char(y: nat) -> char {
    if y == 0 { '1' }
    else if y == 1 { '2' }
    else if y == 2 { '3' }
    else if y == 3 { '4' }
    else if y == 4 { '5' }
    else if y == 5 { '6' }
    else if y == 6 { '7' }
    else { '8' }
}

/// The index of a file letter, if it is one.
pub open spec fn file_of(c: char) -> Option<usize> {
    if 'a' <= c && c <= 'h' {
        Some((c as u32 - 'a' as u32) as usize)
    } else {
        None
    }
}

/// The index of a rank digit, if it is one.
pub open spec fn rank_of(c: char) -> Option<usize> {
    if '1' <= c && c <= '8' {
        Some((c as u32 - '1' as u32) as usize)
    } else {
        None
    }
}

/// The point written by two characters, as `c3`.
pub open spec fn point_of(f: char, r: char) -> Option<Point> {
    match (file_of(f), rank_of(r)) {
        (Some(x), Some(y)) => Some(Point { x, y }),
        _ => None,
    }
}

/// A point that the notation can write: on a board of at most eight files and ranks.
pub open spec fn writable(p: Point) -> bool {
    p.x < 8 && p.y < 8
}

pub open spec fn point_chars(p: Point) -> Seq<char> {
    seq![file_char(p.x as nat), rank_char(p.y as nat)]
}

impl Point {
    pub fn new(x: usize, y: usize) -> (r: Point)
        ensures
            r == (Point { x, y }),
    {
        Point { x, y }
    }

    /// Reads a point from its file letter and rank digit.
    pub fn from_chars(f: char, r: char) -> (p: Option<Point>)
        ensures
            p == point_of(f, r),
    {
        if 'a' <= f && f <= 'h' && '1' <= r && r <= '8' {
            Some(Point { x: (f as u32 - 'a' as u32) as usize, y: (r as u32 - '1' as u32) as usize })
        } else {
            None
        }
    }

    /// The file letter and rank digit of a point.
    pub fn to_chars(&self) -> (r: (char, char))
        requires
            writable(*self),
        ensures
            seq![r.0, r.1] == point_chars(*self),
    {
        let files = ['a', 'b', 'c', 'd', 'e', 'f', 'g', 'h'];
        let ranks = ['1', '2', '3', '4', '5', '6', '7', '8'];
        (files[self.x], ranks[self.y])
    }
}

/// Reading back the two characters of a point gives the point.
pub proof fn lemma_point_round_trip(p: Point)
    requires
        writable(p),
    ensures
        point_of(file_char(p.x as nat), rank_char(p.y as nat)) == Some(p),
{
}

} // verus!
