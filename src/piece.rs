use vstd::prelude::*;

verus! {

/// The kind of a stone.
#[derive(Clone, Copy, Debug, PartialEq, Eq, Structural)]
pub enum Stone {
    Flat,
    Standing,
    Capstone,
}

/// One of the two players.
#[derive(Clone, Copy, Debug, PartialEq, Eq, Structural)]
pub enum Player {
    One,
    Two,
}

/// A stone of a given kind, owned by a player.
#[derive(Clone, Copy, Debug, PartialEq, Eq, Structural)]
pub struct Piece {
    pub stone: Stone,
    pub owner: Player,
}

impl Player {
    pub open spec fn spec_other(self) -> Player {
        match self {
            Player::One => Player::Two,
            Player::Two => Player::One,
        }
    }

    /// The opponent.
    pub fn other(&self) -> (r: Player)
        ensures
            r == self.spec_other(),
            r != *self,
    {
        match self {
            Player::One => Player::Two,
            Player::Two => Player::One,
        }
    }

    /// The digit that names the player in text: `1` or `2`.
    pub fn to_char(&self) -> (c: char)
        ensures
            c == player_char(*self),
    {
        match self {
            Player::One => '1',
            Player::Two => '2',
        }
    }
}

pub open spec fn player_char(p: Player) -> char {
    match p {
        Player::One => '1',
        Player::Two => '2',
    }
}

pub open spec fn stone_char(s: Stone) -> char {
    match s {
        Stone::Flat => 'F',
        Stone::Standing => 'S',
        Stone::Capstone => 'C',
    }
}

/// The stone named by a letter of the notation, if any.
pub open spec fn stone_of_char(c: char) -> Option<Stone> {
    if c == 'F' {
        Some(Stone::Flat)
    } else if c == 'S' {
        Some(Stone::Standing)
    } else if c == 'C' {
        Some(Stone::Capstone)
    } else {
        None
    }
}

impl Stone {
    /// The letter that names the stone in text.
    pub fn to_char(&self) -> (c: char)
        ensures
            c == stone_char(*self),
    {
        match self {
            Stone::Flat => 'F',
            Stone::Standing => 'S',
            Stone::Capstone => 'C',
        }
    }

    /// Reads a stone from its letter.
    pub fn from_char(c: char) -> (r: Option<Stone>)
        ensures
            r == stone_of_char(c),
    {
        if c == 'F' {
            Some(Stone::Flat)
        } else if c == 'S' {
            Some(Stone::Standing)
        } else if c == 'C' {
            Some(Stone::Capstone)
        } else {
            None
        }
    }
}

/// The result of moving `top` onto a stack whose top piece is `base`: the
/// (possibly flattened) base, or the reason it is refused.
pub open spec fn landing(top: Piece, base: Piece) -> Result<Piece, crate::error::TakError> {
    if base.stone == Stone::Capstone {
        Err(crate::error::TakError::OntoCapstone)
    } else if base.stone == Stone::Standing && top.stone != Stone::Capstone {
        Err(crate::error::TakError::OntoStanding)
    } else if base.stone == Stone::Standing {
        Ok(Piece { stone: Stone::Flat, owner: base.owner })
    } else {
        Ok(base)
    }
}

impl Piece {
    pub fn new(stone: Stone, owner: Player) -> (r: Piece)
        ensures
            r.stone == stone,
            r.owner == owner,
    {
        Piece { stone, owner }
    }

    pub fn owner(&self) -> (r: Player)
        ensures
            r == self.owner,
    {
        self.owner
    }

    pub fn stone(&self) -> (r: Stone)
        ensures
            r == self.stone,
    {
        self.stone
    }

    /// Checks that `self` may move onto `base`; a capstone flattens a
    /// standing stone.
    pub fn move_onto(&self, base: &mut Piece) -> (r: Result<(), crate::error::TakError>)
        ensures
            match landing(*self, *old(base)) {
                Ok(b) => r is Ok && *final(base) == b,
                Err(e) => r == Err::<(), crate::error::TakError>(e) && *final(base) == *old(base),
            },
    {
        if base.stone == Stone::Capstone {
            return Err(crate::error::TakError::OntoCapstone);
        }
        if base.stone == Stone::Standing && self.stone != Stone::Capstone {
            return Err(crate::error::TakError::OntoStanding);
        }
        if base.stone == Stone::Standing {
            *base = Piece { stone: Stone::Flat, owner: base.owner };
        }
        Ok(())
    }

    /// The piece as two characters: its stone letter and its owner digit.
    pub fn to_chars(&self) -> (r: (char, char))
        ensures
            r == (stone_char(self.stone), player_char(self.owner)),
    {
        (self.stone.to_char(), self.owner.to_char())
    }
}

} // verus!
