use vstd::prelude::*;

verus! {

/// Whether `c` has the Unicode `Alphabetic` property.
pub uninterp spec fn alphabetic(c: char) -> bool;

/// Relies on `char::is_alphabetic`: true exactly for characters with the
/// Unicode `Alphabetic` property.
#[verifier::external_body]
fn char_is_alphabetic(c: char) -> (r: bool)
    ensures
        r == alphabetic(c),
{
    c.is_alphabetic()
}

/// The color of a block, written as an alphabetic character.
#[derive(Copy, Clone, PartialEq, Eq, Hash, Ord, PartialOrd, Debug)]
pub struct Color(char);

/// The character given for a color was not alphabetic.
#[derive(Clone, Copy, Debug, PartialEq, Eq)]
pub struct InvalidColorChar;

impl Color {
    /// The alphabetic character that names this color.
    pub closed spec fn spec_char(&self) -> char {
        self.0
    }

    pub fn as_char(&self) -> (r: char)
        ensures
            r == self.spec_char(),
    {
        self.0
    }

    /// A color may be named by any alphabetic character, and by nothing else.
    pub fn try_from(c: char) -> (r: Result<Color, InvalidColorChar>)
        ensures
            alphabetic(c) <==> r is Ok,
            r is Ok ==> r->Ok_0.spec_char() == c,
    {
        if char_is_alphabetic(c) {
            Ok(Color(c))
        } else {
            Err(InvalidColorChar)
        }
    }
}

/// The four rotations of a piece, R0 being the spawn orientation.
#[derive(Copy, Clone, PartialEq, Eq, Debug, Hash, Ord, PartialOrd, Structural)]
pub enum Orientation {
    R0,
    R1,
    R2,
    R3,
}

/// The number of clockwise quarter turns from R0 to `o`, in `0..4`.
pub open spec fn quarter_turns(o: Orientation) -> int {
    match o {
        Orientation::R0 => 0,
        Orientation::R1 => 1,
        Orientation::R2 => 2,
        Orientation::R3 => 3,
    }
}

/// The orientation `n` quarter turns clockwise from R0.
pub open spec fn orientation_of(n: int) -> Orientation {
    let k = n % 4;
    if k == 0 {
        Orientation::R0
    } else if k == 1 {
        Orientation::R1
    } else if k == 2 {
        Orientation::R2
    } else {
        Orientation::R3
    }
}

impl Default for Orientation {
    fn default() -> (r: Orientation)
        ensures
            r == Orientation::R0,
    {
        Orientation::R0
    }
}

impl Orientation {
    pub fn as_i32(self) -> (r: i32)
        ensures
            r == quarter_turns(self),
    {
        match self {
            Orientation::R0 => 0,
            Orientation::R1 => 1,
            Orientation::R2 => 2,
            Orientation::R3 => 3,
        }
    }

    /// One quarter turn clockwise.
    pub fn cw(self) -> (r: Orientation)
        ensures
            r == orientation_of(quarter_turns(self) + 1),
    {
        match self {
            Orientation::R0 => Orientation::R1,
            Orientation::R1 => Orientation::R2,
            Orientation::R2 => Orientation::R3,
            Orientation::R3 => Orientation::R0,
        }
    }

    /// One quarter turn counter-clockwise.
    pub fn ccw(self) -> (r: Orientation)
        ensures
            r == orientation_of(quarter_turns(self) + 3),
    {
        match self {
            Orientation::R0 => Orientation::R3,
            Orientation::R1 => Orientation::R0,
            Orientation::R2 => Orientation::R1,
            Orientation::R3 => Orientation::R2,
        }
    }

    /// A half turn.
    pub fn flip(self) -> (r: Orientation)
        ensures
            r == orientation_of(quarter_turns(self) + 2),
    {
        match self {
            Orientation::R0 => Orientation::R2,
            Orientation::R1 => Orientation::R3,
            Orientation::R2 => Orientation::R0,
            Orientation::R3 => Orientation::R1,
        }
    }
}

/// The rotations form a cyclic group of order four: `ccw` undoes `cw`, a flip
/// is two clockwise turns, and four clockwise turns are the identity.
pub proof fn lemma_rotation_group(o: Orientation)
    ensures
        orientation_of(quarter_turns(orientation_of(quarter_turns(o) + 1)) + 3) == o,
        orientation_of(quarter_turns(orientation_of(quarter_turns(o) + 3)) + 1) == o,
        orientation_of(quarter_turns(orientation_of(quarter_turns(o) + 1)) + 1)
            == orientation_of(quarter_turns(o) + 2),
        orientation_of(quarter_turns(o) + 4) == o,
        orientation_of(quarter_turns(o)) == o,
{
}

/// A player input.
#[derive(Copy, Clone, PartialEq, Eq, Debug, Hash, Ord, PartialOrd, Structural)]
pub enum Input {
    Left,
    Right,
    CW,
    CCW,
    Hold,
    SD,
    HD,
}

} // verus!
