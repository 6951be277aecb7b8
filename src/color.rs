use vstd::prelude::*;

verus! {

/// The six tower colors, in the order in which the search tries them.
#[derive(Clone, Copy, Debug, PartialEq, Eq, Structural)]
pub enum Color {
    Red,
    Orange,
    Yellow,
    Green,
    Blue,
    Purple,
}

/// The color numbered `n` (0 for red up to 5 for purple).
pub open spec fn color_of(n: int) -> Color
    recommends
        0 <= n < 6,
{
    if n == 0 {
        Color::Red
    } else if n == 1 {
        Color::Orange
    } else if n == 2 {
        Color::Yellow
    } else if n == 3 {
        Color::Green
    } else if n == 4 {
        Color::Blue
    } else {
        Color::Purple
    }
}

impl Color {
    /// The number of the color: 0 for red up to 5 for purple.
    pub open spec fn index(self) -> int {
        match self {
            Color::Red => 0,
            Color::Orange => 1,
            Color::Yellow => 2,
            Color::Green => 3,
            Color::Blue => 4,
            Color::Purple => 5,
        }
    }

    /// The color numbered `n`, or `None` when `n` is not below six.
    pub fn from_int(n: u8) -> (r: Option<Color>)
        ensures
            r is Some <==> n < 6,
            n < 6 ==> r == Some(color_of(n as int)),
    {
        match n {
            0 => Some(Color::Red),
            1 => Some(Color::Orange),
            2 => Some(Color::Yellow),
            3 => Some(Color::Green),
            4 => Some(Color::Blue),
            5 => Some(Color::Purple),
            _ => None,
        }
    }

    /// The number of the color.
    pub fn int_value(self) -> (r: u8)
        ensures
            r as int == self.index(),
    {
        match self {
            Color::Red => 0,
            Color::Orange => 1,
            Color::Yellow => 2,
            Color::Green => 3,
            Color::Blue => 4,
            Color::Purple => 5,
        }
    }

    /// The first letter of the color's name, as boards are written out.
    pub fn initial(self) -> (r: char)
        ensures
            r == color_initial(self),
    {
        match self {
            Color::Red => 'R',
            Color::Orange => 'O',
            Color::Yellow => 'Y',
            Color::Green => 'G',
            Color::Blue => 'B',
            Color::Purple => 'P',
        }
    }
}

/// The letter that stands for a color when a board is written out.
pub open spec fn color_initial(c: Color) -> char {
    match c {
        Color::Red => 'R',
        Color::Orange => 'O',
        Color::Yellow => 'Y',
        Color::Green => 'G',
        Color::Blue => 'B',
        Color::Purple => 'P',
    }
}

} // verus!
