use vstd::prelude::*;

verus! {

/// Number of faces of the cube, and of paint colors.
pub const NUM_COLORS: usize = 6;

/// A face identity, which doubles as the paint color that belongs on that face
/// in the solved state.
#[derive(Clone, Copy, PartialEq, Eq, Structural, Debug, Hash)]
pub struct Color {
    pub idx: usize,
}

pub const WHITE: usize = 0;
pub const RED: usize = 1;
pub const BLUE: usize = 2;
pub const ORANGE: usize = 3;
pub const GREEN: usize = 4;
pub const YELLOW: usize = 5;

impl Color {
    pub open spec fn wf(self) -> bool {
        self.idx < NUM_COLORS
    }

    /// The one-letter abbreviation of each color.
    pub open spec fn abrv_spec(self) -> Seq<char> {
        if self.idx == 0 {
            seq!['w']
        } else if self.idx == 1 {
            seq!['r']
        } else if self.idx == 2 {
            seq!['b']
        } else if self.idx == 3 {
            seq!['o']
        } else if self.idx == 4 {
            seq!['g']
        } else {
            seq!['y']
        }
    }

    /// The one-letter abbreviation of the color: w, r, b, o, g or y.
    pub fn abrv(&self) -> (r: &'static str)
        ensures
            r@ == self.abrv_spec(),
    {
        proof {
            reveal_strlit("w");
            reveal_strlit("r");
            reveal_strlit("b");
            reveal_strlit("o");
            reveal_strlit("g");
            reveal_strlit("y");
        }
        if self.idx == 0 {
            "w"
        } else if self.idx == 1 {
            "r"
        } else if self.idx == 2 {
            "b"
        } else if self.idx == 3 {
            "o"
        } else if self.idx == 4 {
            "g"
        } else {
            "y"
        }
    }

    /// The name of each color.
    pub open spec fn name_spec(self) -> Seq<char> {
        if self.idx == 0 {
            seq!['W', 'h', 'i', 't', 'e']
        } else if self.idx == 1 {
            seq!['R', 'e', 'd']
        } else if self.idx == 2 {
            seq!['B', 'l', 'u', 'e']
        } else if self.idx == 3 {
            seq!['O', 'r', 'a', 'n', 'g', 'e']
        } else if self.idx == 4 {
            seq!['G', 'r', 'e', 'e', 'n']
        } else {
            seq!['Y', 'e', 'l', 'l', 'o', 'w']
        }
    }

    /// The name of the color: White, Red, Blue, Orange, Green or Yellow.
    pub fn name(&self) -> (r: &'static str)
        ensures
            r@ == self.name_spec(),
    {
        proof {
            reveal_strlit("White");
            reveal_strlit("Red");
            reveal_strlit("Blue");
            reveal_strlit("Orange");
            reveal_strlit("Green");
            reveal_strlit("Yellow");
        }
        if self.idx == 0 {
            "White"
        } else if self.idx == 1 {
            "Red"
        } else if self.idx == 2 {
            "Blue"
        } else if self.idx == 3 {
            "Orange"
        } else if self.idx == 4 {
            "Green"
        } else {
            "Yellow"
        }
    }

    pub fn new(idx: usize) -> (r: Color)
        requires
            idx < NUM_COLORS,
        ensures
            r.idx == idx,
            r.wf(),
    {
        Color { idx }
    }
}

} // verus!
