use vstd::prelude::*;

use rand::rngs::StdRng;
use rand::Rng;
use vstd::string::StringExecFns;

use crate::color::Color;

verus! {

/// The sense of a quarter turn, looking at the turned face from outside.
#[derive(Clone, Copy, PartialEq, Eq, Structural, Debug, Hash)]
pub enum Direction {
    Clockwise,
    CounterClockwise,
}

/// A quarter turn of the piece model: which face, and which way.
#[derive(Clone, Copy, PartialEq, Eq, Structural, Debug, Hash)]
pub struct Rotation {
    pub face: Color,
    pub direction: Direction,
}

#[verifier::external_type_specification]
#[verifier::external_body]
pub struct ExStdRng(rand::rngs::StdRng);

/// Relies on `rand::Rng::gen_range` over the half-open range `0..n`, which
/// panics only where the range is empty: the number drawn lies in the range.
#[verifier::external_body]
pub(crate) fn draw_below(rng: &mut StdRng, n: usize) -> (r: usize)
    requires
        n > 0,
    ensures
        r < n,
{
    rng.gen_range(0..n)
}

/// The number of elementary moves: six faces, two directions each.
pub const NUM_MOVES: usize = 12;

/// The face of the move with the given number: moves come in pairs per face.
pub open spec fn move_face(i: int) -> int {
    i / 2
}

/// The direction of the move with the given number: even is clockwise.
pub open spec fn move_direction(i: int) -> Direction {
    if i % 2 == 0 {
        Direction::Clockwise
    } else {
        Direction::CounterClockwise
    }
}

impl Rotation {
    pub open spec fn wf(self) -> bool {
        self.face.wf()
    }

    /// The move with number `i`, in the order face 0 clockwise, face 0
    /// counterclockwise, face 1 clockwise, and so on.
    pub open spec fn nth(i: int) -> Rotation {
        Rotation { face: Color { idx: move_face(i) as usize }, direction: move_direction(i) }
    }

    /// Builds the move with number `i` (see `nth`).
    pub fn from_index(i: usize) -> (r: Rotation)
        requires
            i < NUM_MOVES,
        ensures
            r == Rotation::nth(i as int),
            r.wf(),
    {
        let direction = if i % 2 == 0 {
            Direction::Clockwise
        } else {
            Direction::CounterClockwise
        };
        Rotation { face: Color::new(i / 2), direction }
    }

    /// The move as text: the abbreviation of its face, with a `'` when
    /// counterclockwise.
    pub fn to_text(&self) -> (r: String)
        ensures
            r@ == self.face.abrv_spec() + match self.direction {
                Direction::Clockwise => Seq::<char>::empty(),
                Direction::CounterClockwise => seq!['\''],
            },
    {
        let mut text = String::new();
        text.append(self.face.abrv());
        if self.direction == Direction::CounterClockwise {
            proof {
                reveal_strlit("'");
            }
            text.append("'");
        }
        text
    }

    /// One of the twelve moves, drawn from `rng`.
    pub fn random(rng: &mut StdRng) -> (r: Rotation)
        ensures
            r.wf(),
            exists|i: int| 0 <= i < NUM_MOVES && r == Rotation::nth(i),
    {
        let i = draw_below(rng, NUM_MOVES);
        Rotation::from_index(i)
    }
}

} // verus!
