use vstd::prelude::*;

use crate::color::Color;

verus! {

/// One sticker of a piece: the paint color it carries, which never changes,
/// and the face it currently sits on.
#[derive(Clone, Copy, PartialEq, Eq, Structural, Debug, Hash)]
pub struct BlockFace {
    pub color: Color,
    pub face: Color,
}

impl BlockFace {
    pub open spec fn solved_spec(self) -> bool {
        self.color == self.face
    }

    /// Whether the sticker sits on the face of its own color.
    pub fn is_solved(&self) -> (r: bool)
        ensures
            r == self.solved_spec(),
    {
        self.color.idx == self.face.idx
    }
}

/// A movable piece of the cube: an edge with two stickers or a corner with
/// three.
#[derive(Clone, Copy, PartialEq, Eq, Structural, Debug, Hash)]
pub enum Block {
    Edge(BlockFace, BlockFace),
    Corner(BlockFace, BlockFace, BlockFace),
}

impl Block {
    /// The stickers of the piece, in order.
    pub open spec fn facelets(self) -> Seq<BlockFace> {
        match self {
            Block::Edge(a, b) => seq![a, b],
            Block::Corner(a, b, c) => seq![a, b, c],
        }
    }

    pub open spec fn solved_spec(self) -> bool {
        match self {
            Block::Edge(a, b) => a.solved_spec() && b.solved_spec(),
            Block::Corner(a, b, c) => a.solved_spec() && b.solved_spec() && c.solved_spec(),
        }
    }

    /// The color that the piece shows on face `f`: that of its first sticker
    /// on `f`, or `None` where the piece does not touch `f`.
    pub open spec fn shown_on(self, f: usize) -> Option<Color> {
        match self {
            Block::Edge(a, b) => if a.face.idx == f {
                Some(a.color)
            } else if b.face.idx == f {
                Some(b.color)
            } else {
                None
            },
            Block::Corner(a, b, c) => if a.face.idx == f {
                Some(a.color)
            } else if b.face.idx == f {
                Some(b.color)
            } else if c.face.idx == f {
                Some(c.color)
            } else {
                None
            },
        }
    }

    /// Whether one of the piece's stickers is on face `f`.
    pub open spec fn touches(self, f: usize) -> bool {
        self.shown_on(f) is Some
    }

    /// An edge whose two stickers sit on the faces of their own colors.
    pub fn solved_edge(a: Color, b: Color) -> (r: Block)
        ensures
            r == Block::Edge(BlockFace { color: a, face: a }, BlockFace { color: b, face: b }),
    {
        Block::Edge(BlockFace { color: a, face: a }, BlockFace { color: b, face: b })
    }

    /// A corner whose three stickers sit on the faces of their own colors.
    pub fn solved_corner(a: Color, b: Color, c: Color) -> (r: Block)
        ensures
            r == Block::Corner(
                BlockFace { color: a, face: a },
                BlockFace { color: b, face: b },
                BlockFace { color: c, face: c },
            ),
    {
        Block::Corner(
            BlockFace { color: a, face: a },
            BlockFace { color: b, face: b },
            BlockFace { color: c, face: c },
        )
    }

    /// Whether every sticker of the piece sits on the face of its own color.
    pub fn is_solved(&self) -> (r: bool)
        ensures
            r == self.solved_spec(),
    {
        match self {
            Block::Edge(a, b) => a.is_solved() && b.is_solved(),
            Block::Corner(a, b, c) => a.is_solved() && b.is_solved() && c.is_solved(),
        }
    }

    /// The color the piece shows on `face`, or `None` where it does not touch
    /// that face.
    pub fn get_face(&self, face: &Color) -> (r: Option<Color>)
        ensures
            r == self.shown_on(face.idx),
    {
        match self {
            Block::Edge(a, b) => {
                if a.face.idx == face.idx {
                    Some(a.color)
                } else if b.face.idx == face.idx {
                    Some(b.color)
                } else {
                    None
                }
            },
            Block::Corner(a, b, c) => {
                if a.face.idx == face.idx {
                    Some(a.color)
                } else if b.face.idx == face.idx {
                    Some(b.color)
                } else if c.face.idx == face.idx {
                    Some(c.color)
                } else {
                    None
                }
            },
        }
    }
}

} // verus!
