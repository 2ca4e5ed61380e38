use vstd::prelude::*;

use queues::IsQueue;
use rand::rngs::StdRng;

use crate::block::{Block, BlockFace};
use crate::color::{Color, BLUE, GREEN, NUM_COLORS, WHITE, YELLOW};
use crate::rotation::{Direction, Rotation, NUM_MOVES};
use vstd::string::StringExecFns;

verus! {

pub const NUM_NEIGHBORS: usize = 4;

/// The number of movable pieces: twelve edges and eight corners.
pub const NUM_BLOCKS: usize = 20;

/// Neighbour `j` (0 top, 1 right, 2 bottom, 3 left) of face `f`.
pub open spec fn neighbor(f: usize, j: int) -> usize {
    let row: (usize, usize, usize, usize) = if f == 0 {
        (4, 3, 2, 1)
    } else if f == 1 {
        (0, 2, 5, 4)
    } else if f == 2 {
        (0, 3, 5, 1)
    } else if f == 3 {
        (0, 4, 5, 2)
    } else if f == 4 {
        (0, 1, 5, 3)
    } else {
        (2, 3, 4, 1)
    };
    if j == 0 {
        row.0
    } else if j == 1 {
        row.1
    } else if j == 2 {
        row.2
    } else {
        row.3
    }
}

/// The four neighbours of face `f`, in the order top, right, bottom, left.
pub open spec fn neighbors(f: usize) -> Seq<usize> {
    seq![neighbor(f, 0), neighbor(f, 1), neighbor(f, 2), neighbor(f, 3)]
}

/// The face across the cube from `f`: the one face that is neither `f` nor
/// one of its neighbours.
pub open spec fn opposite(f: usize) -> usize {
    if f == 0 {
        5
    } else if f == 1 {
        3
    } else if f == 2 {
        4
    } else if f == 3 {
        1
    } else if f == 4 {
        2
    } else {
        0
    }
}

/// Where the neighbour in position `i` of the cycle around face `t` goes:
/// one step on for clockwise, one step back for counterclockwise.
pub open spec fn next_in_cycle(t: usize, dir: Direction, i: int) -> usize {
    match dir {
        Direction::Clockwise => neighbor(t, (i + 1) % 4),
        Direction::CounterClockwise => neighbor(t, (i + 3) % 4),
    }
}

/// The face that a sticker now on face `c` moves to when face `t` turns in
/// direction `dir`: `t` stays put, its neighbours move one step along the
/// cycle, and the opposite face has no image (`None`).
pub open spec fn turn_image(t: usize, dir: Direction, c: usize) -> Option<usize> {
    if c == t {
        Some(t)
    } else if c == neighbor(t, 0) {
        Some(next_in_cycle(t, dir, 0))
    } else if c == neighbor(t, 1) {
        Some(next_in_cycle(t, dir, 1))
    } else if c == neighbor(t, 2) {
        Some(next_in_cycle(t, dir, 2))
    } else if c == neighbor(t, 3) {
        Some(next_in_cycle(t, dir, 3))
    } else {
        None
    }
}

/// The facts about the table that the turn relies on: each face has four
/// distinct neighbours, none of them itself or its opposite.
pub proof fn lemma_neighbors(f: usize)
    requires
        f < NUM_COLORS,
    ensures
        neighbors(f).len() == 4,
        opposite(f) < NUM_COLORS,
        opposite(f) != f,
        opposite(opposite(f)) == f,
        forall|j: int| 0 <= j < 4 ==> #[trigger] neighbors(f)[j] == neighbor(f, j),
        forall|j: int| 0 <= j < 4 ==> #[trigger] neighbor(f, j) < NUM_COLORS,
        forall|j: int| 0 <= j < 4 ==> #[trigger] neighbor(f, j) != f,
        forall|j: int| 0 <= j < 4 ==> #[trigger] neighbor(f, j) != opposite(f),
        forall|j: int, k: int|
            0 <= j < 4 && 0 <= k < 4 && j != k ==> #[trigger] neighbor(f, j) != #[trigger] neighbor(f, k),
{
}

/// Every face is the turned face, its opposite, or one of its neighbours.
pub proof fn lemma_face_cases(f: usize, c: usize)
    requires
        f < NUM_COLORS,
        c < NUM_COLORS,
    ensures
        c == f || c == opposite(f) || c == neighbor(f, 0) || c == neighbor(f, 1) || c == neighbor(f, 2)
            || c == neighbor(f, 3),
{
}

/// The neighbours of `face`, top, right, bottom, left.
pub fn adjacent_colors(face: usize) -> (r: [usize; NUM_NEIGHBORS])
    requires
        face < NUM_COLORS,
    ensures
        r@ == neighbors(face),
{
    let r = if face == 0 {
        [4usize, 3, 2, 1]
    } else if face == 1 {
        [0usize, 2, 5, 4]
    } else if face == 2 {
        [0usize, 3, 5, 1]
    } else if face == 3 {
        [0usize, 4, 5, 2]
    } else if face == 4 {
        [0usize, 1, 5, 3]
    } else {
        [2usize, 3, 4, 1]
    };
    assert(r@ =~= neighbors(face));
    r
}

/// For each face `c`, the face that stickers on `c` move to under `rotation`,
/// or `None` for the face opposite the turned one.
pub fn get_color_rotations(rotation: &Rotation) -> (r: [Option<Color>; NUM_COLORS])
    requires
        rotation.wf(),
    ensures
        forall|c: usize|
            #![trigger turn_image(rotation.face.idx, rotation.direction, c)]
            #![trigger r[c as int]]
            c < NUM_COLORS ==> match turn_image(rotation.face.idx, rotation.direction, c) {
                Some(x) => r[c as int] == Some(Color { idx: x }),
                None => r[c as int] is None,
            },
{
    let face = rotation.face;
    let adjacent = adjacent_colors(face.idx);
    let faces_in_order: [usize; NUM_NEIGHBORS] = match rotation.direction {
        Direction::Clockwise => adjacent,
        Direction::CounterClockwise => {
            let mut result = [0usize; NUM_NEIGHBORS];
            for i in 0..NUM_NEIGHBORS
                invariant
                    forall|j: int| 0 <= j < i ==> result[j] == adjacent[3 - j],
            {
                result[i] = adjacent[NUM_NEIGHBORS - i - 1];
            }
            result
        },
    };
    proof {
        lemma_neighbors(face.idx);
    }
    let mut result: [Option<Color>; NUM_COLORS] = [None; NUM_COLORS];
    result[face.idx] = Some(face);
    for i in 0..NUM_NEIGHBORS - 1
        invariant
            face == rotation.face,
            face.idx < NUM_COLORS,
            faces_in_order@.len() == 4,
            forall|j: int| 0 <= j < 4 ==> faces_in_order[j] < NUM_COLORS,
            forall|j: int| 0 <= j < 4 ==> faces_in_order[j] != face.idx,
            forall|j: int, k: int|
                0 <= j < 4 && 0 <= k < 4 && j != k ==> faces_in_order[j] != faces_in_order[k],
            rotation.direction == Direction::Clockwise ==> faces_in_order@ == neighbors(face.idx),
            rotation.direction == Direction::CounterClockwise ==> forall|j: int|
                0 <= j < 4 ==> faces_in_order[j] == neighbors(face.idx)[3 - j],
            result[face.idx as int] == Some(face),
            forall|j: int| 0 <= j < i ==> result[faces_in_order[j] as int] == Some(Color { idx: faces_in_order[j + 1] }),
            forall|c: int| 0 <= c < NUM_COLORS && c != face.idx && (forall|j: int| 0 <= j < i ==> faces_in_order[j] != c) ==> result[c] is None,
    {
        result[faces_in_order[i]] = Some(Color::new(faces_in_order[i + 1]));
    }
    result[faces_in_order[NUM_NEIGHBORS - 1]] = Some(Color::new(faces_in_order[0]));
    proof {
        let n = neighbors(face.idx);
        assert(forall|j: int| 0 <= j < 4 ==> n[j] == neighbor(face.idx, j));
        assert forall|c: usize| c < NUM_COLORS implies match #[trigger] turn_image(
            face.idx,
            rotation.direction,
            c,
        ) {
            Some(x) => result[c as int] == Some(Color { idx: x }),
            None => result[c as int] is None,
        } by {
            lemma_face_cases(face.idx, c);
            if rotation.direction == Direction::Clockwise {
                assert(faces_in_order[0] == n[0] && faces_in_order[1] == n[1] && faces_in_order[2] == n[2]
                    && faces_in_order[3] == n[3]);
            } else {
                assert(faces_in_order[0] == n[3] && faces_in_order[1] == n[2] && faces_in_order[2] == n[1]
                    && faces_in_order[3] == n[0]);
            }
            if c != face.idx && c != n[0] && c != n[1] && c != n[2] && c != n[3] {
                assert(forall|j: int| 0 <= j < 3 ==> faces_in_order[j] != c as int);
            }
        }
    }
    result
}

/// The face that a sticker on `c` is on after face `t` turns in `dir`; a
/// sticker on the opposite face stays where it is.
pub open spec fn moved_face(t: usize, dir: Direction, c: usize) -> usize {
    match turn_image(t, dir, c) {
        Some(x) => x,
        None => c,
    }
}

/// Two faces that share an edge of the cube.
pub open spec fn adjacent(a: usize, b: usize) -> bool {
    a != b && a != opposite(b)
}

pub open spec fn facelet_wf(f: BlockFace) -> bool {
    f.color.wf() && f.face.wf()
}

/// A piece whose colors and faces are in range and whose stickers sit on
/// faces that pairwise share an edge, as on a physical cube.
pub open spec fn block_wf(b: Block) -> bool {
    match b {
        Block::Edge(x, y) => facelet_wf(x) && facelet_wf(y) && adjacent(x.face.idx, y.face.idx),
        Block::Corner(x, y, z) => facelet_wf(x) && facelet_wf(y) && facelet_wf(z) && adjacent(
            x.face.idx,
            y.face.idx,
        ) && adjacent(y.face.idx, z.face.idx) && adjacent(x.face.idx, z.face.idx),
    }
}

pub open spec fn move_facelet(f: BlockFace, r: Rotation) -> BlockFace {
    BlockFace {
        color: f.color,
        face: Color { idx: moved_face(r.face.idx, r.direction, f.face.idx) },
    }
}

/// A piece after the turn `r`: if it touches the turned face, each of its
/// stickers moves as `turn_image` says; otherwise it stays.
pub open spec fn turn_block(b: Block, r: Rotation) -> Block {
    if b.touches(r.face.idx) {
        match b {
            Block::Edge(x, y) => Block::Edge(move_facelet(x, r), move_facelet(y, r)),
            Block::Corner(x, y, z) => Block::Corner(
                move_facelet(x, r),
                move_facelet(y, r),
                move_facelet(z, r),
            ),
        }
    } else {
        b
    }
}

/// The pieces after the turn `r`.
pub open spec fn turned(v: Seq<Block>, r: Rotation) -> Seq<Block> {
    Seq::new(v.len(), |i: int| turn_block(v[i], r))
}

/// The pieces after the turns of `moves`, in order.
pub open spec fn apply_rotations(v: Seq<Block>, moves: Seq<Rotation>) -> Seq<Block>
    decreases moves.len(),
{
    if moves.len() == 0 {
        v
    } else {
        turned(apply_rotations(v, moves.drop_last()), moves.last())
    }
}

pub open spec fn blocks_solved(v: Seq<Block>) -> bool {
    forall|i: int| 0 <= i < v.len() ==> #[trigger] v[i].solved_spec()
}

pub open spec fn blocks_wf(v: Seq<Block>) -> bool {
    v.len() == NUM_BLOCKS && forall|i: int| 0 <= i < v.len() ==> #[trigger] block_wf(v[i])
}

/// Piece `i` of the solved cube: the corners and edges around white, then
/// those around yellow (corner, edge, corner, edge, ... following the
/// neighbour cycle), then the four edges of the middle layer.
pub open spec fn solved_block(i: int) -> Block {
    if i < 16 {
        let c: usize = if i < 8 { WHITE } else { YELLOW };
        let n = neighbors(c);
        let k = (i % 8) / 2;
        if i % 2 == 0 {
            Block::Corner(
                BlockFace { color: Color { idx: c }, face: Color { idx: c } },
                BlockFace { color: Color { idx: n[k] }, face: Color { idx: n[k] } },
                BlockFace { color: Color { idx: n[(k + 1) % 4] }, face: Color { idx: n[(k + 1) % 4] } },
            )
        } else {
            Block::Edge(
                BlockFace { color: Color { idx: c }, face: Color { idx: c } },
                BlockFace { color: Color { idx: n[k] }, face: Color { idx: n[k] } },
            )
        }
    } else {
        let c: usize = if i < 18 { GREEN } else { BLUE };
        let n = neighbors(c);
        let k = if i % 2 == 0 { 1int } else { 3int };
        Block::Edge(
            BlockFace { color: Color { idx: c }, face: Color { idx: c } },
            BlockFace { color: Color { idx: n[k] }, face: Color { idx: n[k] } },
        )
    }
}

pub open spec fn solved_layout() -> Seq<Block> {
    Seq::new(NUM_BLOCKS as nat, |i: int| solved_block(i))
}

/// A face other than the one opposite the turned face has an image, and the
/// turned face is the only one that maps to itself.
pub proof fn lemma_image(t: usize, dir: Direction, c: usize)
    requires
        t < NUM_COLORS,
        c < NUM_COLORS,
        c != opposite(t),
    ensures
        turn_image(t, dir, c) is Some,
        moved_face(t, dir, c) < NUM_COLORS,
        moved_face(t, dir, c) != opposite(t),
        moved_face(t, dir, c) == t <==> c == t,
{
    lemma_neighbors(t);
    lemma_face_cases(t, c);
}

/// A turn keeps two faces that share an edge sharing an edge.
pub proof fn lemma_adjacent_moved(t: usize, dir: Direction, a: usize, b: usize)
    requires
        t < NUM_COLORS,
        a < NUM_COLORS,
        b < NUM_COLORS,
        a != opposite(t),
        b != opposite(t),
        adjacent(a, b),
    ensures
        adjacent(moved_face(t, dir, a), moved_face(t, dir, b)),
{
    lemma_neighbors(t);
    lemma_face_cases(t, a);
    lemma_face_cases(t, b);
}

/// A turn keeps each piece well formed.
pub proof fn lemma_turn_block_wf(b: Block, r: Rotation)
    requires
        block_wf(b),
        r.wf(),
    ensures
        block_wf(turn_block(b, r)),
{
    let t = r.face.idx;
    lemma_neighbors(t);
    if b.touches(t) {
        match b {
            Block::Edge(x, y) => {
                lemma_image(t, r.direction, x.face.idx);
                lemma_image(t, r.direction, y.face.idx);
                lemma_adjacent_moved(t, r.direction, x.face.idx, y.face.idx);
            },
            Block::Corner(x, y, z) => {
                lemma_image(t, r.direction, x.face.idx);
                lemma_image(t, r.direction, y.face.idx);
                lemma_image(t, r.direction, z.face.idx);
                lemma_adjacent_moved(t, r.direction, x.face.idx, y.face.idx);
                lemma_adjacent_moved(t, r.direction, y.face.idx, z.face.idx);
                lemma_adjacent_moved(t, r.direction, x.face.idx, z.face.idx);
            },
        }
    }
}

/// The piece `block`, which touches the turned face, after the turn
/// `rotation`, whose face permutation is `rotations`.
fn move_block(block: Block, rotation: &Rotation, rotations: &[Option<Color>; NUM_COLORS]) -> (r: Block)
    requires
        block_wf(block),
        rotation.wf(),
        block.touches(rotation.face.idx),
        forall|c: usize|
            c < NUM_COLORS ==> match #[trigger] turn_image(
                rotation.face.idx,
                rotation.direction,
                c,
            ) {
                Some(x) => rotations[c as int] == Some(Color { idx: x }),
                None => rotations[c as int] is None,
            },
    ensures
        r == turn_block(block, *rotation),
{
    let ghost t = rotation.face.idx;
    proof {
        lemma_neighbors(t);
    }
    match block {
        Block::Edge(a, b) => {
            proof {
                lemma_image(t, rotation.direction, a.face.idx);
                lemma_image(t, rotation.direction, b.face.idx);
                let _ = turn_image(t, rotation.direction, a.face.idx);
                let _ = turn_image(t, rotation.direction, b.face.idx);
            }
            Block::Edge(
                BlockFace { color: a.color, face: rotations[a.face.idx].unwrap() },
                BlockFace { color: b.color, face: rotations[b.face.idx].unwrap() },
            )
        },
        Block::Corner(a, b, c) => {
            proof {
                lemma_image(t, rotation.direction, a.face.idx);
                lemma_image(t, rotation.direction, b.face.idx);
                lemma_image(t, rotation.direction, c.face.idx);
                let _ = turn_image(t, rotation.direction, a.face.idx);
                let _ = turn_image(t, rotation.direction, b.face.idx);
                let _ = turn_image(t, rotation.direction, c.face.idx);
            }
            Block::Corner(
                BlockFace { color: a.color, face: rotations[a.face.idx].unwrap() },
                BlockFace { color: b.color, face: rotations[b.face.idx].unwrap() },
                BlockFace { color: c.color, face: rotations[c.face.idx].unwrap() },
            )
        },
    }
}

/// The piece model of the cube: twenty pieces whose stickers record the face
/// they sit on. Each piece keeps its slot for the cube's whole life.
#[derive(Clone, Copy, PartialEq, Eq, Debug)]
pub struct RubiksCube {
    blocks: [Block; NUM_BLOCKS],
}

impl View for RubiksCube {
    type V = Seq<Block>;

    closed spec fn view(&self) -> Seq<Block> {
        self.blocks@
    }
}

impl RubiksCube {
    pub open spec fn wf(&self) -> bool {
        blocks_wf(self@)
    }

    /// The cube with every sticker on the face of its own color.
    pub fn solved() -> (r: RubiksCube)
        ensures
            r@ == solved_layout(),
            r.wf(),
    {
        let default_face = BlockFace { color: Color::new(BLUE), face: Color::new(BLUE) };
        let mut blocks = [Block::Edge(default_face, default_face); NUM_BLOCKS];
        let mut idx: usize = 0;
        let layers: [usize; 2] = [WHITE, YELLOW];
        for l in 0..2
            invariant
                idx == 8 * l,
                layers@ == seq![WHITE, YELLOW],
                forall|m: int| 0 <= m < idx ==> blocks[m] == solved_block(m),
        {
            let color = Color::new(layers[l]);
            let neighbors = adjacent_colors(color.idx);
            for i in 0..NUM_NEIGHBORS
                invariant
                    l < 2,
                    color.idx == layers[l as int],
                    layers@ == seq![WHITE, YELLOW],
                    neighbors@ == crate::rubiks_cube::neighbors(color.idx),
                    idx == 8 * l + 2 * i,
                    forall|m: int| 0 <= m < idx ==> blocks[m] == solved_block(m),
            {
                blocks[idx] = Block::solved_corner(
                    color,
                    Color::new(neighbors[i]),
                    Color::new(neighbors[(i + 1) % NUM_NEIGHBORS]),
                );
                idx += 1;
                blocks[idx] = Block::solved_edge(color, Color::new(neighbors[i]));
                idx += 1;
            }
        }
        let middle: [usize; 2] = [GREEN, BLUE];
        for l in 0..2
            invariant
                idx == 16 + 2 * l,
                middle@ == seq![GREEN, BLUE],
                forall|m: int| 0 <= m < idx ==> blocks[m] == solved_block(m),
        {
            let color = Color::new(middle[l]);
            let neighbors = adjacent_colors(color.idx);
            for i in 0..NUM_NEIGHBORS
                invariant
                    l < 2,
                    color.idx == middle[l as int],
                    middle@ == seq![GREEN, BLUE],
                    neighbors@ == crate::rubiks_cube::neighbors(color.idx),
                    idx == 16 + 2 * l + i / 2,
                    forall|m: int| 0 <= m < idx ==> blocks[m] == solved_block(m),
            {
                let neighbor = neighbors[i];
                if neighbor != WHITE && neighbor != YELLOW {
                    blocks[idx] = Block::solved_edge(color, Color::new(neighbor));
                    idx += 1;
                }
            }
        }
        let r = RubiksCube { blocks };
        assert(r@ =~= solved_layout());
        r
    }

    /// Turns one face a quarter turn: every piece that touches the face has
    /// each of its stickers moved to the face that `get_color_rotations`
    /// gives; the other pieces stay as they are.
    pub fn turn(&mut self, rotation: &Rotation)
        requires
            old(self).wf(),
            rotation.wf(),
        ensures
            final(self)@ == turned(old(self)@, *rotation),
            final(self).wf(),
    {
        let face = rotation.face;
        let rotations = get_color_rotations(rotation);
        let ghost t = face.idx;
        proof {
            lemma_neighbors(t);
        }
        for i in 0..NUM_BLOCKS
            invariant
                face == rotation.face,
                t == face.idx,
                rotation.wf(),
                old(self).wf(),
                forall|c: usize|
                    c < NUM_COLORS ==> match #[trigger] turn_image(t, rotation.direction, c) {
                        Some(x) => rotations[c as int] == Some(Color { idx: x }),
                        None => rotations[c as int] is None,
                    },
                forall|j: int| 0 <= j < i ==> self.blocks[j] == turn_block(old(self).blocks[j], *rotation),
                forall|j: int| i <= j < NUM_BLOCKS ==> self.blocks[j] == old(self).blocks[j],
        {
            let block = self.blocks[i];
            assert(block_wf(old(self)@[i as int]));
            if block.get_face(&face).is_some() {
                self.blocks[i] = move_block(block, rotation, &rotations);
            }
        }
        proof {
            assert(self@ =~= turned(old(self)@, *rotation));
            assert forall|i: int| 0 <= i < self@.len() implies #[trigger] block_wf(self@[i]) by {
                lemma_turn_block_wf(old(self)@[i], *rotation);
            }
        }
    }

    /// Whether every sticker sits on the face of its own color.
    pub fn is_solved(&self) -> (r: bool)
        ensures
            r == blocks_solved(self@),
    {
        for i in 0..NUM_BLOCKS
            invariant
                forall|j: int| 0 <= j < i ==> #[trigger] self.blocks[j].solved_spec(),
        {
            if !self.blocks[i].is_solved() {
                return false;
            }
        }
        true
    }
}

/// The move that undoes `r`: the same face, the other direction.
pub open spec fn inverse(r: Rotation) -> Rotation {
    Rotation {
        face: r.face,
        direction: match r.direction {
            Direction::Clockwise => Direction::CounterClockwise,
            Direction::CounterClockwise => Direction::Clockwise,
        },
    }
}

pub(crate) proof fn lemma_moved_face(t: usize, dir: Direction, c: usize)
    requires
        t < NUM_COLORS,
        c < NUM_COLORS,
    ensures
        moved_face(t, dir, c) < NUM_COLORS,
        moved_face(t, dir, c) == t <==> c == t,
        moved_face(t, inverse(Rotation { face: Color { idx: t }, direction: dir }).direction, moved_face(t, dir, c)) == c,
        moved_face(t, dir, moved_face(t, dir, moved_face(t, dir, moved_face(t, dir, c)))) == c,
{
    lemma_neighbors(t);
    lemma_face_cases(t, c);
}

proof fn lemma_turn_block_inverse(b: Block, r: Rotation)
    requires
        block_wf(b),
        r.wf(),
    ensures
        turn_block(turn_block(b, r), inverse(r)) == b,
        turn_block(turn_block(turn_block(turn_block(b, r), r), r), r) == b,
{
    let t = r.face.idx;
    let d = r.direction;
    match b {
        Block::Edge(x, y) => {
            lemma_moved_face(t, d, x.face.idx);
            lemma_moved_face(t, d, y.face.idx);
        },
        Block::Corner(x, y, z) => {
            lemma_moved_face(t, d, x.face.idx);
            lemma_moved_face(t, d, y.face.idx);
            lemma_moved_face(t, d, z.face.idx);
        },
    }
}

/// A quarter turn followed by the quarter turn of the same face in the other
/// direction gives back the pieces as they were.
pub proof fn lemma_turn_then_inverse(v: Seq<Block>, r: Rotation)
    requires
        blocks_wf(v),
        r.wf(),
    ensures
        turned(turned(v, r), inverse(r)) == v,
{
    assert forall|i: int| 0 <= i < v.len() implies turned(turned(v, r), inverse(r))[i] == v[i] by {
        lemma_turn_block_inverse(v[i], r);
    }
    assert(turned(turned(v, r), inverse(r)) =~= v);
}

/// Four quarter turns of one face in one direction give back the pieces as
/// they were.
pub proof fn lemma_four_turns(v: Seq<Block>, r: Rotation)
    requires
        blocks_wf(v),
        r.wf(),
    ensures
        turned(turned(turned(turned(v, r), r), r), r) == v,
{
    assert forall|i: int| 0 <= i < v.len() implies turned(turned(turned(turned(v, r), r), r), r)[i]
        == v[i] by {
        lemma_turn_block_inverse(v[i], r);
    }
    assert(turned(turned(turned(turned(v, r), r), r), r) =~= v);
}

/// The solved cube is solved, and each of the twelve quarter turns unsolves
/// it.
pub proof fn lemma_one_turn_unsolves(r: Rotation)
    requires
        r.wf(),
    ensures
        blocks_solved(solved_layout()),
        !blocks_solved(turned(solved_layout(), r)),
{
    let t = r.face.idx;
    lemma_neighbors(t);
    let v = solved_layout();
    assert(blocks_solved(v)) by {
        assert forall|i: int| 0 <= i < v.len() implies #[trigger] v[i].solved_spec() by {
            lemma_neighbors(WHITE);
            lemma_neighbors(YELLOW);
            lemma_neighbors(GREEN);
            lemma_neighbors(BLUE);
        }
    }
    let w: int = if t == 0 {
        1
    } else if t == 1 {
        7
    } else if t == 2 {
        5
    } else if t == 3 {
        3
    } else if t == 4 {
        1
    } else {
        9
    };
    assert(!turned(v, r)[w].solved_spec());
}

#[verifier::external_type_specification]
#[verifier::external_body]
#[verifier::reject_recursive_types(T)]
pub struct ExQueue<T: Clone>(queues::Queue<T>);

/// What a queue of indices holds, oldest first.
pub uninterp spec fn queue_items(q: queues::Queue<usize>) -> Seq<usize>;

/// Relies on `queues::Queue::new`: the new queue is empty.
#[verifier::external_body]
fn queue_new() -> (r: queues::Queue<usize>)
    ensures
        queue_items(r) == Seq::<usize>::empty(),
{
    queues::Queue::new()
}

/// Relies on `IsQueue::add` for `queues::Queue`: the value joins the back
/// (the call always returns `Ok(None)`).
#[verifier::external_body]
fn queue_add(q: &mut queues::Queue<usize>, v: usize)
    ensures
        queue_items(*final(q)) == queue_items(*old(q)).push(v),
{
    let _ = q.add(v);
}

/// Relies on `IsQueue::remove` for `queues::Queue`: the oldest value leaves,
/// or an error where the queue is empty.
#[verifier::external_body]
fn queue_remove(q: &mut queues::Queue<usize>) -> (r: Option<usize>)
    ensures
        queue_items(*old(q)).len() == 0 ==> r is None && queue_items(*final(q)) == queue_items(*old(q)),
        queue_items(*old(q)).len() > 0 ==> r == Some(queue_items(*old(q))[0]) && queue_items(*final(q))
            == queue_items(*old(q)).drop_first(),
{
    q.remove().ok()
}

/// Relies on `IsQueue::size` for `queues::Queue`: the number of values held.
#[verifier::external_body]
fn queue_size(q: &queues::Queue<usize>) -> (r: usize)
    ensures
        r == queue_items(*q).len(),
{
    q.size()
}

/// The number of a move: twice its face, plus one if counterclockwise (the
/// inverse of `Rotation::nth`).
pub open spec fn move_number(r: Rotation) -> int {
    2 * r.face.idx + match r.direction {
        Direction::Clockwise => 0int,
        Direction::CounterClockwise => 1int,
    }
}

pub open spec fn valid_moves(p: Seq<Rotation>) -> bool {
    forall|i: int| 0 <= i < p.len() ==> (#[trigger] p[i]).wf()
}

/// The place of a move sequence in the order in which a breadth-first search
/// meets them: shorter first, and within a length in the order of the move
/// numbers (`1 + 12 * i + m` is the `m`-th successor of the `i`-th).
pub open spec fn path_index(p: Seq<Rotation>) -> int
    decreases p.len(),
{
    if p.len() == 0 {
        0
    } else {
        12 * path_index(p.drop_last()) + 1 + move_number(p.last())
    }
}

/// The index of the first sequence of length `n`.
pub open spec fn first_index(n: nat) -> int
    decreases n,
{
    if n == 0 {
        0
    } else {
        12 * first_index((n - 1) as nat) + 1
    }
}

proof fn lemma_path_index_bounds(p: Seq<Rotation>)
    requires
        valid_moves(p),
    ensures
        first_index(p.len()) <= path_index(p) < first_index(p.len() + 1),
    decreases p.len(),
{
    if p.len() > 0 {
        let q = p.drop_last();
        assert(valid_moves(q)) by {
            assert forall|i: int| 0 <= i < q.len() implies (#[trigger] q[i]).wf() by {
                assert(q[i] == p[i]);
            }
        }
        lemma_path_index_bounds(q);
        assert(p.last().wf()) by {
            assert(p[p.len() - 1].wf());
        }
    }
}

proof fn lemma_first_index_monotone(a: nat, b: nat)
    requires
        a <= b,
    ensures
        first_index(a) <= first_index(b),
    decreases b,
{
    if a < b {
        lemma_first_index_monotone(a, (b - 1) as nat);
        assert(first_index((b - 1) as nat) >= 0) by {
            lemma_first_index_nonneg((b - 1) as nat);
        }
    }
}

proof fn lemma_first_index_nonneg(n: nat)
    ensures
        first_index(n) >= 0,
    decreases n,
{
    if n > 0 {
        lemma_first_index_nonneg((n - 1) as nat);
    }
}

/// A shorter sequence of moves comes earlier in breadth-first order.
pub proof fn lemma_shorter_first(q: Seq<Rotation>, p: Seq<Rotation>)
    requires
        valid_moves(q),
        valid_moves(p),
        q.len() < p.len(),
    ensures
        path_index(q) < path_index(p),
{
    lemma_path_index_bounds(q);
    lemma_path_index_bounds(p);
    lemma_first_index_monotone(q.len() + 1, p.len());
}

/// The result of a search for a solution.
#[derive(PartialEq, Eq, Debug)]
pub enum Solution {
    /// The cube was solved already; no move is needed.
    AlreadySolved,
    /// These moves, in order, solve the cube.
    Found(Vec<Rotation>),
    /// The search gave up before it found a solution.
    Exhausted,
}

/// The limit below which a search that gives up has tried every sequence
/// (by `path_index`).
pub open spec fn search_limit() -> int {
    (usize::MAX as int - 13) / 12
}

/// The twelve moves, numbered as in `Rotation::nth`.
pub fn all_rotations() -> (r: Vec<Rotation>)
    ensures
        r@.len() == NUM_MOVES,
        forall|i: int| 0 <= i < NUM_MOVES ==> #[trigger] r@[i] == Rotation::nth(i),
{
    let mut all = Vec::new();
    for c in 0..NUM_COLORS
        invariant
            all@.len() == 2 * c,
            forall|i: int| 0 <= i < 2 * c ==> #[trigger] all@[i] == Rotation::nth(i),
    {
        all.push(Rotation { face: Color::new(c), direction: Direction::Clockwise });
        all.push(Rotation { face: Color::new(c), direction: Direction::CounterClockwise });
        assert(all@[2 * c as int] == Rotation::nth(2 * c as int));
        assert(all@[2 * c + 1] == Rotation::nth(2 * c + 1));
    }
    all
}

/// A copy of `p`.
fn copied(p: &Vec<Rotation>) -> (res: Vec<Rotation>)
    ensures
        res@ == p@,
{
    let mut res = Vec::new();
    for i in 0..p.len()
        invariant
            res@ == p@.take(i as int),
    {
        res.push(p[i]);
        assert(res@ =~= p@.take(i + 1));
    }
    assert(res@ =~= p@);
    res
}

/// A copy of `p` with `r` appended.
fn extended(p: &Vec<Rotation>, r: Rotation) -> (res: Vec<Rotation>)
    ensures
        res@ == p@.push(r),
{
    let mut res = Vec::new();
    for i in 0..p.len()
        invariant
            res@ == p@.take(i as int),
    {
        res.push(p[i]);
        assert(res@ =~= p@.take(i + 1));
    }
    res.push(r);
    assert(res@ =~= p@.push(r));
    res
}

impl RubiksCube {
    /// Applies `n` moves drawn from `rng`, and returns them in the order in
    /// which they were applied.
    pub fn scramble(&mut self, rng: &mut StdRng, n: usize) -> (r: Vec<Rotation>)
        requires
            old(self).wf(),
        ensures
            final(self).wf(),
            r@.len() == n,
            valid_moves(r@),
            final(self)@ == apply_rotations(old(self)@, r@),
    {
        let mut result = Vec::new();
        for i in 0..n
            invariant
                self.wf(),
                result@.len() == i,
                valid_moves(result@),
                self@ == apply_rotations(old(self)@, result@),
        {
            let rotation = Rotation::random(rng);
            self.turn(&rotation);
            let ghost before = result@;
            result.push(rotation);
            assert(result@.drop_last() =~= before);
        }
        result
    }

    /// Searches breadth first, over the twelve moves and without pruning, for
    /// a shortest sequence of moves that solves the cube.
    pub fn solve(&self) -> (r: Solution)
        requires
            self.wf(),
        ensures
            r is AlreadySolved <==> blocks_solved(self@),
            r matches Solution::Found(p) ==> {
                &&& p@.len() > 0
                &&& valid_moves(p@)
                &&& blocks_solved(apply_rotations(self@, p@))
                &&& forall|q: Seq<Rotation>|
                    valid_moves(q) && q.len() < p@.len() ==> !blocks_solved(
                        #[trigger] apply_rotations(self@, q),
                    )
            },
            r is Exhausted ==> forall|q: Seq<Rotation>|
                valid_moves(q) && path_index(q) < search_limit() ==> !blocks_solved(
                    #[trigger] apply_rotations(self@, q),
                ),
    {
        if self.is_solved() {
            return Solution::AlreadySolved;
        }
        let all = all_rotations();
        let mut states: Vec<RubiksCube> = Vec::new();
        let mut paths: Vec<Vec<Rotation>> = Vec::new();
        states.push(*self);
        paths.push(Vec::new());
        let mut queue = queue_new();
        queue_add(&mut queue, 0);
        let mut head: usize = 0;
        proof {
            assert(path_index(paths@[0]@) == 0);
            assert forall|q: Seq<Rotation>| valid_moves(q) && path_index(q) < 1 implies #[trigger] paths@[path_index(q)]@ == q by {
                if q.len() > 0 {
                    lemma_path_index_bounds(q);
                    lemma_first_index_monotone(1, q.len());
                }
                assert(q =~= Seq::<Rotation>::empty());
            }
            assert(queue_items(queue) =~= Seq::new(1, |i: int| i as usize));
        }
        while queue_size(&queue) != 0
            invariant
                self.wf(),
                !blocks_solved(self@),
                all@.len() == NUM_MOVES,
                forall|i: int| 0 <= i < NUM_MOVES ==> #[trigger] all@[i] == Rotation::nth(i),
                states@.len() == paths@.len(),
                states@.len() == 1 + 12 * head,
                forall|j: int|
                    0 <= j < states@.len() ==> (#[trigger] states@[j]).wf() && states@[j]@ == apply_rotations(
                        self@,
                        paths@[j]@,
                    ),
                forall|j: int| 0 <= j < paths@.len() ==> valid_moves(#[trigger] paths@[j]@),
                forall|j: int| 0 <= j < paths@.len() ==> path_index(#[trigger] paths@[j]@) == j,
                forall|q: Seq<Rotation>|
                    valid_moves(q) && 0 <= path_index(q) < states@.len() ==> #[trigger] paths@[path_index(q)]@ == q,
                forall|j: int| 0 <= j < head ==> !blocks_solved(#[trigger] states@[j]@),
                queue_items(queue) == Seq::new((states@.len() - head) as nat, |i: int| (head + i) as usize),
            decreases usize::MAX - head,
        {
            let next = queue_remove(&mut queue).unwrap();
            assert(next == head);
            if states[next].is_solved() {
                let p = copied(&paths[next]);
                proof {
                    let pp = p@;
                    if pp.len() == 0 {
                        assert(pp =~= Seq::<Rotation>::empty());
                        assert(path_index(pp) == 0);
                    }
                    assert forall|q: Seq<Rotation>| valid_moves(q) && q.len() < pp.len() implies !blocks_solved(
                        #[trigger] apply_rotations(self@, q),
                    ) by {
                        lemma_shorter_first(q, pp);
                        lemma_path_index_bounds(q);
                        lemma_first_index_nonneg(q.len());
                        assert(paths@[path_index(q)]@ == q);
                        assert(!blocks_solved(states@[path_index(q)]@));
                    }
                }
                return Solution::Found(p);
            }
            if states.len() > usize::MAX - 13 {
                proof {
                    assert forall|q: Seq<Rotation>| valid_moves(q) && path_index(q) < search_limit() implies !blocks_solved(
                        #[trigger] apply_rotations(self@, q),
                    ) by {
                        lemma_path_index_bounds(q);
                        lemma_first_index_nonneg(q.len());
                        assert(paths@[path_index(q)]@ == q);
                        assert(!blocks_solved(states@[path_index(q)]@));
                    }
                }
                return Solution::Exhausted;
            }
            for m in 0..NUM_MOVES
                invariant
                    next == head,
                    next < states@.len(),
                    states@.len() <= usize::MAX - 13 + 12 * m,
                    self.wf(),
                    all@.len() == NUM_MOVES,
                    forall|i: int| 0 <= i < NUM_MOVES ==> #[trigger] all@[i] == Rotation::nth(i),
                    states@.len() == paths@.len(),
                    states@.len() == 1 + 12 * head + m,
                    forall|j: int|
                        0 <= j < states@.len() ==> (#[trigger] states@[j]).wf() && states@[j]@
                            == apply_rotations(self@, paths@[j]@),
                    forall|j: int| 0 <= j < paths@.len() ==> valid_moves(#[trigger] paths@[j]@),
                    forall|j: int| 0 <= j < paths@.len() ==> path_index(#[trigger] paths@[j]@) == j,
                    forall|q: Seq<Rotation>|
                        valid_moves(q) && 0 <= path_index(q) < states@.len() ==> #[trigger] paths@[path_index(q)]@
                            == q,
                    queue_items(queue) == Seq::new(
                        (states@.len() - head - 1) as nat,
                        |i: int| (head + 1 + i) as usize,
                    ),
                    forall|j: int| 0 <= j <= head ==> !blocks_solved(#[trigger] states@[j]@),
            {
                let mut child = states[next];
                let rotation = all[m];
                child.turn(&rotation);
                let path = extended(&paths[next], rotation);
                proof {
                    let pp = paths@[next as int]@;
                    assert(path@.drop_last() =~= pp);
                    assert(move_number(rotation) == m);
                    assert(valid_moves(path@)) by {
                        assert forall|i: int| 0 <= i < path@.len() implies (#[trigger] path@[i]).wf() by {
                            if i < pp.len() {
                                assert(path@[i] == pp[i]);
                            }
                        }
                    }
                    assert forall|q: Seq<Rotation>|
                        valid_moves(q) && path_index(q) == states@.len() implies q == path@ by {
                        let q0 = q.drop_last();
                        assert(valid_moves(q0)) by {
                            assert forall|i: int| 0 <= i < q0.len() implies (#[trigger] q0[i]).wf() by {
                                assert(q0[i] == q[i]);
                            }
                        }
                        assert(q[q.len() - 1].wf());
                        assert(q.len() > 0);
                        assert(path_index(q0) == next);
                        assert(move_number(q.last()) == m);
                        assert(q.last() == rotation);
                        assert(q0 == pp);
                        assert(q =~= q0.push(q.last()));
                    }
                }
                states.push(child);
                paths.push(path);
                queue_add(&mut queue, states.len() - 1);
                proof {
                    assert(queue_items(queue) =~= Seq::new(
                        (states@.len() - head - 1) as nat,
                        |i: int| (head + 1 + i) as usize,
                    ));
                }
            }
            head = head + 1;
        }
        Solution::Exhausted
    }
}

/// An edge whose stickers sit on faces `a` and `c`.
pub open spec fn edge_between(b: Block, a: usize, c: usize) -> bool {
    match b {
        Block::Edge(x, y) => (a == x.face.idx || a == y.face.idx) && (c == x.face.idx || c == y.face.idx),
        Block::Corner(_, _, _) => false,
    }
}

/// A corner whose stickers sit on faces `a`, `c` and `d`.
pub open spec fn corner_between(b: Block, a: usize, c: usize, d: usize) -> bool {
    match b {
        Block::Edge(_, _) => false,
        Block::Corner(x, y, z) => (a == x.face.idx || a == y.face.idx || a == z.face.idx) && (c == x.face.idx
            || c == y.face.idx || c == z.face.idx) && (d == x.face.idx || d == y.face.idx || d == z.face.idx),
    }
}

/// The first piece of `v` that is an edge between `a` and `c`.
pub open spec fn first_edge(v: Seq<Block>, a: usize, c: usize) -> Option<Block>
    decreases v.len(),
{
    if v.len() == 0 {
        None
    } else {
        match first_edge(v.drop_last(), a, c) {
            Some(b) => Some(b),
            None => if edge_between(v.last(), a, c) {
                Some(v.last())
            } else {
                None
            },
        }
    }
}

/// The first piece of `v` that is a corner between `a`, `c` and `d`.
pub open spec fn first_corner(v: Seq<Block>, a: usize, c: usize, d: usize) -> Option<Block>
    decreases v.len(),
{
    if v.len() == 0 {
        None
    } else {
        match first_corner(v.drop_last(), a, c, d) {
            Some(b) => Some(b),
            None => if corner_between(v.last(), a, c, d) {
                Some(v.last())
            } else {
                None
            },
        }
    }
}

/// The color that piece `b`, if any, shows on face `f`.
pub open spec fn shown_by(b: Option<Block>, f: usize) -> Option<Color> {
    match b {
        Some(x) => x.shown_on(f),
        None => None,
    }
}

/// Row-major position in a face's grid of the edge towards neighbour `i`.
pub open spec fn edge_cell(i: int) -> int {
    if i == 0 {
        1
    } else if i == 1 {
        5
    } else if i == 2 {
        7
    } else {
        3
    }
}

/// Row-major position in a face's grid of the corner between neighbours `i`
/// and `i + 1`.
pub open spec fn corner_cell(i: int) -> int {
    if i == 0 {
        2
    } else if i == 1 {
        8
    } else if i == 2 {
        6
    } else {
        0
    }
}

/// The color that the edge towards neighbour `i` of face `f` shows on `f`.
pub open spec fn edge_shown(v: Seq<Block>, f: usize, i: int) -> Option<Color> {
    shown_by(first_edge(v, f, neighbor(f, i)), f)
}

/// The color that the corner between neighbours `i` and `i + 1` of face `f`
/// shows on `f`.
pub open spec fn corner_shown(v: Seq<Block>, f: usize, i: int) -> Option<Color> {
    shown_by(first_corner(v, f, neighbor(f, i), neighbor(f, (i + 1) % 4)), f)
}

impl RubiksCube {
    /// The first edge between the two faces of `colors`.
    fn find_edge(&self, colors: &[Color; 2]) -> (r: Option<Block>)
        ensures
            r == first_edge(self@, colors[0].idx, colors[1].idx),
    {
        for i in 0..NUM_BLOCKS
            invariant
                first_edge(self@.take(i as int), colors[0].idx, colors[1].idx) is None,
        {
            let block = self.blocks[i];
            assert(self@.take(i + 1).drop_last() =~= self@.take(i as int));
            match block {
                Block::Edge(a, b) => {
                    let matches = (colors[0].idx == a.face.idx || colors[0].idx == b.face.idx) && (
                    colors[1].idx == a.face.idx || colors[1].idx == b.face.idx);
                    if matches {
                        assert(self@.take(NUM_BLOCKS as int) =~= self@);
                        proof {
                            lemma_first_prefix(self@, i as int + 1, colors[0].idx, colors[1].idx);
                        }
                        return Some(block);
                    }
                },
                Block::Corner(_, _, _) => {},
            }
        }
        assert(self@.take(NUM_BLOCKS as int) =~= self@);
        None
    }

    /// The first corner between the three faces of `colors`.
    fn find_corner(&self, colors: &[Color; 3]) -> (r: Option<Block>)
        ensures
            r == first_corner(self@, colors[0].idx, colors[1].idx, colors[2].idx),
    {
        for i in 0..NUM_BLOCKS
            invariant
                first_corner(self@.take(i as int), colors[0].idx, colors[1].idx, colors[2].idx) is None,
        {
            let block = self.blocks[i];
            assert(self@.take(i + 1).drop_last() =~= self@.take(i as int));
            match block {
                Block::Edge(_, _) => {},
                Block::Corner(a, b, c) => {
                    let matches = (colors[0].idx == a.face.idx || colors[0].idx == b.face.idx || colors[0].idx
                        == c.face.idx) && (colors[1].idx == a.face.idx || colors[1].idx == b.face.idx
                        || colors[1].idx == c.face.idx) && (colors[2].idx == a.face.idx || colors[2].idx
                        == b.face.idx || colors[2].idx == c.face.idx);
                    if matches {
                        assert(self@.take(NUM_BLOCKS as int) =~= self@);
                        proof {
                            lemma_first_corner_prefix(
                                self@,
                                i as int + 1,
                                colors[0].idx,
                                colors[1].idx,
                                colors[2].idx,
                            );
                        }
                        return Some(block);
                    }
                },
            }
        }
        assert(self@.take(NUM_BLOCKS as int) =~= self@);
        None
    }

    /// The colors shown on face `face`, row by row: the center, and for each
    /// neighbour the edge and corner pieces found between the faces; `None`
    /// where one of them is missing.
    pub fn get_face(&self, face: &Color) -> (r: Option<[[Color; 3]; 3]>)
        requires
            face.wf(),
        ensures
            r is Some <==> forall|i: int|
                0 <= i < 4 ==> (#[trigger] edge_shown(self@, face.idx, i)) is Some && corner_shown(
                    self@,
                    face.idx,
                    i,
                ) is Some,
            r matches Some(g) ==> {
                &&& g[1][1] == *face
                &&& forall|i: int|
                    0 <= i < 4 ==> #[trigger] edge_shown(self@, face.idx, i) == Some(
                        g[edge_cell(i) / 3][edge_cell(i) % 3],
                    ) && corner_shown(self@, face.idx, i) == Some(g[corner_cell(i) / 3][corner_cell(i) % 3])
            },
    {
        let neighbors = adjacent_colors(face.idx);
        proof {
            lemma_neighbors(face.idx);
        }
        let edge_indexes: [usize; 4] = [1, 5, 7, 3];
        let corner_indexes: [usize; 4] = [2, 8, 6, 0];
        let mut result = [*face; 9];
        for i in 0..NUM_NEIGHBORS
            invariant
                face.wf(),
                neighbors@ == crate::rubiks_cube::neighbors(face.idx),
                forall|j: int| 0 <= j < 4 ==> #[trigger] neighbors@[j] == neighbor(face.idx, j) && neighbor(face.idx, j) < NUM_COLORS,
                edge_indexes@ == seq![1usize, 5, 7, 3],
                corner_indexes@ == seq![2usize, 8, 6, 0],
                result[4] == *face,
                forall|j: int|
                    0 <= j < i ==> #[trigger] edge_shown(self@, face.idx, j) == Some(result[edge_cell(j)])
                        && corner_shown(self@, face.idx, j) == Some(result[corner_cell(j)]),
        {
            assert(neighbors@[i as int] == neighbor(face.idx, i as int));
            let edge = match self.find_edge(&[*face, Color::new(neighbors[i])]) {
                Some(b) => b,
                None => {
                    assert(edge_shown(self@, face.idx, i as int) is None);
                    return None;
                },
            };
            let edge_color = match edge.get_face(face) {
                Some(c) => c,
                None => {
                    assert(edge_shown(self@, face.idx, i as int) is None);
                    return None;
                },
            };
            result[edge_indexes[i]] = edge_color;
            assert(neighbors@[((i + 1) % 4) as int] == neighbor(face.idx, (i as int + 1) % 4));
            let corner = match self.find_corner(
                &[*face, Color::new(neighbors[i]), Color::new(neighbors[(i + 1) % NUM_NEIGHBORS])],
            ) {
                Some(b) => b,
                None => {
                    assert(corner_shown(self@, face.idx, i as int) is None);
                    return None;
                },
            };
            let corner_color = match corner.get_face(face) {
                Some(c) => c,
                None => {
                    assert(corner_shown(self@, face.idx, i as int) is None);
                    return None;
                },
            };
            result[corner_indexes[i]] = corner_color;
        }
        let grid = [
            [result[0], result[1], result[2]],
            [result[3], result[4], result[5]],
            [result[6], result[7], result[8]],
        ];
        proof {
            assert forall|i: int| 0 <= i < 4 implies #[trigger] edge_shown(self@, face.idx, i) == Some(
                grid[edge_cell(i) / 3][edge_cell(i) % 3],
            ) && corner_shown(self@, face.idx, i) == Some(grid[corner_cell(i) / 3][corner_cell(i) % 3]) by {
                assert(edge_shown(self@, face.idx, i) == Some(result[edge_cell(i)]));
            }
        }
        Some(grid)
    }
}

/// The first matching edge of a prefix that ends in a matching edge is found
/// in that prefix.
proof fn lemma_first_prefix(v: Seq<Block>, n: int, a: usize, c: usize)
    requires
        0 < n <= v.len(),
        first_edge(v.take(n - 1), a, c) is None,
        edge_between(v[n - 1], a, c),
    ensures
        first_edge(v, a, c) == Some(v[n - 1]),
    decreases v.len() - n,
{
    assert(v.take(n).drop_last() =~= v.take(n - 1));
    assert(first_edge(v.take(n), a, c) == Some(v[n - 1]));
    if n < v.len() {
        lemma_first_extend(v, n, a, c);
    } else {
        assert(v.take(n) =~= v);
    }
}

proof fn lemma_first_extend(v: Seq<Block>, n: int, a: usize, c: usize)
    requires
        0 < n <= v.len(),
        first_edge(v.take(n), a, c) is Some,
    ensures
        first_edge(v, a, c) == first_edge(v.take(n), a, c),
    decreases v.len() - n,
{
    if n < v.len() {
        assert(v.take(n + 1).drop_last() =~= v.take(n));
        lemma_first_extend(v, n + 1, a, c);
    } else {
        assert(v.take(n) =~= v);
    }
}

proof fn lemma_first_corner_prefix(v: Seq<Block>, n: int, a: usize, c: usize, d: usize)
    requires
        0 < n <= v.len(),
        first_corner(v.take(n - 1), a, c, d) is None,
        corner_between(v[n - 1], a, c, d),
    ensures
        first_corner(v, a, c, d) == Some(v[n - 1]),
{
    assert(v.take(n).drop_last() =~= v.take(n - 1));
    assert(first_corner(v.take(n), a, c, d) == Some(v[n - 1]));
    lemma_first_corner_extend(v, n, a, c, d);
}

proof fn lemma_first_corner_extend(v: Seq<Block>, n: int, a: usize, c: usize, d: usize)
    requires
        0 < n <= v.len(),
        first_corner(v.take(n), a, c, d) is Some,
    ensures
        first_corner(v, a, c, d) == first_corner(v.take(n), a, c, d),
    decreases v.len() - n,
{
    if n < v.len() {
        assert(v.take(n + 1).drop_last() =~= v.take(n));
        lemma_first_corner_extend(v, n + 1, a, c, d);
    } else {
        assert(v.take(n) =~= v);
    }
}

impl RubiksCube {
    /// Two cubes with the same pieces are the same cube.
    pub proof fn lemma_view_eq(a: RubiksCube, b: RubiksCube)
        requires
            a@ == b@,
        ensures
            a == b,
    {
        assert(a.blocks =~= b.blocks);
    }
}

/// Replaying the moves that `scramble` returned, in order, from a fresh
/// solved cube reproduces the scrambled cube exactly: two cubes whose pieces
/// are those of the same moves applied to the solved layout are equal.
pub proof fn lemma_replay_reproduces(scrambled: RubiksCube, replayed: RubiksCube, moves: Seq<Rotation>)
    requires
        scrambled@ == apply_rotations(solved_layout(), moves),
        replayed@ == apply_rotations(solved_layout(), moves),
    ensures
        scrambled == replayed,
{
    RubiksCube::lemma_view_eq(scrambled, replayed);
}

/// The moves that undo `p`: the inverse of each move, last first.
pub open spec fn inverse_path(p: Seq<Rotation>) -> Seq<Rotation>
    decreases p.len(),
{
    if p.len() == 0 {
        Seq::empty()
    } else {
        seq![inverse(p.last())] + inverse_path(p.drop_last())
    }
}

proof fn lemma_apply_concat(v: Seq<Block>, p: Seq<Rotation>, q: Seq<Rotation>)
    ensures
        apply_rotations(v, p + q) == apply_rotations(apply_rotations(v, p), q),
    decreases q.len(),
{
    if q.len() == 0 {
        assert(p + q =~= p);
    } else {
        assert((p + q).drop_last() =~= p + q.drop_last());
        assert((p + q).last() == q.last());
        lemma_apply_concat(v, p, q.drop_last());
    }
}

/// Turns keep the pieces well formed.
pub proof fn lemma_apply_wf(v: Seq<Block>, rs: Seq<Rotation>)
    requires
        blocks_wf(v),
        valid_moves(rs),
    ensures
        blocks_wf(apply_rotations(v, rs)),
    decreases rs.len(),
{
    if rs.len() > 0 {
        let rest = rs.drop_last();
        assert forall|i: int| 0 <= i < rest.len() implies (#[trigger] rest[i]).wf() by {
            assert(rest[i] == rs[i]);
        }
        lemma_apply_wf(v, rest);
        let u = apply_rotations(v, rest);
        assert(rs[rs.len() - 1].wf());
        assert forall|i: int| 0 <= i < turned(u, rs.last()).len() implies #[trigger] block_wf(
            turned(u, rs.last())[i],
        ) by {
            lemma_turn_block_wf(u[i], rs.last());
        }
    }
}

/// Applying `p` and then `inverse_path(p)` gives back the pieces.
pub proof fn lemma_undo(v: Seq<Block>, p: Seq<Rotation>)
    requires
        blocks_wf(v),
        valid_moves(p),
    ensures
        apply_rotations(apply_rotations(v, p), inverse_path(p)) == v,
        inverse_path(p).len() == p.len(),
        valid_moves(inverse_path(p)),
    decreases p.len(),
{
    if p.len() > 0 {
        let rest = p.drop_last();
        let m = p.last();
        assert forall|i: int| 0 <= i < rest.len() implies (#[trigger] rest[i]).wf() by {
            assert(rest[i] == p[i]);
        }
        assert(p[p.len() - 1].wf());
        lemma_undo(v, rest);
        lemma_apply_wf(v, rest);
        let u = apply_rotations(v, rest);
        let ip = inverse_path(rest);
        lemma_apply_concat(apply_rotations(v, p), seq![inverse(m)], ip);
        assert(seq![inverse(m)].drop_last() =~= Seq::<Rotation>::empty());
        lemma_turn_then_inverse(u, m);
        let w = apply_rotations(v, p);
        assert(w == turned(u, m));
        assert(seq![inverse(m)].last() == inverse(m));
        assert(apply_rotations(w, seq![inverse(m)]) == turned(apply_rotations(w, Seq::<Rotation>::empty()), inverse(m)));
        assert(apply_rotations(w, seq![inverse(m)]) == u);
        assert(inverse_path(p) == seq![inverse(m)] + ip);
        let whole = seq![inverse(m)] + ip;
        assert forall|i: int| 0 <= i < whole.len() implies (#[trigger] whole[i]).wf() by {
            if i > 0 {
                assert(whole[i] == ip[i - 1]);
            }
        }
    }
}

/// A cube that at most three moves took from the solved state is solved, or
/// some sequence that a search tries before it gives up (`path_index` below
/// `search_limit`) solves it; so `solve` on it never ends `Exhausted`.
pub proof fn lemma_short_scramble_solvable(s: Seq<Rotation>)
    requires
        valid_moves(s),
        s.len() <= 3,
    ensures
        exists|q: Seq<Rotation>|
            valid_moves(q) && q.len() <= s.len() && path_index(q) < search_limit() && blocks_solved(
                #[trigger] apply_rotations(apply_rotations(solved_layout(), s), q),
            ),
{
    let v = solved_layout();
    lemma_one_turn_unsolves(Rotation { face: Color { idx: 0 }, direction: Direction::Clockwise });
    assert(blocks_wf(v)) by {
        lemma_neighbors(WHITE);
        lemma_neighbors(YELLOW);
        lemma_neighbors(GREEN);
        lemma_neighbors(BLUE);
    }
    lemma_undo(v, s);
    let q = inverse_path(s);
    lemma_path_index_bounds(q);
    lemma_first_index_monotone(q.len() + 1, 4);
    assert(first_index(4) == 1885) by {
        reveal_with_fuel(first_index, 5);
    }
    assert(blocks_solved(apply_rotations(apply_rotations(v, s), q)));
}

/// The color that the piece model shows at row-major position `p` of face
/// `f`, where it shows one.
pub open spec fn shown_at(v: Seq<Block>, f: usize, p: int) -> Option<Color> {
    if p == 4 {
        Some(Color { idx: f })
    } else if p == 1 {
        edge_shown(v, f, 0)
    } else if p == 5 {
        edge_shown(v, f, 1)
    } else if p == 7 {
        edge_shown(v, f, 2)
    } else if p == 3 {
        edge_shown(v, f, 3)
    } else if p == 2 {
        corner_shown(v, f, 0)
    } else if p == 8 {
        corner_shown(v, f, 1)
    } else if p == 6 {
        corner_shown(v, f, 2)
    } else {
        corner_shown(v, f, 3)
    }
}

/// The nine colors of a grid, row by row.
pub open spec fn grid_cells(g: [[Color; 3]; 3]) -> Seq<Color> {
    Seq::new(9, |p: int| g[p / 3][p % 3])
}

/// Row `row` of nine colors given row by row, as `| a b c |` with each
/// color's abbreviation.
#[verifier::opaque]
pub open spec fn grid_row_text(cells: Seq<Color>, row: int) -> Seq<char> {
    seq!['|', ' '] + cells[3 * row].abrv_spec() + seq![' '] + cells[3 * row + 1].abrv_spec() + seq![' ']
        + cells[3 * row + 2].abrv_spec() + seq![' ', '|']
}

/// The three rows of a grid, each after `pad` and ending a line.
#[verifier::opaque]
pub open spec fn single_face_text(cells: Seq<Color>, pad: Seq<char>) -> Seq<char> {
    pad + grid_row_text(cells, 0) + seq!['\n'] + pad + grid_row_text(cells, 1) + seq!['\n'] + pad
        + grid_row_text(cells, 2) + seq!['\n']
}

/// Row `row` of each grid of `grids`, side by side.
pub open spec fn rows_text(grids: Seq<Seq<Color>>, row: int) -> Seq<char>
    decreases grids.len(),
{
    if grids.len() == 0 {
        seq![]
    } else {
        rows_text(grids.drop_last(), row) + grid_row_text(grids.last(), row)
    }
}

/// The piece model as a net: white on top, red, blue, orange and green in a
/// band, yellow below, each sticker shown by its color's abbreviation.
#[verifier::opaque]
pub open spec fn net_text(grids: Seq<Seq<Color>>) -> Seq<char> {
    let blank = Seq::new(9, |i: int| ' ');
    let dash = Seq::new(9, |i: int| '-');
    let rule = Seq::new(36, |i: int| '-') + seq!['\n'];
    let band = seq![grids[1], grids[2], grids[3], grids[4]];
    blank + dash + seq!['\n'] + single_face_text(grids[0], blank) + rule + rows_text(band, 0) + seq!['\n']
        + rows_text(band, 1) + seq!['\n'] + rows_text(band, 2) + seq!['\n'] + rule + single_face_text(
        grids[5],
        blank,
    ) + blank + dash + seq!['\n']
}

/// The colors that the piece model shows on face `f`, row by row.
pub open spec fn shown_cells(v: Seq<Block>, f: usize) -> Seq<Color> {
    Seq::new(9, |p: int| shown_at(v, f, p)->0)
}

/// The grids that the piece model shows on its six faces.
pub open spec fn shown_grids(v: Seq<Block>) -> Seq<Seq<Color>> {
    Seq::new(6, |f: int| shown_cells(v, f as usize))
}

/// Row `row` of `face` as `| a b c |`.
pub fn write_face_row(face: &[[Color; 3]; 3], row: usize) -> (r: String)
    requires
        row < 3,
    ensures
        r@ == grid_row_text(grid_cells(*face), row as int),
{
    proof {
        reveal_strlit("| ");
        reveal_strlit(" ");
        reveal_strlit(" |");
    }
    let mut text = String::new();
    text.append("| ");
    text.append(face[row][0].abrv());
    text.append(" ");
    text.append(face[row][1].abrv());
    text.append(" ");
    text.append(face[row][2].abrv());
    text.append(" |");
    let ghost c = grid_cells(*face);
    assert(c[3 * row as int] == face[row as int][0] && c[3 * row + 1] == face[row as int][1] && c[3 * row + 2]
        == face[row as int][2]);
    assert(text@ =~= grid_row_text(c, row as int)) by {
        reveal(grid_row_text);
    }
    text
}

/// Row `row` of each face of `faces`, side by side, ending a line.
pub fn write_multiple_face_rows(faces: &Vec<[[Color; 3]; 3]>, row: usize) -> (r: String)
    requires
        row < 3,
    ensures
        r@ == rows_text(Seq::new(faces@.len(), |k: int| grid_cells(faces@[k])), row as int) + seq!['\n'],
{
    let ghost all = Seq::new(faces@.len(), |k: int| grid_cells(faces@[k]));
    let mut text = String::new();
    for i in 0..faces.len()
        invariant
            row < 3,
            all == Seq::new(faces@.len(), |k: int| grid_cells(faces@[k])),
            text@ == rows_text(all.take(i as int), row as int),
    {
        let part = write_face_row(&faces[i], row);
        text.append(part.as_str());
        assert(all.take(i + 1).drop_last() =~= all.take(i as int));
    }
    assert(all.take(faces@.len() as int) =~= all);
    proof {
        reveal_strlit("\n");
    }
    text.append("\n");
    text
}

/// The three rows of `face`, each after `left_pad` and ending a line.
pub fn write_single_face(face: &[[Color; 3]; 3], left_pad: &str) -> (r: String)
    ensures
        r@ == single_face_text(grid_cells(*face), left_pad@),
{
    proof {
        reveal_strlit("\n");
    }
    let mut text = String::new();
    for row in 0..3
        invariant
            text@ == if row == 0 {
                seq![]
            } else if row == 1 {
                left_pad@ + grid_row_text(grid_cells(*face), 0) + seq!['\n']
            } else if row == 2 {
                left_pad@ + grid_row_text(grid_cells(*face), 0) + seq!['\n'] + left_pad@ + grid_row_text(
                    grid_cells(*face),
                    1,
                ) + seq!['\n']
            } else {
                left_pad@ + grid_row_text(grid_cells(*face), 0) + seq!['\n'] + left_pad@ + grid_row_text(
                    grid_cells(*face),
                    1,
                ) + seq!['\n'] + left_pad@ + grid_row_text(grid_cells(*face), 2) + seq!['\n']
            },
    {
        proof {
            reveal_strlit("\n");
        }
        let ghost before = text@;
        text.append(left_pad);
        let part = write_face_row(face, row);
        text.append(part.as_str());
        text.append("\n");
        assert(text@ =~= before + left_pad@ + grid_row_text(grid_cells(*face), row as int) + seq!['\n']);
    }
    assert(text@ == single_face_text(grid_cells(*face), left_pad@)) by {
        reveal(single_face_text);
    }
    text
}

proof fn lemma_grid_is_shown(v: Seq<Block>, f: usize, g: [[Color; 3]; 3])
    requires
        g[1][1] == (Color { idx: f }),
        forall|i: int|
            0 <= i < 4 ==> #[trigger] edge_shown(v, f, i) == Some(g[edge_cell(i) / 3][edge_cell(i) % 3])
                && corner_shown(v, f, i) == Some(g[corner_cell(i) / 3][corner_cell(i) % 3]),
    ensures
        grid_cells(g) == shown_cells(v, f),
{
    assert(edge_shown(v, f, 0) == Some(g[0][1]));
    assert(edge_shown(v, f, 1) == Some(g[1][2]));
    assert(edge_shown(v, f, 2) == Some(g[2][1]));
    assert(edge_shown(v, f, 3) == Some(g[1][0]));
    assert(corner_shown(v, f, 0) == Some(g[0][2]));
    assert(corner_shown(v, f, 1) == Some(g[2][2]));
    assert(corner_shown(v, f, 2) == Some(g[2][0]));
    assert(corner_shown(v, f, 3) == Some(g[0][0]));
    assert(grid_cells(g) =~= shown_cells(v, f));
}

impl RubiksCube {
    /// The cube as a net (see `net_text`), or `None` where a face query finds
    /// no piece at some edge or corner.
    pub fn to_text(&self) -> (r: Option<String>)
        ensures
            r is Some <==> forall|f: int, i: int|
                0 <= f < 6 && 0 <= i < 4 ==> (#[trigger] edge_shown(self@, f as usize, i)) is Some
                    && corner_shown(self@, f as usize, i) is Some,
            r matches Some(t) ==> t@ == net_text(shown_grids(self@)),
    {
        let mut faces: Vec<[[Color; 3]; 3]> = Vec::new();
        for f in 0..NUM_COLORS
            invariant
                faces@.len() == f,
                forall|g: int| 0 <= g < f ==> grid_cells(#[trigger] faces@[g]) == shown_grids(self@)[g],
                forall|g: int, i: int|
                    0 <= g < f && 0 <= i < 4 ==> (#[trigger] edge_shown(self@, g as usize, i)) is Some
                        && corner_shown(self@, g as usize, i) is Some,
        {
            match self.get_face(&Color::new(f)) {
                Some(grid) => {
                    proof {
                        lemma_grid_is_shown(self@, f, grid);
                        assert(shown_grids(self@)[f as int] == shown_cells(self@, f));
                    }
                    faces.push(grid);
                },
                None => {
                    return None;
                },
            }
        }
        let text = net_from_grids(&faces);
        proof {
            assert(Seq::new(6, |f: int| grid_cells(faces@[f])) =~= shown_grids(self@));
        }
        Some(text)
    }
}

/// The net (see `net_text`) of six grids.
fn net_from_grids(faces: &Vec<[[Color; 3]; 3]>) -> (r: String)
    requires
        faces@.len() == 6,
    ensures
        r@ == net_text(Seq::new(6, |f: int| grid_cells(faces@[f]))),
{
    let ghost grids = Seq::new(6, |f: int| grid_cells(faces@[f]));
    let blank = "         ";
    let dash = "---------";
    proof {
        reveal_strlit("         ");
        reveal_strlit("---------");
        reveal_strlit("\n");
    }
    let ghost b = Seq::new(9, |i: int| ' ');
    let ghost d = Seq::new(9, |i: int| '-');
    let ghost rl = Seq::new(36, |i: int| '-') + seq!['\n'];
    assert(blank@ =~= b);
    assert(dash@ =~= d);
    let mut text = String::new();
    text.append(blank);
    text.append(dash);
    text.append("\n");
    let top = write_single_face(&faces[0], blank);
    text.append(top.as_str());
    let rule = dashes_line();
    text.append(rule.as_str());
    let ghost upper = text@;
    assert(upper =~= b + d + seq!['\n'] + single_face_text(grids[0], b) + rl);
    let middle_faces = vec![faces[1], faces[2], faces[3], faces[4]];
    let ghost band = seq![grids[1], grids[2], grids[3], grids[4]];
    assert(Seq::new(middle_faces@.len(), |k: int| grid_cells(middle_faces@[k])) =~= band);
    let row0 = write_multiple_face_rows(&middle_faces, 0);
    text.append(row0.as_str());
    let row1 = write_multiple_face_rows(&middle_faces, 1);
    text.append(row1.as_str());
    let row2 = write_multiple_face_rows(&middle_faces, 2);
    text.append(row2.as_str());
    let ghost middle = text@;
    assert(middle =~= upper + rows_text(band, 0) + seq!['\n'] + rows_text(band, 1) + seq!['\n'] + rows_text(
        band,
        2,
    ) + seq!['\n']);
    text.append(rule.as_str());
    let bottom = write_single_face(&faces[5], blank);
    text.append(bottom.as_str());
    text.append(blank);
    text.append(dash);
    text.append("\n");
    assert(text@ =~= middle + rl + single_face_text(grids[5], b) + b + d + seq!['\n']);
    assert(text@ =~= net_text(grids)) by {
        reveal(net_text);
    }
    text
}

/// Thirty-six dashes and a newline.
fn dashes_line() -> (r: String)
    ensures
        r@ == Seq::new(36, |i: int| '-') + seq!['\n'],
{
    proof {
        reveal_strlit("---------");
        reveal_strlit("\n");
    }
    assert("---------"@ =~= Seq::new(9, |i: int| '-'));
    let mut text = String::new();
    for i in 0..4
        invariant
            text@ == Seq::new((9 * i) as nat, |k: int| '-'),
            "---------"@ == Seq::new(9, |k: int| '-'),
    {
        text.append("---------");
        assert(text@ =~= Seq::new((9 * (i + 1)) as nat, |k: int| '-'));
    }
    text.append("\n");
    assert(text@ =~= Seq::new(36, |i: int| '-') + seq!['\n']);
    text
}

} // verus!
