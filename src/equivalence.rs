use vstd::prelude::*;

use crate::bit_cube::{
    apply_moves, bit_turned, lemma_strip_table, ring_of, slot_in, solved_cells, src_pos, strip_cells,
    strip_on, well_shaped, Move,
};
use crate::block::{Block, BlockFace};
use crate::color::Color;
use crate::rotation::{Direction, Rotation};
use crate::rubiks_cube::{
    adjacent, apply_rotations, block_wf, blocks_wf, lemma_moved_face, lemma_neighbors, lemma_turn_block_wf, moved_face,
    neighbor, solved_block, solved_layout, turn_block, turned, first_edge, first_corner, edge_between,
    corner_between, edge_shown, corner_shown, edge_cell, corner_cell, inverse, lemma_adjacent_moved,
};

verus! {

/// The ring cell of face `a` on the edge that it shares with face `c`.
pub open spec fn edge_ring(a: usize, c: usize) -> int {
    if neighbor(a, 0) == c {
        1
    } else if neighbor(a, 1) == c {
        3
    } else if neighbor(a, 2) == c {
        5
    } else {
        7
    }
}

/// Where a turn of face `t` takes the edge sticker on face `a` next to face
/// `c`: the bit model's cell there after the turn holds what the cell of the
/// sticker held before.
proof fn lemma_edge_sticker(t: usize, dir: Direction, a: usize, c: usize)
    requires
        t < 6,
        a < 6,
        c < 6,
        adjacent(a, c),
    ensures
        (a == t || c == t) ==> src_pos(
            t,
            dir,
            moved_face(t, dir, a) as int,
            edge_ring(moved_face(t, dir, a), moved_face(t, dir, c)),
        ) == (a as int, edge_ring(a, c)),
        !(a == t || c == t) ==> src_pos(t, dir, a as int, edge_ring(a, c)) == (a as int, edge_ring(a, c)),
{
    lemma_neighbors(t);
}

/// Whether `c` and `d` are neighbours `i` and `i + 1` of face `a`, in
/// either order.
pub open spec fn corner_at(a: usize, i: int, c: usize, d: usize) -> bool {
    (neighbor(a, i) == c && neighbor(a, (i + 1) % 4) == d) || (neighbor(a, i) == d && neighbor(a, (i + 1) % 4)
        == c)
}

/// The ring cell of face `a` at the corner that it shares with faces `c` and
/// `d`.
pub open spec fn corner_ring(a: usize, c: usize, d: usize) -> int {
    if corner_at(a, 0, c, d) {
        2
    } else if corner_at(a, 1, c, d) {
        4
    } else if corner_at(a, 2, c, d) {
        6
    } else {
        0
    }
}

/// Where a turn of face `t` takes the corner sticker on face `a` next to
/// faces `c` and `d`.
proof fn lemma_corner_sticker(t: usize, dir: Direction, a: usize, c: usize, d: usize)
    requires
        t < 6,
        a < 6,
        c < 6,
        d < 6,
        adjacent(a, c),
        adjacent(a, d),
        adjacent(c, d),
    ensures
        (a == t || c == t || d == t) ==> src_pos(
            t,
            dir,
            moved_face(t, dir, a) as int,
            corner_ring(moved_face(t, dir, a), moved_face(t, dir, c), moved_face(t, dir, d)),
        ) == (a as int, corner_ring(a, c, d)),
        !(a == t || c == t || d == t) ==> src_pos(t, dir, a as int, corner_ring(a, c, d)) == (
            a as int,
            corner_ring(a, c, d),
        ),
{
    lemma_neighbors(t);
}

/// The bit model's cell at `pos` on the sticker's face holds the code of
/// the sticker's color.
pub open spec fn sticker_agrees(x: BlockFace, pos: int, b: Seq<Seq<u32>>) -> bool {
    b[x.face.idx as int][pos] == (x.color.idx + 1) as u32
}

/// Each sticker of the piece agrees with the bit model at its position.
pub open spec fn piece_agrees(p: Block, b: Seq<Seq<u32>>) -> bool {
    match p {
        Block::Edge(x, y) => sticker_agrees(x, edge_ring(x.face.idx, y.face.idx), b) && sticker_agrees(
            y,
            edge_ring(y.face.idx, x.face.idx),
            b,
        ),
        Block::Corner(x, y, z) => sticker_agrees(x, corner_ring(x.face.idx, y.face.idx, z.face.idx), b)
            && sticker_agrees(y, corner_ring(y.face.idx, x.face.idx, z.face.idx), b) && sticker_agrees(
            z,
            corner_ring(z.face.idx, x.face.idx, y.face.idx),
            b,
        ),
    }
}

/// The piece model `v` and the bit model `b` show the same cube: every
/// sticker agrees with the cell at its position, and every center holds its
/// face's code.
pub open spec fn models_agree(v: Seq<Block>, b: Seq<Seq<u32>>) -> bool {
    &&& forall|i: int| 0 <= i < v.len() ==> piece_agrees(#[trigger] v[i], b)
    &&& forall|f: int| 0 <= f < 6 ==> #[trigger] b[f][8] == (f + 1) as u32
}

/// The quarter turn of the piece model that matches move `m` of the bit
/// model.
pub open spec fn as_rotation(m: Move) -> Rotation {
    Rotation { face: Color { idx: m.face }, direction: m.direction }
}

pub open spec fn as_rotations(ms: Seq<Move>) -> Seq<Rotation> {
    Seq::new(ms.len(), |i: int| as_rotation(ms[i]))
}

proof fn lemma_edge_turn(x: BlockFace, y: BlockFace, b: Seq<Seq<u32>>, m: Move)
    requires
        block_wf(Block::Edge(x, y)),
        piece_agrees(Block::Edge(x, y), b),
        well_shaped(b),
        m.wf(),
    ensures
        piece_agrees(turn_block(Block::Edge(x, y), as_rotation(m)), bit_turned(b, m.face, m.direction)),
{
    let t = m.face;
    let d = m.direction;
    let (a, c) = (x.face.idx, y.face.idx);
    let bt = bit_turned(b, t, d);
    lemma_edge_sticker(t, d, a, c);
    lemma_edge_sticker(t, d, c, a);
    lemma_moved_face(t, d, a);
    lemma_moved_face(t, d, c);
    if a == t || c == t {
        let (a2, c2) = (moved_face(t, d, a), moved_face(t, d, c));
        assert(bt[a2 as int][edge_ring(a2, c2)] == b[a as int][edge_ring(a, c)]);
        assert(bt[c2 as int][edge_ring(c2, a2)] == b[c as int][edge_ring(c, a)]);
    } else {
        assert(bt[a as int][edge_ring(a, c)] == b[a as int][edge_ring(a, c)]);
        assert(bt[c as int][edge_ring(c, a)] == b[c as int][edge_ring(c, a)]);
    }
}

/// The bit model's cell for one corner sticker after a turn.
proof fn lemma_corner_cell(t: usize, d: Direction, a: usize, c: usize, e: usize, b: Seq<Seq<u32>>)
    requires
        t < 6,
        a < 6,
        c < 6,
        e < 6,
        adjacent(a, c),
        adjacent(a, e),
        adjacent(c, e),
        well_shaped(b),
    ensures
        (a == t || c == t || e == t) ==> bit_turned(b, t, d)[moved_face(t, d, a) as int][corner_ring(
            moved_face(t, d, a),
            moved_face(t, d, c),
            moved_face(t, d, e),
        )] == b[a as int][corner_ring(a, c, e)],
        !(a == t || c == t || e == t) ==> bit_turned(b, t, d)[a as int][corner_ring(a, c, e)]
            == b[a as int][corner_ring(a, c, e)],
{
    lemma_corner_sticker(t, d, a, c, e);
    lemma_moved_face(t, d, a);
}

#[verifier::rlimit(50)]
proof fn lemma_corner_turn(x: BlockFace, y: BlockFace, z: BlockFace, b: Seq<Seq<u32>>, m: Move)
    requires
        block_wf(Block::Corner(x, y, z)),
        piece_agrees(Block::Corner(x, y, z), b),
        well_shaped(b),
        m.wf(),
    ensures
        piece_agrees(turn_block(Block::Corner(x, y, z), as_rotation(m)), bit_turned(b, m.face, m.direction)),
{
    let t = m.face;
    let d = m.direction;
    let (a, c, e) = (x.face.idx, y.face.idx, z.face.idx);
    lemma_corner_cell(t, d, a, c, e, b);
    lemma_corner_cell(t, d, c, a, e, b);
    lemma_corner_cell(t, d, e, a, c, b);
}

proof fn lemma_piece_turn(p: Block, b: Seq<Seq<u32>>, m: Move)
    requires
        block_wf(p),
        piece_agrees(p, b),
        well_shaped(b),
        m.wf(),
    ensures
        piece_agrees(turn_block(p, as_rotation(m)), bit_turned(b, m.face, m.direction)),
{
    match p {
        Block::Edge(x, y) => lemma_edge_turn(x, y, b, m),
        Block::Corner(x, y, z) => lemma_corner_turn(x, y, z, b, m),
    }
}

proof fn lemma_centers_stay(b: Seq<Seq<u32>>, t: usize, dir: Direction, f: int)
    requires
        well_shaped(b),
        t < 6,
        0 <= f < 6,
    ensures
        bit_turned(b, t, dir)[f][8] == b[f][8],
{
    lemma_strip_table(t);
    if f != t && strip_on(t, f) >= 0 {
        assert(slot_in(strip_cells(t, strip_on(t, f)), 8) < 0);
    }
}

/// A quarter turn of both models keeps them in agreement.
pub proof fn lemma_turn_agrees(v: Seq<Block>, b: Seq<Seq<u32>>, m: Move)
    requires
        blocks_wf(v),
        well_shaped(b),
        models_agree(v, b),
        m.wf(),
    ensures
        models_agree(turned(v, as_rotation(m)), bit_turned(b, m.face, m.direction)),
{
    let w = turned(v, as_rotation(m));
    let c = bit_turned(b, m.face, m.direction);
    assert forall|i: int| 0 <= i < w.len() implies piece_agrees(#[trigger] w[i], c) by {
        lemma_piece_turn(v[i], b, m);
    }
    assert forall|f: int| 0 <= f < 6 implies #[trigger] c[f][8] == (f + 1) as u32 by {
        lemma_centers_stay(b, m.face, m.direction, f);
    }
}

/// After the same moves from the solved cube, the piece model and the bit
/// model show the same cube.
pub proof fn lemma_models_agree(ms: Seq<Move>)
    requires
        forall|i: int| 0 <= i < ms.len() ==> (#[trigger] ms[i]).wf(),
    ensures
        models_agree(apply_rotations(solved_layout(), as_rotations(ms)), apply_moves(solved_cells(), ms)),
        blocks_wf(apply_rotations(solved_layout(), as_rotations(ms))),
        well_shaped(apply_moves(solved_cells(), ms)),
    decreases ms.len(),
{
    if ms.len() == 0 {
        assert(as_rotations(ms) =~= Seq::<Rotation>::empty());
        let v = solved_layout();
        assert forall|i: int| 0 <= i < v.len() implies piece_agrees(#[trigger] v[i], solved_cells()) by {
            lemma_neighbors(0);
            lemma_neighbors(5);
            lemma_neighbors(4);
            lemma_neighbors(2);
            assert(v[i] == solved_block(i));
        }
        assert(blocks_wf(v));
    } else {
        let rest = ms.drop_last();
        assert forall|i: int| 0 <= i < rest.len() implies (#[trigger] rest[i]).wf() by {
            assert(rest[i] == ms[i]);
        }
        lemma_models_agree(rest);
        assert(as_rotations(ms).drop_last() =~= as_rotations(rest));
        assert(as_rotations(ms).last() == as_rotation(ms.last()));
        assert(ms[ms.len() - 1].wf());
        let u = apply_rotations(solved_layout(), as_rotations(rest));
        lemma_turn_agrees(u, apply_moves(solved_cells(), rest), ms.last());
        assert forall|i: int| 0 <= i < turned(u, as_rotation(ms.last())).len() implies #[trigger] block_wf(
            turned(u, as_rotation(ms.last()))[i],
        ) by {
            lemma_turn_block_wf(u[i], as_rotation(ms.last()));
        }
        crate::bit_cube::lemma_bit_shape(apply_moves(solved_cells(), rest), ms.last().face, ms.last().direction);
    }
}

proof fn lemma_first_edge_in(v: Seq<Block>, a: usize, c: usize)
    requires
        first_edge(v, a, c) is Some,
    ensures
        exists|j: int| 0 <= j < v.len() && v[j] == first_edge(v, a, c)->0 && edge_between(v[j], a, c),
    decreases v.len(),
{
    let u = v.drop_last();
    if first_edge(u, a, c) is Some {
        lemma_first_edge_in(u, a, c);
        let j = choose|j: int| 0 <= j < u.len() && u[j] == first_edge(u, a, c)->0 && edge_between(u[j], a, c);
        assert(v[j] == u[j]);
    } else {
        assert(v[v.len() - 1] == v.last());
    }
}

proof fn lemma_first_corner_in(v: Seq<Block>, a: usize, c: usize, d: usize)
    requires
        first_corner(v, a, c, d) is Some,
    ensures
        exists|j: int|
            0 <= j < v.len() && v[j] == first_corner(v, a, c, d)->0 && corner_between(v[j], a, c, d),
    decreases v.len(),
{
    let u = v.drop_last();
    if first_corner(u, a, c, d) is Some {
        lemma_first_corner_in(u, a, c, d);
        let j = choose|j: int|
            0 <= j < u.len() && u[j] == first_corner(u, a, c, d)->0 && corner_between(u[j], a, c, d);
        assert(v[j] == u[j]);
    } else {
        assert(v[v.len() - 1] == v.last());
    }
}

/// What the piece model shows at the edge towards neighbour `i` of face `f`
/// is what the bit model holds there.
proof fn lemma_edge_view(v: Seq<Block>, b: Seq<Seq<u32>>, f: usize, i: int)
    requires
        blocks_wf(v),
        models_agree(v, b),
        f < 6,
        0 <= i < 4,
    ensures
        edge_shown(v, f, i) matches Some(col) ==> b[f as int][ring_of(edge_cell(i))] == (col.idx + 1) as u32,
{
    let n = neighbor(f, i);
    if first_edge(v, f, n) is Some {
        lemma_first_edge_in(v, f, n);
        let j = choose|j: int| 0 <= j < v.len() && v[j] == first_edge(v, f, n)->0 && edge_between(v[j], f, n);
        lemma_neighbors(f);
        assert(block_wf(v[j]) && piece_agrees(v[j], b));
    }
}

/// What the piece model shows at the corner between neighbours `i` and
/// `i + 1` of face `f` is what the bit model holds there.
proof fn lemma_corner_view(v: Seq<Block>, b: Seq<Seq<u32>>, f: usize, i: int)
    requires
        blocks_wf(v),
        models_agree(v, b),
        f < 6,
        0 <= i < 4,
    ensures
        corner_shown(v, f, i) matches Some(col) ==> b[f as int][ring_of(corner_cell(i))] == (col.idx + 1) as u32,
{
    let n1 = neighbor(f, i);
    let n2 = neighbor(f, (i + 1) % 4);
    if first_corner(v, f, n1, n2) is Some {
        lemma_first_corner_in(v, f, n1, n2);
        let j = choose|j: int|
            0 <= j < v.len() && v[j] == first_corner(v, f, n1, n2)->0 && corner_between(v[j], f, n1, n2);
        lemma_neighbors(f);
        assert(block_wf(v[j]) && piece_agrees(v[j], b));
    }
}

/// After the same moves from the solved cube, the two models show the same
/// cube: the piece model's face query (`RubiksCube::get_face`) finds a color
/// at every edge and corner of every face, the bit model's cell at that grid
/// position (`edge_cell(i)` or `corner_cell(i)`) holds that color's code, and
/// each center holds its own face's code.
pub proof fn lemma_same_view(ms: Seq<Move>, f: usize, i: int)
    requires
        forall|k: int| 0 <= k < ms.len() ==> (#[trigger] ms[k]).wf(),
        f < 6,
        0 <= i < 4,
    ensures
        ({
            let v = apply_rotations(solved_layout(), as_rotations(ms));
            let b = apply_moves(solved_cells(), ms);
            &&& edge_shown(v, f, i) matches Some(col) ==> b[f as int][ring_of(edge_cell(i))] == (col.idx
                + 1) as u32
            &&& corner_shown(v, f, i) matches Some(col) ==> b[f as int][ring_of(corner_cell(i))] == (col.idx
                + 1) as u32
            &&& b[f as int][ring_of(4)] == (f + 1) as u32
            &&& edge_shown(v, f, i) is Some
            &&& corner_shown(v, f, i) is Some
        }),
{
    lemma_models_agree(ms);
    lemma_filled_apply(ms);
    lemma_all_shown(apply_rotations(solved_layout(), as_rotations(ms)), f, i);
    let v = apply_rotations(solved_layout(), as_rotations(ms));
    let b = apply_moves(solved_cells(), ms);
    lemma_edge_view(v, b, f, i);
    lemma_corner_view(v, b, f, i);
}

/// The slot of the solved layout that holds the edge between faces `a` and
/// `c`.
pub open spec fn solved_edge_slot(a: usize, c: usize) -> int {
    if a == 0 && c == 1 {
        7
    } else if a == 0 && c == 2 {
        5
    } else if a == 0 && c == 3 {
        3
    } else if a == 0 && c == 4 {
        1
    } else if a == 1 && c == 0 {
        7
    } else if a == 1 && c == 2 {
        19
    } else if a == 1 && c == 4 {
        16
    } else if a == 1 && c == 5 {
        15
    } else if a == 2 && c == 0 {
        5
    } else if a == 2 && c == 1 {
        19
    } else if a == 2 && c == 3 {
        18
    } else if a == 2 && c == 5 {
        9
    } else if a == 3 && c == 0 {
        3
    } else if a == 3 && c == 2 {
        18
    } else if a == 3 && c == 4 {
        17
    } else if a == 3 && c == 5 {
        11
    } else if a == 4 && c == 0 {
        1
    } else if a == 4 && c == 1 {
        16
    } else if a == 4 && c == 3 {
        17
    } else if a == 4 && c == 5 {
        13
    } else if a == 5 && c == 1 {
        15
    } else if a == 5 && c == 2 {
        9
    } else if a == 5 && c == 3 {
        11
    } else if a == 5 && c == 4 {
        13
    } else {
        0
    }
}

/// The slot of the solved layout that holds the corner between faces `a`,
/// `c` and `d`.
pub open spec fn solved_corner_slot(a: usize, c: usize, d: usize) -> int {
    if a == 0 && c == 1 && d == 2 {
        4
    } else if a == 0 && c == 1 && d == 4 {
        6
    } else if a == 0 && c == 2 && d == 1 {
        4
    } else if a == 0 && c == 2 && d == 3 {
        2
    } else if a == 0 && c == 3 && d == 2 {
        2
    } else if a == 0 && c == 3 && d == 4 {
        0
    } else if a == 0 && c == 4 && d == 1 {
        6
    } else if a == 0 && c == 4 && d == 3 {
        0
    } else if a == 1 && c == 0 && d == 2 {
        4
    } else if a == 1 && c == 0 && d == 4 {
        6
    } else if a == 1 && c == 2 && d == 0 {
        4
    } else if a == 1 && c == 2 && d == 5 {
        14
    } else if a == 1 && c == 4 && d == 0 {
        6
    } else if a == 1 && c == 4 && d == 5 {
        12
    } else if a == 1 && c == 5 && d == 2 {
        14
    } else if a == 1 && c == 5 && d == 4 {
        12
    } else if a == 2 && c == 0 && d == 1 {
        4
    } else if a == 2 && c == 0 && d == 3 {
        2
    } else if a == 2 && c == 1 && d == 0 {
        4
    } else if a == 2 && c == 1 && d == 5 {
        14
    } else if a == 2 && c == 3 && d == 0 {
        2
    } else if a == 2 && c == 3 && d == 5 {
        8
    } else if a == 2 && c == 5 && d == 1 {
        14
    } else if a == 2 && c == 5 && d == 3 {
        8
    } else if a == 3 && c == 0 && d == 2 {
        2
    } else if a == 3 && c == 0 && d == 4 {
        0
    } else if a == 3 && c == 2 && d == 0 {
        2
    } else if a == 3 && c == 2 && d == 5 {
        8
    } else if a == 3 && c == 4 && d == 0 {
        0
    } else if a == 3 && c == 4 && d == 5 {
        10
    } else if a == 3 && c == 5 && d == 2 {
        8
    } else if a == 3 && c == 5 && d == 4 {
        10
    } else if a == 4 && c == 0 && d == 1 {
        6
    } else if a == 4 && c == 0 && d == 3 {
        0
    } else if a == 4 && c == 1 && d == 0 {
        6
    } else if a == 4 && c == 1 && d == 5 {
        12
    } else if a == 4 && c == 3 && d == 0 {
        0
    } else if a == 4 && c == 3 && d == 5 {
        10
    } else if a == 4 && c == 5 && d == 1 {
        12
    } else if a == 4 && c == 5 && d == 3 {
        10
    } else if a == 5 && c == 1 && d == 2 {
        14
    } else if a == 5 && c == 1 && d == 4 {
        12
    } else if a == 5 && c == 2 && d == 1 {
        14
    } else if a == 5 && c == 2 && d == 3 {
        8
    } else if a == 5 && c == 3 && d == 2 {
        8
    } else if a == 5 && c == 3 && d == 4 {
        10
    } else if a == 5 && c == 4 && d == 1 {
        12
    } else if a == 5 && c == 4 && d == 3 {
        10
    } else {
        0
    }
}

/// Some piece of `v` is the edge between faces `a` and `c`.
pub open spec fn edge_filled(v: Seq<Block>, a: usize, c: usize) -> bool {
    exists|j: int| 0 <= j < v.len() && edge_between(#[trigger] v[j], a, c)
}

/// Some piece of `v` is the corner between faces `a`, `c` and `d`.
pub open spec fn corner_filled(v: Seq<Block>, a: usize, c: usize, d: usize) -> bool {
    exists|j: int| 0 <= j < v.len() && corner_between(#[trigger] v[j], a, c, d)
}

/// Every edge and every corner of the cube holds a piece.
pub open spec fn slots_filled(v: Seq<Block>) -> bool {
    &&& forall|a: usize, c: usize| a < 6 && c < 6 && adjacent(a, c) ==> #[trigger] edge_filled(v, a, c)
    &&& forall|a: usize, c: usize, d: usize|
        a < 6 && c < 6 && d < 6 && adjacent(a, c) && adjacent(a, d) && adjacent(c, d)
            ==> #[trigger] corner_filled(v, a, c, d)
}

proof fn lemma_solved_filled()
    ensures
        slots_filled(solved_layout()),
{
    let v = solved_layout();
    lemma_neighbors(0);
    lemma_neighbors(5);
    lemma_neighbors(4);
    lemma_neighbors(2);
    assert forall|a: usize, c: usize| a < 6 && c < 6 && adjacent(a, c) implies #[trigger] edge_filled(v, a, c) by {
        let j = solved_edge_slot(a, c);
        assert(edge_between(v[j], a, c));
    }
    assert forall|a: usize, c: usize, d: usize|
        a < 6 && c < 6 && d < 6 && adjacent(a, c) && adjacent(a, d) && adjacent(c, d) implies #[trigger] corner_filled(
        v,
        a,
        c,
        d,
    ) by {
        let j = solved_corner_slot(a, c, d);
        assert(corner_between(v[j], a, c, d));
    }
}

/// The edge slot between `a2` and `c2` after a turn holds the piece that was
/// in the slot that the turn takes there.
proof fn lemma_edge_slot_turn(v: Seq<Block>, r: Rotation, a2: usize, c2: usize)
    requires
        blocks_wf(v),
        slots_filled(v),
        r.wf(),
        a2 < 6,
        c2 < 6,
        adjacent(a2, c2),
    ensures
        edge_filled(turned(v, r), a2, c2),
{
    let t = r.face.idx;
    let u = inverse(r).direction;
    let w = turned(v, r);
    lemma_neighbors(t);
    if a2 == t || c2 == t {
        let a = moved_face(t, u, a2);
        let c = moved_face(t, u, c2);
        lemma_adjacent_moved(t, u, a2, c2);
        lemma_moved_face(t, u, a2);
        lemma_moved_face(t, u, c2);
        assert(edge_filled(v, a, c));
        let j = choose|j: int| 0 <= j < v.len() && edge_between(#[trigger] v[j], a, c);
        assert(block_wf(v[j]));
        assert(edge_between(w[j], a2, c2));
    } else {
        assert(edge_filled(v, a2, c2));
        let j = choose|j: int| 0 <= j < v.len() && edge_between(#[trigger] v[j], a2, c2);
        assert(block_wf(v[j]));
        assert(w[j] == v[j]);
    }
}

/// A turn takes a corner touching the turned face between faces `a`, `c`
/// and `e` to the corner between the faces they move to.
proof fn lemma_corner_between_turn(p: Block, r: Rotation, a: usize, c: usize, e: usize)
    requires
        p.touches(r.face.idx),
        corner_between(p, a, c, e),
    ensures
        corner_between(
            turn_block(p, r),
            moved_face(r.face.idx, r.direction, a),
            moved_face(r.face.idx, r.direction, c),
            moved_face(r.face.idx, r.direction, e),
        ),
{
}

/// A well-formed corner between three distinct faces touches no other face.
proof fn lemma_corner_faces(p: Block, a: usize, c: usize, e: usize, t: usize)
    requires
        block_wf(p),
        corner_between(p, a, c, e),
        a != c && a != e && c != e,
        t != a && t != c && t != e,
    ensures
        !p.touches(t),
{
}

/// The corner slot between `a2`, `c2` and `e2` after a turn holds the piece
/// that was in the slot that the turn takes there.
proof fn lemma_corner_slot_turn(v: Seq<Block>, r: Rotation, a2: usize, c2: usize, e2: usize)
    requires
        blocks_wf(v),
        slots_filled(v),
        r.wf(),
        a2 < 6,
        c2 < 6,
        e2 < 6,
        adjacent(a2, c2),
        adjacent(a2, e2),
        adjacent(c2, e2),
    ensures
        corner_filled(turned(v, r), a2, c2, e2),
{
    let t = r.face.idx;
    let u = inverse(r).direction;
    let w = turned(v, r);
    if a2 == t || c2 == t || e2 == t {
        let a = moved_face(t, u, a2);
        let c = moved_face(t, u, c2);
        let e = moved_face(t, u, e2);
        lemma_neighbors(t);
        lemma_adjacent_moved(t, u, a2, c2);
        lemma_adjacent_moved(t, u, a2, e2);
        lemma_adjacent_moved(t, u, c2, e2);
        lemma_moved_face(t, u, a2);
        lemma_moved_face(t, u, c2);
        lemma_moved_face(t, u, e2);
        assert(corner_filled(v, a, c, e));
        let j = choose|j: int| 0 <= j < v.len() && corner_between(#[trigger] v[j], a, c, e);
        assert(a == t || c == t || e == t);
        lemma_corner_between_turn(v[j], r, a, c, e);
        assert(w[j] == turn_block(v[j], r));
    } else {
        assert(corner_filled(v, a2, c2, e2));
        let j = choose|j: int| 0 <= j < v.len() && corner_between(#[trigger] v[j], a2, c2, e2);
        assert(block_wf(v[j]));
        lemma_corner_faces(v[j], a2, c2, e2, t);
        assert(w[j] == v[j]);
    }
}

/// A quarter turn moves every piece into a slot, so every slot stays filled.
proof fn lemma_filled_turn(v: Seq<Block>, r: Rotation)
    requires
        blocks_wf(v),
        slots_filled(v),
        r.wf(),
    ensures
        slots_filled(turned(v, r)),
{
    let w = turned(v, r);
    assert forall|a2: usize, c2: usize| a2 < 6 && c2 < 6 && adjacent(a2, c2) implies #[trigger] edge_filled(
        w,
        a2,
        c2,
    ) by {
        lemma_edge_slot_turn(v, r, a2, c2);
    }
    assert forall|a2: usize, c2: usize, e2: usize|
        a2 < 6 && c2 < 6 && e2 < 6 && adjacent(a2, c2) && adjacent(a2, e2) && adjacent(c2, e2) implies #[trigger] corner_filled(
        w,
        a2,
        c2,
        e2,
    ) by {
        lemma_corner_slot_turn(v, r, a2, c2, e2);
    }
}

proof fn lemma_filled_apply(ms: Seq<Move>)
    requires
        forall|i: int| 0 <= i < ms.len() ==> (#[trigger] ms[i]).wf(),
    ensures
        slots_filled(apply_rotations(solved_layout(), as_rotations(ms))),
    decreases ms.len(),
{
    if ms.len() == 0 {
        assert(as_rotations(ms) =~= Seq::<Rotation>::empty());
        lemma_solved_filled();
    } else {
        let rest = ms.drop_last();
        assert forall|i: int| 0 <= i < rest.len() implies (#[trigger] rest[i]).wf() by {
            assert(rest[i] == ms[i]);
        }
        lemma_filled_apply(rest);
        lemma_models_agree(rest);
        assert(as_rotations(ms).drop_last() =~= as_rotations(rest));
        assert(as_rotations(ms).last() == as_rotation(ms.last()));
        assert(ms[ms.len() - 1].wf());
        lemma_filled_turn(apply_rotations(solved_layout(), as_rotations(rest)), as_rotation(ms.last()));
    }
}

proof fn lemma_some_first_edge(v: Seq<Block>, a: usize, c: usize, j: int)
    requires
        0 <= j < v.len(),
        edge_between(v[j], a, c),
    ensures
        first_edge(v, a, c) is Some,
    decreases v.len(),
{
    if j < v.len() - 1 {
        let u = v.drop_last();
        assert(u[j] == v[j]);
        lemma_some_first_edge(u, a, c, j);
    }
}

proof fn lemma_some_first_corner(v: Seq<Block>, a: usize, c: usize, d: usize, j: int)
    requires
        0 <= j < v.len(),
        corner_between(v[j], a, c, d),
    ensures
        first_corner(v, a, c, d) is Some,
    decreases v.len(),
{
    if j < v.len() - 1 {
        let u = v.drop_last();
        assert(u[j] == v[j]);
        lemma_some_first_corner(u, a, c, d, j);
    }
}

/// With every slot filled, the face query finds a piece at every edge and
/// corner of every face, and that piece shows a color there.
proof fn lemma_all_shown(v: Seq<Block>, f: usize, i: int)
    requires
        blocks_wf(v),
        slots_filled(v),
        f < 6,
        0 <= i < 4,
    ensures
        edge_shown(v, f, i) is Some,
        corner_shown(v, f, i) is Some,
{
    lemma_neighbors(f);
    let n1 = neighbor(f, i);
    let n2 = neighbor(f, (i + 1) % 4);
    lemma_adjacent_ring(f, i);
    assert(edge_filled(v, f, n1));
    let j = choose|j: int| 0 <= j < v.len() && edge_between(#[trigger] v[j], f, n1);
    lemma_some_first_edge(v, f, n1, j);
    lemma_first_edge_in(v, f, n1);
    assert(corner_filled(v, f, n1, n2));
    let k = choose|k: int| 0 <= k < v.len() && corner_between(#[trigger] v[k], f, n1, n2);
    lemma_some_first_corner(v, f, n1, n2, k);
    lemma_first_corner_in(v, f, n1, n2);
}

/// Neighbours of a face share an edge with it, and consecutive neighbours
/// share an edge with each other.
proof fn lemma_adjacent_ring(f: usize, i: int)
    requires
        f < 6,
        0 <= i < 4,
    ensures
        adjacent(f, neighbor(f, i)),
        adjacent(neighbor(f, i), f),
        adjacent(neighbor(f, i), neighbor(f, (i + 1) % 4)),
        adjacent(f, neighbor(f, (i + 1) % 4)),
{
    lemma_neighbors(f);
}

} // verus!
