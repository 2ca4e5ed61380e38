use vstd::prelude::*;
use vstd::set_lib::{lemma_int_range, lemma_map_size, set_int_range};
use vstd::string::StringExecFns;

use rand::rngs::StdRng;

use crate::rotation::{draw_below, move_direction, move_face, Direction, NUM_MOVES};

verus! {

const LEAST_MASK: u32 = 0b111;
const TOP_EDGE_MASK: u32 = 0b111_111_111;
const CENTER_MASK: u32 = LEAST_MASK << 24;
const EDGE_MASK: u32 = !CENTER_MASK ^ (0b11111 << 27);
const OVER_UNDER_FLOW_SHIFT: u32 = 18;
const UNDERFLOW_MASK: u32 = 0b111_111;
const OVERFLOW_MASK: u32 = UNDERFLOW_MASK << OVER_UNDER_FLOW_SHIFT;
const BLOCK_SIZE: u32 = 3;
const ROTATE_SHIFT: u32 = 2 * BLOCK_SIZE;
const WEST_MASK: u32 = !0o77_000_007;

/// The number of cells of a face, and of cells that a turn moves around its
/// ring.
pub const NUM_CELLS: usize = 9;
pub const RING_CELLS: usize = 8;

/// The error of building a face from a value that is no color code.
#[derive(Clone, Copy, PartialEq, Eq, Structural, Debug, Hash)]
pub enum CubeError {
    InvalidCellValue(u32),
}

/// Cell `k` of a packed face word: three bits at position `3 * k`.
pub open spec fn cell(w: u32, k: u32) -> u32 {
    (w >> ((3 * k) as u32)) & 7
}

/// Three cells packed into nine bits, the first in the lowest three.
pub open spec fn pack3(a: u32, b: u32, c: u32) -> u32 {
    (a + 8 * b + 64 * c) as u32
}

/// The codes of the six colors are 1 to 6; 0 and 7 are no color.
pub open spec fn valid_cell(v: u32) -> bool {
    1 <= v <= 6
}

/// The bound below which a word holds nothing but its nine cells.
pub open spec fn word_bound() -> u32 {
    0x800_0000
}

/// Cells after a quarter turn of their face: the ring of eight moves by two
/// places, the center stays.
pub open spec fn rotated_cells(v: Seq<u32>, dir: Direction) -> Seq<u32> {
    Seq::new(
        9,
        |k: int|
            if k == 8 {
                v[8]
            } else {
                match dir {
                    Direction::Clockwise => v[(k + 6) % 8],
                    Direction::CounterClockwise => v[(k + 2) % 8],
                }
            },
    )
}

proof fn lemma_or_cell(w: u32, v: u32, i: u32, k: u32)
    by (bit_vector)
    requires
        i < 9,
        k < 9,
        v < 8,
        w < 0x800_0000,
        cell(w, i) == 0,
    ensures
        k == i ==> cell(w | (v << ((3 * i) as u32)), k) == v,
        k != i ==> cell(w | (v << ((3 * i) as u32)), k) == cell(w, k),
        (w | (v << ((3 * i) as u32))) < 0x800_0000,
{
}

proof fn lemma_zero_cell(k: u32)
    by (bit_vector)
    requires
        k < 9,
    ensures
        cell(0, k) == 0,
{
}

proof fn lemma_cells_determine(a: u32, b: u32)
    by (bit_vector)
    requires
        a < 0x800_0000,
        b < 0x800_0000,
        cell(a, 0) == cell(b, 0),
        cell(a, 1) == cell(b, 1),
        cell(a, 2) == cell(b, 2),
        cell(a, 3) == cell(b, 3),
        cell(a, 4) == cell(b, 4),
        cell(a, 5) == cell(b, 5),
        cell(a, 6) == cell(b, 6),
        cell(a, 7) == cell(b, 7),
        cell(a, 8) == cell(b, 8),
    ensures
        a == b,
{
}

proof fn lemma_rotate_cw(w: u32, n: u32)
    by (bit_vector)
    requires
        w < 0x800_0000,
        n == (((w & 0xfc_0000u32) >> 18u32) | ((w << 6u32) & 0xff_ffffu32)) | (w & 0x700_0000u32),
    ensures
        n < 0x800_0000,
        cell(n, 0) == cell(w, 6),
        cell(n, 1) == cell(w, 7),
        cell(n, 2) == cell(w, 0),
        cell(n, 3) == cell(w, 1),
        cell(n, 4) == cell(w, 2),
        cell(n, 5) == cell(w, 3),
        cell(n, 6) == cell(w, 4),
        cell(n, 7) == cell(w, 5),
        cell(n, 8) == cell(w, 8),
{
}

proof fn lemma_rotate_ccw(w: u32, n: u32)
    by (bit_vector)
    requires
        w < 0x800_0000,
        n == (((w & 0b111_111u32) << 18u32) | ((w & 0xff_ffffu32) >> 6u32)) | (w & 0x700_0000u32),
    ensures
        n < 0x800_0000,
        cell(n, 0) == cell(w, 2),
        cell(n, 1) == cell(w, 3),
        cell(n, 2) == cell(w, 4),
        cell(n, 3) == cell(w, 5),
        cell(n, 4) == cell(w, 6),
        cell(n, 5) == cell(w, 7),
        cell(n, 6) == cell(w, 0),
        cell(n, 7) == cell(w, 1),
        cell(n, 8) == cell(w, 8),
{
}

proof fn lemma_get_cell(w: u32, i: u32)
    by (bit_vector)
    requires
        i < 9,
    ensures
        (w & (7u32 << ((3 * i) as u32))) >> ((3 * i) as u32) == cell(w, i),
        cell(w, i) < 8,
{
}

proof fn lemma_set_cell(w: u32, v: u32, i: u32, k: u32)
    by (bit_vector)
    requires
        w < 0x800_0000,
        i < 9,
        k < 9,
        v < 8,
    ensures
        ((w & !(7u32 << ((3 * i) as u32))) | (v << ((3 * i) as u32))) < 0x800_0000,
        k == i ==> cell((w & !(7u32 << ((3 * i) as u32))) | (v << ((3 * i) as u32)), k) == v,
        k != i ==> cell((w & !(7u32 << ((3 * i) as u32))) | (v << ((3 * i) as u32)), k) == cell(w, k),
{
}

proof fn lemma_masks()
    by (bit_vector)
    ensures
        CENTER_MASK == 0x700_0000,
        EDGE_MASK == 0xff_ffff,
        OVERFLOW_MASK == 0xfc_0000,
        UNDERFLOW_MASK == 0b111_111,
        TOP_EDGE_MASK == 0o777,
        LEAST_MASK << BLOCK_SIZE == 0o70,
        WEST_MASK == !0o77_000_007u32,
{
}

proof fn lemma_strips(w: u32)
    by (bit_vector)
    ensures
        w & 0o777 == pack3(cell(w, 0), cell(w, 1), cell(w, 2)),
        (w >> 6u32) & 0o777 == pack3(cell(w, 2), cell(w, 3), cell(w, 4)),
        (w >> 12u32) & 0o777 == pack3(cell(w, 4), cell(w, 5), cell(w, 6)),
        (((w >> 18u32) & 0o77) | (w << 6u32)) & 0o777 == pack3(cell(w, 6), cell(w, 7), cell(w, 0)),
        cell(w, 0) < 8,
        cell(w, 1) < 8,
        cell(w, 2) < 8,
        cell(w, 3) < 8,
        cell(w, 4) < 8,
        cell(w, 5) < 8,
        cell(w, 6) < 8,
        cell(w, 7) < 8,
{
}

proof fn lemma_reverse(u: u32, a: u32, b: u32, c: u32)
    by (bit_vector)
    requires
        a < 8,
        b < 8,
        c < 8,
        u == pack3(a, b, c),
    ensures
        ((u >> 6u32) | (u & 0o70)) | ((u << 6u32) & 0o777) == pack3(c, b, a),
{
}

proof fn lemma_set_strip(w: u32, v: u32, shift: u32, k: u32)
    by (bit_vector)
    requires
        w < 0x800_0000,
        v < 0o1000,
        shift == 0 || shift == 6 || shift == 12,
        k < 9,
    ensures
        ((w & !(0o777u32 << shift)) | (v << shift)) < 0x800_0000,
        3 * k == shift ==> cell((w & !(0o777u32 << shift)) | (v << shift), k) == cell(v, 0),
        3 * k == shift + 3 ==> cell((w & !(0o777u32 << shift)) | (v << shift), k) == cell(v, 1),
        3 * k == shift + 6 ==> cell((w & !(0o777u32 << shift)) | (v << shift), k) == cell(v, 2),
        (3 * k < shift || 3 * k > shift + 6) ==> cell((w & !(0o777u32 << shift)) | (v << shift), k)
            == cell(w, k),
{
}

proof fn lemma_set_west(w: u32, v: u32, k: u32)
    by (bit_vector)
    requires
        w < 0x800_0000,
        v < 0o1000,
        k < 9,
    ensures
        (((w & !0o77_000_007u32) | ((v & 0o77) << 18u32)) | (v >> 6u32)) < 0x800_0000,
        k == 6 ==> cell(((w & !0o77_000_007u32) | ((v & 0o77) << 18u32)) | (v >> 6u32), k) == cell(v, 0),
        k == 7 ==> cell(((w & !0o77_000_007u32) | ((v & 0o77) << 18u32)) | (v >> 6u32), k) == cell(v, 1),
        k == 0 ==> cell(((w & !0o77_000_007u32) | ((v & 0o77) << 18u32)) | (v >> 6u32), k) == cell(v, 2),
        (1 <= k <= 5 || k == 8) ==> cell(((w & !0o77_000_007u32) | ((v & 0o77) << 18u32)) | (v >> 6u32), k)
            == cell(w, k),
{
}

/// A side of a face, named by compass direction: north is the top row.
#[derive(Clone, Copy, PartialEq, Eq, Structural, Debug, Hash)]
pub enum Ordinal {
    North,
    South,
    East,
    West,
}

/// The three ring cells along a side, in ring order.
pub open spec fn strip_of(o: Ordinal) -> (u32, u32, u32) {
    match o {
        Ordinal::North => (0, 1, 2),
        Ordinal::East => (2, 3, 4),
        Ordinal::South => (4, 5, 6),
        Ordinal::West => (6, 7, 0),
    }
}

/// The row-major position (rows top to bottom, left to right) of ring
/// cell `k`.
pub open spec fn row_major_of(k: int) -> int {
    if k == 3 {
        5
    } else if k == 4 {
        8
    } else if k == 5 {
        7
    } else if k == 7 {
        3
    } else if k == 8 {
        4
    } else {
        k
    }
}

/// The ring cell at row-major position `p`.
pub open spec fn ring_of(p: int) -> int {
    if p == 3 {
        7
    } else if p == 4 {
        8
    } else if p == 5 {
        3
    } else if p == 7 {
        5
    } else if p == 8 {
        4
    } else {
        p
    }
}

/// For each ring cell, its row-major position.
pub fn internal_to_row_major() -> (r: [usize; NUM_CELLS])
    ensures
        forall|k: int| 0 <= k < 9 ==> r[k] == row_major_of(k),
{
    [0, 1, 2, 5, 8, 7, 6, 3, 4]
}

/// For each row-major position, its ring cell.
pub fn row_major_to_internal() -> (r: [usize; NUM_CELLS])
    ensures
        forall|p: int| 0 <= p < 9 ==> r[p] == ring_of(p),
{
    [0, 1, 2, 7, 8, 3, 6, 5, 4]
}

/// The first cell of `w`, in ring order, that holds no color code (9 where
/// there is none).
pub open spec fn first_invalid_cell(w: u32) -> u32 {
    if !valid_cell(cell(w, 0)) {
        0
    } else if !valid_cell(cell(w, 1)) {
        1
    } else if !valid_cell(cell(w, 2)) {
        2
    } else if !valid_cell(cell(w, 3)) {
        3
    } else if !valid_cell(cell(w, 4)) {
        4
    } else if !valid_cell(cell(w, 5)) {
        5
    } else if !valid_cell(cell(w, 6)) {
        6
    } else if !valid_cell(cell(w, 7)) {
        7
    } else if !valid_cell(cell(w, 8)) {
        8
    } else {
        9
    }
}

/// A packed word that holds nine color codes and nothing above them.
pub open spec fn valid_word(w: u32) -> bool {
    w < word_bound() && forall|k: u32| k < 9 ==> valid_cell(#[trigger] cell(w, k))
}

/// Why a packed word is refused: bits above the ninth cell (reported as the
/// value they hold), or else the first cell that holds no color code.
pub open spec fn word_error(w: u32) -> CubeError {
    if w >= word_bound() {
        CubeError::InvalidCellValue(w >> 27)
    } else {
        CubeError::InvalidCellValue(cell(w, first_invalid_cell(w)))
    }
}

proof fn lemma_high_bits(w: u32)
    by (bit_vector)
    ensures
        (w >> 27u32 == 0) == (w < 0x800_0000),
{
}

/// One face of the bit-packed cube: nine cells of three bits in one word.
/// Cells 0 to 7 run clockwise around the ring from the top left corner, cell
/// 8 is the center:
///
/// | 0 | 1 | 2 |
/// | 7 | 8 | 3 |
/// | 6 | 5 | 4 |
#[derive(Clone, Copy, PartialEq, Eq, Structural, Debug, Hash)]
pub struct Face {
    values: u32,
}

impl View for Face {
    type V = Seq<u32>;

    closed spec fn view(&self) -> Seq<u32> {
        Seq::new(9, |k: int| cell(self.values, k as u32))
    }
}

impl Face {
    /// The packed word.
    pub closed spec fn word(self) -> u32 {
        self.values
    }

    /// Nothing but nine cells, each a color code.
    pub open spec fn wf(self) -> bool {
        &&& self.word() < word_bound()
        &&& self@.len() == 9
        &&& forall|k: int| 0 <= k < 9 ==> valid_cell(#[trigger] self@[k])
    }

    /// Cell `k` of the face is cell `k` of its packed word.
    pub proof fn lemma_view(self)
        ensures
            self@.len() == 9,
            forall|k: u32| k < 9 ==> #[trigger] cell(self.word(), k) == self@[k as int],
    {
    }

    /// Two well-formed faces with the same cells are the same face.
    pub proof fn lemma_ext(a: Face, b: Face)
        requires
            a.wf(),
            b.wf(),
            a@ == b@,
        ensures
            a == b,
    {
        a.lemma_view();
        b.lemma_view();
        assert(a@[0] == b@[0] && a@[1] == b@[1] && a@[2] == b@[2] && a@[3] == b@[3] && a@[4] == b@[4]);
        assert(a@[5] == b@[5] && a@[6] == b@[6] && a@[7] == b@[7] && a@[8] == b@[8]);
        assert(cell(a.values, 0) == cell(b.values, 0) && cell(a.values, 1) == cell(b.values, 1));
        assert(cell(a.values, 2) == cell(b.values, 2) && cell(a.values, 3) == cell(b.values, 3));
        assert(cell(a.values, 4) == cell(b.values, 4) && cell(a.values, 5) == cell(b.values, 5));
        assert(cell(a.values, 6) == cell(b.values, 6) && cell(a.values, 7) == cell(b.values, 7));
        assert(cell(a.values, 8) == cell(b.values, 8));
        lemma_cells_determine(a.values, b.values);
    }

    fn validate(value: u32) -> (r: Result<(), CubeError>)
        ensures
            r is Ok <==> valid_cell(value),
            r is Err ==> r == Err::<(), CubeError>(CubeError::InvalidCellValue(value)),
    {
        if value > 6 || value == 0 {
            return Err(CubeError::InvalidCellValue(value));
        }
        Ok(())
    }

    /// A face whose nine cells all hold `value`; a value that is no color code
    /// is refused.
    pub fn solved(value: u32) -> (r: Result<Face, CubeError>)
        ensures
            r is Ok <==> valid_cell(value),
            r is Err ==> r == Err::<Face, CubeError>(CubeError::InvalidCellValue(value)),
            r matches Ok(f) ==> f.wf() && f@ == Seq::new(9, |k: int| value),
    {
        Self::validate(value)?;
        let mut values: u32 = 0;
        assert forall|k: u32| k < 9 implies #[trigger] cell(0, k) == 0 by {
            lemma_zero_cell(k);
        }
        for i in 0..NUM_CELLS
            invariant
                valid_cell(value),
                values < word_bound(),
                forall|k: u32| k < i ==> #[trigger] cell(values, k) == value,
                forall|k: u32| i <= k < 9 ==> #[trigger] cell(values, k) == 0,
        {
            let shift = (i as u32) * BLOCK_SIZE;
            proof {
                assert forall|k: u32| k < 9 implies #[trigger] cell(values | (value << shift), k) == (if k
                    <= i {
                    value
                } else {
                    0
                }) by {
                    lemma_or_cell(values, value, i as u32, k);
                }
                lemma_or_cell(values, value, i as u32, 0);
            }
            values = values | (value << shift);
        }
        let f = Face { values };
        proof {
            f.lemma_view();
        }
        assert forall|k: int| 0 <= k < 9 implies #[trigger] f@[k] == value by {
            assert(cell(values, k as u32) == value);
        }
        assert(f@ =~= Seq::new(9, |k: int| value));
        Ok(f)
    }

    /// This face after a quarter turn in `direction`.
    pub fn rotate(&self, direction: Direction) -> (r: Face)
        requires
            self.wf(),
        ensures
            r.wf(),
            r@ == rotated_cells(self@, direction),
    {
        let mut copy = *self;
        copy.rotate_mut(direction);
        copy
    }

    /// Turns the face a quarter turn in place: the ring of eight cells moves
    /// two places, the center stays.
    pub fn rotate_mut(&mut self, direction: Direction)
        requires
            old(self).wf(),
        ensures
            final(self).wf(),
            final(self)@ == rotated_cells(old(self)@, direction),
    {
        proof {
            lemma_masks();
        }
        let ghost w = self.values;
        let edges = self.values;
        let center = self.values & CENTER_MASK;
        if direction == Direction::Clockwise {
            let rotated_edges = (edges << ROTATE_SHIFT) & EDGE_MASK;
            let overflow = (self.values & OVERFLOW_MASK) >> OVER_UNDER_FLOW_SHIFT;
            self.values = overflow | rotated_edges | center;
            proof {
                lemma_rotate_cw(w, self.values);
            }
        } else {
            let rotated_edges = (edges & EDGE_MASK) >> ROTATE_SHIFT;
            let underflow = (self.values & UNDERFLOW_MASK) << OVER_UNDER_FLOW_SHIFT;
            self.values = underflow | rotated_edges | center;
            proof {
                lemma_rotate_ccw(w, self.values);
            }
        }
        proof {
            old(self).lemma_view();
            self.lemma_view();
            let e = rotated_cells(old(self)@, direction);
            assert forall|k: int| 0 <= k < 9 implies #[trigger] self@[k] == e[k] && valid_cell(self@[k]) by {
                assert(self@[k] == cell(self.values, k as u32));
            }
            assert(self@ =~= e);
        }
    }

    /// The three cells along side `ordinal`, packed first cell lowest; with
    /// `reverse`, in the opposite order.
    pub fn get_edge(&self, ordinal: &Ordinal, reverse: bool) -> (r: u32)
        requires
            self.wf(),
        ensures
            ({
                let (x, y, z) = strip_of(*ordinal);
                r == if reverse {
                    pack3(self@[z as int], self@[y as int], self@[x as int])
                } else {
                    pack3(self@[x as int], self@[y as int], self@[z as int])
                }
            }),
    {
        proof {
            lemma_masks();
            lemma_strips(self.values);
            self.lemma_view();
        }
        let unreversed_raw = match ordinal {
            Ordinal::North => self.values,
            Ordinal::South => self.values >> (ROTATE_SHIFT * 2),
            Ordinal::East => self.values >> ROTATE_SHIFT,
            Ordinal::West => {
                let first_two = (self.values >> (ROTATE_SHIFT * 3)) & UNDERFLOW_MASK;
                let last = self.values << ROTATE_SHIFT;
                first_two | last
            },
        };
        let unreversed = unreversed_raw & TOP_EDGE_MASK;
        let ghost (x, y, z) = strip_of(*ordinal);
        assert(unreversed == pack3(cell(self.values, x), cell(self.values, y), cell(self.values, z)));
        if reverse {
            let first = unreversed >> (BLOCK_SIZE * 2);
            let middle = unreversed & (LEAST_MASK << BLOCK_SIZE);
            let last = (unreversed << (BLOCK_SIZE * 2)) & TOP_EDGE_MASK;
            proof {
                lemma_reverse(
                    unreversed,
                    cell(self.values, x),
                    cell(self.values, y),
                    cell(self.values, z),
                );
            }
            first | middle | last
        } else {
            unreversed
        }
    }

    /// Writes the three cells packed in `values` (first cell lowest) along
    /// side `ordinal`, in ring order; the other cells stay.
    pub fn set_edge(&mut self, values: u32, ordinal: &Ordinal)
        requires
            old(self).wf(),
            values < 0o1000,
            valid_cell(cell(values, 0)),
            valid_cell(cell(values, 1)),
            valid_cell(cell(values, 2)),
        ensures
            final(self).wf(),
            ({
                let (x, y, z) = strip_of(*ordinal);
                final(self)@ == old(self)@.update(x as int, cell(values, 0)).update(
                    y as int,
                    cell(values, 1),
                ).update(z as int, cell(values, 2))
            }),
    {
        proof {
            lemma_masks();
        }
        let ghost w = self.values;
        let shift = match ordinal {
            Ordinal::North => 0,
            Ordinal::South => ROTATE_SHIFT * 2,
            Ordinal::East => ROTATE_SHIFT,
            Ordinal::West => {
                // The west side wraps round the end of the ring, so its cells
                // are not contiguous and are written in two parts.
                let first_two = values & UNDERFLOW_MASK;
                let last = values >> (BLOCK_SIZE * 2);
                self.values = (self.values & WEST_MASK) | (first_two << OVER_UNDER_FLOW_SHIFT) | last;
                proof {
                    old(self).lemma_view();
                    self.lemma_view();
                    let e = old(self)@.update(6, cell(values, 0)).update(7, cell(values, 1)).update(
                        0,
                        cell(values, 2),
                    );
                    assert forall|k: int| 0 <= k < 9 implies #[trigger] self@[k] == e[k] && valid_cell(
                        self@[k],
                    ) by {
                        lemma_set_west(w, values, k as u32);
                        assert(self@[k] == cell(self.values, k as u32));
                        assert(old(self)@[k] == cell(w, k as u32));
                    }
                    assert(self@ =~= e);
                    lemma_set_west(w, values, 0);
                }
                return ;
            },
        };
        let shifted_values = values << shift;
        let mask = !(0o777 << shift);
        self.values = (self.values & mask) | shifted_values;
        proof {
            old(self).lemma_view();
            self.lemma_view();
            let (x, y, z) = strip_of(*ordinal);
            let e = old(self)@.update(x as int, cell(values, 0)).update(y as int, cell(values, 1)).update(
                z as int,
                cell(values, 2),
            );
            assert forall|k: int| 0 <= k < 9 implies #[trigger] self@[k] == e[k] && valid_cell(self@[k]) by {
                lemma_set_strip(w, values, shift, k as u32);
                assert(self@[k] == cell(self.values, k as u32));
                assert(old(self)@[k] == cell(w, k as u32));
            }
            assert(self@ =~= e);
            lemma_set_strip(w, values, shift, 0);
        }
    }

    /// A face from nine values given row by row, top to bottom and left to
    /// right; a value that is no color code is refused, the first one met in
    /// ring order.
    pub fn from(values: [u32; NUM_CELLS]) -> (r: Result<Face, CubeError>)
        ensures
            r is Ok <==> forall|p: int| 0 <= p < 9 ==> valid_cell(#[trigger] values[p]),
            r matches Ok(f) ==> f.wf() && forall|k: int| 0 <= k < 9 ==> #[trigger] f@[k] == values[row_major_of(k)],
            r matches Err(e) ==> exists|k: int|
                0 <= k < 9 && !valid_cell(#[trigger] values[row_major_of(k)]) && e == CubeError::InvalidCellValue(
                    values[row_major_of(k)],
                ) && forall|j: int| 0 <= j < k ==> valid_cell(#[trigger] values[row_major_of(j)]),
    {
        let order = internal_to_row_major();
        let mut shift: u32 = 0;
        let mut representation: u32 = 0;
        assert forall|k: u32| k < 9 implies #[trigger] cell(0, k) == 0 by {
            lemma_zero_cell(k);
        }
        for i in 0..NUM_CELLS
            invariant
                shift == 3 * i,
                forall|k: int| 0 <= k < 9 ==> order[k] == row_major_of(k),
                representation < word_bound(),
                forall|k: u32| k < i ==> #[trigger] cell(representation, k) == values[row_major_of(k as int)],
                forall|k: u32| k < i ==> valid_cell(#[trigger] values[row_major_of(k as int)]),
                forall|k: u32| i <= k < 9 ==> #[trigger] cell(representation, k) == 0,
        {
            assert(order[i as int] == row_major_of(i as int));
            let value = values[order[i]];
            if let Err(e) = Face::validate(value) {
                assert(!valid_cell(values[row_major_of(i as int)]));
                assert(forall|j: int| 0 <= j < i ==> valid_cell(#[trigger] values[row_major_of(j)])) by {
                    assert forall|j: int| 0 <= j < i implies valid_cell(#[trigger] values[row_major_of(j)]) by {
                        assert(valid_cell(values[row_major_of((j as u32) as int)]));
                    }
                }
                assert(e == CubeError::InvalidCellValue(values[row_major_of(i as int)]));
                return Err(e);
            }
            proof {
                assert forall|k: u32| k < 9 implies #[trigger] cell(representation | (value << shift), k) == (
                if k < i {
                    cell(representation, k)
                } else if k == i {
                    value
                } else {
                    0
                }) by {
                    lemma_or_cell(representation, value, i as u32, k);
                }
                lemma_or_cell(representation, value, i as u32, 0);
            }
            representation |= value << shift;
            shift += BLOCK_SIZE;
        }
        let f = Face { values: representation };
        proof {
            f.lemma_view();
            assert forall|k: int| 0 <= k < 9 implies #[trigger] f@[k] == values[row_major_of(k)] && valid_cell(f@[k]) by {
                assert(f@[k] == cell(representation, k as u32));
                assert(valid_cell(values[row_major_of((k as u32) as int)]));
            }
            assert forall|p: int| 0 <= p < 9 implies valid_cell(#[trigger] values[p]) by {
                let k = ring_of(p);
                assert(row_major_of(k) == p);
                assert(valid_cell(values[row_major_of((k as u32) as int)]));
            }
        }
        Ok(f)
    }

    /// The face whose packed word is `w`; a word with bits above the ninth
    /// cell, or with a cell that holds no color code, is refused.
    pub fn from_packed(w: u32) -> (r: Result<Face, CubeError>)
        ensures
            r is Ok <==> valid_word(w),
            r matches Ok(f) ==> f.wf() && f.word() == w,
            r matches Err(e) ==> e == word_error(w),
    {
        proof {
            lemma_high_bits(w);
        }
        if w >> 27 != 0 {
            return Err(CubeError::InvalidCellValue(w >> 27));
        }
        for k in 0..NUM_CELLS
            invariant
                w < word_bound(),
                forall|j: u32| j < k ==> valid_cell(#[trigger] cell(w, j)),
        {
            let value = (w >> ((k as u32) * BLOCK_SIZE)) & LEAST_MASK;
            assert(value == cell(w, k as u32));
            if let Err(e) = Face::validate(value) {
                proof {
                    assert(forall|j: u32| j < k ==> valid_cell(#[trigger] cell(w, j)));
                    if k > 0 { assert(valid_cell(cell(w, 0))); }
                    if k > 1 { assert(valid_cell(cell(w, 1))); }
                    if k > 2 { assert(valid_cell(cell(w, 2))); }
                    if k > 3 { assert(valid_cell(cell(w, 3))); }
                    if k > 4 { assert(valid_cell(cell(w, 4))); }
                    if k > 5 { assert(valid_cell(cell(w, 5))); }
                    if k > 6 { assert(valid_cell(cell(w, 6))); }
                    if k > 7 { assert(valid_cell(cell(w, 7))); }
                    assert(first_invalid_cell(w) == k);
                }
                return Err(e);
            }
        }
        let f = Face { values: w };
        proof {
            f.lemma_view();
            assert forall|k: int| 0 <= k < 9 implies valid_cell(#[trigger] f@[k]) by {
                assert(valid_cell(cell(w, k as u32)));
            }
        }
        Ok(f)
    }

    /// The packed word: cell `k` (ring order) in bits `3 * k` to `3 * k + 2`.
    pub fn packed(&self) -> (r: u32)
        ensures
            r == self.word(),
    {
        self.values
    }

    /// The value of cell `index` (ring order).
    pub fn get(&self, index: usize) -> (r: u8)
        requires
            index <= 8,
        ensures
            r as u32 == self@[index as int],
    {
        let shift = (index as u32) * BLOCK_SIZE;
        let mask = LEAST_MASK << shift;
        proof {
            lemma_get_cell(self.values, index as u32);
            self.lemma_view();
        }
        ((self.values & mask) >> shift) as u8
    }

    /// Sets cell `index` (ring order) to `value`.
    pub fn set(&mut self, index: usize, value: u32)
        requires
            old(self).wf(),
            index <= 8,
            valid_cell(value),
        ensures
            final(self).wf(),
            final(self)@ == old(self)@.update(index as int, value),
    {
        let ghost w = self.values;
        let shift = (index as u32) * BLOCK_SIZE;
        let mask = LEAST_MASK << shift;
        self.values = (self.values & (!mask)) | (value << shift);
        proof {
            old(self).lemma_view();
            self.lemma_view();
            let e = old(self)@.update(index as int, value);
            assert forall|k: int| 0 <= k < 9 implies #[trigger] self@[k] == e[k] && valid_cell(self@[k]) by {
                lemma_set_cell(w, value, index as u32, k as u32);
                assert(self@[k] == cell(self.values, k as u32));
                assert(old(self)@[k] == cell(w, k as u32));
            }
            assert(self@ =~= e);
            lemma_set_cell(w, value, index as u32, 0);
        }
    }
}

/// The face of the `j`-th strip that moves when face `t` turns; the four
/// strips form a cycle, and clockwise each strip takes the contents of the
/// next one.
pub open spec fn strip_face(t: usize, j: int) -> usize {
    let row: (usize, usize, usize, usize) = if t == 0 {
        (1, 2, 3, 4)
    } else if t == 1 {
        (0, 4, 5, 2)
    } else if t == 2 {
        (0, 1, 5, 3)
    } else if t == 3 {
        (0, 2, 5, 4)
    } else if t == 4 {
        (0, 3, 5, 1)
    } else {
        (1, 4, 3, 2)
    };
    if j == 0 {
        row.0
    } else if j == 1 {
        row.1
    } else if j == 2 {
        row.2
    } else {
        row.3
    }
}

/// The three cells of the `j`-th strip of face `t`, in the order in which
/// they pair up with the cells of the other strips.
pub open spec fn strip_cells(t: usize, j: int) -> (usize, usize, usize) {
    if t == 0 {
        (0, 1, 2)
    } else if t == 1 {
        if j == 1 {
            (4, 2, 3)
        } else {
            (0, 6, 7)
        }
    } else if t == 2 {
        if j == 0 {
            (6, 5, 4)
        } else if j == 1 {
            (4, 3, 2)
        } else if j == 2 {
            (2, 1, 0)
        } else {
            (0, 7, 6)
        }
    } else if t == 3 {
        if j == 3 {
            (6, 7, 0)
        } else {
            (2, 3, 4)
        }
    } else if t == 4 {
        if j == 0 {
            (0, 1, 2)
        } else if j == 1 {
            (2, 3, 4)
        } else if j == 2 {
            (4, 5, 6)
        } else {
            (6, 7, 0)
        }
    } else {
        (4, 5, 6)
    }
}

pub open spec fn pick3(c: (usize, usize, usize), s: int) -> usize {
    if s == 0 {
        c.0
    } else if s == 1 {
        c.1
    } else {
        c.2
    }
}

/// The strip whose contents strip `j` takes: the next one clockwise, the
/// previous one counterclockwise.
pub open spec fn source_strip(dir: Direction, j: int) -> int {
    match dir {
        Direction::Clockwise => (j + 1) % 4,
        Direction::CounterClockwise => (j + 3) % 4,
    }
}

/// The strip of face `t`'s turn that lies on face `f`, or -1.
pub open spec fn strip_on(t: usize, f: int) -> int {
    if strip_face(t, 0) == f {
        0
    } else if strip_face(t, 1) == f {
        1
    } else if strip_face(t, 2) == f {
        2
    } else if strip_face(t, 3) == f {
        3
    } else {
        -1
    }
}

/// The place of cell `k` in strip `c`, or -1.
pub open spec fn slot_in(c: (usize, usize, usize), k: int) -> int {
    if c.0 == k {
        0
    } else if c.1 == k {
        1
    } else if c.2 == k {
        2
    } else {
        -1
    }
}

/// Where the contents of cell `k` of face `f` come from when face `t` turns
/// in `dir`: the turned face's own ring moves two places, a strip cell takes
/// the matching cell of its source strip, and every other cell keeps its
/// contents.
pub open spec fn src_pos(t: usize, dir: Direction, f: int, k: int) -> (int, int) {
    if f == t {
        if k == 8 {
            (f, k)
        } else {
            match dir {
                Direction::Clockwise => (f, (k + 6) % 8),
                Direction::CounterClockwise => (f, (k + 2) % 8),
            }
        }
    } else {
        let j = strip_on(t, f);
        if j < 0 {
            (f, k)
        } else {
            let s = slot_in(strip_cells(t, j), k);
            if s < 0 {
                (f, k)
            } else {
                let j2 = source_strip(dir, j);
                (strip_face(t, j2) as int, pick3(strip_cells(t, j2), s) as int)
            }
        }
    }
}

/// The cells of all six faces after face `t` turns a quarter turn in `dir`.
pub open spec fn bit_turned(v: Seq<Seq<u32>>, t: usize, dir: Direction) -> Seq<Seq<u32>> {
    Seq::new(
        6,
        |f: int|
            Seq::new(
                9,
                |k: int| v[src_pos(t, dir, f, k).0][src_pos(t, dir, f, k).1],
            ),
    )
}

/// Cells `c` of `cells` set to `vals`, in order.
pub open spec fn put3(cells: Seq<u32>, c: (usize, usize, usize), vals: (u32, u32, u32)) -> Seq<u32> {
    cells.update(c.0 as int, vals.0).update(c.1 as int, vals.1).update(c.2 as int, vals.2)
}

/// The facts about the strip table that a turn relies on.
pub proof fn lemma_strip_table(t: usize)
    requires
        t < 6,
    ensures
        forall|j: int| 0 <= j < 4 ==> #[trigger] strip_face(t, j) < 6 && strip_face(t, j) != t,
        forall|j: int| 0 <= j < 4 ==> #[trigger] strip_on(t, strip_face(t, j) as int) == j,
        forall|j: int| 0 <= j < 4 ==> {
            let c = #[trigger] strip_cells(t, j);
            c.0 < 8 && c.1 < 8 && c.2 < 8 && c.0 != c.1 && c.1 != c.2 && c.0 != c.2
        },
{
}

/// The strip with table index `order(dir, j)` is the `j`-th to be written:
/// counterclockwise the table is walked backwards.
pub open spec fn order(dir: Direction, j: int) -> int {
    match dir {
        Direction::Clockwise => j,
        Direction::CounterClockwise => 3 - j,
    }
}

/// The values of strip `m` of face `t`'s turn.
pub open spec fn strip_vals(v: Seq<Seq<u32>>, t: usize, m: int) -> (u32, u32, u32) {
    let c = strip_cells(t, m);
    let f = strip_face(t, m) as int;
    (v[f][c.0 as int], v[f][c.1 as int], v[f][c.2 as int])
}

/// The cells once the first `i` strips (in the order of `order`) have taken
/// the contents of their source strips.
pub open spec fn after_writes(v: Seq<Seq<u32>>, t: usize, dir: Direction, i: int) -> Seq<Seq<u32>> {
    Seq::new(
        6,
        |f: int|
            {
                let m = strip_on(t, f);
                if f != t && m >= 0 && order(dir, m) < i {
                    put3(v[f], strip_cells(t, m), strip_vals(v, t, source_strip(dir, m)))
                } else {
                    v[f]
                }
            },
    )
}

/// A face that holds one of the turn's strips, after all four strips are
/// written, is as the turn leaves it.
proof fn lemma_turn_strip_face(v: Seq<Seq<u32>>, t: usize, dir: Direction, f: int)
    requires
        t < 6,
        0 <= f < 6,
        f != t,
        strip_on(t, f) >= 0,
        well_shaped(v),
    ensures
        after_writes(v, t, dir, 4)[f] =~= bit_turned(v, t, dir)[f],
{
    lemma_strip_table(t);
    let m = strip_on(t, f);
    let c = strip_cells(t, m);
    assert(strip_face(t, m) == f);
    let a = after_writes(v, t, dir, 4)[f];
    assert(a == put3(v[f], c, strip_vals(v, t, source_strip(dir, m))));
    assert forall|k: int| 0 <= k < 9 implies a[k] == #[trigger] bit_turned(v, t, dir)[f][k] by {
        let s = slot_in(c, k);
        if s >= 0 {
            assert(k == pick3(c, s));
        }
    }
}

/// All four strips written and the turned face's ring rotated: the turn.
proof fn lemma_turn_cells(v: Seq<Seq<u32>>, t: usize, dir: Direction)
    requires
        t < 6,
        well_shaped(v),
    ensures
        after_writes(v, t, dir, 4).update(t as int, rotated_cells(v[t as int], dir)) == bit_turned(v, t, dir),
{
    let a = after_writes(v, t, dir, 4).update(t as int, rotated_cells(v[t as int], dir));
    let b = bit_turned(v, t, dir);
    assert forall|f: int| 0 <= f < 6 implies #[trigger] a[f] =~= b[f] by {
        if f != t && strip_on(t, f) >= 0 {
            lemma_turn_strip_face(v, t, dir, f);
        }
    }
    assert(a =~= b);
}

/// Writing the `i`-th strip, with the values its source strip had before the
/// turn began, takes the cells from `after_writes(.., i)` to
/// `after_writes(.., i + 1)`.
#[verifier::rlimit(60)]
proof fn lemma_write_step(v: Seq<Seq<u32>>, t: usize, dir: Direction, i: int)
    requires
        t < 6,
        0 <= i < 4,
        well_shaped(v),
    ensures
        ({
            let m = order(dir, i);
            let f = strip_face(t, m) as int;
            &&& strip_vals(after_writes(v, t, dir, i), t, order(dir, (i + 1) % 4)) == strip_vals(v, t, source_strip(dir, m)) || i == 3
            &&& strip_vals(v, t, order(dir, (i + 1) % 4)) == strip_vals(v, t, source_strip(dir, m))
            &&& after_writes(v, t, dir, i).update(f, put3(after_writes(v, t, dir, i)[f], strip_cells(t, m), strip_vals(v, t, source_strip(dir, m)))) == after_writes(v, t, dir, i + 1)
        }),
{
    lemma_strip_table(t);
    let m = order(dir, i);
    let f = strip_face(t, m) as int;
    let a = after_writes(v, t, dir, i);
    let b = after_writes(v, t, dir, i + 1);
    assert(strip_on(t, f) == m);
    if i < 3 {
        let m2 = order(dir, i + 1);
        assert(strip_on(t, strip_face(t, m2) as int) == m2);
        assert(a[strip_face(t, m2) as int] == v[strip_face(t, m2) as int]);
    }
    assert(a.update(f, put3(a[f], strip_cells(t, m), strip_vals(v, t, source_strip(dir, m)))) =~= b);
}

/// The bit-packed model of the cube: six faces of nine cells; face `i` is
/// solved when all its cells hold `i + 1`.
#[derive(Clone, Copy, PartialEq, Eq, Debug)]
pub struct BitCube {
    faces: [Face; 6],
}

impl View for BitCube {
    type V = Seq<Seq<u32>>;

    closed spec fn view(&self) -> Seq<Seq<u32>> {
        Seq::new(6, |f: int| self.faces[f]@)
    }
}

/// The cells of the solved cube.
pub open spec fn solved_cells() -> Seq<Seq<u32>> {
    Seq::new(6, |f: int| Seq::new(9, |k: int| (f + 1) as u32))
}

/// The strips that turning face `face` moves, as in `strip_face` and
/// `strip_cells`.
fn rotation_indexes(face: usize) -> (r: [(usize, [usize; 3]); 4])
    requires
        face < 6,
    ensures
        forall|j: int|
            0 <= j < 4 ==> #[trigger] r[j].0 == strip_face(face, j) && r[j].1[0] == strip_cells(face, j).0
                && r[j].1[1] == strip_cells(face, j).1 && r[j].1[2] == strip_cells(face, j).2,
{
    if face == 0 {
        [(1, [0, 1, 2]), (2, [0, 1, 2]), (3, [0, 1, 2]), (4, [0, 1, 2])]
    } else if face == 1 {
        [(0, [0, 6, 7]), (4, [4, 2, 3]), (5, [0, 6, 7]), (2, [0, 6, 7])]
    } else if face == 2 {
        [(0, [6, 5, 4]), (1, [4, 3, 2]), (5, [2, 1, 0]), (3, [0, 7, 6])]
    } else if face == 3 {
        [(0, [2, 3, 4]), (2, [2, 3, 4]), (5, [2, 3, 4]), (4, [6, 7, 0])]
    } else if face == 4 {
        [(0, [0, 1, 2]), (3, [2, 3, 4]), (5, [4, 5, 6]), (1, [6, 7, 0])]
    } else {
        [(1, [4, 5, 6]), (4, [4, 5, 6]), (3, [4, 5, 6]), (2, [4, 5, 6])]
    }
}

impl BitCube {
    /// Every face well formed.
    pub closed spec fn wf(&self) -> bool {
        forall|f: int| 0 <= f < 6 ==> (#[trigger] self.faces[f]).wf()
    }

    proof fn lemma_view(&self)
        ensures
            self@.len() == 6,
            forall|f: int| 0 <= f < 6 ==> #[trigger] self@[f] == self.faces[f]@,
            self.wf() ==> forall|f: int| 0 <= f < 6 ==> (#[trigger] self@[f]).len() == 9,
    {
        assert forall|f: int| 0 <= f < 6 && self.wf() implies (#[trigger] self@[f]).len() == 9 by {
            assert(self.faces[f].wf());
        }
    }

    /// The cube with every face solved.
    pub fn solved() -> (r: BitCube)
        ensures
            r.wf(),
            r@ == solved_cells(),
    {
        let default_face = Face { values: 0 };
        let mut faces = [default_face; 6];
        for i in 1..7usize
            invariant
                forall|f: int| 0 <= f < i - 1 ==> (#[trigger] faces[f]).wf() && faces[f]@ == Seq::new(
                    9,
                    |k: int| (f + 1) as u32,
                ),
        {
            faces[i - 1] = Face::solved(i as u32).unwrap();
        }
        let r = BitCube { faces };
        assert forall|f: int| 0 <= f < 6 implies #[trigger] r@[f] =~= solved_cells()[f] by {
            assert(r@[f] == faces[f]@);
            assert(faces[f]@ == Seq::new(9, |k: int| (f + 1) as u32));
            assert forall|k: int| 0 <= k < 9 implies r@[f][k] == solved_cells()[f][k] by {}
        }
        assert(r@ =~= solved_cells());
        r
    }

    /// The values of cells `indexes` of face `face`.
    fn copy_values(&self, face: usize, indexes: [usize; 3]) -> (r: [u8; 3])
        requires
            self.wf(),
            face < 6,
            indexes[0] <= 8 && indexes[1] <= 8 && indexes[2] <= 8,
        ensures
            forall|s: int| 0 <= s < 3 ==> #[trigger] r[s] as u32 == self@[face as int][indexes[s] as int],
            forall|s: int| 0 <= s < 3 ==> valid_cell(#[trigger] r[s] as u32),
    {
        let source = &self.faces[face];
        let mut result = [0u8; 3];
        for i in 0..3
            invariant
                face < 6,
                self.wf(),
                *source == self.faces[face as int],
                indexes[0] <= 8 && indexes[1] <= 8 && indexes[2] <= 8,
                forall|s: int| 0 <= s < i ==> #[trigger] result[s] as u32 == source@[indexes[s] as int],
                forall|s: int| 0 <= s < i ==> valid_cell(#[trigger] result[s] as u32),
        {
            assert(source.wf());
            result[i] = source.get(indexes[i]);
            assert(valid_cell(source@[indexes[i as int] as int]));
        }
        assert(self@[face as int] == source@);
        result
    }

    /// Writes `values` into cells `indexes` of face `face_index`, in order.
    fn overwrite_values(&mut self, face_index: usize, indexes: [usize; 3], values: [u8; 3])
        requires
            old(self).wf(),
            face_index < 6,
            indexes[0] <= 8 && indexes[1] <= 8 && indexes[2] <= 8,
            forall|s: int| 0 <= s < 3 ==> valid_cell(#[trigger] values[s] as u32),
        ensures
            final(self).wf(),
            final(self)@ == old(self)@.update(
                face_index as int,
                put3(
                    old(self)@[face_index as int],
                    (indexes[0], indexes[1], indexes[2]),
                    (values[0] as u32, values[1] as u32, values[2] as u32),
                ),
            ),
    {
        let mut face = self.faces[face_index];
        let ghost c = face@;
        for i in 0..3
            invariant
                face.wf(),
                c == old(self)@[face_index as int],
                indexes[0] <= 8 && indexes[1] <= 8 && indexes[2] <= 8,
                forall|s: int| 0 <= s < 3 ==> valid_cell(#[trigger] values[s] as u32),
                face@ == if i == 0 {
                    c
                } else if i == 1 {
                    c.update(indexes[0] as int, values[0] as u32)
                } else if i == 2 {
                    c.update(indexes[0] as int, values[0] as u32).update(indexes[1] as int, values[1] as u32)
                } else {
                    put3(
                        c,
                        (indexes[0], indexes[1], indexes[2]),
                        (values[0] as u32, values[1] as u32, values[2] as u32),
                    )
                },
        {
            face.set(indexes[i], values[i] as u32);
        }
        self.faces[face_index] = face;
        assert(self@ =~= old(self)@.update(
            face_index as int,
            put3(
                old(self)@[face_index as int],
                (indexes[0], indexes[1], indexes[2]),
                (values[0] as u32, values[1] as u32, values[2] as u32),
            ),
        ));
    }

    /// The cube whose face `i` has the packed word `src[i]`; the first word
    /// that holds anything but nine color codes is refused.
    pub fn from(src: [u32; 6]) -> (r: Result<BitCube, CubeError>)
        ensures
            r is Ok <==> forall|f: int| 0 <= f < 6 ==> valid_word(#[trigger] src[f]),
            r matches Ok(c) ==> c.wf() && forall|f: int, k: int|
                0 <= f < 6 && 0 <= k < 9 ==> #[trigger] c@[f][k] == cell(src[f], k as u32),
            r matches Err(e) ==> exists|f: int|
                0 <= f < 6 && !valid_word(#[trigger] src[f]) && e == word_error(src[f]) && forall|g: int|
                    0 <= g < f ==> valid_word(#[trigger] src[g]),
    {
        let default_face = Face { values: 0 };
        let mut faces = [default_face; 6];
        for i in 0..6
            invariant
                forall|f: int| 0 <= f < i ==> (#[trigger] faces[f]).wf() && faces[f].word() == src[f],
                forall|f: int| 0 <= f < i ==> valid_word(#[trigger] src[f]),
        {
            match Face::from_packed(src[i]) {
                Ok(face) => {
                    faces[i] = face;
                },
                Err(e) => {
                    assert(!valid_word(src[i as int]));
                    return Err(e);
                },
            }
        }
        let r = BitCube { faces };
        proof {
            r.lemma_view();
            assert forall|f: int, k: int| 0 <= f < 6 && 0 <= k < 9 implies #[trigger] r@[f][k] == cell(
                src[f],
                k as u32,
            ) by {
                faces[f].lemma_view();
                assert(faces[f]@[k] == cell(faces[f].values, k as u32));
            }
        }
        Ok(r)
    }

    /// Face `f`.
    pub fn face(&self, f: usize) -> (r: Face)
        requires
            f < 6,
        ensures
            r@ == self@[f as int],
            self.wf() ==> r.wf(),
    {
        self.faces[f]
    }

    /// Turns face `face` a quarter turn in `direction`: the four strips
    /// around it move one place along their cycle, then its own ring turns.
    pub fn turn(&mut self, face: usize, direction: Direction)
        requires
            old(self).wf(),
            face < 6,
        ensures
            final(self).wf(),
            final(self)@ == bit_turned(old(self)@, face, direction),
    {
        let table = rotation_indexes(face);
        let indexes = if direction == Direction::CounterClockwise {
            [table[3], table[2], table[1], table[0]]
        } else {
            table
        };
        let ghost v = self@;
        proof {
            lemma_strip_table(face);
            self.lemma_view();
        }
        assert(forall|j: int| 0 <= j < 4 ==> #[trigger] indexes[j] == table[order(direction, j)]);
        let (tmp_face, tmp_indexes) = indexes[0];
        let tmp_values = self.copy_values(tmp_face, tmp_indexes);
        assert(self@ =~= after_writes(v, face, direction, 0));
        for i in 0..3
            invariant
                self.wf(),
                face < 6,
                v.len() == 6,
                forall|f: int| 0 <= f < 6 ==> (#[trigger] v[f]).len() == 9,
                forall|j: int|
                    0 <= j < 4 ==> #[trigger] table[j].0 == strip_face(face, j) && table[j].1[0]
                        == strip_cells(face, j).0 && table[j].1[1] == strip_cells(face, j).1 && table[j].1[2]
                        == strip_cells(face, j).2,
                forall|j: int| 0 <= j < 4 ==> #[trigger] indexes[j] == table[order(direction, j)],
                forall|s: int| 0 <= s < 3 ==> valid_cell(#[trigger] tmp_values[s] as u32),
                (tmp_values[0] as u32, tmp_values[1] as u32, tmp_values[2] as u32) == strip_vals(
                    v,
                    face,
                    order(direction, 0),
                ),
                self@ == after_writes(v, face, direction, i as int),
        {
            let (src_face, src_indexes) = indexes[i + 1];
            let src_values = self.copy_values(src_face, src_indexes);
            let (dest_face, dest_indexes) = indexes[i];
            self.overwrite_values(dest_face, dest_indexes, src_values);
            proof {
                self.lemma_view();
                lemma_write_step(v, face, direction, i as int);
            }
        }
        let (last_face, last_indexes) = indexes[3];
        self.overwrite_values(last_face, last_indexes, tmp_values);
        proof {
            self.lemma_view();
            lemma_write_step(v, face, direction, 3);
            assert(self@ == after_writes(v, face, direction, 4));
            assert(self@[face as int] == v[face as int]);
        }
        let ghost before = self@;
        let mut turned_face = self.faces[face];
        assert(turned_face.wf());
        turned_face.rotate_mut(direction);
        self.faces[face] = turned_face;
        proof {
            self.lemma_view();
            lemma_turn_cells(v, face, direction);
            assert(self@[face as int] == rotated_cells(v[face as int], direction));
            assert forall|f: int| 0 <= f < 6 && f != face implies self@[f] == before[f] by {}
            assert(self@ =~= after_writes(v, face, direction, 4).update(
                face as int,
                rotated_cells(v[face as int], direction),
            ));
        }
    }
}

/// The other direction.
pub open spec fn flip(dir: Direction) -> Direction {
    match dir {
        Direction::Clockwise => Direction::CounterClockwise,
        Direction::CounterClockwise => Direction::Clockwise,
    }
}

/// A strip cell's contents come from the matching cell of the source strip.
proof fn lemma_src_strip(t: usize, dir: Direction, m: int, s: int)
    requires
        t < 6,
        0 <= m < 4,
        0 <= s < 3,
    ensures
        src_pos(t, dir, strip_face(t, m) as int, pick3(strip_cells(t, m), s) as int) == (
            strip_face(t, source_strip(dir, m)) as int,
            pick3(strip_cells(t, source_strip(dir, m)), s) as int,
        ),
        0 <= strip_face(t, m) < 6,
        0 <= pick3(strip_cells(t, m), s) < 9,
{
    lemma_strip_table(t);
    assert(strip_on(t, strip_face(t, m) as int) == m);
    assert(slot_in(strip_cells(t, m), pick3(strip_cells(t, m), s) as int) == s);
}

/// Each cell position has exactly one source, and the sources of the other
/// direction undo those of this one; four steps in one direction come back.
proof fn lemma_src_pos(t: usize, dir: Direction, f: int, k: int)
    requires
        t < 6,
        0 <= f < 6,
        0 <= k < 9,
    ensures
        0 <= src_pos(t, dir, f, k).0 < 6,
        0 <= src_pos(t, dir, f, k).1 < 9,
        src_pos(t, flip(dir), src_pos(t, dir, f, k).0, src_pos(t, dir, f, k).1) == (f, k),
        ({
            let pos1 = src_pos(t, dir, f, k);
            let pos2 = src_pos(t, dir, pos1.0, pos1.1);
            let pos3 = src_pos(t, dir, pos2.0, pos2.1);
            src_pos(t, dir, pos3.0, pos3.1) == (f, k)
        }),
{
    if f != t && strip_on(t, f) >= 0 {
        let m = strip_on(t, f);
        let c = strip_cells(t, m);
        let s = slot_in(c, k);
        if s >= 0 {
            assert(f == strip_face(t, m) && k == pick3(c, s));
            let m1 = source_strip(dir, m);
            let m2 = source_strip(dir, m1);
            let m3 = source_strip(dir, m2);
            lemma_src_strip(t, dir, m, s);
            lemma_src_strip(t, dir, m1, s);
            lemma_src_strip(t, dir, m2, s);
            lemma_src_strip(t, dir, m3, s);
            lemma_src_strip(t, flip(dir), m1, s);
            assert(source_strip(flip(dir), m1) == m);
            assert(source_strip(dir, m3) == m);
        } else {
            assert(src_pos(t, dir, f, k) == (f, k));
            assert(src_pos(t, flip(dir), f, k) == (f, k));
        }
    } else if f == t {
        lemma_src_ring(t, dir, k);
    } else {
        assert(src_pos(t, dir, f, k) == (f, k));
        assert(src_pos(t, flip(dir), f, k) == (f, k));
    }
}

/// On the turned face, the ring moves two places and the center stays.
proof fn lemma_src_ring(t: usize, dir: Direction, k: int)
    requires
        t < 6,
        0 <= k < 9,
    ensures
        src_pos(t, dir, t as int, k).0 == t,
        0 <= src_pos(t, dir, t as int, k).1 < 9,
        src_pos(t, flip(dir), t as int, src_pos(t, dir, t as int, k).1) == (t as int, k),
        ({
            let pos1 = src_pos(t, dir, t as int, k);
            let pos2 = src_pos(t, dir, t as int, pos1.1);
            let pos3 = src_pos(t, dir, t as int, pos2.1);
            src_pos(t, dir, t as int, pos3.1) == (t as int, k)
        }),
{
    if k < 8 {
        assert(((k + 6) % 8 + 2) % 8 == k);
        assert(((k + 2) % 8 + 6) % 8 == k);
        assert((((k + 6) % 8 + 6) % 8 + 6) % 8 == (k + 2) % 8);
        assert((((k + 2) % 8 + 2) % 8 + 2) % 8 == (k + 6) % 8);
    }
}

/// Cells of the right shape: six faces of nine.
pub open spec fn well_shaped(v: Seq<Seq<u32>>) -> bool {
    v.len() == 6 && forall|f: int| 0 <= f < 6 ==> (#[trigger] v[f]).len() == 9
}

/// A quarter turn followed by the quarter turn of the same face in the other
/// direction gives back the cells as they were.
pub proof fn lemma_bit_turn_then_inverse(v: Seq<Seq<u32>>, t: usize, dir: Direction)
    requires
        well_shaped(v),
        t < 6,
    ensures
        bit_turned(bit_turned(v, t, dir), t, flip(dir)) == v,
{
    let w = bit_turned(bit_turned(v, t, dir), t, flip(dir));
    assert forall|f: int| 0 <= f < 6 implies #[trigger] w[f] =~= v[f] by {
        assert forall|k: int| 0 <= k < 9 implies w[f][k] == v[f][k] by {
            lemma_src_pos(t, flip(dir), f, k);
            let p = src_pos(t, flip(dir), f, k);
            lemma_src_pos(t, dir, p.0, p.1);
            assert(flip(flip(dir)) == dir);
        }
    }
    assert(w =~= v);
}

/// Four quarter turns of one face in one direction give back the cells as
/// they were.
pub proof fn lemma_bit_four_turns(v: Seq<Seq<u32>>, t: usize, dir: Direction)
    requires
        well_shaped(v),
        t < 6,
    ensures
        bit_turned(bit_turned(bit_turned(bit_turned(v, t, dir), t, dir), t, dir), t, dir) == v,
{
    let v1 = bit_turned(v, t, dir);
    let v2 = bit_turned(v1, t, dir);
    let v3 = bit_turned(v2, t, dir);
    let w = bit_turned(v3, t, dir);
    assert forall|f: int| 0 <= f < 6 implies #[trigger] w[f] =~= v[f] by {
        assert forall|k: int| 0 <= k < 9 implies w[f][k] == v[f][k] by {
            lemma_src_pos(t, dir, f, k);
            let pos1 = src_pos(t, dir, f, k);
            lemma_src_pos(t, dir, pos1.0, pos1.1);
            let pos2 = src_pos(t, dir, pos1.0, pos1.1);
            lemma_src_pos(t, dir, pos2.0, pos2.1);
            let pos3 = src_pos(t, dir, pos2.0, pos2.1);
            lemma_src_pos(t, dir, pos3.0, pos3.1);
        }
    }
    assert(w =~= v);
}

/// The solved cube is solved, and each of the twelve quarter turns unsolves
/// it.
pub proof fn lemma_bit_one_turn_unsolves(t: usize, dir: Direction)
    requires
        t < 6,
    ensures
        bit_turned(solved_cells(), t, dir) != solved_cells(),
{
    lemma_strip_table(t);
    let v = solved_cells();
    let m = source_strip(dir, 0);
    let f = strip_face(t, 0) as int;
    let k = strip_cells(t, 0).0 as int;
    assert(strip_on(t, f) == 0);
    assert(slot_in(strip_cells(t, 0), k) == 0);
    assert(bit_turned(v, t, dir)[f][k] == v[strip_face(t, m) as int][strip_cells(t, m).0 as int]);
    assert(strip_face(t, m) != f);
}

/// The positions (`9 * face + cell`) that hold the value `c`.
pub open spec fn positions_of(v: Seq<Seq<u32>>, c: u32) -> Set<int> {
    set_int_range(0, 54).filter(|p: int| v[p / 9][p % 9] == c)
}

/// How many of the 54 cells hold the value `c`.
pub open spec fn count_color(v: Seq<Seq<u32>>, c: u32) -> nat {
    positions_of(v, c).len()
}

/// The position whose contents move to position `p` in the turn of face `t`
/// in direction `flip(dir)`; that is, where the contents of `p` go in the
/// turn in `dir`.
pub open spec fn dest_pos(t: usize, dir: Direction, p: int) -> int {
    let q = src_pos(t, flip(dir), p / 9, p % 9);
    9 * q.0 + q.1
}

proof fn lemma_div_mod9(a: int, b: int)
    requires
        0 <= b < 9,
    ensures
        (9 * a + b) / 9 == a,
        (9 * a + b) % 9 == b,
{
    assert((9 * a + b) / 9 == a) by (nonlinear_arith)
        requires
            0 <= b < 9,
    ;
    assert((9 * a + b) % 9 == b) by (nonlinear_arith)
        requires
            0 <= b < 9,
    ;
}

/// Where the contents of a position go is a position, and the contents there
/// after the turn are those of the first.
proof fn lemma_dest_pos(v: Seq<Seq<u32>>, t: usize, dir: Direction, p: int)
    requires
        well_shaped(v),
        t < 6,
        0 <= p < 54,
    ensures
        0 <= dest_pos(t, dir, p) < 54,
        src_pos(t, dir, dest_pos(t, dir, p) / 9, dest_pos(t, dir, p) % 9) == (p / 9, p % 9),
        bit_turned(v, t, dir)[dest_pos(t, dir, p) / 9][dest_pos(t, dir, p) % 9] == v[p / 9][p % 9],
{
    lemma_src_pos(t, flip(dir), p / 9, p % 9);
    let q = src_pos(t, flip(dir), p / 9, p % 9);
    lemma_div_mod9(q.0, q.1);
    assert(flip(flip(dir)) == dir);
}

/// Each position is where the contents of its source go.
proof fn lemma_dest_of_src(t: usize, dir: Direction, p: int)
    requires
        t < 6,
        0 <= p < 54,
    ensures
        ({
            let q = src_pos(t, dir, p / 9, p % 9);
            &&& 0 <= 9 * q.0 + q.1 < 54
            &&& dest_pos(t, dir, 9 * q.0 + q.1) == p
            &&& (9 * q.0 + q.1) / 9 == q.0
            &&& (9 * q.0 + q.1) % 9 == q.1
        }),
{
    lemma_src_pos(t, dir, p / 9, p % 9);
    let q = src_pos(t, dir, p / 9, p % 9);
    lemma_div_mod9(q.0, q.1);
}

/// A quarter turn keeps the number of cells of each value.
pub proof fn lemma_turn_keeps_counts(v: Seq<Seq<u32>>, t: usize, dir: Direction, c: u32)
    requires
        well_shaped(v),
        t < 6,
    ensures
        count_color(bit_turned(v, t, dir), c) == count_color(v, c),
{
    let w = bit_turned(v, t, dir);
    let x = positions_of(v, c);
    let y = positions_of(w, c);
    let g = |p: int| dest_pos(t, dir, p);
    lemma_int_range(0, 54);
    set_int_range(0, 54).lemma_len_filter(|p: int| v[p / 9][p % 9] == c);
    assert forall|p: int| x.contains(p) implies y.contains(#[trigger] dest_pos(t, dir, p)) by {
        lemma_dest_pos(v, t, dir, p);
    }
    assert forall|pos1: int, pos2: int|
        x.contains(pos1) && x.contains(pos2) && #[trigger] dest_pos(t, dir, pos1) == #[trigger] dest_pos(t, dir, pos2)
        implies pos1 == pos2 by {
        lemma_dest_pos(v, t, dir, pos1);
        lemma_dest_pos(v, t, dir, pos2);
        lemma_div_mod9(pos1 / 9, pos1 % 9);
        lemma_div_mod9(pos2 / 9, pos2 % 9);
    }
    assert forall|p: int| y.contains(p) implies x.map(g).contains(p) by {
        lemma_dest_of_src(t, dir, p);
        let q = src_pos(t, dir, p / 9, p % 9);
        let pre = 9 * q.0 + q.1;
        assert(x.contains(pre));
        assert(g(pre) == p);
    }
    assert forall|p: int| x.map(g).contains(p) implies y.contains(p) by {
        let pre = choose|pre: int| x.contains(pre) && g(pre) == p;
        assert(y.contains(dest_pos(t, dir, pre)));
    }
    assert(x.map(g) =~= y);
    lemma_map_size(x, y, g);
}

/// The positions of value `f + 1` in the solved cube are those of face `f`.
proof fn lemma_solved_counts(f: int)
    requires
        0 <= f < 6,
    ensures
        count_color(solved_cells(), (f + 1) as u32) == 9,
{
    let x = positions_of(solved_cells(), (f + 1) as u32);
    assert forall|p: int| x.contains(p) <==> set_int_range(9 * f, 9 * f + 9).contains(p) by {
        if 0 <= p < 54 {
            assert(0 <= p / 9 < 6);
        }
    }
    assert(x =~= set_int_range(9 * f, 9 * f + 9));
    lemma_int_range(9 * f, 9 * f + 9);
}

/// A quarter turn of the bit-packed cube: which face, and which way.
#[derive(Clone, Copy, PartialEq, Eq, Structural, Debug, Hash)]
pub struct Move {
    pub face: usize,
    pub direction: Direction,
}

impl Move {
    pub open spec fn wf(self) -> bool {
        self.face < 6
    }

    /// The move with number `i`: face `i / 2`, clockwise when `i` is even.
    pub open spec fn nth(i: int) -> Move {
        Move { face: move_face(i) as usize, direction: move_direction(i) }
    }

    /// Builds the move with number `i` (see `nth`).
    pub fn from_index(i: usize) -> (r: Move)
        requires
            i < NUM_MOVES,
        ensures
            r == Move::nth(i as int),
            r.wf(),
    {
        let direction = if i % 2 == 0 {
            Direction::Clockwise
        } else {
            Direction::CounterClockwise
        };
        Move { face: i / 2, direction }
    }

    /// One of the twelve moves, drawn from `rng`.
    pub fn random(rng: &mut StdRng) -> (r: Move)
        ensures
            r.wf(),
            exists|i: int| 0 <= i < NUM_MOVES && r == Move::nth(i),
    {
        let i = draw_below(rng, NUM_MOVES);
        Move::from_index(i)
    }
}

/// The cells after the moves of `moves`, in order.
pub open spec fn apply_moves(v: Seq<Seq<u32>>, moves: Seq<Move>) -> Seq<Seq<u32>>
    decreases moves.len(),
{
    if moves.len() == 0 {
        v
    } else {
        bit_turned(apply_moves(v, moves.drop_last()), moves.last().face, moves.last().direction)
    }
}

proof fn lemma_apply_moves_shape(v: Seq<Seq<u32>>, moves: Seq<Move>)
    requires
        well_shaped(v),
    ensures
        well_shaped(apply_moves(v, moves)),
    decreases moves.len(),
{
    if moves.len() > 0 {
        lemma_apply_moves_shape(v, moves.drop_last());
    }
}

/// After any sequence of moves from the solved cube, each of the six color
/// codes is in exactly nine cells.
pub proof fn lemma_color_conservation(moves: Seq<Move>, c: u32)
    requires
        forall|i: int| 0 <= i < moves.len() ==> (#[trigger] moves[i]).wf(),
        valid_cell(c),
    ensures
        count_color(apply_moves(solved_cells(), moves), c) == 9,
    decreases moves.len(),
{
    if moves.len() == 0 {
        lemma_solved_counts(c - 1);
    } else {
        let rest = moves.drop_last();
        assert forall|i: int| 0 <= i < rest.len() implies (#[trigger] rest[i]).wf() by {
            assert(rest[i] == moves[i]);
        }
        lemma_color_conservation(rest, c);
        lemma_apply_moves_shape(solved_cells(), rest);
        assert(moves[moves.len() - 1].wf());
        lemma_turn_keeps_counts(apply_moves(solved_cells(), rest), moves.last().face, moves.last().direction, c);
    }
}

/// The text of `o`, or `default` where there is none.
pub open spec fn text_or(o: Option<&str>, default: Seq<char>) -> Seq<char> {
    match o {
        Some(t) => t@,
        None => default,
    }
}

/// The name of color code `v` in `names`, which lists the names of codes 1
/// to 6.
pub open spec fn cell_name(names: Seq<Seq<char>>, v: u32) -> Seq<char> {
    names[v - 1]
}

/// The texts of a sequence of strings.
pub open spec fn texts(names: Seq<&str>) -> Seq<Seq<char>> {
    Seq::new(names.len(), |i: int| names[i]@)
}

/// The digits of the color codes 1 to 6.
pub open spec fn digit_texts() -> Seq<Seq<char>> {
    Seq::new(6, |i: int| seq![digit_char(i + 1)])
}

/// Row `row` of a face's cells as text: `l`, the three cells' names
/// separated by `d`, then `r`.
#[verifier::opaque]
pub open spec fn row_text(
    cells: Seq<u32>,
    row: int,
    l: Seq<char>,
    r: Seq<char>,
    d: Seq<char>,
    names: Seq<Seq<char>>,
) -> Seq<char> {
    l + cell_name(names, cells[ring_of(3 * row)]) + d + cell_name(names, cells[ring_of(3 * row + 1)]) + d
        + cell_name(names, cells[ring_of(3 * row + 2)]) + r
}

/// The three rows of a face's cells as text.
#[verifier::opaque]
pub open spec fn face_text(
    cells: Seq<u32>,
    l: Seq<char>,
    r: Seq<char>,
    d: Seq<char>,
    names: Seq<Seq<char>>,
) -> Seq<char> {
    row_text(cells, 0, l, r, d, names) + row_text(cells, 1, l, r, d, names) + row_text(cells, 2, l, r, d, names)
}

/// The names of the color codes 1 to 6 as their digits.
fn digit_names() -> (r: [&'static str; 6])
    ensures
        forall|i: int| 0 <= i < 6 ==> (#[trigger] r[i])@ == seq![digit_char(i + 1)],
{
    let r = ["1", "2", "3", "4", "5", "6"];
    proof {
        reveal_strlit("1");
        reveal_strlit("2");
        reveal_strlit("3");
        reveal_strlit("4");
        reveal_strlit("5");
        reveal_strlit("6");
        assert(texts(r@)[0] =~= digit_texts()[0]);
        assert(texts(r@)[1] =~= digit_texts()[1]);
        assert(texts(r@)[2] =~= digit_texts()[2]);
        assert(texts(r@)[3] =~= digit_texts()[3]);
        assert(texts(r@)[4] =~= digit_texts()[4]);
        assert(texts(r@)[5] =~= digit_texts()[5]);
        assert(texts(r@) =~= digit_texts());
    }
    r
}

/// The decimal digit of `v`, for `v` from 0 to 9.
pub open spec fn digit_char(v: int) -> char {
    if v == 0 {
        '0'
    } else if v == 1 {
        '1'
    } else if v == 2 {
        '2'
    } else if v == 3 {
        '3'
    } else if v == 4 {
        '4'
    } else if v == 5 {
        '5'
    } else if v == 6 {
        '6'
    } else if v == 7 {
        '7'
    } else if v == 8 {
        '8'
    } else {
        '9'
    }
}

impl Face {
    /// Row `row` (0 top to 2 bottom) of the face as text: `l_pad`, the three
    /// cells' digits separated by `delimiter` (a space where none is given),
    /// then `r_pad`.
    pub fn pretty_fmt_row(&self, row: usize, l_pad: Option<&str>, r_pad: Option<&str>, delimiter: Option<&str>) -> (r: String)
        requires
            self.wf(),
            row < 3,
        ensures
            r@ == row_text(
                self@,
                row as int,
                text_or(l_pad, seq![]),
                text_or(r_pad, seq![]),
                text_or(delimiter, seq![' ']),
                digit_texts(),
            ),
    {
        let names = digit_names();
        let r = self.named_row(row, l_pad, r_pad, delimiter, &names);
        assert(texts(names@) == digit_texts());
        r
    }

    /// The face as text, row by row as `pretty_fmt_row` gives them.
    pub fn pretty_fmt(&self, l_pad: Option<&str>, r_pad: Option<&str>, delimiter: Option<&str>) -> (r: String)
        requires
            self.wf(),
        ensures
            r@ == face_text(
                self@,
                text_or(l_pad, seq![]),
                text_or(r_pad, seq![]),
                text_or(delimiter, seq![' ']),
                digit_texts(),
            ),
    {
        let names = digit_names();
        let r = self.named_rows(l_pad, r_pad, delimiter, &names);
        assert(texts(names@) == digit_texts());
        r
    }

    /// Row `row` with each cell shown by the name of its color code.
    fn named_row(
        &self,
        row: usize,
        l_pad: Option<&str>,
        r_pad: Option<&str>,
        delimiter: Option<&str>,
        names: &[&str; 6],
    ) -> (r: String)
        requires
            self.wf(),
            row < 3,
        ensures
            r@ == row_text(
                self@,
                row as int,
                text_or(l_pad, seq![]),
                text_or(r_pad, seq![]),
                text_or(delimiter, seq![' ']),
                texts(names@),
            ),
    {
        proof {
            reveal_strlit("");
            reveal_strlit(" ");
        }
        let l_pad_str = match l_pad {
            Some(t) => t,
            None => "",
        };
        let r_pad_str = match r_pad {
            Some(t) => t,
            None => "",
        };
        let delimiter_str = match delimiter {
            Some(t) => t,
            None => " ",
        };
        let order = row_major_to_internal();
        let lower = row * 3;
        let mut text = String::new();
        text.append(l_pad_str);
        assert(order[lower as int] == ring_of(lower as int));
        let first = self.get(order[lower]);
        assert(valid_cell(self@[ring_of(3 * row as int)]));
        text.append(names[(first - 1) as usize]);
        for i in lower + 1..lower + 3
            invariant
                self.wf(),
                row < 3,
                lower == 3 * row,
                forall|p: int| 0 <= p < 9 ==> order[p] == ring_of(p),
                text@ == l_pad_str@ + cell_name(texts(names@), self@[ring_of(3 * row as int)]) + (if i > lower + 1 {
                    delimiter_str@ + cell_name(texts(names@), self@[ring_of(3 * row + 1)])
                } else {
                    seq![]
                }) + (if i > lower + 2 {
                    delimiter_str@ + cell_name(texts(names@), self@[ring_of(3 * row + 2)])
                } else {
                    seq![]
                }),
        {
            text.append(delimiter_str);
            assert(order[i as int] == ring_of(i as int));
            let value = self.get(order[i]);
            assert(valid_cell(self@[ring_of(i as int)]));
            text.append(names[(value - 1) as usize]);
        }
        text.append(r_pad_str);
        assert(text@ == row_text(
            self@,
            row as int,
            text_or(l_pad, seq![]),
            text_or(r_pad, seq![]),
            text_or(delimiter, seq![' ']),
            texts(names@),
        )) by {
            reveal(row_text);
        }
        text
    }

    /// The three rows with each cell shown by the name of its color code.
    fn named_rows(&self, l_pad: Option<&str>, r_pad: Option<&str>, delimiter: Option<&str>, names: &[&str; 6]) -> (r: String)
        requires
            self.wf(),
        ensures
            r@ == face_text(
                self@,
                text_or(l_pad, seq![]),
                text_or(r_pad, seq![]),
                text_or(delimiter, seq![' ']),
                texts(names@),
            ),
    {
        let ghost l = text_or(l_pad, seq![]);
        let ghost r = text_or(r_pad, seq![]);
        let ghost d = text_or(delimiter, seq![' ']);
        let mut text = String::new();
        for i in 0..3
            invariant
                self.wf(),
                l == text_or(l_pad, seq![]),
                r == text_or(r_pad, seq![]),
                d == text_or(delimiter, seq![' ']),
                text@ == if i == 0 {
                    seq![]
                } else if i == 1 {
                    row_text(self@, 0, l, r, d, texts(names@))
                } else if i == 2 {
                    row_text(self@, 0, l, r, d, texts(names@)) + row_text(self@, 1, l, r, d, texts(names@))
                } else {
                    row_text(self@, 0, l, r, d, texts(names@)) + row_text(self@, 1, l, r, d, texts(names@))
                        + row_text(self@, 2, l, r, d, texts(names@))
                },
        {
            let row = self.named_row(i, l_pad, r_pad, delimiter, names);
            text.append(row.as_str());
        }
        proof {
            reveal(face_text);
        }
        text
    }
}

/// `n` copies of `c`.
pub open spec fn repeat(c: char, n: nat) -> Seq<char> {
    Seq::new(n, |i: int| c)
}

/// Row `i` of the middle band of the net: faces 1 to 4 side by side.
#[verifier::opaque]
pub open spec fn band_text(v: Seq<Seq<u32>>, i: int, names: Seq<Seq<char>>) -> Seq<char> {
    let bar = seq![' ', '|', ' '];
    row_text(v[1], i, seq!['|', ' '], bar, seq![' '], names) + row_text(v[2], i, seq![], bar, seq![' '], names)
        + row_text(v[3], i, seq![], bar, seq![' '], names) + row_text(
        v[4],
        i,
        seq![],
        seq![' ', '|', '\n'],
        seq![' '],
        names,
    )
}

/// The cube as a net: face 0 on top, faces 1 to 4 in a band, face 5 below,
/// each cell shown by the name of its color code.
#[verifier::opaque]
pub open spec fn cube_text(v: Seq<Seq<u32>>, names: Seq<Seq<char>>) -> Seq<char> {
    let edge = repeat(' ', 8) + repeat('-', 9) + seq!['\n'];
    let rule = repeat('-', 33) + seq!['\n'];
    let blank = repeat(' ', 8) + seq!['|', ' '];
    let end = seq![' ', '|', '\n'];
    edge + face_text(v[0], blank, end, seq![' '], names) + rule + band_text(v, 0, names) + band_text(v, 1, names)
        + band_text(v, 2, names) + rule + face_text(v[5], blank, end, seq![' '], names) + edge
}

impl BitCube {
    /// The cube as a net (see `cube_text`), cells shown by their digits.
    pub fn to_text(&self) -> (r: String)
        requires
            self.wf(),
        ensures
            r@ == cube_text(self@, digit_texts()),
    {
        let names = digit_names();
        let r = self.named_text(&names);
        assert(texts(names@) == digit_texts());
        r
    }

    /// The cube as a net (see `cube_text`), each cell shown by
    /// `color_mapping[v - 1]` for its color code `v`.
    pub fn pretty_to_string(&self, color_mapping: &[&str; 6]) -> (r: String)
        requires
            self.wf(),
        ensures
            r@ == cube_text(self@, texts(color_mapping@)),
    {
        self.named_text(color_mapping)
    }

    fn named_text(&self, names: &[&str; 6]) -> (r: String)
        requires
            self.wf(),
        ensures
            r@ == cube_text(self@, texts(names@)),
    {
        proof {
            self.lemma_view();
            reveal_strlit("        | ");
            reveal_strlit(" |\n");
            reveal_strlit(" ");
        }
        assert(self.faces[0].wf() && self.faces[5].wf());
        let ghost nm = texts(names@);
        let ghost blank = repeat(' ', 8) + seq!['|', ' '];
        assert("        | "@ =~= blank);
        assert(" |\n"@ =~= seq![' ', '|', '\n']);
        assert(" "@ =~= seq![' ']);
        let mut text = edge_line();
        let top = self.faces[0].named_rows(Some("        | "), Some(" |\n"), Some(" "), names);
        text.append(top.as_str());
        let rule = rule_line();
        text.append(rule.as_str());
        let ghost upper = text@;
        for i in 0..3
            invariant
                self.wf(),
                text@ == upper + if i == 0 {
                    seq![]
                } else if i == 1 {
                    band_text(self@, 0, texts(names@))
                } else if i == 2 {
                    band_text(self@, 0, texts(names@)) + band_text(self@, 1, texts(names@))
                } else {
                    band_text(self@, 0, texts(names@)) + band_text(self@, 1, texts(names@)) + band_text(
                        self@,
                        2,
                        texts(names@),
                    )
                },
        {
            let band = self.band_row(i, names);
            text.append(band.as_str());
        }
        let ghost middle = text@;
        text.append(rule.as_str());
        let bottom = self.faces[5].named_rows(Some("        | "), Some(" |\n"), Some(" "), names);
        text.append(bottom.as_str());
        let edge = edge_line();
        text.append(edge.as_str());
        proof {
            let e = repeat(' ', 8) + repeat('-', 9) + seq!['\n'];
            let rl = repeat('-', 33) + seq!['\n'];
            let end = seq![' ', '|', '\n'];
            let f0 = face_text(self@[0], blank, end, seq![' '], nm);
            let f5 = face_text(self@[5], blank, end, seq![' '], nm);
            let bands = band_text(self@, 0, nm) + band_text(self@, 1, nm) + band_text(self@, 2, nm);
            assert(upper == e + f0 + rl);
            assert(middle == e + f0 + rl + bands);
            assert(text@ == e + f0 + rl + bands + rl + f5 + e);
            assert(text@ =~= cube_text(self@, nm)) by {
                reveal(cube_text);
            }
        }
        text
    }

    /// Row `i` of the band of faces 1 to 4.
    fn band_row(&self, i: usize, names: &[&str; 6]) -> (r: String)
        requires
            self.wf(),
            i < 3,
        ensures
            r@ == band_text(self@, i as int, texts(names@)),
    {
        proof {
            self.lemma_view();
            reveal_strlit(" | ");
            reveal_strlit("| ");
            reveal_strlit(" |\n");
            reveal_strlit(" ");
        }
        assert(self.faces[1].wf() && self.faces[2].wf() && self.faces[3].wf() && self.faces[4].wf());
        let ghost nm = texts(names@);
        let ghost bar = seq![' ', '|', ' '];
        assert(" | "@ =~= bar);
        assert("| "@ =~= seq!['|', ' ']);
        assert(" |\n"@ =~= seq![' ', '|', '\n']);
        assert(" "@ =~= seq![' ']);
        let mut text = self.faces[1].named_row(i, Some("| "), Some(" | "), Some(" "), names);
        let ghost t1 = text@;
        assert(t1 == row_text(self@[1], i as int, seq!['|', ' '], bar, seq![' '], nm));
        let b = self.faces[2].named_row(i, None, Some(" | "), Some(" "), names);
        assert(b@ == row_text(self@[2], i as int, seq![], bar, seq![' '], nm));
        text.append(b.as_str());
        let c = self.faces[3].named_row(i, None, Some(" | "), Some(" "), names);
        assert(c@ == row_text(self@[3], i as int, seq![], bar, seq![' '], nm));
        text.append(c.as_str());
        let d = self.faces[4].named_row(i, None, Some(" |\n"), Some(" "), names);
        assert(d@ == row_text(self@[4], i as int, seq![], seq![' ', '|', '\n'], seq![' '], nm));
        text.append(d.as_str());
        assert(text@ == t1 + b@ + c@ + d@);
        assert(text@ =~= band_text(self@, i as int, nm)) by {
            reveal(band_text);
        }
        text
    }
}

/// Eight spaces, nine dashes and a newline: the line above and below the net.
fn edge_line() -> (r: String)
    ensures
        r@ == repeat(' ', 8) + repeat('-', 9) + seq!['\n'],
{
    proof {
        reveal_strlit("        ");
        reveal_strlit("--------");
        reveal_strlit("-\n");
    }
    let mut text = String::new();
    text.append("        ");
    text.append("--------");
    text.append("-\n");
    assert(text@ =~= repeat(' ', 8) + repeat('-', 9) + seq!['\n']);
    text
}

/// Thirty-three dashes and a newline: the line around the band.
fn rule_line() -> (r: String)
    ensures
        r@ == repeat('-', 33) + seq!['\n'],
{
    proof {
        reveal_strlit("--------");
        reveal_strlit("-\n");
    }
    assert("--------"@ =~= repeat('-', 8));
    let mut text = String::new();
    for i in 0..4
        invariant
            text@ == repeat('-', (8 * i) as nat),
            "--------"@ == repeat('-', 8),
    {
        text.append("--------");
        assert(text@ =~= repeat('-', (8 * (i + 1)) as nat));
    }
    text.append("-\n");
    assert(text@ =~= repeat('-', 33) + seq!['\n']);
    text
}

impl Move {
    /// The move as text: the digit of its face, with a `'` when
    /// counterclockwise.
    pub fn to_text(&self) -> (r: String)
        requires
            self.wf(),
        ensures
            r@ == seq![digit_char(self.face as int)] + match self.direction {
                Direction::Clockwise => Seq::<char>::empty(),
                Direction::CounterClockwise => seq!['\''],
            },
    {
        let digits = ["0", "1", "2", "3", "4", "5"];
        proof {
            reveal_strlit("0");
            reveal_strlit("1");
            reveal_strlit("2");
            reveal_strlit("3");
            reveal_strlit("4");
            reveal_strlit("5");
        }
        assert(digits[self.face as int]@ == seq![digit_char(self.face as int)]);
        self.pretty_fmt(&digits)
    }

    /// The move as text: the name of its face from `color_mapping`, with a
    /// `'` when counterclockwise.
    pub fn pretty_fmt(&self, color_mapping: &[&str; 6]) -> (r: String)
        requires
            self.wf(),
        ensures
            r@ == color_mapping[self.face as int]@ + match self.direction {
                Direction::Clockwise => Seq::<char>::empty(),
                Direction::CounterClockwise => seq!['\''],
            },
    {
        let mut printed = String::new();
        printed.append(color_mapping[self.face]);
        match self.direction {
            Direction::Clockwise => {},
            Direction::CounterClockwise => {
                proof {
                    reveal_strlit("'");
                }
                printed.append("'");
            },
        }
        printed
    }
}

/// A turn keeps the cells six faces of nine.
pub proof fn lemma_bit_shape(v: Seq<Seq<u32>>, t: usize, dir: Direction)
    requires
        well_shaped(v),
    ensures
        well_shaped(bit_turned(v, t, dir)),
{
}

impl BitCube {
    /// Two well-formed cubes with the same cells are the same cube, bit for
    /// bit.
    pub proof fn lemma_view_eq(a: BitCube, b: BitCube)
        requires
            a.wf(),
            b.wf(),
            a@ == b@,
        ensures
            a == b,
    {
        a.lemma_view();
        b.lemma_view();
        assert forall|f: int| 0 <= f < 6 implies a.faces[f] == b.faces[f] by {
            assert(a.faces[f].wf() && b.faces[f].wf());
            assert(a@[f] == b@[f]);
            Face::lemma_ext(a.faces[f], b.faces[f]);
        }
        assert(a.faces =~= b.faces);
    }
}

} // verus!
