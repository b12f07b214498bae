//! Bit-packed board state and legal-move generation for the 5x4 puzzle.
//!
//! The 20 grid cells are bit positions 0..19 of a `u32`, row-major: bit
//! `4 * row + col` is the cell at `row` (0..4, top to bottom) and `col`
//! (0..3, left to right).  Each block kind stores one anchor bit (the
//! block's top-left cell) per instance; the occupancy mask is derived from
//! the anchors by expanding each kind's footprint.
use vstd::prelude::*;
use vstd::seq_lib::group_seq_properties;

verus! {

broadcast use group_seq_properties;

/// All 20 valid cells: bits 0..19.
pub const BOARD_MASK: u32 = 0xFFFFF;

/// Column 0 (leftmost): bits 0, 4, 8, 12, 16.
pub const C1: u32 = 0x11111;

/// Column 1: bits 1, 5, 9, 13, 17.
pub const C2: u32 = C1 << 1;

/// Column 2: bits 2, 6, 10, 14, 18.
pub const C3: u32 = C1 << 2;

/// Column 3 (rightmost): bits 3, 7, 11, 15, 19.
pub const C4: u32 = C1 << 3;

/// Row 0 (top): bits 0..3.
pub const R1: u32 = 0xF;

/// Row 1: bits 4..7.
pub const R2: u32 = R1 << 4;

/// Row 2: bits 8..11.
pub const R3: u32 = R1 << 8;

/// Row 3: bits 12..15.
pub const R4: u32 = R1 << 12;

/// Row 4 (bottom): bits 16..19.
pub const R5: u32 = R1 << 16;

/// Every set bit moved one row up; bits of row 0 fall off the low end.
pub open spec fn spec_up(m: u32) -> u32 {
    m >> 4
}

/// Every set bit moved one row down; bits that would leave the grid are
/// masked off.
pub open spec fn spec_down(m: u32) -> u32 {
    (m << 4) & BOARD_MASK
}

/// Every set bit moved one column right; bits of the rightmost column are
/// discarded (they would wrap to the next row's leftmost column).
pub open spec fn spec_right(m: u32) -> u32 {
    (m << 1) & !C1 & BOARD_MASK
}

/// Every set bit moved one column left; bits of the leftmost column are
/// discarded (they would wrap to the previous row's rightmost column).
pub open spec fn spec_left(m: u32) -> u32 {
    (m >> 1) & !C4
}

/// Shift a mask one row up.
#[verifier::when_used_as_spec(spec_up)]
pub fn up(m: u32) -> (r: u32)
    ensures
        r == spec_up(m),
{
    m >> 4u32
}

/// Shift a mask one row down, dropping bits that leave the grid.
#[verifier::when_used_as_spec(spec_down)]
pub fn down(m: u32) -> (r: u32)
    ensures
        r == spec_down(m),
{
    (m << 4u32) & BOARD_MASK
}

/// Shift a mask one column right, dropping bits of the rightmost column.
#[verifier::when_used_as_spec(spec_right)]
pub fn right(m: u32) -> (r: u32)
    ensures
        r == spec_right(m),
{
    (m << 1u32) & !C1 & BOARD_MASK
}

/// Shift a mask one column left, dropping bits of the leftmost column.
#[verifier::when_used_as_spec(spec_left)]
pub fn left(m: u32) -> (r: u32)
    ensures
        r == spec_left(m),
{
    (m >> 1u32) & !C4
}

/// One placement of all blocks.  `p_2x2` anchors the 2x2 block, `p_2x1`
/// the horizontal 2-cell blocks, `p_1x2` the vertical 2-cell blocks,
/// `p_1x1` the single-cell blocks; `mask` is the derived occupancy.
#[derive(Clone, Copy, PartialEq, Eq, Hash, Debug, Structural)]
pub struct Board {
    /// Occupancy: every cell covered by any block, derived at construction.
    pub mask: u32,
    /// Anchors of horizontal 2-cell blocks (cover anchor and its right).
    pub p_2x1: u32,
    /// Anchor of the single 2x2 block (covers a 2x2 square).
    pub p_2x2: u32,
    /// Anchors of vertical 2-cell blocks (cover anchor and the cell below).
    pub p_1x2: u32,
    /// Anchors of single-cell blocks.
    pub p_1x1: u32,
}

/// Footprint of the 2x2 block: anchor, its right, below, and diagonal.
pub open spec fn ex_2x2(p: u32) -> u32 {
    p | spec_right(p) | spec_down(p) | spec_right(spec_down(p))
}

/// Footprint of the horizontal 2-cell blocks: each anchor and its right.
pub open spec fn ex_2x1(p: u32) -> u32 {
    p | spec_right(p)
}

/// Footprint of the vertical 2-cell blocks: each anchor and the cell below.
pub open spec fn ex_1x2(p: u32) -> u32 {
    p | spec_down(p)
}

/// The occupancy mask: the union of every kind's expanded footprint.
pub open spec fn occupancy(p_2x2: u32, p_2x1: u32, p_1x2: u32, p_1x1: u32) -> u32 {
    ex_2x2(p_2x2) | ex_2x1(p_2x1) | ex_1x2(p_1x2) | p_1x1
}

/// The board built from the four anchor masks, occupancy derived.
pub open spec fn mk(p_2x2: u32, p_2x1: u32, p_1x2: u32, p_1x1: u32) -> Board {
    Board {
        mask: occupancy(p_2x2, p_2x1, p_1x2, p_1x1),
        p_2x1: p_2x1,
        p_2x2: p_2x2,
        p_1x2: p_1x2,
        p_1x1: p_1x1,
    }
}

/// True when `m` has exactly one bit set.
pub open spec fn one_hot(m: u32) -> bool {
    m != 0 && m & ((m - 1) as u32) == 0
}

/// True when `m` is the mask of exactly one grid cell.
pub open spec fn is_cell(m: u32) -> bool {
    one_hot(m) && m & BOARD_MASK == m
}

/// The four slides of the 2x2 block whose leading edge enters the free
/// cell `m`: the anchor mask shifts one cell toward `m`, and the second
/// cell of the leading edge (below or right of `m`) must also be free.
pub open spec fn move_2x2(pre: Board, m: u32, post: Board) -> bool {
    ||| (left(left(m)) & pre.p_2x2 != 0 && down(m) & pre.mask == 0 && post == mk(
        right(pre.p_2x2),
        pre.p_2x1,
        pre.p_1x2,
        pre.p_1x1,
    ))
    ||| (right(m) & pre.p_2x2 != 0 && down(m) & pre.mask == 0 && post == mk(
        left(pre.p_2x2),
        pre.p_2x1,
        pre.p_1x2,
        pre.p_1x1,
    ))
    ||| (up(up(m)) & pre.p_2x2 != 0 && right(m) & pre.mask == 0 && post == mk(
        down(pre.p_2x2),
        pre.p_2x1,
        pre.p_1x2,
        pre.p_1x1,
    ))
    ||| (down(m) & pre.p_2x2 != 0 && right(m) & pre.mask == 0 && post == mk(
        up(pre.p_2x2),
        pre.p_2x1,
        pre.p_1x2,
        pre.p_1x1,
    ))
}

/// The four slides of a horizontal 2-cell block into the free cell `m`:
/// sliding right or left along its row needs only `m` free; sliding up or
/// down also needs the cell right of `m` free.
pub open spec fn move_2x1(pre: Board, m: u32, post: Board) -> bool {
    ||| (left(left(m)) & pre.p_2x1 != 0 && post == mk(
        pre.p_2x2,
        (pre.p_2x1 ^ left(left(m))) | left(m),
        pre.p_1x2,
        pre.p_1x1,
    ))
    ||| (right(m) & pre.p_2x1 != 0 && post == mk(
        pre.p_2x2,
        (pre.p_2x1 ^ right(m)) | m,
        pre.p_1x2,
        pre.p_1x1,
    ))
    ||| (up(m) & pre.p_2x1 != 0 && right(m) & pre.mask == 0 && post == mk(
        pre.p_2x2,
        (pre.p_2x1 ^ up(m)) | m,
        pre.p_1x2,
        pre.p_1x1,
    ))
    ||| (down(m) & pre.p_2x1 != 0 && right(m) & pre.mask == 0 && post == mk(
        pre.p_2x2,
        (pre.p_2x1 ^ down(m)) | m,
        pre.p_1x2,
        pre.p_1x1,
    ))
}

/// The four slides of a vertical 2-cell block into the free cell `m`:
/// sliding down or up along its column needs only `m` free; sliding left
/// or right also needs the cell below `m` free.
pub open spec fn move_1x2(pre: Board, m: u32, post: Board) -> bool {
    ||| (up(up(m)) & pre.p_1x2 != 0 && post == mk(
        pre.p_2x2,
        pre.p_2x1,
        (pre.p_1x2 ^ up(up(m))) | up(m),
        pre.p_1x1,
    ))
    ||| (down(m) & pre.p_1x2 != 0 && post == mk(
        pre.p_2x2,
        pre.p_2x1,
        (pre.p_1x2 ^ down(m)) | m,
        pre.p_1x1,
    ))
    ||| (left(m) & pre.p_1x2 != 0 && down(m) & pre.mask == 0 && post == mk(
        pre.p_2x2,
        pre.p_2x1,
        (pre.p_1x2 ^ left(m)) | m,
        pre.p_1x1,
    ))
    ||| (right(m) & pre.p_1x2 != 0 && down(m) & pre.mask == 0 && post == mk(
        pre.p_2x2,
        pre.p_2x1,
        (pre.p_1x2 ^ right(m)) | m,
        pre.p_1x1,
    ))
}

/// The four slides of a single-cell block into the free cell `m`, one per
/// neighbouring cell that holds such a block.
pub open spec fn move_1x1(pre: Board, m: u32, post: Board) -> bool {
    ||| (left(m) & pre.p_1x1 != 0 && post == mk(
        pre.p_2x2,
        pre.p_2x1,
        pre.p_1x2,
        (pre.p_1x1 ^ left(m)) | m,
    ))
    ||| (right(m) & pre.p_1x1 != 0 && post == mk(
        pre.p_2x2,
        pre.p_2x1,
        pre.p_1x2,
        (pre.p_1x1 ^ right(m)) | m,
    ))
    ||| (up(m) & pre.p_1x1 != 0 && post == mk(
        pre.p_2x2,
        pre.p_2x1,
        pre.p_1x2,
        (pre.p_1x1 ^ up(m)) | m,
    ))
    ||| (down(m) & pre.p_1x1 != 0 && post == mk(
        pre.p_2x2,
        pre.p_2x1,
        pre.p_1x2,
        (pre.p_1x1 ^ down(m)) | m,
    ))
}

/// Some block slides into the free cell `m`, turning `pre` into `post`.
#[verifier::opaque]
pub open spec fn move_any(pre: Board, m: u32, post: Board) -> bool {
    ||| move_2x2(pre, m, post)
    ||| move_2x1(pre, m, post)
    ||| move_1x2(pre, m, post)
    ||| move_1x1(pre, m, post)
}

/// Some block slides into the specific free cell `m` of `pre`.
pub open spec fn move_via(pre: Board, m: u32, post: Board) -> bool {
    is_cell(m) && pre.mask & m == 0 && move_any(pre, m, post)
}

/// `post` is reachable from `pre` by one legal slide of one block by one
/// cell.  This is the mathematical model of `Board::follow`.
pub open spec fn one_move(pre: Board, post: Board) -> bool {
    exists|m: u32| #[trigger] move_via(pre, m, post)
}

/// The occupancy mask is exactly the union of the anchor masks expanded
/// by their footprints; it is derived, never set independently.
pub open spec fn consistent(b: Board) -> bool {
    b.mask == occupancy(b.p_2x2, b.p_2x1, b.p_1x2, b.p_1x1)
}

/// The well-formedness conjuncts, stated over the five mask words: the
/// occupancy is derived from the anchors, every anchor keeps its block's
/// whole footprint on the grid, there is at most one 2x2 block, blocks of
/// one kind do not overlap each other, and blocks of different kinds do
/// not overlap.
pub open spec fn wf_parts(p_2x2: u32, p_2x1: u32, p_1x2: u32, p_1x1: u32, mask: u32) -> bool {
    &&& mask == occupancy(p_2x2, p_2x1, p_1x2, p_1x1)
    &&& p_2x2 & BOARD_MASK == p_2x2
    &&& p_2x1 & BOARD_MASK == p_2x1
    &&& p_1x2 & BOARD_MASK == p_1x2
    &&& p_1x1 & BOARD_MASK == p_1x1
    &&& p_2x2 & C4 == 0
    &&& p_2x2 & R5 == 0
    &&& p_2x1 & C4 == 0
    &&& p_1x2 & R5 == 0
    &&& (p_2x2 == 0 || one_hot(p_2x2))
    &&& p_2x1 & right(p_2x1) == 0
    &&& p_1x2 & down(p_1x2) == 0
    &&& ex_2x2(p_2x2) & ex_2x1(p_2x1) == 0
    &&& ex_2x2(p_2x2) & ex_1x2(p_1x2) == 0
    &&& ex_2x2(p_2x2) & p_1x1 == 0
    &&& ex_2x1(p_2x1) & ex_1x2(p_1x2) == 0
    &&& ex_2x1(p_2x1) & p_1x1 == 0
    &&& ex_1x2(p_1x2) & p_1x1 == 0
}

/// A well-formed board, as `wf_parts` of its fields.
pub open spec fn wf(b: Board) -> bool {
    wf_parts(b.p_2x2, b.p_2x1, b.p_1x2, b.p_1x1, b.mask)
}

/// The one target cell for the 2x2 block: row 3, column 1 (bit 13).
pub open spec fn spec_is_solved(b: Board) -> bool {
    b.p_2x2 & R4 & C2 != 0
}

/// The mask of cell `i` (row-major index 0..19).
pub open spec fn cell_mask(i: int) -> u32 {
    1u32 << (i as u32)
}

/// The symbol drawn for cell `c`: which kind's footprint covers it.  A
/// cell is covered by a block whose anchor is the cell itself or a cell
/// left, above, or diagonally left-above of it, by kind.
pub open spec fn cell_symbol(b: Board, c: u32) -> char {
    if (c & b.p_2x2) | (left(c) & b.p_2x2) | (up(c) & b.p_2x2) | (left(up(c)) & b.p_2x2) != 0 {
        '+'
    } else if (c & b.p_2x1) | (left(c) & b.p_2x1) != 0 {
        '-'
    } else if (c & b.p_1x2) | (up(c) & b.p_1x2) != 0 {
        '|'
    } else if c & b.p_1x1 != 0 {
        'o'
    } else {
        ' '
    }
}

impl Board {
    /// Build a board from the four anchor masks; the occupancy mask is
    /// recomputed here and nowhere else.
    pub fn new(p_2x2: u32, p_2x1: u32, p_1x2: u32, p_1x1: u32) -> (r: Board)
        ensures
            r == mk(p_2x2, p_2x1, p_1x2, p_1x1),
            r.mask == occupancy(p_2x2, p_2x1, p_1x2, p_1x1),
    {
        let mut mask: u32 = p_1x1;
        mask = mask | p_2x1 | right(p_2x1);
        mask = mask | p_1x2 | down(p_1x2);
        mask = mask | p_2x2 | right(p_2x2) | down(p_2x2) | right(down(p_2x2));
        proof {
            assert(mask == occupancy(p_2x2, p_2x1, p_1x2, p_1x1)) by (bit_vector)
                requires
                    mask == p_1x1 | p_2x1 | spec_right(p_2x1) | p_1x2 | spec_down(p_1x2) | p_2x2
                        | spec_right(p_2x2) | spec_down(p_2x2) | spec_right(spec_down(p_2x2)),
            ;
        }
        Board { mask, p_2x2, p_2x1, p_1x2, p_1x1 }
    }

    /// True exactly when the 2x2 block's anchor sits on the target cell.
    pub fn is_solved(&self) -> (r: bool)
        ensures
            r == spec_is_solved(*self),
    {
        self.p_2x2 & R4 & C2 != 0
    }

    /// Push every slide of the 2x2 block into the free cell `m`.
    fn follow_2x2(&self, v: &mut Vec<Board>, m: u32)
        ensures
            old(v)@.len() <= final(v)@.len(),
            forall|j: int| 0 <= j < old(v)@.len() ==> final(v)@[j] == old(v)@[j],
            forall|j: int|
                old(v)@.len() <= j < final(v)@.len() ==> move_2x2(*self, m, #[trigger] final(v)@[j]),
            forall|b2: Board| #[trigger] move_2x2(*self, m, b2) ==> final(v)@.contains(b2),
    {
        if left(left(m)) & self.p_2x2 != 0 && down(m) & self.mask == 0 {
            v.push(Board::new(right(self.p_2x2), self.p_2x1, self.p_1x2, self.p_1x1));
        }
        if right(m) & self.p_2x2 != 0 && down(m) & self.mask == 0 {
            v.push(Board::new(left(self.p_2x2), self.p_2x1, self.p_1x2, self.p_1x1));
        }
        if up(up(m)) & self.p_2x2 != 0 && right(m) & self.mask == 0 {
            v.push(Board::new(down(self.p_2x2), self.p_2x1, self.p_1x2, self.p_1x1));
        }
        if down(m) & self.p_2x2 != 0 && right(m) & self.mask == 0 {
            v.push(Board::new(up(self.p_2x2), self.p_2x1, self.p_1x2, self.p_1x1));
        }
    }

    /// Push every slide of a horizontal 2-cell block into the free cell `m`.
    fn follow_2x1(&self, v: &mut Vec<Board>, m: u32)
        ensures
            old(v)@.len() <= final(v)@.len(),
            forall|j: int| 0 <= j < old(v)@.len() ==> final(v)@[j] == old(v)@[j],
            forall|j: int|
                old(v)@.len() <= j < final(v)@.len() ==> move_2x1(*self, m, #[trigger] final(v)@[j]),
            forall|b2: Board| #[trigger] move_2x1(*self, m, b2) ==> final(v)@.contains(b2),
    {
        if left(left(m)) & self.p_2x1 != 0 {
            let p: u32 = (self.p_2x1 ^ left(left(m))) | left(m);
            v.push(Board::new(self.p_2x2, p, self.p_1x2, self.p_1x1));
        }
        if right(m) & self.p_2x1 != 0 {
            let p: u32 = (self.p_2x1 ^ right(m)) | m;
            v.push(Board::new(self.p_2x2, p, self.p_1x2, self.p_1x1));
        }
        if up(m) & self.p_2x1 != 0 && right(m) & self.mask == 0 {
            let p: u32 = (self.p_2x1 ^ up(m)) | m;
            v.push(Board::new(self.p_2x2, p, self.p_1x2, self.p_1x1));
        }
        if down(m) & self.p_2x1 != 0 && right(m) & self.mask == 0 {
            let p: u32 = (self.p_2x1 ^ down(m)) | m;
            v.push(Board::new(self.p_2x2, p, self.p_1x2, self.p_1x1));
        }
    }

    /// Push every slide of a vertical 2-cell block into the free cell `m`.
    fn follow_1x2(&self, v: &mut Vec<Board>, m: u32)
        ensures
            old(v)@.len() <= final(v)@.len(),
            forall|j: int| 0 <= j < old(v)@.len() ==> final(v)@[j] == old(v)@[j],
            forall|j: int|
                old(v)@.len() <= j < final(v)@.len() ==> move_1x2(*self, m, #[trigger] final(v)@[j]),
            forall|b2: Board| #[trigger] move_1x2(*self, m, b2) ==> final(v)@.contains(b2),
    {
        if up(up(m)) & self.p_1x2 != 0 {
            let p: u32 = (self.p_1x2 ^ up(up(m))) | up(m);
            v.push(Board::new(self.p_2x2, self.p_2x1, p, self.p_1x1));
        }
        if down(m) & self.p_1x2 != 0 {
            let p: u32 = (self.p_1x2 ^ down(m)) | m;
            v.push(Board::new(self.p_2x2, self.p_2x1, p, self.p_1x1));
        }
        if left(m) & self.p_1x2 != 0 && down(m) & self.mask == 0 {
            let p: u32 = (self.p_1x2 ^ left(m)) | m;
            v.push(Board::new(self.p_2x2, self.p_2x1, p, self.p_1x1));
        }
        if right(m) & self.p_1x2 != 0 && down(m) & self.mask == 0 {
            let p: u32 = (self.p_1x2 ^ right(m)) | m;
            v.push(Board::new(self.p_2x2, self.p_2x1, p, self.p_1x1));
        }
    }

    /// Push every slide of a single-cell block into the free cell `m`.
    fn follow_1x1(&self, v: &mut Vec<Board>, m: u32)
        ensures
            old(v)@.len() <= final(v)@.len(),
            forall|j: int| 0 <= j < old(v)@.len() ==> final(v)@[j] == old(v)@[j],
            forall|j: int|
                old(v)@.len() <= j < final(v)@.len() ==> move_1x1(*self, m, #[trigger] final(v)@[j]),
            forall|b2: Board| #[trigger] move_1x1(*self, m, b2) ==> final(v)@.contains(b2),
    {
        if left(m) & self.p_1x1 != 0 {
            let p: u32 = (self.p_1x1 ^ left(m)) | m;
            v.push(Board::new(self.p_2x2, self.p_2x1, self.p_1x2, p));
        }
        if right(m) & self.p_1x1 != 0 {
            let p: u32 = (self.p_1x1 ^ right(m)) | m;
            v.push(Board::new(self.p_2x2, self.p_2x1, self.p_1x2, p));
        }
        if up(m) & self.p_1x1 != 0 {
            let p: u32 = (self.p_1x1 ^ up(m)) | m;
            v.push(Board::new(self.p_2x2, self.p_2x1, self.p_1x2, p));
        }
        if down(m) & self.p_1x1 != 0 {
            let p: u32 = (self.p_1x1 ^ down(m)) | m;
            v.push(Board::new(self.p_2x2, self.p_2x1, self.p_1x2, p));
        }
    }

    /// Push every slide of any block into the free cell `m`.
    fn follow_single(&self, v: &mut Vec<Board>, m: u32)
        requires
            is_cell(m),
            self.mask & m == 0,
        ensures
            old(v)@.len() <= final(v)@.len(),
            forall|j: int| 0 <= j < old(v)@.len() ==> final(v)@[j] == old(v)@[j],
            forall|j: int|
                old(v)@.len() <= j < final(v)@.len() ==> move_via(*self, m, #[trigger] final(v)@[j]),
            forall|b2: Board| #[trigger] move_any(*self, m, b2) ==> final(v)@.contains(b2),
    {
        proof {
            reveal(move_any);
        }
        self.follow_2x2(v, m);
        self.follow_2x1(v, m);
        self.follow_1x2(v, m);
        self.follow_1x1(v, m);
    }

    /// Draw the board as a character grid: 5 rows of 4 symbols separated
    /// by newlines, each cell marked by the kind of block covering it
    /// (`+` for the 2x2 block, `-` horizontal, `|` vertical, `o` single,
    /// space for a free cell).
    pub fn render(&self) -> (r: Vec<char>)
        ensures
            r@.len() == 24,
            forall|i: int| 0 <= i < 20 ==> r@[i + i / 4] == cell_symbol(*self, cell_mask(i)),
            forall|k: int| 1 <= k <= 4 ==> #[trigger] r@[5 * k - 1] == '\n',
    {
        let mut v: Vec<char> = Vec::new();
        let mut i: usize = 0;
        while i < 20
            invariant
                i <= 20,
                v@.len() == (if i == 0 { 0int } else { i + (i - 1) / 4 }),
                forall|q: int| 0 <= q < i ==> v@[q + q / 4] == cell_symbol(*self, cell_mask(q)),
                forall|k: int| 1 <= k <= 4 && 4 * k < i ==> #[trigger] v@[5 * k - 1] == '\n',
            decreases 20 - i,
        {
            if i % 4 == 0 && i != 0 {
                v.push('\n');
            }
            let c: u32 = 1u32 << (i as u32);
            proof {
                assert(cell_mask(i as int) == c);
            }
            let s: char = if (c & self.p_2x2) | (left(c) & self.p_2x2) | (up(c) & self.p_2x2) | (
            left(up(c)) & self.p_2x2) != 0 {
                '+'
            } else if (c & self.p_2x1) | (left(c) & self.p_2x1) != 0 {
                '-'
            } else if (c & self.p_1x2) | (up(c) & self.p_1x2) != 0 {
                '|'
            } else if c & self.p_1x1 != 0 {
                'o'
            } else {
                ' '
            };
            v.push(s);
            i = i + 1;
        }
        v
    }

    /// All boards reachable from `self` by one legal slide: exactly the
    /// boards `b` with `one_move(self, b)`, in unspecified order and
    /// possibly with repeats.
    pub fn follow(&self) -> (r: Vec<Board>)
        ensures
            forall|j: int| 0 <= j < r@.len() ==> one_move(*self, #[trigger] r@[j]),
            forall|b2: Board| one_move(*self, b2) ==> r@.contains(b2),
    {
        let msk: u32 = self.mask;
        let free: u32 = !msk & BOARD_MASK;
        let mut v: Vec<Board> = Vec::new();
        let mut i: usize = 0;
        proof {
            assert(1u32 << 0usize == 1u32) by (bit_vector);
        }
        while i < 20
            invariant
                i <= 20,
                msk == self.mask,
                free == !msk & BOARD_MASK,
                forall|j: int| 0 <= j < v@.len() ==> one_move(*self, #[trigger] v@[j]),
                forall|b2: Board, mc: u32|
                    is_cell(mc) && mc < (1u32 << i) && #[trigger] move_via(*self, mc, b2)
                        ==> v@.contains(b2),
            decreases 20 - i,
        {
            let m: u32 = 1u32 << i;
            if free & m != 0 {
                proof {
                    assert(is_cell(m) && msk & m == 0) by (bit_vector)
                        requires
                            free & m != 0,
                            free == !msk & 0xFFFFFu32,
                            m == 1u32 << i,
                            i < 20,
                    ;
                }
                self.follow_single(&mut v, m);
            } else {
                proof {
                    assert(msk & m != 0) by (bit_vector)
                        requires
                            free & m == 0,
                            free == !msk & 0xFFFFFu32,
                            m == 1u32 << i,
                            i < 20,
                    ;
                }
            }
            proof {
                assert forall|b2: Board, mc: u32|
                    is_cell(mc) && mc < (1u32 << ((i + 1) as usize)) && #[trigger] move_via(
                        *self,
                        mc,
                        b2,
                    ) implies v@.contains(b2) by {
                    assert(mc < (1u32 << i) || mc == (1u32 << i)) by (bit_vector)
                        requires
                            is_cell(mc),
                            mc < (1u32 << ((i + 1) as usize)),
                            i < 20,
                    ;
                }
            }
            i = i + 1;
        }
        proof {
            assert(1u32 << 20usize == 0x100000u32) by (bit_vector);
            assert(forall|mc: u32| mc & 0xFFFFFu32 == mc ==> mc < 0x100000u32) by (bit_vector);
        }
        v
    }
}

/// Every board a move produces carries a derived occupancy mask: each
/// disjunct of the move relation builds its result with `mk`.
pub proof fn lemma_one_move_consistent(pre: Board, post: Board)
    requires
        one_move(pre, post),
    ensures
        consistent(post),
{
    reveal(move_any);
    let m = choose|mm: u32| move_via(pre, mm, post);
    assert(move_via(pre, m, post));
}

/// A board with no free cell admits no move at all.
pub proof fn lemma_no_free_cell_no_move(b: Board)
    requires
        b.mask & BOARD_MASK == BOARD_MASK,
    ensures
        forall|b2: Board| !one_move(b, b2),
{
    let msk: u32 = b.mask;
    assert forall|b2: Board| !one_move(b, b2) by {
        if one_move(b, b2) {
            let m = choose|mm: u32| move_via(b, mm, b2);
            assert(move_via(b, m, b2));
            assert(!(is_cell(m) && msk & m == 0)) by (bit_vector)
                requires
                    msk & 0xFFFFFu32 == 0xFFFFFu32,
            ;
        }
    }
}

/// A slide always changes the board: no board is its own successor.
pub proof fn lemma_move_changes_board(pre: Board, post: Board)
    requires
        consistent(pre),
        one_move(pre, post),
    ensures
        post != pre,
{
    reveal(move_any);
    let m = choose|mm: u32| move_via(pre, mm, post);
    assert(move_via(pre, m, post));
    let p22: u32 = pre.p_2x2;
    let p21: u32 = pre.p_2x1;
    let p12: u32 = pre.p_1x2;
    let p11: u32 = pre.p_1x1;
    let msk: u32 = pre.mask;
    if move_2x2(pre, m, post) {
        assert((left(left(m)) & p22 != 0 ==> right(p22) != p22) && (right(m) & p22 != 0 ==> left(
            p22,
        ) != p22) && (up(up(m)) & p22 != 0 ==> down(p22) != p22) && (down(m) & p22 != 0 ==> up(p22)
            != p22)) by (bit_vector);
        assert(post.p_2x2 != pre.p_2x2);
    } else if move_2x1(pre, m, post) {
        assert((left(left(m)) & p21 != 0 ==> ((p21 ^ left(left(m))) | left(m)) != p21) && (right(m)
            & p21 != 0 ==> ((p21 ^ right(m)) | m) != p21) && (up(m) & p21 != 0 ==> ((p21 ^ up(m))
            | m) != p21) && (down(m) & p21 != 0 ==> ((p21 ^ down(m)) | m) != p21)) by (bit_vector)
            requires
                is_cell(m),
                msk & m == 0,
                msk == occupancy(p22, p21, p12, p11),
        ;
        assert(post.p_2x1 != pre.p_2x1);
    } else if move_1x2(pre, m, post) {
        assert((up(up(m)) & p12 != 0 ==> ((p12 ^ up(up(m))) | up(m)) != p12) && (down(m) & p12 != 0
            ==> ((p12 ^ down(m)) | m) != p12) && (left(m) & p12 != 0 ==> ((p12 ^ left(m)) | m)
            != p12) && (right(m) & p12 != 0 ==> ((p12 ^ right(m)) | m) != p12)) by (bit_vector)
            requires
                is_cell(m),
                msk & m == 0,
                msk == occupancy(p22, p21, p12, p11),
        ;
        assert(post.p_1x2 != pre.p_1x2);
    } else {
        assert(move_1x1(pre, m, post));
        assert((left(m) & p11 != 0 ==> ((p11 ^ left(m)) | m) != p11) && (right(m) & p11 != 0 ==> ((
        p11 ^ right(m)) | m) != p11) && (up(m) & p11 != 0 ==> ((p11 ^ up(m)) | m) != p11) && (down(
            m,
        ) & p11 != 0 ==> ((p11 ^ down(m)) | m) != p11)) by (bit_vector)
            requires
                is_cell(m),
                msk & m == 0,
                msk == occupancy(p22, p21, p12, p11),
        ;
        assert(post.p_1x1 != pre.p_1x1);
    }
}

/// The number of set bits in `m`.
pub open spec fn pop_count(m: u32) -> int
    decreases m,
{
    if m == 0 {
        0
    } else {
        (m % 2) + pop_count((m / 2) as u32)
    }
}

/// Set bits of disjoint masks add up.
pub proof fn lemma_pop_disjoint(a: u32, b: u32)
    requires
        a & b == 0,
    ensures
        pop_count(a | b) == pop_count(a) + pop_count(b),
    decreases a + b,
{
    if a == 0 && b == 0 {
        assert((a | b) == 0) by (bit_vector)
            requires
                a == 0,
                b == 0,
        ;
    } else {
        assert(((a | b) % 2 == a % 2 + b % 2) && ((((a | b) / 2) as u32) == (((a / 2) as u32) | ((b
            / 2) as u32))) && (((a / 2) as u32) & ((b / 2) as u32) == 0) && ((a | b) != 0)) by (bit_vector)
            requires
                a & b == 0,
                !(a == 0 && b == 0),
        ;
        lemma_pop_disjoint((a / 2) as u32, (b / 2) as u32);
    }
}

/// A mask with one set bit has count one.
pub proof fn lemma_pop_one_hot(s: u32)
    requires
        one_hot(s),
    ensures
        pop_count(s) == 1,
    decreases s,
{
    if s == 1 {
        assert(pop_count(0u32) == 0);
        assert(pop_count(1u32) == 1);
    } else {
        assert((s % 2 == 0) && one_hot((s / 2) as u32) && s != 0) by (bit_vector)
            requires
                one_hot(s),
                s != 1,
        ;
        lemma_pop_one_hot((s / 2) as u32);
    }
}

/// Clearing a submask removes exactly its bits.
pub proof fn lemma_pop_remove(x: u32, v: u32)
    requires
        v & x == v,
    ensures
        pop_count(x ^ v) == pop_count(x) - pop_count(v),
{
    assert(((x ^ v) & v == 0) && (((x ^ v) | v) == x)) by (bit_vector)
        requires
            v & x == v,
    ;
    lemma_pop_disjoint(x ^ v, v);
}

/// Swapping a submask for a fresh mask of equal count keeps the count.
pub proof fn lemma_pop_swap(x: u32, v: u32, g: u32)
    requires
        v & x == v,
        g & x == 0,
        pop_count(v) == pop_count(g),
    ensures
        pop_count((x ^ v) | g) == pop_count(x),
{
    assert((x ^ v) & g == 0) by (bit_vector)
        requires
            v & x == v,
            g & x == 0,
    ;
    lemma_pop_remove(x, v);
    lemma_pop_disjoint(x ^ v, g);
}

/// A slide preserves the number of occupied cells: no block is created,
/// destroyed, or resized by a move.
pub proof fn lemma_move_preserves_cell_count(pre: Board, post: Board)
    requires
        wf(pre),
        one_move(pre, post),
    ensures
        pop_count(post.mask) == pop_count(pre.mask),
{
    reveal(move_any);
    let m = choose|mm: u32| move_via(pre, mm, post);
    assert(move_via(pre, m, post));
    let p22: u32 = pre.p_2x2;
    let p21: u32 = pre.p_2x1;
    let p12: u32 = pre.p_1x2;
    let p11: u32 = pre.p_1x1;
    let msk: u32 = pre.mask;
    if move_2x2(pre, m, post) {
        assert((left(left(m)) & p22 != 0 && down(m) & msk == 0 ==> (
            one_hot(p22)
            && one_hot(down(p22))
            && (p22) & (down(p22)) == 0
            && one_hot(m)
            && one_hot(down(m))
            && (m) & (down(m)) == 0
            && ((p22) | (down(p22))) & msk == ((p22) | (down(p22)))
            && ((m) | (down(m))) & msk == 0
            && occupancy(right(p22), p21, p12, p11) == ((msk ^ ((p22) | (down(p22)))) | ((m) | (down(m))))
        ))
            && (right(m) & p22 != 0 && down(m) & msk == 0 ==> (
                one_hot(right(p22))
                && one_hot(down(right(p22)))
                && (right(p22)) & (down(right(p22))) == 0
                && one_hot(m)
                && one_hot(down(m))
                && (m) & (down(m)) == 0
                && ((right(p22)) | (down(right(p22)))) & msk == ((right(p22)) | (down(right(p22))))
                && ((m) | (down(m))) & msk == 0
                && occupancy(left(p22), p21, p12, p11) == ((msk ^ ((right(p22)) | (down(right(p22))))) | ((m) | (down(m))))
            ))
            && (up(up(m)) & p22 != 0 && right(m) & msk == 0 ==> (
                one_hot(p22)
                && one_hot(right(p22))
                && (p22) & (right(p22)) == 0
                && one_hot(m)
                && one_hot(right(m))
                && (m) & (right(m)) == 0
                && ((p22) | (right(p22))) & msk == ((p22) | (right(p22)))
                && ((m) | (right(m))) & msk == 0
                && occupancy(down(p22), p21, p12, p11) == ((msk ^ ((p22) | (right(p22)))) | ((m) | (right(m))))
            ))
            && (down(m) & p22 != 0 && right(m) & msk == 0 ==> (
                one_hot(down(p22))
                && one_hot(right(down(p22)))
                && (down(p22)) & (right(down(p22))) == 0
                && one_hot(m)
                && one_hot(right(m))
                && (m) & (right(m)) == 0
                && ((down(p22)) | (right(down(p22)))) & msk == ((down(p22)) | (right(down(p22))))
                && ((m) | (right(m))) & msk == 0
                && occupancy(up(p22), p21, p12, p11) == ((msk ^ ((down(p22)) | (right(down(p22))))) | ((m) | (right(m))))
            ))) by (bit_vector)
            requires
                wf_parts(p22, p21, p12, p11, msk),
                is_cell(m),
                msk & m == 0,
        ;
        if left(left(m)) & p22 != 0 && down(m) & msk == 0 && post == mk(right(p22), p21, p12, p11) {
            lemma_pop_one_hot(p22);
            lemma_pop_one_hot(down(p22));
            lemma_pop_disjoint(p22, down(p22));
            lemma_pop_one_hot(m);
            lemma_pop_one_hot(down(m));
            lemma_pop_disjoint(m, down(m));
            lemma_pop_swap(msk, (p22) | (down(p22)), (m) | (down(m)));
        } else if right(m) & p22 != 0 && down(m) & msk == 0 && post == mk(left(p22), p21, p12, p11) {
            lemma_pop_one_hot(right(p22));
            lemma_pop_one_hot(down(right(p22)));
            lemma_pop_disjoint(right(p22), down(right(p22)));
            lemma_pop_one_hot(m);
            lemma_pop_one_hot(down(m));
            lemma_pop_disjoint(m, down(m));
            lemma_pop_swap(msk, (right(p22)) | (down(right(p22))), (m) | (down(m)));
        } else if up(up(m)) & p22 != 0 && right(m) & msk == 0 && post == mk(down(p22), p21, p12, p11) {
            lemma_pop_one_hot(p22);
            lemma_pop_one_hot(right(p22));
            lemma_pop_disjoint(p22, right(p22));
            lemma_pop_one_hot(m);
            lemma_pop_one_hot(right(m));
            lemma_pop_disjoint(m, right(m));
            lemma_pop_swap(msk, (p22) | (right(p22)), (m) | (right(m)));
        } else if down(m) & p22 != 0 && right(m) & msk == 0 && post == mk(up(p22), p21, p12, p11) {
            lemma_pop_one_hot(down(p22));
            lemma_pop_one_hot(right(down(p22)));
            lemma_pop_disjoint(down(p22), right(down(p22)));
            lemma_pop_one_hot(m);
            lemma_pop_one_hot(right(m));
            lemma_pop_disjoint(m, right(m));
            lemma_pop_swap(msk, (down(p22)) | (right(down(p22))), (m) | (right(m)));
        } else {
            assert(false);
        }
    } else if move_2x1(pre, m, post) {
        assert((left(left(m)) & p21 != 0 ==> (
            one_hot(left(left(m)))
            && one_hot(m)
            && left(left(m)) & msk == left(left(m))
            && m & msk == 0
            && occupancy(p22, (p21 ^ left(left(m))) | left(m), p12, p11) == ((msk ^ left(left(m))) | m)
        ))
            && (right(m) & p21 != 0 ==> (
                one_hot(right(right(m)))
                && one_hot(m)
                && right(right(m)) & msk == right(right(m))
                && m & msk == 0
                && occupancy(p22, (p21 ^ right(m)) | m, p12, p11) == ((msk ^ right(right(m))) | m)
            ))
            && (up(m) & p21 != 0 && right(m) & msk == 0 ==> (
                one_hot(up(m))
                && one_hot(right(up(m)))
                && (up(m)) & (right(up(m))) == 0
                && one_hot(m)
                && one_hot(right(m))
                && (m) & (right(m)) == 0
                && ((up(m)) | (right(up(m)))) & msk == ((up(m)) | (right(up(m))))
                && ((m) | (right(m))) & msk == 0
                && occupancy(p22, (p21 ^ up(m)) | m, p12, p11) == ((msk ^ ((up(m)) | (right(up(m))))) | ((m) | (right(m))))
            ))
            && (down(m) & p21 != 0 && right(m) & msk == 0 ==> (
                one_hot(down(m))
                && one_hot(right(down(m)))
                && (down(m)) & (right(down(m))) == 0
                && one_hot(m)
                && one_hot(right(m))
                && (m) & (right(m)) == 0
                && ((down(m)) | (right(down(m)))) & msk == ((down(m)) | (right(down(m))))
                && ((m) | (right(m))) & msk == 0
                && occupancy(p22, (p21 ^ down(m)) | m, p12, p11) == ((msk ^ ((down(m)) | (right(down(m))))) | ((m) | (right(m))))
            ))) by (bit_vector)
            requires
                wf_parts(p22, p21, p12, p11, msk),
                is_cell(m),
                msk & m == 0,
        ;
        if left(left(m)) & p21 != 0 && post == mk(p22, (p21 ^ left(left(m))) | left(m), p12, p11) {
            lemma_pop_one_hot(left(left(m)));
            lemma_pop_one_hot(m);
            lemma_pop_swap(msk, left(left(m)), m);
        } else if right(m) & p21 != 0 && post == mk(p22, (p21 ^ right(m)) | m, p12, p11) {
            lemma_pop_one_hot(right(right(m)));
            lemma_pop_one_hot(m);
            lemma_pop_swap(msk, right(right(m)), m);
        } else if up(m) & p21 != 0 && right(m) & msk == 0 && post == mk(p22, (p21 ^ up(m)) | m, p12, p11) {
            lemma_pop_one_hot(up(m));
            lemma_pop_one_hot(right(up(m)));
            lemma_pop_disjoint(up(m), right(up(m)));
            lemma_pop_one_hot(m);
            lemma_pop_one_hot(right(m));
            lemma_pop_disjoint(m, right(m));
            lemma_pop_swap(msk, (up(m)) | (right(up(m))), (m) | (right(m)));
        } else if down(m) & p21 != 0
            && right(m) & msk == 0
            && post == mk(p22, (p21 ^ down(m)) | m, p12, p11) {
            lemma_pop_one_hot(down(m));
            lemma_pop_one_hot(right(down(m)));
            lemma_pop_disjoint(down(m), right(down(m)));
            lemma_pop_one_hot(m);
            lemma_pop_one_hot(right(m));
            lemma_pop_disjoint(m, right(m));
            lemma_pop_swap(msk, (down(m)) | (right(down(m))), (m) | (right(m)));
        } else {
            assert(false);
        }
    } else if move_1x2(pre, m, post) {
        assert((up(up(m)) & p12 != 0 ==> (
            one_hot(up(up(m)))
            && one_hot(m)
            && up(up(m)) & msk == up(up(m))
            && m & msk == 0
            && occupancy(p22, p21, (p12 ^ up(up(m))) | up(m), p11) == ((msk ^ up(up(m))) | m)
        ))
            && (down(m) & p12 != 0 ==> (
                one_hot(down(down(m)))
                && one_hot(m)
                && down(down(m)) & msk == down(down(m))
                && m & msk == 0
                && occupancy(p22, p21, (p12 ^ down(m)) | m, p11) == ((msk ^ down(down(m))) | m)
            ))
            && (left(m) & p12 != 0 && down(m) & msk == 0 ==> (
                one_hot(left(m))
                && one_hot(down(left(m)))
                && (left(m)) & (down(left(m))) == 0
                && one_hot(m)
                && one_hot(down(m))
                && (m) & (down(m)) == 0
                && ((left(m)) | (down(left(m)))) & msk == ((left(m)) | (down(left(m))))
                && ((m) | (down(m))) & msk == 0
                && occupancy(p22, p21, (p12 ^ left(m)) | m, p11) == ((msk ^ ((left(m)) | (down(left(m))))) | ((m) | (down(m))))
            ))
            && (right(m) & p12 != 0 && down(m) & msk == 0 ==> (
                one_hot(right(m))
                && one_hot(down(right(m)))
                && (right(m)) & (down(right(m))) == 0
                && one_hot(m)
                && one_hot(down(m))
                && (m) & (down(m)) == 0
                && ((right(m)) | (down(right(m)))) & msk == ((right(m)) | (down(right(m))))
                && ((m) | (down(m))) & msk == 0
                && occupancy(p22, p21, (p12 ^ right(m)) | m, p11) == ((msk ^ ((right(m)) | (down(right(m))))) | ((m) | (down(m))))
            ))) by (bit_vector)
            requires
                wf_parts(p22, p21, p12, p11, msk),
                is_cell(m),
                msk & m == 0,
        ;
        if up(up(m)) & p12 != 0 && post == mk(p22, p21, (p12 ^ up(up(m))) | up(m), p11) {
            lemma_pop_one_hot(up(up(m)));
            lemma_pop_one_hot(m);
            lemma_pop_swap(msk, up(up(m)), m);
        } else if down(m) & p12 != 0 && post == mk(p22, p21, (p12 ^ down(m)) | m, p11) {
            lemma_pop_one_hot(down(down(m)));
            lemma_pop_one_hot(m);
            lemma_pop_swap(msk, down(down(m)), m);
        } else if left(m) & p12 != 0 && down(m) & msk == 0 && post == mk(p22, p21, (p12 ^ left(m)) | m, p11) {
            lemma_pop_one_hot(left(m));
            lemma_pop_one_hot(down(left(m)));
            lemma_pop_disjoint(left(m), down(left(m)));
            lemma_pop_one_hot(m);
            lemma_pop_one_hot(down(m));
            lemma_pop_disjoint(m, down(m));
            lemma_pop_swap(msk, (left(m)) | (down(left(m))), (m) | (down(m)));
        } else if right(m) & p12 != 0
            && down(m) & msk == 0
            && post == mk(p22, p21, (p12 ^ right(m)) | m, p11) {
            lemma_pop_one_hot(right(m));
            lemma_pop_one_hot(down(right(m)));
            lemma_pop_disjoint(right(m), down(right(m)));
            lemma_pop_one_hot(m);
            lemma_pop_one_hot(down(m));
            lemma_pop_disjoint(m, down(m));
            lemma_pop_swap(msk, (right(m)) | (down(right(m))), (m) | (down(m)));
        } else {
            assert(false);
        }
    } else if move_1x1(pre, m, post) {
        assert((left(m) & p11 != 0 ==> (
            one_hot(left(m))
            && one_hot(m)
            && left(m) & msk == left(m)
            && m & msk == 0
            && occupancy(p22, p21, p12, (p11 ^ left(m)) | m) == ((msk ^ left(m)) | m)
        ))
            && (right(m) & p11 != 0 ==> (
                one_hot(right(m))
                && one_hot(m)
                && right(m) & msk == right(m)
                && m & msk == 0
                && occupancy(p22, p21, p12, (p11 ^ right(m)) | m) == ((msk ^ right(m)) | m)
            ))
            && (up(m) & p11 != 0 ==> (
                one_hot(up(m))
                && one_hot(m)
                && up(m) & msk == up(m)
                && m & msk == 0
                && occupancy(p22, p21, p12, (p11 ^ up(m)) | m) == ((msk ^ up(m)) | m)
            ))
            && (down(m) & p11 != 0 ==> (
                one_hot(down(m))
                && one_hot(m)
                && down(m) & msk == down(m)
                && m & msk == 0
                && occupancy(p22, p21, p12, (p11 ^ down(m)) | m) == ((msk ^ down(m)) | m)
            ))) by (bit_vector)
            requires
                wf_parts(p22, p21, p12, p11, msk),
                is_cell(m),
                msk & m == 0,
        ;
        if left(m) & p11 != 0 && post == mk(p22, p21, p12, (p11 ^ left(m)) | m) {
            lemma_pop_one_hot(left(m));
            lemma_pop_one_hot(m);
            lemma_pop_swap(msk, left(m), m);
        } else if right(m) & p11 != 0 && post == mk(p22, p21, p12, (p11 ^ right(m)) | m) {
            lemma_pop_one_hot(right(m));
            lemma_pop_one_hot(m);
            lemma_pop_swap(msk, right(m), m);
        } else if up(m) & p11 != 0 && post == mk(p22, p21, p12, (p11 ^ up(m)) | m) {
            lemma_pop_one_hot(up(m));
            lemma_pop_one_hot(m);
            lemma_pop_swap(msk, up(m), m);
        } else if down(m) & p11 != 0 && post == mk(p22, p21, p12, (p11 ^ down(m)) | m) {
            lemma_pop_one_hot(down(m));
            lemma_pop_one_hot(m);
            lemma_pop_swap(msk, down(m), m);
        } else {
            assert(false);
        }
    }
}

/// A legal slide from a well-formed board yields a well-formed board:
/// footprints stay on the grid and stay disjoint, and the occupancy mask
/// of the new board is again derived from its anchors.
pub proof fn lemma_move_preserves_wf(pre: Board, post: Board)
    requires
        wf(pre),
        one_move(pre, post),
    ensures
        wf(post),
{
    reveal(move_any);
    let m = choose|mm: u32| move_via(pre, mm, post);
    assert(move_via(pre, m, post));
    let p22: u32 = pre.p_2x2;
    let p21: u32 = pre.p_2x1;
    let p12: u32 = pre.p_1x2;
    let p11: u32 = pre.p_1x1;
    let msk: u32 = pre.mask;
    if move_2x2(pre, m, post) {
        assert((left(left(m)) & p22 != 0 && down(m) & msk == 0 ==> wf_parts(right(p22), p21, p12, p11, occupancy(right(p22), p21, p12, p11)))
            && (right(m) & p22 != 0 && down(m) & msk == 0 ==> wf_parts(left(p22), p21, p12, p11, occupancy(left(p22), p21, p12, p11)))
            && (up(up(m)) & p22 != 0 && right(m) & msk == 0 ==> wf_parts(down(p22), p21, p12, p11, occupancy(down(p22), p21, p12, p11)))
            && (down(m) & p22 != 0 && right(m) & msk == 0 ==> wf_parts(up(p22), p21, p12, p11, occupancy(up(p22), p21, p12, p11)))) by (bit_vector)
            requires
                wf_parts(p22, p21, p12, p11, msk),
                is_cell(m),
                msk & m == 0,
        ;
        } else if move_2x1(pre, m, post) {
        assert((left(left(m)) & p21 != 0 ==> wf_parts(p22, (p21 ^ left(left(m))) | left(m), p12, p11, occupancy(p22, (p21 ^ left(left(m))) | left(m), p12, p11)))
            && (right(m) & p21 != 0 ==> wf_parts(p22, (p21 ^ right(m)) | m, p12, p11, occupancy(p22, (p21 ^ right(m)) | m, p12, p11)))
            && (up(m) & p21 != 0 && right(m) & msk == 0 ==> wf_parts(p22, (p21 ^ up(m)) | m, p12, p11, occupancy(p22, (p21 ^ up(m)) | m, p12, p11)))
            && (down(m) & p21 != 0 && right(m) & msk == 0 ==> wf_parts(p22, (p21 ^ down(m)) | m, p12, p11, occupancy(p22, (p21 ^ down(m)) | m, p12, p11)))) by (bit_vector)
            requires
                wf_parts(p22, p21, p12, p11, msk),
                is_cell(m),
                msk & m == 0,
        ;
        } else if move_1x2(pre, m, post) {
        assert((up(up(m)) & p12 != 0 ==> wf_parts(p22, p21, (p12 ^ up(up(m))) | up(m), p11, occupancy(p22, p21, (p12 ^ up(up(m))) | up(m), p11)))
            && (down(m) & p12 != 0 ==> wf_parts(p22, p21, (p12 ^ down(m)) | m, p11, occupancy(p22, p21, (p12 ^ down(m)) | m, p11)))
            && (left(m) & p12 != 0 && down(m) & msk == 0 ==> wf_parts(p22, p21, (p12 ^ left(m)) | m, p11, occupancy(p22, p21, (p12 ^ left(m)) | m, p11)))
            && (right(m) & p12 != 0 && down(m) & msk == 0 ==> wf_parts(p22, p21, (p12 ^ right(m)) | m, p11, occupancy(p22, p21, (p12 ^ right(m)) | m, p11)))) by (bit_vector)
            requires
                wf_parts(p22, p21, p12, p11, msk),
                is_cell(m),
                msk & m == 0,
        ;
        } else if move_1x1(pre, m, post) {
        assert((left(m) & p11 != 0 ==> wf_parts(p22, p21, p12, (p11 ^ left(m)) | m, occupancy(p22, p21, p12, (p11 ^ left(m)) | m)))
            && (right(m) & p11 != 0 ==> wf_parts(p22, p21, p12, (p11 ^ right(m)) | m, occupancy(p22, p21, p12, (p11 ^ right(m)) | m)))
            && (up(m) & p11 != 0 ==> wf_parts(p22, p21, p12, (p11 ^ up(m)) | m, occupancy(p22, p21, p12, (p11 ^ up(m)) | m)))
            && (down(m) & p11 != 0 ==> wf_parts(p22, p21, p12, (p11 ^ down(m)) | m, occupancy(p22, p21, p12, (p11 ^ down(m)) | m)))) by (bit_vector)
            requires
                wf_parts(p22, p21, p12, p11, msk),
                is_cell(m),
                msk & m == 0,
        ;
    }
}

/// Every slide can be undone: if one move turns `pre` into `post`, then
/// one move of the same block in the opposite direction turns `post`
/// back into `pre`.
pub proof fn lemma_move_reversible(pre: Board, post: Board)
    requires
        wf(pre),
        one_move(pre, post),
    ensures
        one_move(post, pre),
{
    reveal(move_any);
    let m = choose|mm: u32| move_via(pre, mm, post);
    assert(move_via(pre, m, post));
    let p22: u32 = pre.p_2x2;
    let p21: u32 = pre.p_2x1;
    let p12: u32 = pre.p_1x2;
    let p11: u32 = pre.p_1x1;
    let msk: u32 = pre.mask;
    assert(pre == mk(p22, p21, p12, p11));
    if move_2x2(pre, m, post) {
        assert((left(left(m)) & p22 != 0 && down(m) & msk == 0 ==> (
            is_cell(left(left(m)))
            && occupancy(right(p22), p21, p12, p11) & (left(left(m))) == 0
            && right(left(left(m))) & right(p22) != 0
            && down(left(left(m))) & occupancy(right(p22), p21, p12, p11) == 0
            && left(right(p22)) == p22
        ))
            && (right(m) & p22 != 0 && down(m) & msk == 0 ==> (
                is_cell(right(right(m)))
                && occupancy(left(p22), p21, p12, p11) & (right(right(m))) == 0
                && left(left(right(right(m)))) & left(p22) != 0
                && down(right(right(m))) & occupancy(left(p22), p21, p12, p11) == 0
                && right(left(p22)) == p22
            ))
            && (up(up(m)) & p22 != 0 && right(m) & msk == 0 ==> (
                is_cell(up(up(m)))
                && occupancy(down(p22), p21, p12, p11) & (up(up(m))) == 0
                && down(up(up(m))) & down(p22) != 0
                && right(up(up(m))) & occupancy(down(p22), p21, p12, p11) == 0
                && up(down(p22)) == p22
            ))
            && (down(m) & p22 != 0 && right(m) & msk == 0 ==> (
                is_cell(down(down(m)))
                && occupancy(up(p22), p21, p12, p11) & (down(down(m))) == 0
                && up(up(down(down(m)))) & up(p22) != 0
                && right(down(down(m))) & occupancy(up(p22), p21, p12, p11) == 0
                && down(up(p22)) == p22
            ))) by (bit_vector)
            requires
                wf_parts(p22, p21, p12, p11, msk),
                is_cell(m),
                msk & m == 0,
        ;
        if left(left(m)) & p22 != 0 && down(m) & msk == 0 && post == mk(right(p22), p21, p12, p11) {
            let w: u32 = left(left(m));
            assert(move_2x2(post, w, pre));
            assert(move_via(post, w, pre));
        } else if right(m) & p22 != 0 && down(m) & msk == 0 && post == mk(left(p22), p21, p12, p11) {
            let w: u32 = right(right(m));
            assert(move_2x2(post, w, pre));
            assert(move_via(post, w, pre));
        } else if up(up(m)) & p22 != 0 && right(m) & msk == 0 && post == mk(down(p22), p21, p12, p11) {
            let w: u32 = up(up(m));
            assert(move_2x2(post, w, pre));
            assert(move_via(post, w, pre));
        } else if down(m) & p22 != 0 && right(m) & msk == 0 && post == mk(up(p22), p21, p12, p11) {
            let w: u32 = down(down(m));
            assert(move_2x2(post, w, pre));
            assert(move_via(post, w, pre));
        } else {
            assert(false);
        }
    } else if move_2x1(pre, m, post) {
        assert((left(left(m)) & p21 != 0 ==> (
            is_cell(left(left(m)))
            && occupancy(p22, (p21 ^ left(left(m))) | left(m), p12, p11) & (left(left(m))) == 0
            && right(left(left(m))) & ((p21 ^ left(left(m))) | left(m)) != 0
            && ((((p21 ^ left(left(m))) | left(m)) ^ right(left(left(m)))) | left(left(m))) == p21
        ))
            && (right(m) & p21 != 0 ==> (
                is_cell(right(right(m)))
                && occupancy(p22, (p21 ^ right(m)) | m, p12, p11) & (right(right(m))) == 0
                && left(left(right(right(m)))) & ((p21 ^ right(m)) | m) != 0
                && ((((p21 ^ right(m)) | m) ^ left(left(right(right(m))))) | left(right(right(m)))) == p21
            ))
            && (up(m) & p21 != 0 && right(m) & msk == 0 ==> (
                is_cell(up(m))
                && occupancy(p22, (p21 ^ up(m)) | m, p12, p11) & (up(m)) == 0
                && down(up(m)) & ((p21 ^ up(m)) | m) != 0
                && right(up(m)) & occupancy(p22, (p21 ^ up(m)) | m, p12, p11) == 0
                && ((((p21 ^ up(m)) | m) ^ down(up(m))) | up(m)) == p21
            ))
            && (down(m) & p21 != 0 && right(m) & msk == 0 ==> (
                is_cell(down(m))
                && occupancy(p22, (p21 ^ down(m)) | m, p12, p11) & (down(m)) == 0
                && up(down(m)) & ((p21 ^ down(m)) | m) != 0
                && right(down(m)) & occupancy(p22, (p21 ^ down(m)) | m, p12, p11) == 0
                && ((((p21 ^ down(m)) | m) ^ up(down(m))) | down(m)) == p21
            ))) by (bit_vector)
            requires
                wf_parts(p22, p21, p12, p11, msk),
                is_cell(m),
                msk & m == 0,
        ;
        if left(left(m)) & p21 != 0 && post == mk(p22, (p21 ^ left(left(m))) | left(m), p12, p11) {
            let w: u32 = left(left(m));
            assert(move_2x1(post, w, pre));
            assert(move_via(post, w, pre));
        } else if right(m) & p21 != 0 && post == mk(p22, (p21 ^ right(m)) | m, p12, p11) {
            let w: u32 = right(right(m));
            assert(move_2x1(post, w, pre));
            assert(move_via(post, w, pre));
        } else if up(m) & p21 != 0 && right(m) & msk == 0 && post == mk(p22, (p21 ^ up(m)) | m, p12, p11) {
            let w: u32 = up(m);
            assert(move_2x1(post, w, pre));
            assert(move_via(post, w, pre));
        } else if down(m) & p21 != 0
            && right(m) & msk == 0
            && post == mk(p22, (p21 ^ down(m)) | m, p12, p11) {
            let w: u32 = down(m);
            assert(move_2x1(post, w, pre));
            assert(move_via(post, w, pre));
        } else {
            assert(false);
        }
    } else if move_1x2(pre, m, post) {
        assert((up(up(m)) & p12 != 0 ==> (
            is_cell(up(up(m)))
            && occupancy(p22, p21, (p12 ^ up(up(m))) | up(m), p11) & (up(up(m))) == 0
            && down(up(up(m))) & ((p12 ^ up(up(m))) | up(m)) != 0
            && ((((p12 ^ up(up(m))) | up(m)) ^ down(up(up(m)))) | up(up(m))) == p12
        ))
            && (down(m) & p12 != 0 ==> (
                is_cell(down(down(m)))
                && occupancy(p22, p21, (p12 ^ down(m)) | m, p11) & (down(down(m))) == 0
                && up(up(down(down(m)))) & ((p12 ^ down(m)) | m) != 0
                && ((((p12 ^ down(m)) | m) ^ up(up(down(down(m))))) | up(down(down(m)))) == p12
            ))
            && (left(m) & p12 != 0 && down(m) & msk == 0 ==> (
                is_cell(left(m))
                && occupancy(p22, p21, (p12 ^ left(m)) | m, p11) & (left(m)) == 0
                && right(left(m)) & ((p12 ^ left(m)) | m) != 0
                && down(left(m)) & occupancy(p22, p21, (p12 ^ left(m)) | m, p11) == 0
                && ((((p12 ^ left(m)) | m) ^ right(left(m))) | left(m)) == p12
            ))
            && (right(m) & p12 != 0 && down(m) & msk == 0 ==> (
                is_cell(right(m))
                && occupancy(p22, p21, (p12 ^ right(m)) | m, p11) & (right(m)) == 0
                && left(right(m)) & ((p12 ^ right(m)) | m) != 0
                && down(right(m)) & occupancy(p22, p21, (p12 ^ right(m)) | m, p11) == 0
                && ((((p12 ^ right(m)) | m) ^ left(right(m))) | right(m)) == p12
            ))) by (bit_vector)
            requires
                wf_parts(p22, p21, p12, p11, msk),
                is_cell(m),
                msk & m == 0,
        ;
        if up(up(m)) & p12 != 0 && post == mk(p22, p21, (p12 ^ up(up(m))) | up(m), p11) {
            let w: u32 = up(up(m));
            assert(move_1x2(post, w, pre));
            assert(move_via(post, w, pre));
        } else if down(m) & p12 != 0 && post == mk(p22, p21, (p12 ^ down(m)) | m, p11) {
            let w: u32 = down(down(m));
            assert(move_1x2(post, w, pre));
            assert(move_via(post, w, pre));
        } else if left(m) & p12 != 0 && down(m) & msk == 0 && post == mk(p22, p21, (p12 ^ left(m)) | m, p11) {
            let w: u32 = left(m);
            assert(move_1x2(post, w, pre));
            assert(move_via(post, w, pre));
        } else if right(m) & p12 != 0
            && down(m) & msk == 0
            && post == mk(p22, p21, (p12 ^ right(m)) | m, p11) {
            let w: u32 = right(m);
            assert(move_1x2(post, w, pre));
            assert(move_via(post, w, pre));
        } else {
            assert(false);
        }
    } else if move_1x1(pre, m, post) {
        assert((left(m) & p11 != 0 ==> (
            is_cell(left(m))
            && occupancy(p22, p21, p12, (p11 ^ left(m)) | m) & (left(m)) == 0
            && right(left(m)) & ((p11 ^ left(m)) | m) != 0
            && ((((p11 ^ left(m)) | m) ^ right(left(m))) | left(m)) == p11
        ))
            && (right(m) & p11 != 0 ==> (
                is_cell(right(m))
                && occupancy(p22, p21, p12, (p11 ^ right(m)) | m) & (right(m)) == 0
                && left(right(m)) & ((p11 ^ right(m)) | m) != 0
                && ((((p11 ^ right(m)) | m) ^ left(right(m))) | right(m)) == p11
            ))
            && (up(m) & p11 != 0 ==> (
                is_cell(up(m))
                && occupancy(p22, p21, p12, (p11 ^ up(m)) | m) & (up(m)) == 0
                && down(up(m)) & ((p11 ^ up(m)) | m) != 0
                && ((((p11 ^ up(m)) | m) ^ down(up(m))) | up(m)) == p11
            ))
            && (down(m) & p11 != 0 ==> (
                is_cell(down(m))
                && occupancy(p22, p21, p12, (p11 ^ down(m)) | m) & (down(m)) == 0
                && up(down(m)) & ((p11 ^ down(m)) | m) != 0
                && ((((p11 ^ down(m)) | m) ^ up(down(m))) | down(m)) == p11
            ))) by (bit_vector)
            requires
                wf_parts(p22, p21, p12, p11, msk),
                is_cell(m),
                msk & m == 0,
        ;
        if left(m) & p11 != 0 && post == mk(p22, p21, p12, (p11 ^ left(m)) | m) {
            let w: u32 = left(m);
            assert(move_1x1(post, w, pre));
            assert(move_via(post, w, pre));
        } else if right(m) & p11 != 0 && post == mk(p22, p21, p12, (p11 ^ right(m)) | m) {
            let w: u32 = right(m);
            assert(move_1x1(post, w, pre));
            assert(move_via(post, w, pre));
        } else if up(m) & p11 != 0 && post == mk(p22, p21, p12, (p11 ^ up(m)) | m) {
            let w: u32 = up(m);
            assert(move_1x1(post, w, pre));
            assert(move_via(post, w, pre));
        } else if down(m) & p11 != 0 && post == mk(p22, p21, p12, (p11 ^ down(m)) | m) {
            let w: u32 = down(m);
            assert(move_1x1(post, w, pre));
            assert(move_via(post, w, pre));
        } else {
            assert(false);
        }
    }
}

} // verus!
