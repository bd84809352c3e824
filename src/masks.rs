use vstd::prelude::*;
use crate::bitmap::{bit_mask, cell_index, fits_word, lemma_cell_index_bounds, on_board, Bitmap};
use crate::game::Direction;

verus! {

/// The cells with x == stride - 1 (bit 0 of each row), for the first `rows` rows.
pub open spec fn east_rows(stride: u64, rows: nat) -> u64
    decreases rows,
{
    if rows == 0 {
        0
    } else {
        east_rows(stride, (rows - 1) as nat) | (1u64 << (((rows - 1) * stride) as u64))
    }
}

/// The east edge of a board of side `stride`.
pub open spec fn east_edge(stride: int) -> u64 {
    east_rows(stride as u64, stride as nat)
}

/// The west edge: the east edge moved to the top bit of each row.
pub open spec fn west_edge(stride: int) -> u64 {
    east_edge(stride) << ((stride - 1) as u64)
}

/// The south edge: the first row.
pub open spec fn south_edge(stride: int) -> u64 {
    ((1u64 << (stride as u64)) - 1) as u64
}

/// The north edge: the last row.
pub open spec fn north_edge(stride: int) -> u64 {
    south_edge(stride) << ((stride * (stride - 1)) as u64)
}

/// Every cell of a board of side `stride`.
pub open spec fn board_area(stride: int) -> u64 {
    if stride * stride >= 64 {
        0xffff_ffff_ffff_ffffu64
    } else {
        ((1u64 << ((stride * stride) as u64)) - 1) as u64
    }
}

/// Board sides for which masks exist.
pub open spec fn has_masks(stride: int) -> bool {
    3 <= stride <= 8
}

pub open spec fn direction_slot(d: Direction) -> int {
    match d {
        Direction::North => 0,
        Direction::East => 1,
        Direction::South => 2,
        Direction::West => 3,
    }
}

/// The edge masks of a board of side `stride`, in the order of `direction_slot`.
pub open spec fn edge_set(stride: int) -> Seq<u64> {
    seq![north_edge(stride), east_edge(stride), south_edge(stride), west_edge(stride)]
}

proof fn lemma_one_shifted_positive(s: u64)
    requires
        s < 64,
    ensures
        (1u64 << s) >= 1,
{
    assert((1u64 << s) >= 1) by (bit_vector)
        requires
            s < 64,
    ;
}

proof fn lemma_within_full(a: u64)
    ensures
        a & !0xffff_ffff_ffff_ffffu64 == 0,
{
    assert(a & !0xffff_ffff_ffff_ffffu64 == 0) by (bit_vector);
}

proof fn lemma_or_below(b: u64, i: u64, k: u64)
    requires
        i < k,
        k < 64,
        b & !(((1u64 << k) - 1) as u64) == 0,
    ensures
        (b | (1u64 << i)) & !(((1u64 << k) - 1) as u64) == 0,
{
    assert((b | (1u64 << i)) & !(((1u64 << k) - 1) as u64) == 0) by (bit_vector)
        requires
            i < k,
            k < 64,
            b & !(((1u64 << k) - 1) as u64) == 0,
    ;
}

/// Marking a cell of the board keeps a bitmap inside the board.
pub proof fn lemma_mark_within_board(b: u64, x: int, y: int, stride: int)
    requires
        has_masks(stride),
        on_board(x, y, stride),
        b & !board_area(stride) == 0,
    ensures
        (b | bit_mask(cell_index(x, y, stride))) & !board_area(stride) == 0,
{
    lemma_cell_index_bounds(x, y, stride);
    if stride * stride >= 64 {
        lemma_within_full(b | bit_mask(cell_index(x, y, stride)));
    } else {
        lemma_or_below(b, cell_index(x, y, stride) as u64, (stride * stride) as u64);
    }
}

/// Slot of `d` in an array of edge masks.
pub fn direction_index(d: Direction) -> (r: usize)
    ensures
        r == direction_slot(d),
{
    match d {
        Direction::North => 0,
        Direction::East => 1,
        Direction::South => 2,
        Direction::West => 3,
    }
}

fn east_mask(stride: usize) -> (r: Bitmap)
    requires
        has_masks(stride as int),
    ensures
        r == east_edge(stride as int),
{
    let mut east: u64 = 0;
    let mut y: usize = 0;
    while y < stride
        invariant
            y <= stride,
            has_masks(stride as int),
            east == east_rows(stride as u64, y as nat),
        decreases stride - y,
    {
        assert(y * stride < 64) by (nonlinear_arith)
            requires
                y < stride,
                stride <= 8,
        ;
        east = east | (1u64 << ((y * stride) as u64));
        y += 1;
    }
    east
}

/// The edge masks of one board size, indexed by `direction_index`.
pub fn edge_masks(stride: usize) -> (r: [Bitmap; 4])
    requires
        has_masks(stride as int),
    ensures
        r@ == edge_set(stride as int),
{
    let east = east_mask(stride);
    proof {
        lemma_one_shifted_positive(stride as u64);
    }
    let south = (1u64 << (stride as u64)) - 1;
    assert(stride * (stride - 1) < 64) by (nonlinear_arith)
        requires
            3 <= stride <= 8,
    ;
    let r = [
        south << ((stride * (stride - 1)) as u64),
        east,
        south,
        east << ((stride - 1) as u64),
    ];
    assert(r@ =~= edge_set(stride as int));
    r
}

/// The full board mask of one board size.
pub fn board_mask(stride: usize) -> (r: Bitmap)
    requires
        has_masks(stride as int),
    ensures
        r == board_area(stride as int),
{
    assert(stride * stride <= 64) by (nonlinear_arith)
        requires
            stride <= 8,
    ;
    if stride * stride >= 64 {
        0xffff_ffff_ffff_ffffu64
    } else {
        proof {
            lemma_one_shifted_positive((stride * stride) as u64);
        }
        (1u64 << ((stride * stride) as u64)) - 1
    }
}

/// Edge masks for every board side up to 8; sides without masks hold zeros.
pub fn generate_edge_masks() -> (r: Vec<[Bitmap; 4]>)
    ensures
        r@.len() == 9,
        forall|s: int| 0 <= s < 9 ==> #[trigger] r@[s]@ == if has_masks(s) {
            edge_set(s)
        } else {
            seq![0u64, 0u64, 0u64, 0u64]
        },
{
    let mut r: Vec<[Bitmap; 4]> = Vec::new();
    let mut size: usize = 0;
    while size < 9
        invariant
            size <= 9,
            r@.len() == size,
            forall|s: int| 0 <= s < size ==> #[trigger] r@[s]@ == if has_masks(s) {
                edge_set(s)
            } else {
                seq![0u64, 0u64, 0u64, 0u64]
            },
        decreases 9 - size,
    {
        if size >= 3 {
            r.push(edge_masks(size));
        } else {
            let zeros: [Bitmap; 4] = [0, 0, 0, 0];
            assert(zeros@ =~= seq![0u64, 0u64, 0u64, 0u64]);
            r.push(zeros);
        }
        size += 1;
    }
    r
}

/// Full-board masks for every board side up to 8; sides without masks hold zero.
pub fn generate_board_masks() -> (r: Vec<Bitmap>)
    ensures
        r@.len() == 9,
        forall|s: int| 0 <= s < 9 ==> #[trigger] r@[s] == if has_masks(s) {
            board_area(s)
        } else {
            0
        },
{
    let mut r: Vec<Bitmap> = Vec::new();
    let mut size: usize = 0;
    while size < 9
        invariant
            size <= 9,
            r@.len() == size,
            forall|s: int| 0 <= s < size ==> #[trigger] r@[s] == if has_masks(s) {
                board_area(s)
            } else {
                0
            },
        decreases 9 - size,
    {
        if size >= 3 {
            r.push(board_mask(size));
        } else {
            r.push(0);
        }
        size += 1;
    }
    r
}

} // verus!
