use vstd::prelude::*;
use crate::masks::{east_edge, edge_masks, has_masks, west_edge};
use crate::groups::{flood, is_closed_in, is_connected, lemma_flood_monotone, lemma_flood_within, lemma_pop_bit, lemma_same_lowest_bit, lemma_take_group, lemma_union_member, lemma_disjoint_from_subset, lemma_or_zero, lowest_bit, flood_n, pop_bit, union_of};

verus! {

/// A set of board cells packed into one 64-bit word.
pub type Bitmap = u64;

/// Board sides whose cells fit in one bitmap word.
pub open spec fn fits_word(stride: int) -> bool {
    1 <= stride <= 8
}

/// Bit index of cell (x, y) on a board of side `stride`; the x axis is mirrored.
pub open spec fn cell_index(x: int, y: int, stride: int) -> int {
    (stride - 1 - x) + y * stride
}

pub open spec fn on_board(x: int, y: int, stride: int) -> bool {
    0 <= x < stride && 0 <= y < stride
}

/// The word with only bit `i` set.
pub open spec fn bit_mask(i: int) -> u64 {
    1u64 << (i as u64)
}

/// Whether bit `i` of `b` is set.
pub open spec fn bit_at(b: u64, i: int) -> bool {
    (b >> (i as u64)) & 1u64 == 1u64
}

/// Whether cell (x, y) is marked in `b`.
pub open spec fn cell_at(b: u64, x: int, y: int, stride: int) -> bool {
    bit_at(b, cell_index(x, y, stride))
}

pub proof fn lemma_cell_index_bounds(x: int, y: int, stride: int)
    requires
        fits_word(stride),
        on_board(x, y, stride),
    ensures
        0 <= cell_index(x, y, stride) < stride * stride,
        stride * stride <= 64,
{
    assert(y * stride <= (stride - 1) * stride) by (nonlinear_arith)
        requires
            0 <= y < stride,
    ;
    assert((stride - 1) * stride == stride * stride - stride) by (nonlinear_arith);
    assert(stride * stride <= 64) by (nonlinear_arith)
        requires
            1 <= stride <= 8,
    ;
    assert(0 <= y * stride) by (nonlinear_arith)
        requires
            0 <= y,
            0 <= stride,
    ;
}

/// Two cells of one board have the same index only if they are the same cell.
pub proof fn lemma_cell_index_injective(x1: int, y1: int, x2: int, y2: int, stride: int)
    requires
        fits_word(stride),
        on_board(x1, y1, stride),
        on_board(x2, y2, stride),
        cell_index(x1, y1, stride) == cell_index(x2, y2, stride),
    ensures
        x1 == x2,
        y1 == y2,
{
    let a1 = stride - 1 - x1;
    let a2 = stride - 1 - x2;
    assert(y1 == y2) by (nonlinear_arith)
        requires
            0 <= a1 < stride,
            0 <= a2 < stride,
            a1 + y1 * stride == a2 + y2 * stride,
            0 <= y1,
            0 <= y2,
    ;
}

pub proof fn lemma_empty_bit(i: u64)
    requires
        i < 64,
    ensures
        !bit_at(0u64, i as int),
{
    assert((0u64 >> i) & 1u64 != 1u64) by (bit_vector)
        requires
            i < 64,
    ;
}

pub(crate) proof fn lemma_bit_or(b: u64, i: u64, j: u64)
    requires
        i < 64,
        j < 64,
    ensures
        ((b | (1u64 << i)) >> j) & 1u64 == 1u64 <==> (i == j || (b >> j) & 1u64 == 1u64),
{
    assert(((b | (1u64 << i)) >> j) & 1u64 == 1u64 <==> (i == j || (b >> j) & 1u64 == 1u64))
        by (bit_vector)
        requires
            i < 64,
            j < 64,
    ;
}

proof fn lemma_bit_and_not(b: u64, i: u64, j: u64)
    requires
        i < 64,
        j < 64,
    ensures
        ((b & !(1u64 << i)) >> j) & 1u64 == 1u64 <==> (i != j && (b >> j) & 1u64 == 1u64),
{
    assert(((b & !(1u64 << i)) >> j) & 1u64 == 1u64 <==> (i != j && (b >> j) & 1u64 == 1u64))
        by (bit_vector)
        requires
            i < 64,
            j < 64,
    ;
}

/// Marking a cell sets it; no other cell of the board changes.
pub proof fn lemma_set_then_get(b: u64, x: int, y: int, x2: int, y2: int, stride: int)
    requires
        fits_word(stride),
        on_board(x, y, stride),
        on_board(x2, y2, stride),
    ensures
        cell_at(b | bit_mask(cell_index(x, y, stride)), x, y, stride),
        (x2 != x || y2 != y) ==> cell_at(b | bit_mask(cell_index(x, y, stride)), x2, y2, stride)
            == cell_at(b, x2, y2, stride),
{
    lemma_cell_index_bounds(x, y, stride);
    lemma_cell_index_bounds(x2, y2, stride);
    let i = cell_index(x, y, stride) as u64;
    let j = cell_index(x2, y2, stride) as u64;
    lemma_bit_or(b, i, i);
    lemma_bit_or(b, i, j);
    if x2 != x || y2 != y {
        if i == j {
            lemma_cell_index_injective(x, y, x2, y2, stride);
        }
    }
}

/// Unmarking a cell clears it; no other cell of the board changes.
pub proof fn lemma_clear_then_get(b: u64, x: int, y: int, x2: int, y2: int, stride: int)
    requires
        fits_word(stride),
        on_board(x, y, stride),
        on_board(x2, y2, stride),
    ensures
        !cell_at(b & !bit_mask(cell_index(x, y, stride)), x, y, stride),
        (x2 != x || y2 != y) ==> cell_at(b & !bit_mask(cell_index(x, y, stride)), x2, y2, stride)
            == cell_at(b, x2, y2, stride),
{
    lemma_cell_index_bounds(x, y, stride);
    lemma_cell_index_bounds(x2, y2, stride);
    let i = cell_index(x, y, stride) as u64;
    let j = cell_index(x2, y2, stride) as u64;
    lemma_bit_and_not(b, i, i);
    lemma_bit_and_not(b, i, j);
    if x2 != x || y2 != y {
        if i == j {
            lemma_cell_index_injective(x, y, x2, y2, stride);
        }
    }
}


fn cell_shift(x: usize, y: usize, stride: usize) -> (r: u64)
    requires
        fits_word(stride as int),
        on_board(x as int, y as int, stride as int),
    ensures
        r as int == cell_index(x as int, y as int, stride as int),
        r < 64,
{
    proof {
        lemma_cell_index_bounds(x as int, y as int, stride as int);
    }
    ((stride - 1 - x) + y * stride) as u64
}

/// Cell-level access to a bitmap word.
pub trait BitmapInterface: Sized {
    /// The word this value stands for.
    spec fn bits(&self) -> u64;

    fn set(&mut self, x: usize, y: usize, stride: usize)
        requires
            fits_word(stride as int),
            on_board(x as int, y as int, stride as int),
        ensures
            final(self).bits() == old(self).bits() | bit_mask(cell_index(x as int, y as int, stride as int)),
    ;

    fn clear(&mut self, x: usize, y: usize, stride: usize)
        requires
            fits_word(stride as int),
            on_board(x as int, y as int, stride as int),
        ensures
            final(self).bits() == old(self).bits() & !bit_mask(cell_index(x as int, y as int, stride as int)),
    ;

    fn get(&self, x: usize, y: usize, stride: usize) -> (r: bool)
        requires
            fits_word(stride as int),
            on_board(x as int, y as int, stride as int),
        ensures
            r == cell_at(self.bits(), x as int, y as int, stride as int),
    ;

    /// Splits the marked cells into groups joined edge to edge: the groups are
    /// non-empty, pairwise disjoint, together exactly the input, each connected,
    /// and each closed: no marked cell left after the earlier groups touches it.
    /// Each group is grown from the lowest marked cell the earlier groups left.
    fn get_groups(&self, stride: usize) -> (r: Vec<Bitmap>)
        requires
            has_masks(stride as int),
        ensures
            union_of(r@) == self.bits(),
            forall|i: int, j: int| 0 <= i < j < r@.len() ==> #[trigger] r@[i] & #[trigger] r@[j] == 0,
            forall|i: int| 0 <= i < r@.len() ==> #[trigger] r@[i] != 0 && is_connected(r@[i], stride as int),
            forall|i: int| 0 <= i < r@.len() ==> is_closed_in(
                #[trigger] r@[i],
                self.bits() & !union_of(r@.subrange(0, i)),
                stride as int,
            ),
            forall|i: int| 0 <= i < r@.len() ==> lowest_bit(self.bits() & !union_of(r@.subrange(0, i))) & !(
            #[trigger] r@[i]) == 0,
            self.bits() == 0 ==> r@.len() == 0,
    ;
}

impl BitmapInterface for u64 {
    open spec fn bits(&self) -> u64 {
        *self
    }

    fn set(&mut self, x: usize, y: usize, stride: usize) {
        let i = cell_shift(x, y, stride);
        *self = *self | (1u64 << i);
    }

    fn clear(&mut self, x: usize, y: usize, stride: usize) {
        let i = cell_shift(x, y, stride);
        *self = *self & !(1u64 << i);
    }

    fn get(&self, x: usize, y: usize, stride: usize) -> (r: bool) {
        let i = cell_shift(x, y, stride);
        (*self >> i) & 1u64 == 1u64
    }

    fn get_groups(&self, stride: usize) -> (r: Vec<Bitmap>) {
        let masks = edge_masks(stride);
        let east = masks[1];
        let west = masks[3];
        let mut groups: Vec<Bitmap> = Vec::new();
        let mut map = *self;
        proof {
            lemma_or_zero(map);
        }
        while map != 0
            invariant
                has_masks(stride as int),
                east == east_edge(stride as int),
                west == west_edge(stride as int),
                union_of(groups@) | map == *self,
                union_of(groups@) & map == 0,
                forall|i: int, j: int| 0 <= i < j < groups@.len() ==> #[trigger] groups@[i] & #[trigger] groups@[j] == 0,
                forall|i: int| 0 <= i < groups@.len() ==> #[trigger] groups@[i] != 0 && is_connected(groups@[i], stride as int),
                forall|i: int| 0 <= i < groups@.len() ==> is_closed_in(
                    #[trigger] groups@[i],
                    *self & !union_of(groups@.subrange(0, i)),
                    stride as int,
                ),
                forall|i: int| 0 <= i < groups@.len() ==> lowest_bit(*self & !union_of(groups@.subrange(0, i))) & !(
                #[trigger] groups@[i]) == 0,
                *self == 0 ==> groups@.len() == 0,
            decreases map,
        {
            let (bit, remainder) = pop_bit(map);
            proof {
                lemma_pop_bit(map);
            }
            let group = flood(bit, map, stride, east, west);
            let ghost before = groups@;
            proof {
                let n = choose|n: nat| flood_n(bit, map, stride as int, n) == group;
                lemma_flood_within(bit, map, stride as int, n, n);
                lemma_flood_monotone(bit, map, stride as int, n);
                lemma_same_lowest_bit(map, group, bit);
                assert(flood_n(lowest_bit(group), group, stride as int, n) == group);
                lemma_take_group(union_of(before), map, *self, group, bit);
                assert forall|i: int| 0 <= i < before.len() implies #[trigger] before[i] & group == 0 by {
                    lemma_union_member(before, i);
                    lemma_disjoint_from_subset(before[i], union_of(before), map, group);
                }
            }
            groups.push(group);
            proof {
                assert(groups@.drop_last() =~= before);
                assert forall|i: int, j: int| 0 <= i < j < groups@.len() implies #[trigger] groups@[i] & #[trigger] groups@[j] == 0 by {
                    if j == before.len() {
                        assert(groups@[i] == before[i]);
                    } else {
                        assert(groups@[i] == before[i]);
                        assert(groups@[j] == before[j]);
                    }
                }
                assert forall|i: int| 0 <= i < groups@.len() implies #[trigger] groups@[i] != 0 && is_connected(groups@[i], stride as int) by {
                    if i < before.len() {
                        assert(groups@[i] == before[i]);
                    }
                }
                assert forall|i: int| 0 <= i < groups@.len() implies is_closed_in(
                    #[trigger] groups@[i],
                    *self & !union_of(groups@.subrange(0, i)),
                    stride as int,
                ) by {
                    if i < before.len() {
                        assert(groups@[i] == before[i]);
                        assert(groups@.subrange(0, i) =~= before.subrange(0, i));
                    } else {
                        assert(groups@.subrange(0, i) =~= before);
                    }
                }
                assert forall|i: int| 0 <= i < groups@.len() implies lowest_bit(*self & !union_of(groups@.subrange(0, i))) & !(
                #[trigger] groups@[i]) == 0 by {
                    if i < before.len() {
                        assert(groups@[i] == before[i]);
                        assert(groups@.subrange(0, i) =~= before.subrange(0, i));
                    } else {
                        assert(groups@.subrange(0, i) =~= before);
                    }
                }
            }
            map = remainder & !group;
        }
        proof {
            lemma_or_zero(union_of(groups@));
        }
        groups
    }
}

} // verus!
