use vstd::prelude::*;
use crate::bitmap::{bit_at, cell_at, cell_index, lemma_bit_or, lemma_cell_index_bounds, lemma_cell_index_injective, lemma_empty_bit, on_board, Bitmap};
use crate::masks::{board_area, east_edge, east_rows, has_masks, west_edge};

verus! {

/// The lowest set bit of `m`, alone.
pub open spec fn lowest_bit(m: u64) -> u64 {
    m & !(m & ((m - 1) as u64))
}

/// Cells next to a cell of `t` to the east, west, north or south; the edge masks
/// keep a one-bit move from wrapping into the next row.
pub open spec fn spread(t: u64, stride: int) -> u64 {
    ((t << 1u64) & !east_edge(stride)) | ((t >> 1u64) & !west_edge(stride)) | (t << (stride as u64)) | (t
        >> (stride as u64))
}

/// One step of a flood fill: `t` and its neighbours, kept inside `bounds`.
pub open spec fn flood_step(t: u64, bounds: u64, stride: int) -> u64 {
    (t | spread(t, stride)) & bounds
}

/// `n` flood steps from `seed` inside `bounds`.
pub open spec fn flood_n(seed: u64, bounds: u64, stride: int, n: nat) -> u64
    decreases n,
{
    if n == 0 {
        seed
    } else {
        flood_step(flood_n(seed, bounds, stride, (n - 1) as nat), bounds, stride)
    }
}

/// Every cell of `g` is reached from its lowest cell by steps that stay in `g`.
pub open spec fn is_connected(g: u64, stride: int) -> bool {
    exists|n: nat| flood_n(lowest_bit(g), g, stride, n) == g
}

/// No cell of `bounds` outside `g` lies next to a cell of `g`.
pub open spec fn is_closed_in(g: u64, bounds: u64, stride: int) -> bool {
    flood_step(g, bounds, stride) == g
}

/// All words of `gs` or-ed together.
pub open spec fn union_of(gs: Seq<u64>) -> u64
    decreases gs.len(),
{
    if gs.len() == 0 {
        0
    } else {
        union_of(gs.drop_last()) | gs.last()
    }
}

pub(crate) proof fn lemma_pop_bit(m: u64)
    requires
        m != 0,
    ensures
        lowest_bit(m) != 0,
        lowest_bit(m) & !m == 0,
        m & ((m - 1) as u64) == m & !lowest_bit(m),
{
    assert(m & !(m & ((m - 1) as u64)) != 0 && (m & !(m & ((m - 1) as u64))) & !m == 0 && m & ((m - 1) as u64)
        == m & !(m & !(m & ((m - 1) as u64)))) by (bit_vector)
        requires
            m != 0,
    ;
}

proof fn lemma_step_grows(t: u64, x: u64, bounds: u64)
    requires
        t & !bounds == 0,
    ensures
        t & !((t | x) & bounds) == 0,
        ((t | x) & bounds) & !bounds == 0,
{
    assert(t & !((t | x) & bounds) == 0 && ((t | x) & bounds) & !bounds == 0) by (bit_vector)
        requires
            t & !bounds == 0,
    ;
}

proof fn lemma_strict_growth(t: u64, n: u64)
    requires
        t & !n == 0,
        t != n,
    ensures
        t < n,
{
    assert(t < n) by (bit_vector)
        requires
            t & !n == 0,
            t != n,
    ;
}

proof fn lemma_subset_trans(a: u64, b: u64, c: u64)
    requires
        a & !b == 0,
        b & !c == 0,
    ensures
        a & !c == 0,
{
    assert(a & !c == 0) by (bit_vector)
        requires
            a & !b == 0,
            b & !c == 0,
    ;
}

proof fn lemma_subset_or(a: u64, b: u64, c: u64)
    ensures
        a & !b == 0 ==> a & !(b | c) == 0,
        c & !(b | c) == 0,
{
    assert((a & !b == 0 ==> a & !(b | c) == 0) && c & !(b | c) == 0) by (bit_vector);
}

pub(crate) proof fn lemma_disjoint_from_subset(a: u64, u: u64, m: u64, g: u64)
    requires
        a & !u == 0,
        u & m == 0,
        g & !m == 0,
    ensures
        a & g == 0,
{
    assert(a & g == 0) by (bit_vector)
        requires
            a & !u == 0,
            u & m == 0,
            g & !m == 0,
    ;
}

proof fn lemma_narrow_bounds(a: u64, m: u64, g: u64)
    requires
        (a & m) & !g == 0,
        g & !m == 0,
    ensures
        a & g == a & m,
{
    assert(a & g == a & m) by (bit_vector)
        requires
            (a & m) & !g == 0,
            g & !m == 0,
    ;
}

pub(crate) proof fn lemma_same_lowest_bit(m: u64, g: u64, b: u64)
    requires
        m != 0,
        b == lowest_bit(m),
        g & !m == 0,
        b & !g == 0,
    ensures
        lowest_bit(g) == b,
        g != 0,
{
    assert(g & !(g & ((g - 1) as u64)) == b && g != 0) by (bit_vector)
        requires
            m != 0,
            b == m & !(m & ((m - 1) as u64)),
            g & !m == 0,
            b & !g == 0,
    ;
}

pub(crate) proof fn lemma_take_group(u: u64, m: u64, s: u64, g: u64, b: u64)
    requires
        u | m == s,
        u & m == 0,
        m != 0,
        b != 0,
        b & !m == 0,
        g & !m == 0,
        b & !g == 0,
    ensures
        (u | g) | ((m & !b) & !g) == s,
        (u | g) & ((m & !b) & !g) == 0,
        (m & !b) & !g < m,
        s != 0,
        m == s & !u,
{
    assert(m == s & !u) by (bit_vector)
        requires
            u | m == s,
            u & m == 0,
    ;
    assert((u | g) | ((m & !b) & !g) == s && (u | g) & ((m & !b) & !g) == 0 && (m & !b) & !g < m && s != 0)
        by (bit_vector)
        requires
            u | m == s,
            u & m == 0,
            m != 0,
            b != 0,
            b & !m == 0,
            g & !m == 0,
            b & !g == 0,
    ;
}

pub(crate) proof fn lemma_flood_monotone(seed: u64, bounds: u64, stride: int, k: nat)
    requires
        seed & !bounds == 0,
    ensures
        flood_n(seed, bounds, stride, k) & !bounds == 0,
        flood_n(seed, bounds, stride, k) & !flood_n(seed, bounds, stride, k + 1) == 0,
    decreases k,
{
    if k > 0 {
        lemma_flood_monotone(seed, bounds, stride, (k - 1) as nat);
        let p = flood_n(seed, bounds, stride, (k - 1) as nat);
        lemma_step_grows(p, spread(p, stride), bounds);
    }
    let f = flood_n(seed, bounds, stride, k);
    lemma_step_grows(f, spread(f, stride), bounds);
}

proof fn lemma_flood_chain(seed: u64, bounds: u64, stride: int, k: nat, n: nat)
    requires
        seed & !bounds == 0,
        k <= n,
    ensures
        flood_n(seed, bounds, stride, k) & !flood_n(seed, bounds, stride, n) == 0,
    decreases n - k,
{
    let f = flood_n(seed, bounds, stride, k);
    if k < n {
        lemma_flood_monotone(seed, bounds, stride, k);
        lemma_flood_chain(seed, bounds, stride, k + 1, n);
        lemma_subset_trans(f, flood_n(seed, bounds, stride, k + 1), flood_n(seed, bounds, stride, n));
    } else {
        lemma_or_zero(f);
    }
}

/// A flood inside `bounds` that ends at `g` takes the same steps inside `g`.
pub(crate) proof fn lemma_flood_within(seed: u64, bounds: u64, stride: int, k: nat, n: nat)
    requires
        seed & !bounds == 0,
        k <= n,
    ensures
        flood_n(seed, flood_n(seed, bounds, stride, n), stride, k) == flood_n(seed, bounds, stride, k),
    decreases k,
{
    let g = flood_n(seed, bounds, stride, n);
    if k > 0 {
        lemma_flood_within(seed, bounds, stride, (k - 1) as nat, n);
        let f = flood_n(seed, bounds, stride, (k - 1) as nat);
        lemma_flood_chain(seed, bounds, stride, k, n);
        lemma_flood_monotone(seed, bounds, stride, n);
        lemma_narrow_bounds(f | spread(f, stride), bounds, g);
    }
}

pub(crate) proof fn lemma_union_member(gs: Seq<u64>, j: int)
    requires
        0 <= j < gs.len(),
    ensures
        gs[j] & !union_of(gs) == 0,
    decreases gs.len(),
{
    let rest = gs.drop_last();
    lemma_subset_or(gs[j], union_of(rest), gs.last());
    if j < gs.len() - 1 {
        lemma_union_member(rest, j);
    }
}

pub(crate) fn pop_bit(map: Bitmap) -> (r: (Bitmap, Bitmap))
    requires
        map != 0,
    ensures
        r.0 == lowest_bit(map),
        r.1 == map & !lowest_bit(map),
{
    proof {
        lemma_pop_bit(map);
    }
    let remainder = map & (map - 1);
    let bit = map & !remainder;
    (bit, remainder)
}

pub(crate) fn flood(bit: Bitmap, bounds: Bitmap, stride: usize, east: Bitmap, west: Bitmap) -> (total: Bitmap)
    requires
        has_masks(stride as int),
        east == east_edge(stride as int),
        west == west_edge(stride as int),
        bit & !bounds == 0,
    ensures
        total & !bounds == 0,
        bit & !total == 0,
        flood_step(total, bounds, stride as int) == total,
        exists|n: nat| flood_n(bit, bounds, stride as int, n) == total,
{
    let s = stride as u64;
    let mut total = bit;
    let ghost mut n: nat = 0;
    proof {
        lemma_or_zero(bit);
    }
    loop
        invariant
            has_masks(stride as int),
            s == stride,
            east == east_edge(stride as int),
            west == west_edge(stride as int),
            bit & !bounds == 0,
            total == flood_n(bit, bounds, stride as int, n),
            total & !bounds == 0,
            bit & !total == 0,
        ensures
            total & !bounds == 0,
            bit & !total == 0,
            flood_step(total, bounds, stride as int) == total,
            total == flood_n(bit, bounds, stride as int, n),
        decreases u64::MAX - total,
    {
        let spread = ((total << 1u64) & !east) | ((total >> 1u64) & !west) | (total << s) | (total >> s);
        let next = (total | spread) & bounds;
        proof {
            lemma_step_grows(total, spread, bounds);
            assert(next == flood_n(bit, bounds, stride as int, n + 1));
        }
        if next == total {
            break;
        }
        proof {
            lemma_strict_growth(total, next);
            lemma_subset_trans(bit, total, next);
            n = n + 1;
        }
        total = next;
    }
    total
}



proof fn lemma_bits_of_or(a: u64, b: u64, i: u64)
    requires
        i < 64,
    ensures
        ((a | b) >> i) & 1u64 == 1u64 <==> ((a >> i) & 1u64 == 1u64 || (b >> i) & 1u64 == 1u64),
        ((a & !b) >> i) & 1u64 == 1u64 <==> ((a >> i) & 1u64 == 1u64 && (b >> i) & 1u64 != 1u64),
{
    assert(((a | b) >> i) & 1u64 == 1u64 <==> ((a >> i) & 1u64 == 1u64 || (b >> i) & 1u64 == 1u64)) by (bit_vector)
        requires
            i < 64,
    ;
    assert(((a & !b) >> i) & 1u64 == 1u64 <==> ((a >> i) & 1u64 == 1u64 && (b >> i) & 1u64 != 1u64)) by (bit_vector)
        requires
            i < 64,
    ;
}

proof fn lemma_bits_of_shift(t: u64, c: u64, i: u64)
    requires
        i < 64,
        c < 64,
    ensures
        ((t << c) >> i) & 1u64 == 1u64 <==> (i >= c && (t >> ((i - c) as u64)) & 1u64 == 1u64),
        ((t >> c) >> i) & 1u64 == 1u64 <==> (i + c < 64 && (t >> ((i + c) as u64)) & 1u64 == 1u64),
{
    assert(((t << c) >> i) & 1u64 == 1u64 <==> (i >= c && (t >> ((i - c) as u64)) & 1u64 == 1u64)) by (bit_vector)
        requires
            i < 64,
            c < 64,
    ;
    assert(((t >> c) >> i) & 1u64 == 1u64 <==> (i + c < 64 && (t >> ((i + c) as u64)) & 1u64 == 1u64)) by (bit_vector)
        requires
            i < 64,
            c < 64,
    ;
}

proof fn lemma_bit_outside_area(t: u64, k: u64, j: u64)
    requires
        j < 64,
        k <= j,
        k < 64,
        t & !(((1u64 << k) - 1) as u64) == 0,
    ensures
        (t >> j) & 1u64 != 1u64,
{
    assert((t >> j) & 1u64 != 1u64) by (bit_vector)
        requires
            j < 64,
            k <= j,
            k < 64,
            t & !(((1u64 << k) - 1) as u64) == 0,
    ;
}

proof fn lemma_east_rows_cells(s: int, n: nat, x: int, y: int)
    requires
        3 <= s <= 8,
        n <= s,
        on_board(x, y, s),
    ensures
        cell_at(east_rows(s as u64, n), x, y, s) <==> (x == s - 1 && y < n),
    decreases n,
{
    lemma_cell_index_bounds(x, y, s);
    let i = cell_index(x, y, s);
    if n == 0 {
        lemma_empty_bit(i as u64);
    } else {
        lemma_east_rows_cells(s, (n - 1) as nat, x, y);
        lemma_cell_index_bounds(s - 1, n - 1, s);
        assert(cell_index(s - 1, n - 1, s) == (n - 1) * s);
        lemma_bit_or(east_rows(s as u64, (n - 1) as nat), ((n - 1) * s) as u64, i as u64);
        if i == (n - 1) * s {
            lemma_cell_index_injective(x, y, s - 1, n - 1, s);
        }
    }
}

/// The east edge holds exactly the cells with x == stride - 1, the west edge
/// exactly those with x == 0.
pub proof fn lemma_side_edges(x: int, y: int, stride: int)
    requires
        has_masks(stride),
        on_board(x, y, stride),
    ensures
        cell_at(east_edge(stride), x, y, stride) <==> x == stride - 1,
        cell_at(west_edge(stride), x, y, stride) <==> x == 0,
{
    let s = stride;
    lemma_east_rows_cells(s, s as nat, x, y);
    lemma_cell_index_bounds(x, y, s);
    let i = cell_index(x, y, s);
    lemma_bits_of_shift(east_edge(s), (s - 1) as u64, i as u64);
    if i >= s - 1 {
        let j = i - (s - 1);
        if x == 0 {
            assert(j == cell_index(s - 1, y, s));
            lemma_east_rows_cells(s, s as nat, s - 1, y);
        } else {
            assert(y >= 1) by (nonlinear_arith)
                requires
                    i == (s - 1 - x) + y * s,
                    i >= s - 1,
                    x >= 1,
                    y >= 0,
                    s >= 3,
            ;
            assert(j == cell_index(x - 1, y - 1, s)) by (nonlinear_arith)
                requires
                    j == i - (s - 1),
                    i == (s - 1 - x) + y * s,
            ;
            lemma_east_rows_cells(s, s as nat, x - 1, y - 1);
        }
    } else {
        assert(x != 0) by (nonlinear_arith)
            requires
                i == (s - 1 - x) + y * s,
                i < s - 1,
                y >= 0,
                s >= 0,
        ;
    }
}

/// For a bitmap inside the board, a cell of the board is in `spread(t)` exactly
/// when one of its four neighbours on the board is in `t`.
pub proof fn lemma_spread_neighbours(t: u64, x: int, y: int, stride: int)
    requires
        has_masks(stride),
        on_board(x, y, stride),
        t & !board_area(stride) == 0,
    ensures
        cell_at(spread(t, stride), x, y, stride) <==> {
            ||| x + 1 < stride && cell_at(t, x + 1, y, stride)
            ||| x >= 1 && cell_at(t, x - 1, y, stride)
            ||| y + 1 < stride && cell_at(t, x, y + 1, stride)
            ||| y >= 1 && cell_at(t, x, y - 1, stride)
        },
{
    let s = stride;
    lemma_cell_index_bounds(x, y, s);
    lemma_side_edges(x, y, s);
    let i = cell_index(x, y, s);
    let iu = i as u64;
    let su = s as u64;
    let a = (t << 1u64) & !east_edge(s);
    let b = (t >> 1u64) & !west_edge(s);
    let c = t << su;
    let d = t >> su;
    lemma_bits_of_or((a | b) | c, d, iu);
    lemma_bits_of_or(a | b, c, iu);
    lemma_bits_of_or(a, b, iu);
    lemma_bits_of_or(t << 1u64, east_edge(s), iu);
    lemma_bits_of_or(t >> 1u64, west_edge(s), iu);
    lemma_bits_of_shift(t, 1u64, iu);
    lemma_bits_of_shift(t, su, iu);
    assert(y * s + s == (y + 1) * s) by (nonlinear_arith);
    assert(y * s - s == (y - 1) * s) by (nonlinear_arith);
    if y >= 1 {
        assert(y * s >= s) by (nonlinear_arith)
            requires
                y >= 1,
                s >= 0,
        ;
    } else {
        assert(y * s == 0);
    }
    if x + 1 < s {
        assert(i - 1 == cell_index(x + 1, y, s));
    }
    if x >= 1 {
        assert(i + 1 == cell_index(x - 1, y, s));
        lemma_cell_index_bounds(x - 1, y, s);
    }
    if y >= 1 {
        assert(i - s == cell_index(x, y - 1, s));
    }
    if y + 1 < s {
        assert(i + s == cell_index(x, y + 1, s));
        lemma_cell_index_bounds(x, y + 1, s);
    } else if i + s < 64 {
        assert(i + s >= s * s) by (nonlinear_arith)
            requires
                y == s - 1,
                i == (s - 1 - x) + y * s,
                x < s,
        ;
        assert(s * s < 64);
        lemma_bit_outside_area(t, (s * s) as u64, (i + s) as u64);
    }
}

pub(crate) proof fn lemma_or_zero(a: u64)
    ensures
        a | 0u64 == a,
        0u64 | a == a,
        0u64 & a == 0,
        a & !a == 0,
{
    assert(a | 0u64 == a && 0u64 | a == a && 0u64 & a == 0 && a & !a == 0) by (bit_vector);
}

} // verus!
