use vstd::prelude::*;
use crate::bitmap::{cell_at, cell_index, lemma_cell_index_bounds, lemma_empty_bit, lemma_set_then_get, on_board, Bitmap, BitmapInterface};
use crate::game::{Color, Piece, State};
use crate::groups::{is_closed_in, is_connected, lowest_bit, union_of};
use crate::masks::{board_area, has_masks, lemma_mark_within_board};
use crate::groups::lemma_or_zero;

verus! {

/// Per-player facts about a position, derived from its board.
#[derive(Clone, Debug)]
pub struct StateAnalysis {
    /// Flatstones on top of a stack, for each player.
    pub p1_flatstone_count: u8,
    pub p2_flatstone_count: u8,
    /// Cells whose top piece counts toward a road, for each player.
    pub p1_total_road: Bitmap,
    pub p2_total_road: Bitmap,
    /// The connected groups of each road map.
    pub p1_road_groups: Vec<Bitmap>,
    pub p2_road_groups: Vec<Bitmap>,
    /// Cells whose top piece a player owns.
    pub p1_pieces: Bitmap,
    pub p2_pieces: Bitmap,
}

pub open spec fn tops_with(s: &State, x: int, y: int, c: Color) -> bool {
    s.stack(x, y).len() > 0 && s.stack(x, y).last().color() == c
}

pub open spec fn road_top(s: &State, x: int, y: int, c: Color) -> bool {
    tops_with(s, x, y, c) && s.stack(x, y).last().is_road()
}

pub open spec fn flat_top(s: &State, x: int, y: int, c: Color) -> bool {
    s.stack(x, y).len() > 0 && s.stack(x, y).last() == Piece::Flatstone(c)
}

/// Stacks topped by a flatstone of `c` among the cells before (x, y), going
/// column by column.
pub open spec fn flats_before(s: &State, c: Color, x: int, y: int) -> int
    decreases x, y,
{
    if x <= 0 && y <= 0 {
        0
    } else if y <= 0 {
        flats_before(s, c, x - 1, s.size())
    } else {
        flats_before(s, c, x, y - 1) + if flat_top(s, x, y - 1, c) {
            1int
        } else {
            0int
        }
    }
}

/// A road map's groups: non-empty, disjoint, connected, together the map, and
/// each closed within what the groups before it left of the map and grown from
/// the lowest cell left.
pub open spec fn are_road_groups(gs: Seq<Bitmap>, road: Bitmap, stride: int) -> bool {
    &&& union_of(gs) == road
    &&& forall|i: int, j: int| 0 <= i < j < gs.len() ==> #[trigger] gs[i] & #[trigger] gs[j] == 0
    &&& forall|i: int| 0 <= i < gs.len() ==> #[trigger] gs[i] != 0 && is_connected(gs[i], stride)
    &&& forall|i: int| 0 <= i < gs.len() ==> is_closed_in(#[trigger] gs[i], road & !union_of(gs.subrange(0, i)), stride)
    &&& forall|i: int| 0 <= i < gs.len() ==> lowest_bit(road & !union_of(gs.subrange(0, i))) & !(#[trigger] gs[i]) == 0
}

fn mark(b: Bitmap, x: usize, y: usize, stride: usize, on: bool) -> (r: Bitmap)
    requires
        has_masks(stride as int),
        on_board(x as int, y as int, stride as int),
    ensures
        forall|x2: int, y2: int| on_board(x2, y2, stride as int) ==> #[trigger] cell_at(r, x2, y2, stride as int)
            == (cell_at(b, x2, y2, stride as int) || (on && x2 == x && y2 == y)),
        b & !board_area(stride as int) == 0 ==> r & !board_area(stride as int) == 0,
{
    let mut r = b;
    if on {
        r.set(x, y, stride);
        proof {
            assert forall|x2: int, y2: int| on_board(x2, y2, stride as int) implies #[trigger] cell_at(r, x2, y2, stride as int)
                == (cell_at(b, x2, y2, stride as int) || (x2 == x && y2 == y)) by {
                lemma_set_then_get(b, x as int, y as int, x2, y2, stride as int);
            }
            if b & !board_area(stride as int) == 0 {
                lemma_mark_within_board(b, x as int, y as int, stride as int);
            }
        }
    }
    r
}

impl StateAnalysis {
    pub fn new() -> (r: StateAnalysis)
        ensures
            r.p1_flatstone_count == 0,
            r.p2_flatstone_count == 0,
            r.p1_total_road == 0,
            r.p2_total_road == 0,
            r.p1_road_groups@.len() == 0,
            r.p2_road_groups@.len() == 0,
            r.p1_pieces == 0,
            r.p2_pieces == 0,
    {
        StateAnalysis {
            p1_flatstone_count: 0,
            p2_flatstone_count: 0,
            p1_total_road: 0,
            p2_total_road: 0,
            p1_road_groups: Vec::new(),
            p2_road_groups: Vec::new(),
            p1_pieces: 0,
            p2_pieces: 0,
        }
    }
}

/// Derives each player's pieces, road map, road groups and flat count from the board.
pub fn analyze(s: &State) -> (r: StateAnalysis)
    requires
        s.is_well_formed(),
    ensures
        forall|x: int, y: int| on_board(x, y, s.size()) ==> {
            &&& #[trigger] cell_at(r.p1_pieces, x, y, s.size()) == tops_with(s, x, y, Color::White)
            &&& cell_at(r.p2_pieces, x, y, s.size()) == tops_with(s, x, y, Color::Black)
            &&& cell_at(r.p1_total_road, x, y, s.size()) == road_top(s, x, y, Color::White)
            &&& cell_at(r.p2_total_road, x, y, s.size()) == road_top(s, x, y, Color::Black)
        },
        r.p1_pieces & !board_area(s.size()) == 0,
        r.p2_pieces & !board_area(s.size()) == 0,
        r.p1_total_road & !board_area(s.size()) == 0,
        r.p2_total_road & !board_area(s.size()) == 0,
        r.p1_flatstone_count == flats_before(s, Color::White, s.size(), 0),
        r.p2_flatstone_count == flats_before(s, Color::Black, s.size(), 0),
        are_road_groups(r.p1_road_groups@, r.p1_total_road, s.size()),
        are_road_groups(r.p2_road_groups@, r.p2_total_road, s.size()),
{
    let mut a = StateAnalysis::new();
    proof {
        assert forall|xx: int, yy: int| on_board(xx, yy, s.size()) implies !#[trigger] cell_at(0u64, xx, yy, s.size()) by {
            lemma_cell_index_bounds(xx, yy, s.size());
            lemma_empty_bit(cell_index(xx, yy, s.size()) as u64);
        }
        lemma_or_zero(!board_area(s.size()));
    }
    let n = s.board.len();
    let ghost ni = n as int;
    let mut x: usize = 0;
    while x < n
        invariant
            x <= n,
            n == s.size(),
            ni == n,
            s.is_well_formed(),
            a.p1_flatstone_count == flats_before(s, Color::White, x as int, 0),
            a.p2_flatstone_count == flats_before(s, Color::Black, x as int, 0),
            a.p1_flatstone_count + a.p2_flatstone_count <= x * n,
            a.p1_pieces & !board_area(ni) == 0,
            a.p2_pieces & !board_area(ni) == 0,
            a.p1_total_road & !board_area(ni) == 0,
            a.p2_total_road & !board_area(ni) == 0,
            forall|xx: int, yy: int| on_board(xx, yy, ni) ==> #[trigger] cell_at(a.p1_pieces, xx, yy, ni) == (xx < x && tops_with(s, xx, yy, Color::White)),
            forall|xx: int, yy: int| on_board(xx, yy, ni) ==> #[trigger] cell_at(a.p2_pieces, xx, yy, ni) == (xx < x && tops_with(s, xx, yy, Color::Black)),
            forall|xx: int, yy: int| on_board(xx, yy, ni) ==> #[trigger] cell_at(a.p1_total_road, xx, yy, ni) == (xx < x && road_top(s, xx, yy, Color::White)),
            forall|xx: int, yy: int| on_board(xx, yy, ni) ==> #[trigger] cell_at(a.p2_total_road, xx, yy, ni) == (xx < x && road_top(s, xx, yy, Color::Black)),
        decreases n - x,
    {
        assert(s.board@[x as int]@.len() == n);
        let mut y: usize = 0;
        while y < n
            invariant
                x < n,
                y <= n,
                n == s.size(),
                ni == n,
                s.is_well_formed(),
                s.board@[x as int]@.len() == n,
                a.p1_flatstone_count == flats_before(s, Color::White, x as int, y as int),
                a.p2_flatstone_count == flats_before(s, Color::Black, x as int, y as int),
                a.p1_flatstone_count + a.p2_flatstone_count <= x * n + y,
                a.p1_pieces & !board_area(ni) == 0,
                a.p2_pieces & !board_area(ni) == 0,
                a.p1_total_road & !board_area(ni) == 0,
                a.p2_total_road & !board_area(ni) == 0,
                forall|xx: int, yy: int| on_board(xx, yy, ni) ==> #[trigger] cell_at(a.p1_pieces, xx, yy, ni) == ((xx < x || (xx == x && yy < y)) && tops_with(s, xx, yy, Color::White)),
                forall|xx: int, yy: int| on_board(xx, yy, ni) ==> #[trigger] cell_at(a.p2_pieces, xx, yy, ni) == ((xx < x || (xx == x && yy < y)) && tops_with(s, xx, yy, Color::Black)),
                forall|xx: int, yy: int| on_board(xx, yy, ni) ==> #[trigger] cell_at(a.p1_total_road, xx, yy, ni) == ((xx < x || (xx == x && yy < y)) && road_top(s, xx, yy, Color::White)),
                forall|xx: int, yy: int| on_board(xx, yy, ni) ==> #[trigger] cell_at(a.p2_total_road, xx, yy, ni) == ((xx < x || (xx == x && yy < y)) && road_top(s, xx, yy, Color::Black)),
            decreases n - y,
        {
            let stack = &s.board[x][y];
            assert(stack@ == s.stack(x as int, y as int));
            assert(x * n + y + 1 <= 64) by (nonlinear_arith)
                requires
                    x < n,
                    y < n,
                    n <= 8,
            ;
            let (white, black, white_road, black_road, white_flat, black_flat) = if stack.len() > 0 {
                let top = stack[stack.len() - 1];
                match top {
                    Piece::Flatstone(Color::White) => (true, false, true, false, true, false),
                    Piece::Flatstone(Color::Black) => (false, true, false, true, false, true),
                    Piece::StandingStone(Color::White) => (true, false, false, false, false, false),
                    Piece::StandingStone(Color::Black) => (false, true, false, false, false, false),
                    Piece::Capstone(Color::White) => (true, false, true, false, false, false),
                    Piece::Capstone(Color::Black) => (false, true, false, true, false, false),
                }
            } else {
                (false, false, false, false, false, false)
            };
            assert(white == tops_with(s, x as int, y as int, Color::White));
            assert(black == tops_with(s, x as int, y as int, Color::Black));
            assert(white_road == road_top(s, x as int, y as int, Color::White));
            assert(black_road == road_top(s, x as int, y as int, Color::Black));
            assert(white_flat == flat_top(s, x as int, y as int, Color::White));
            assert(black_flat == flat_top(s, x as int, y as int, Color::Black));
            a.p1_pieces = mark(a.p1_pieces, x, y, n, white);
            a.p2_pieces = mark(a.p2_pieces, x, y, n, black);
            a.p1_total_road = mark(a.p1_total_road, x, y, n, white_road);
            a.p2_total_road = mark(a.p2_total_road, x, y, n, black_road);
            if white_flat {
                a.p1_flatstone_count = a.p1_flatstone_count + 1;
            }
            if black_flat {
                a.p2_flatstone_count = a.p2_flatstone_count + 1;
            }
            y += 1;
        }
        assert(a.p1_flatstone_count + a.p2_flatstone_count <= (x + 1) * n) by (nonlinear_arith)
            requires
                a.p1_flatstone_count + a.p2_flatstone_count <= x * n + n,
        ;
        x += 1;
    }
    a.p1_road_groups = a.p1_total_road.get_groups(n);
    a.p2_road_groups = a.p2_total_road.get_groups(n);
    a
}

} // verus!
