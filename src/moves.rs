use vstd::prelude::*;
use crate::game::{Color, Direction, Piece, State};
use crate::ply::{Ply, is_place, is_slide, ply_origin, same_ply};
use crate::slides::{is_drop_pattern, is_slide_entry, is_slide_table};

verus! {

/// Number of cells between (x, y) and the edge of a board of side `n`, going `d`.
pub open spec fn edge_distance(x: int, y: int, d: Direction, n: int) -> int {
    match d {
        Direction::North => n - 1 - y,
        Direction::East => n - 1 - x,
        Direction::South => y,
        Direction::West => x,
    }
}

/// Most stones a slide may grab from a stack of `height` on a board of side `n`.
pub open spec fn carry_limit(height: int, n: int) -> int {
    if height <= n {
        height
    } else {
        n
    }
}

/// Placing `piece` on (x, y) is generated: the cell is empty, and in the two
/// opening plies the piece is a flatstone of the opponent; later it is the
/// mover's flatstone, standing stone, or capstone while any capstone is left.
pub open spec fn is_possible_place(s: &State, x: int, y: int, piece: Piece) -> bool {
    let c = s.to_move();
    &&& 0 <= x < s.size() && 0 <= y < s.size()
    &&& s.stack(x, y).len() == 0
    &&& if s.ply_count < 2 {
        piece == Piece::Flatstone(c.opposite())
    } else {
        ||| piece == Piece::Flatstone(c)
        ||| piece == Piece::StandingStone(c)
        ||| piece == Piece::Capstone(c) && s.seat_of(c).capstone_count > 0
    }
}

/// Sliding from (x, y) toward `d` with `drops` is generated: past the opening,
/// the mover owns the top of the stack, `drops` is a drop pattern within the
/// carry limit, and it needs no more cells than lie before the edge. Whether a
/// cell on the way blocks the slide is left to whoever applies the ply.
pub open spec fn is_possible_slide(s: &State, x: int, y: int, d: Direction, drops: Seq<u8>) -> bool {
    &&& s.ply_count >= 2
    &&& 0 <= x < s.size() && 0 <= y < s.size()
    &&& s.stack(x, y).len() > 0
    &&& s.stack(x, y).last().color() == s.to_move()
    &&& is_drop_pattern(drops, carry_limit(s.stack(x, y).len() as int, s.size()))
    &&& drops.len() <= edge_distance(x, y, d, s.size())
}

pub open spec fn is_possible_ply(s: &State, p: Ply) -> bool {
    match p {
        Ply::Place { x, y, piece } => is_possible_place(s, x as int, y as int, piece),
        Ply::Slide { x, y, direction, drops } => is_possible_slide(
            s,
            x as int,
            y as int,
            direction,
            drops@,
        ),
    }
}

/// A slide table that covers every stack height up to its last index.
pub open spec fn is_full_slide_table(table: Seq<Vec<Vec<u8>>>) -> bool {
    table.len() >= 1 && is_slide_table(table, table.len() - 1)
}

/// Positions that can list their legal plies.
pub trait Extrapolatable {
    /// The position and `table` are fit for generation.
    spec fn can_extrapolate(&self, table: Seq<Vec<Vec<u8>>>) -> bool;

    spec fn allows(&self, p: Ply) -> bool;

    spec fn allows_place(&self, x: int, y: int, piece: Piece) -> bool;

    spec fn allows_slide(&self, x: int, y: int, d: Direction, drops: Seq<u8>) -> bool;

    /// Every ply listed is allowed, every allowed ply is listed, and none is listed twice.
    fn get_possible_plies(&self, table: &Vec<Vec<Vec<u8>>>) -> (r: Vec<Ply>)
        requires
            self.can_extrapolate(table@),
        ensures
            forall|k: int| 0 <= k < r@.len() ==> self.allows(#[trigger] r@[k]),
            forall|i: int, j: int| 0 <= i < j < r@.len() ==> !same_ply(#[trigger] r@[i], #[trigger] r@[j]),
            forall|x: int, y: int, piece: Piece| #[trigger] self.allows_place(x, y, piece)
                ==> exists|k: int| 0 <= k < r@.len() && is_place(r@[k], x, y, piece),
            forall|x: int, y: int, d: Direction, drops: Seq<u8>| #[trigger] self.allows_slide(x, y, d, drops)
                ==> exists|k: int| 0 <= k < r@.len() && is_slide(r@[k], x, y, d, drops),
    ;
}

fn copy_drops(v: &Vec<u8>) -> (r: Vec<u8>)
    ensures
        r@ == v@,
{
    let mut r: Vec<u8> = Vec::new();
    let mut j: usize = 0;
    while j < v.len()
        invariant
            j <= v.len(),
            r@ == v@.subrange(0, j as int),
        decreases v.len() - j,
    {
        r.push(v[j]);
        j += 1;
        assert(r@ =~= v@.subrange(0, j as int));
    }
    assert(v@.subrange(0, v@.len() as int) =~= v@);
    r
}

spec fn is_slide_from_entry(p: Ply, x: int, y: int, d: Direction, distance: int, entry: Seq<Vec<u8>>, upto: int) -> bool {
    exists|j: int| 0 <= j < upto && j < entry.len() && entry[j]@.len() <= distance && is_slide(p, x, y, d, entry[j]@)
}

fn push_slides(
    x: usize,
    y: usize,
    direction: Direction,
    distance: usize,
    entry: &Vec<Vec<u8>>,
    plies: &mut Vec<Ply>,
)
    requires
        forall|i1: int, i2: int| 0 <= i1 < i2 < entry@.len() ==> #[trigger] entry@[i1]@ != #[trigger] entry@[i2]@,
    ensures
        final(plies)@.len() >= old(plies)@.len(),
        forall|k: int| 0 <= k < old(plies)@.len() ==> #[trigger] final(plies)@[k] == old(plies)@[k],
        forall|k: int| old(plies)@.len() <= k < final(plies)@.len() ==> is_slide_from_entry(
            #[trigger] final(plies)@[k], x as int, y as int, direction, distance as int, entry@, entry@.len() as int),
        forall|k1: int, k2: int| old(plies)@.len() <= k1 < k2 < final(plies)@.len()
            ==> !same_ply(#[trigger] final(plies)@[k1], #[trigger] final(plies)@[k2]),
        forall|j: int| 0 <= j < entry@.len() && (#[trigger] entry@[j])@.len() <= distance
            ==> exists|k: int| old(plies)@.len() <= k < final(plies)@.len()
                && is_slide(final(plies)@[k], x as int, y as int, direction, entry@[j]@),
{
    let ghost start = plies@;
    let mut j: usize = 0;
    while j < entry.len()
        invariant
            j <= entry@.len(),
            plies@.len() >= start.len(),
            forall|k: int| 0 <= k < start.len() ==> #[trigger] plies@[k] == start[k],
            forall|i1: int, i2: int| 0 <= i1 < i2 < entry@.len() ==> #[trigger] entry@[i1]@ != #[trigger] entry@[i2]@,
            forall|k: int| start.len() <= k < plies@.len() ==> is_slide_from_entry(
                #[trigger] plies@[k], x as int, y as int, direction, distance as int, entry@, j as int),
            forall|k1: int, k2: int| start.len() <= k1 < k2 < plies@.len()
                ==> !same_ply(#[trigger] plies@[k1], #[trigger] plies@[k2]),
            forall|i: int| 0 <= i < j && (#[trigger] entry@[i])@.len() <= distance
                ==> exists|k: int| start.len() <= k < plies@.len()
                    && is_slide(plies@[k], x as int, y as int, direction, entry@[i]@),
        decreases entry@.len() - j,
    {
        let ghost before = plies@;
        if entry[j].len() <= distance {
            let drops = copy_drops(&entry[j]);
            plies.push(Ply::Slide { x, y, direction, drops });
            assert(is_slide(plies@[before.len() as int], x as int, y as int, direction, entry@[j as int]@));
            assert(is_slide_from_entry(plies@[before.len() as int], x as int, y as int, direction, distance as int, entry@, j + 1));
            assert forall|k1: int, k2: int| start.len() <= k1 < k2 < plies@.len()
                implies !same_ply(#[trigger] plies@[k1], #[trigger] plies@[k2]) by {
                assert(plies@[k1] == before[k1]);
                if k2 < before.len() {
                    assert(plies@[k2] == before[k2]);
                } else {
                    assert(is_slide_from_entry(before[k1], x as int, y as int, direction, distance as int, entry@, j as int));
                    let i = choose|i: int| 0 <= i < j && i < entry@.len() && entry@[i]@.len() <= distance
                        && is_slide(before[k1], x as int, y as int, direction, entry@[i]@);
                    assert(entry@[i]@ != entry@[j as int]@);
                }
            }
        }
        assert forall|k: int| start.len() <= k < plies@.len() implies is_slide_from_entry(
            #[trigger] plies@[k], x as int, y as int, direction, distance as int, entry@, j + 1) by {
            if k < before.len() {
                assert(plies@[k] == before[k]);
                assert(is_slide_from_entry(before[k], x as int, y as int, direction, distance as int, entry@, j as int));
            }
        }
        assert forall|i: int| 0 <= i < j + 1 && (#[trigger] entry@[i])@.len() <= distance
            implies exists|k: int| start.len() <= k < plies@.len()
                && is_slide(plies@[k], x as int, y as int, direction, entry@[i]@) by {
            if i < j {
                let k = choose|k: int| start.len() <= k < before.len()
                    && is_slide(before[k], x as int, y as int, direction, entry@[i]@);
                assert(plies@[k] == before[k]);
            } else {
                assert(is_slide(plies@[before.len() as int], x as int, y as int, direction, entry@[i]@));
            }
        }
        j += 1;
    }
}

} // verus!

verus! {

impl State {
    fn push_cell_plies(
        &self,
        x: usize,
        y: usize,
        color: Color,
        table: &Vec<Vec<Vec<u8>>>,
        plies: &mut Vec<Ply>,
    )
        requires
            self.is_well_formed(),
            is_full_slide_table(table@),
            table@.len() > self.size(),
            x < self.size(),
            y < self.size(),
            color == self.to_move(),
        ensures
            final(plies)@.len() >= old(plies)@.len(),
            forall|k: int| 0 <= k < old(plies)@.len() ==> #[trigger] final(plies)@[k] == old(plies)@[k],
            forall|k: int| old(plies)@.len() <= k < final(plies)@.len() ==> is_possible_ply(self, #[trigger] final(plies)@[k]),
            forall|piece: Piece| #[trigger] is_possible_place(self, x as int, y as int, piece)
                ==> exists|k: int| old(plies)@.len() <= k < final(plies)@.len() && is_place(final(plies)@[k], x as int, y as int, piece),
            forall|d: Direction, drops: Seq<u8>| #[trigger] is_possible_slide(self, x as int, y as int, d, drops)
                ==> exists|k: int| old(plies)@.len() <= k < final(plies)@.len() && is_slide(final(plies)@[k], x as int, y as int, d, drops),
            forall|k: int| old(plies)@.len() <= k < final(plies)@.len() ==> ply_origin(#[trigger] final(plies)@[k]) == (x as int, y as int),
            forall|k1: int, k2: int| old(plies)@.len() <= k1 < k2 < final(plies)@.len()
                ==> !same_ply(#[trigger] final(plies)@[k1], #[trigger] final(plies)@[k2]),
    {
        let ghost l0: int = plies@.len() as int;
        let n = self.board.len();
        assert(self.board@[x as int]@.len() == n);
        let stack = &self.board[x][y];
        assert(stack@ == self.stack(x as int, y as int));
        if stack.len() == 0 {
            if self.ply_count >= 2 {
                plies.push(Ply::Place { x, y, piece: Piece::Flatstone(color) });
                plies.push(Ply::Place { x, y, piece: Piece::StandingStone(color) });
                let capstones = match color {
                    Color::White => self.p1.capstone_count,
                    Color::Black => self.p2.capstone_count,
                };
                if capstones > 0 {
                    plies.push(Ply::Place { x, y, piece: Piece::Capstone(color) });
                    assert(is_place(plies@[l0 + 2], x as int, y as int, Piece::Capstone(color)));
                }
                assert(is_place(plies@[l0 + 0], x as int, y as int, Piece::Flatstone(color)));
                assert(is_place(plies@[l0 + 1], x as int, y as int, Piece::StandingStone(color)));
            } else {
                plies.push(Ply::Place { x, y, piece: Piece::Flatstone(color.flip()) });
                assert(is_place(plies@[l0 + 0], x as int, y as int, Piece::Flatstone(color.opposite())));
            }
        } else if self.ply_count >= 2 && stack[stack.len() - 1].get_color() == color {
            let carry = if stack.len() <= n {
                stack.len()
            } else {
                n
            };
            assert(is_slide_entry(table@[carry as int]@, carry as int));
            self.push_stack_slides(x, y, &table[carry], plies);
        } else {
            assert forall|d: Direction, drops: Seq<u8>| !is_possible_slide(self, x as int, y as int, d, drops) by {}
        }
    }

    fn push_stack_slides(&self, x: usize, y: usize, entry: &Vec<Vec<u8>>, plies: &mut Vec<Ply>)
        requires
            self.is_well_formed(),
            x < self.size(),
            y < self.size(),
            self.ply_count >= 2,
            self.stack(x as int, y as int).len() > 0,
            self.stack(x as int, y as int).last().color() == self.to_move(),
            is_slide_entry(entry@, carry_limit(self.stack(x as int, y as int).len() as int, self.size())),
        ensures
            final(plies)@.len() >= old(plies)@.len(),
            forall|k: int| 0 <= k < old(plies)@.len() ==> #[trigger] final(plies)@[k] == old(plies)@[k],
            forall|k: int| old(plies)@.len() <= k < final(plies)@.len() ==> is_possible_ply(self, #[trigger] final(plies)@[k]),
            forall|d: Direction, drops: Seq<u8>| #[trigger] is_possible_slide(self, x as int, y as int, d, drops)
                ==> exists|k: int| old(plies)@.len() <= k < final(plies)@.len() && is_slide(final(plies)@[k], x as int, y as int, d, drops),
            forall|k: int| old(plies)@.len() <= k < final(plies)@.len() ==> ply_origin(#[trigger] final(plies)@[k]) == (x as int, y as int),
            forall|k1: int, k2: int| old(plies)@.len() <= k1 < k2 < final(plies)@.len()
                ==> !same_ply(#[trigger] final(plies)@[k1], #[trigger] final(plies)@[k2]),
    {
        let ghost l0: int = plies@.len() as int;
        let ghost carry = carry_limit(self.stack(x as int, y as int).len() as int, self.size());
        let n = self.board.len();
        let ghost p0 = plies@;
        push_slides(x, y, Direction::North, n - 1 - y, entry, plies);
        let ghost p1 = plies@;
        push_slides(x, y, Direction::East, n - 1 - x, entry, plies);
        let ghost p2 = plies@;
        push_slides(x, y, Direction::South, y, entry, plies);
        let ghost p3 = plies@;
        push_slides(x, y, Direction::West, x, entry, plies);
        proof {
            let p4 = plies@;
            let xi = x as int;
            let yi = y as int;
            let ni = n as int;
            assert forall|k: int| l0 <= k < p4.len() implies is_possible_ply(self, #[trigger] p4[k]) by {
                let (d, dist) = if k < p1.len() {
                    assert(p4[k] == p3[k] && p3[k] == p2[k] && p2[k] == p1[k]);
                    (Direction::North, ni - 1 - yi)
                } else if k < p2.len() {
                    assert(p4[k] == p3[k] && p3[k] == p2[k]);
                    (Direction::East, ni - 1 - xi)
                } else if k < p3.len() {
                    assert(p4[k] == p3[k]);
                    (Direction::South, yi)
                } else {
                    (Direction::West, xi)
                };
                assert(is_slide_from_entry(p4[k], xi, yi, d, dist, entry@, entry@.len() as int));
                let j = choose|j: int| 0 <= j < entry@.len() && entry@[j]@.len() <= dist && is_slide(p4[k], xi, yi, d, entry@[j]@);
                assert(is_drop_pattern(entry@[j]@, carry as int));
            }
            assert forall|d: Direction, drops: Seq<u8>| #[trigger] is_possible_slide(self, xi, yi, d, drops)
                implies exists|k: int| l0 <= k < p4.len() && is_slide(p4[k], xi, yi, d, drops) by {
                assert(is_drop_pattern(drops, carry as int));
                let j = choose|j: int| 0 <= j < entry@.len() && entry@[j]@ == drops;
                match d {
                    Direction::North => {
                        assert(entry@[j]@.len() <= n - 1 - y);
                        let k = choose|k: int| p0.len() <= k < p1.len() && is_slide(p1[k], xi, yi, d, entry@[j]@);
                        assert(p4[k] == p3[k] && p3[k] == p2[k] && p2[k] == p1[k]);
                    },
                    Direction::East => {
                        assert(entry@[j]@.len() <= n - 1 - x);
                        let k = choose|k: int| p1.len() <= k < p2.len() && is_slide(p2[k], xi, yi, d, entry@[j]@);
                        assert(p4[k] == p3[k] && p3[k] == p2[k]);
                    },
                    Direction::South => {
                        assert(entry@[j]@.len() <= y);
                        let k = choose|k: int| p2.len() <= k < p3.len() && is_slide(p3[k], xi, yi, d, entry@[j]@);
                        assert(p4[k] == p3[k]);
                    },
                    Direction::West => {
                        assert(entry@[j]@.len() <= x);
                    },
                }
            }
            assert forall|k: int| l0 <= k < p4.len() implies {
                &&& p4[k] is Slide
                &&& ply_origin(#[trigger] p4[k]) == (xi, yi)
                &&& p4[k]->Slide_direction == if k < p1.len() {
                    Direction::North
                } else if k < p2.len() {
                    Direction::East
                } else if k < p3.len() {
                    Direction::South
                } else {
                    Direction::West
                }
            } by {
                if k < p1.len() {
                    assert(p4[k] == p3[k] && p3[k] == p2[k] && p2[k] == p1[k]);
                    assert(is_slide_from_entry(p1[k], xi, yi, Direction::North, ni - 1 - yi, entry@, entry@.len() as int));
                } else if k < p2.len() {
                    assert(p4[k] == p3[k] && p3[k] == p2[k]);
                    assert(is_slide_from_entry(p2[k], xi, yi, Direction::East, ni - 1 - xi, entry@, entry@.len() as int));
                } else if k < p3.len() {
                    assert(p4[k] == p3[k]);
                    assert(is_slide_from_entry(p3[k], xi, yi, Direction::South, yi, entry@, entry@.len() as int));
                } else {
                    assert(is_slide_from_entry(p4[k], xi, yi, Direction::West, xi, entry@, entry@.len() as int));
                }
            }
            assert forall|k1: int, k2: int| l0 <= k1 < k2 < p4.len()
                implies !same_ply(#[trigger] p4[k1], #[trigger] p4[k2]) by {
                assert(ply_origin(p4[k1]) == (xi, yi));
                assert(ply_origin(p4[k2]) == (xi, yi));
                if k2 < p1.len() {
                    assert(p4[k1] == p3[k1] && p3[k1] == p2[k1] && p2[k1] == p1[k1]);
                    assert(p4[k2] == p3[k2] && p3[k2] == p2[k2] && p2[k2] == p1[k2]);
                    assert(!same_ply(p1[k1], p1[k2]));
                } else if p1.len() <= k1 && k2 < p2.len() {
                    assert(p4[k1] == p3[k1] && p3[k1] == p2[k1]);
                    assert(p4[k2] == p3[k2] && p3[k2] == p2[k2]);
                    assert(!same_ply(p2[k1], p2[k2]));
                } else if p2.len() <= k1 && k2 < p3.len() {
                    assert(p4[k1] == p3[k1]);
                    assert(p4[k2] == p3[k2]);
                    assert(!same_ply(p3[k1], p3[k2]));
                } else if p3.len() <= k1 {
                    assert(!same_ply(p4[k1], p4[k2]));
                } else {
                    assert(p4[k1]->Slide_direction != p4[k2]->Slide_direction);
                }
            }
        }
    }
}

impl Extrapolatable for State {
    open spec fn can_extrapolate(&self, table: Seq<Vec<Vec<u8>>>) -> bool {
        self.is_well_formed() && is_full_slide_table(table) && table.len() > self.size()
    }

    open spec fn allows(&self, p: Ply) -> bool {
        is_possible_ply(self, p)
    }

    open spec fn allows_place(&self, x: int, y: int, piece: Piece) -> bool {
        is_possible_place(self, x, y, piece)
    }

    open spec fn allows_slide(&self, x: int, y: int, d: Direction, drops: Seq<u8>) -> bool {
        is_possible_slide(self, x, y, d, drops)
    }

    fn get_possible_plies(&self, table: &Vec<Vec<Vec<u8>>>) -> (r: Vec<Ply>) {
        let mut plies: Vec<Ply> = Vec::new();
        let color = if self.ply_count % 2 == 0 {
            Color::White
        } else {
            Color::Black
        };
        let n = self.board.len();
        let mut x: usize = 0;
        while x < n
            invariant
                x <= n,
                n == self.size(),
                self.can_extrapolate(table@),
                color == self.to_move(),
                forall|k: int| 0 <= k < plies@.len() ==> is_possible_ply(self, #[trigger] plies@[k]),
                forall|k: int| 0 <= k < plies@.len() ==> (#[trigger] ply_origin(plies@[k])).0 < x,
                forall|k1: int, k2: int| 0 <= k1 < k2 < plies@.len()
                    ==> !same_ply(#[trigger] plies@[k1], #[trigger] plies@[k2]),
                forall|xx: int, yy: int, piece: Piece| #[trigger] is_possible_place(self, xx, yy, piece) && xx < x
                    ==> exists|k: int| 0 <= k < plies@.len() && is_place(plies@[k], xx, yy, piece),
                forall|xx: int, yy: int, d: Direction, drops: Seq<u8>| #[trigger] is_possible_slide(self, xx, yy, d, drops) && xx < x
                    ==> exists|k: int| 0 <= k < plies@.len() && is_slide(plies@[k], xx, yy, d, drops),
            decreases n - x,
        {
            let mut y: usize = 0;
            while y < n
                invariant
                    x < n,
                    y <= n,
                    n == self.size(),
                    self.can_extrapolate(table@),
                    color == self.to_move(),
                    forall|k: int| 0 <= k < plies@.len() ==> is_possible_ply(self, #[trigger] plies@[k]),
                    forall|k: int| 0 <= k < plies@.len() ==> (#[trigger] ply_origin(plies@[k])).0 < x
                        || (ply_origin(plies@[k]).0 == x && ply_origin(plies@[k]).1 < y),
                    forall|k1: int, k2: int| 0 <= k1 < k2 < plies@.len()
                        ==> !same_ply(#[trigger] plies@[k1], #[trigger] plies@[k2]),
                    forall|xx: int, yy: int, piece: Piece| #[trigger] is_possible_place(self, xx, yy, piece)
                        && (xx < x || (xx == x && yy < y))
                        ==> exists|k: int| 0 <= k < plies@.len() && is_place(plies@[k], xx, yy, piece),
                    forall|xx: int, yy: int, d: Direction, drops: Seq<u8>| #[trigger] is_possible_slide(self, xx, yy, d, drops)
                        && (xx < x || (xx == x && yy < y))
                        ==> exists|k: int| 0 <= k < plies@.len() && is_slide(plies@[k], xx, yy, d, drops),
                decreases n - y,
            {
                let ghost before = plies@;
                self.push_cell_plies(x, y, color, table, &mut plies);
                assert forall|xx: int, yy: int, piece: Piece| #[trigger] is_possible_place(self, xx, yy, piece)
                    && (xx < x || (xx == x && yy < y + 1))
                    implies exists|k: int| 0 <= k < plies@.len() && is_place(plies@[k], xx, yy, piece) by {
                    if xx < x || (xx == x && yy < y) {
                        let k = choose|k: int| 0 <= k < before.len() && is_place(before[k], xx, yy, piece);
                        assert(plies@[k] == before[k]);
                    }
                }
                assert forall|xx: int, yy: int, d: Direction, drops: Seq<u8>| #[trigger] is_possible_slide(self, xx, yy, d, drops)
                    && (xx < x || (xx == x && yy < y + 1))
                    implies exists|k: int| 0 <= k < plies@.len() && is_slide(plies@[k], xx, yy, d, drops) by {
                    if xx < x || (xx == x && yy < y) {
                        let k = choose|k: int| 0 <= k < before.len() && is_slide(before[k], xx, yy, d, drops);
                        assert(plies@[k] == before[k]);
                    }
                }
                assert forall|k: int| 0 <= k < plies@.len() implies is_possible_ply(self, #[trigger] plies@[k]) by {
                    if k < before.len() {
                        assert(plies@[k] == before[k]);
                    }
                }
                assert forall|k: int| 0 <= k < plies@.len() implies (#[trigger] ply_origin(plies@[k])).0 < x
                    || (ply_origin(plies@[k]).0 == x && ply_origin(plies@[k]).1 < y + 1) by {
                    if k < before.len() {
                        assert(plies@[k] == before[k]);
                    }
                }
                assert forall|k1: int, k2: int| 0 <= k1 < k2 < plies@.len()
                    implies !same_ply(#[trigger] plies@[k1], #[trigger] plies@[k2]) by {
                    if k2 < before.len() {
                        assert(plies@[k1] == before[k1]);
                        assert(plies@[k2] == before[k2]);
                    } else if k1 < before.len() {
                        assert(plies@[k1] == before[k1]);
                        assert(ply_origin(plies@[k1]) != ply_origin(plies@[k2]));
                    }
                }
                y += 1;
            }
            x += 1;
        }
        plies
    }
}

} // verus!

verus! {

/// In the two opening plies on an empty board, the plies allowed are exactly the
/// placements of a flatstone of the player not to move, one on every cell; no
/// slide is allowed.
pub proof fn lemma_opening_plies(s: &State)
    requires
        s.is_well_formed(),
        s.ply_count < 2,
        forall|x: int, y: int| 0 <= x < s.size() && 0 <= y < s.size() ==> (#[trigger] s.stack(x, y)).len() == 0,
    ensures
        forall|x: int, y: int, piece: Piece| #[trigger] is_possible_place(s, x, y, piece) <==> (0 <= x < s.size() && 0
            <= y < s.size() && piece == Piece::Flatstone(s.to_move().opposite())),
        forall|x: int, y: int, d: Direction, drops: Seq<u8>| !#[trigger] is_possible_slide(s, x, y, d, drops),
        forall|p: Ply| #[trigger] is_possible_ply(s, p) ==> (p matches Ply::Place { piece, .. } && piece
            == Piece::Flatstone(s.to_move().opposite())),
{
}

} // verus!
