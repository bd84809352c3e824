use vstd::prelude::*;
use crate::game::{Direction, Piece};

verus! {

/// One action: place a piece on a cell, or carry stones off a stack.
#[derive(Clone, Debug, PartialEq)]
pub enum Ply {
    Place { x: usize, y: usize, piece: Piece },
    /// `drops[i]` stones are left on the (i + 1)-th cell from (x, y) in `direction`.
    Slide { x: usize, y: usize, direction: Direction, drops: Vec<u8> },
}

pub open spec fn is_place(p: Ply, x: int, y: int, piece: Piece) -> bool {
    &&& p matches Ply::Place { x: px, y: py, piece: pp }
    &&& px == x && py == y && pp == piece
}

pub open spec fn is_slide(p: Ply, x: int, y: int, direction: Direction, drops: Seq<u8>) -> bool {
    &&& p matches Ply::Slide { x: px, y: py, direction: pd, drops: pdrops }
    &&& px == x && py == y && pd == direction && pdrops@ == drops
}

/// Two plies with the same fields; drop counts are compared by value.
pub open spec fn same_ply(p: Ply, q: Ply) -> bool {
    match p {
        Ply::Place { x, y, piece } => is_place(q, x as int, y as int, piece),
        Ply::Slide { x, y, direction, drops } => is_slide(q, x as int, y as int, direction, drops@),
    }
}

/// The cell a ply is played on or slides from.
pub open spec fn ply_origin(p: Ply) -> (int, int) {
    match p {
        Ply::Place { x, y, .. } => (x as int, y as int),
        Ply::Slide { x, y, .. } => (x as int, y as int),
    }
}

} // verus!
