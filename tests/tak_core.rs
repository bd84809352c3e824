use takkerus::bitmap::{Bitmap, BitmapInterface};
use takkerus::game::{Color, Direction, Piece, Seat, State};
use takkerus::masks::{board_mask, direction_index, edge_masks, generate_board_masks, generate_edge_masks};
use takkerus::moves::Extrapolatable;
use takkerus::ply::Ply;
use takkerus::slides::generate_slide_table;
use takkerus::state_analysis::{analyze, StateAnalysis};

fn empty_state(size: usize, ply_count: u16, capstones: u8) -> State {
    State {
        p1: Seat::new(Color::White, 21, capstones),
        p2: Seat::new(Color::Black, 21, capstones),
        board: vec![vec![Vec::new(); size]; size],
        ply_count,
    }
}

fn drop_sum(d: &[u8]) -> u32 {
    d.iter().map(|&v| v as u32).sum()
}

#[test]
fn slide_table_counts() {
    let table = generate_slide_table(8);
    assert_eq!(table.len(), 9);
    assert!(table[0].is_empty());
    for h in 1..=8usize {
        let expected: usize = (1..=h).map(|g| 1usize << (g - 1)).sum();
        assert_eq!(table[h].len(), expected);
        for d in &table[h] {
            assert!(!d.is_empty());
            assert!(d.iter().all(|&v| v > 0));
            let s = drop_sum(d);
            assert!(s >= 1 && s as usize <= h);
        }
        for i in 0..table[h].len() {
            for j in (i + 1)..table[h].len() {
                assert_ne!(table[h][i], table[h][j]);
            }
        }
    }
}

#[test]
fn slide_table_height_two() {
    let table = generate_slide_table(3);
    let mut e = table[2].clone();
    e.sort();
    assert_eq!(e, vec![vec![1], vec![1, 1], vec![2]]);
}

#[test]
fn bitmap_set_get_clear() {
    let mut b: Bitmap = 0;
    b.set(1, 2, 5);
    assert_eq!(b, 1u64 << (5 - 1 - 1 + 2 * 5));
    assert!(b.get(1, 2, 5));
    assert!(!b.get(2, 1, 5));
    b.set(0, 0, 5);
    assert_eq!(b & (1 << 4), 1 << 4);
    b.clear(1, 2, 5);
    assert!(!b.get(1, 2, 5));
    assert!(b.get(0, 0, 5));
}

#[test]
fn bitmap_cells_are_isolated() {
    for stride in 3..=8usize {
        for x in 0..stride {
            for y in 0..stride {
                let mut b: Bitmap = 0;
                b.set(x, y, stride);
                for x2 in 0..stride {
                    for y2 in 0..stride {
                        assert_eq!(b.get(x2, y2, stride), x2 == x && y2 == y);
                    }
                }
                let mut c: Bitmap = u64::MAX;
                c.clear(x, y, stride);
                assert!(!c.get(x, y, stride));
                assert_eq!(c.count_ones(), 63);
            }
        }
    }
}

#[test]
fn groups_of_empty_map() {
    let b: Bitmap = 0;
    assert!(b.get_groups(5).is_empty());
}

#[test]
fn groups_row_spans_board() {
    let mut b: Bitmap = 0;
    for x in 0..5 {
        b.set(x, 2, 5);
    }
    let groups = b.get_groups(5);
    assert_eq!(groups.len(), 1);
    let edges = edge_masks(5);
    assert_ne!(groups[0] & edges[direction_index(Direction::East)], 0);
    assert_ne!(groups[0] & edges[direction_index(Direction::West)], 0);
    assert_eq!(groups[0] & edges[direction_index(Direction::North)], 0);
}

#[test]
fn groups_do_not_wrap_rows() {
    let mut b: Bitmap = 0;
    b.set(0, 0, 5);
    b.set(4, 1, 5);
    let groups = b.get_groups(5);
    assert_eq!(groups.len(), 2);
    assert_eq!(groups[0] | groups[1], b);
    assert_eq!(groups[0] & groups[1], 0);
}

#[test]
fn groups_split_and_join() {
    let mut b: Bitmap = 0;
    b.set(0, 0, 4);
    b.set(1, 1, 4);
    assert_eq!(b.get_groups(4).len(), 2);
    b.set(1, 0, 4);
    assert_eq!(b.get_groups(4), vec![b]);
    b.set(3, 3, 4);
    b.set(3, 2, 4);
    let groups = b.get_groups(4);
    assert_eq!(groups.len(), 2);
    assert_eq!(groups[0] | groups[1], b);
    assert_eq!(groups[0] & groups[1], 0);
}

#[test]
fn masks_for_five() {
    let e = edge_masks(5);
    assert_eq!(e[direction_index(Direction::South)], 0b11111);
    assert_eq!(e[direction_index(Direction::North)], 0b11111 << 20);
    assert_eq!(e[direction_index(Direction::East)], 1 | 1 << 5 | 1 << 10 | 1 << 15 | 1 << 20);
    assert_eq!(e[direction_index(Direction::West)], (1 | 1 << 5 | 1 << 10 | 1 << 15 | 1 << 20) << 4);
    assert_eq!(board_mask(5), (1 << 25) - 1);
    assert_eq!(board_mask(8), u64::MAX);
    let all = generate_edge_masks();
    assert_eq!(all.len(), 9);
    assert_eq!(all[5], e);
    assert_eq!(all[2], [0, 0, 0, 0]);
    let boards = generate_board_masks();
    assert_eq!(boards[3], 0x1ff);
    assert_eq!(boards[0], 0);
}

#[test]
fn opening_plies_place_opponent_flats() {
    let table = generate_slide_table(8);
    for (ply_count, color) in [(0u16, Color::Black), (1u16, Color::White)] {
        for n in 3..=8usize {
            let state = empty_state(n, ply_count, 1);
            let plies = state.get_possible_plies(&table);
            assert_eq!(plies.len(), n * n);
            for p in &plies {
                match p {
                    Ply::Place { piece, .. } => assert_eq!(*piece, Piece::Flatstone(color)),
                    Ply::Slide { .. } => panic!("slide in the opening"),
                }
            }
        }
    }
}

#[test]
fn corner_stack_slides() {
    let table = generate_slide_table(8);
    let mut state = empty_state(3, 2, 0);
    state.board[0][0] = vec![Piece::Flatstone(Color::White); 3];
    let plies = state.get_possible_plies(&table);
    let slides: Vec<(Direction, Vec<u8>)> = plies
        .iter()
        .filter_map(|p| match p {
            Ply::Slide { x, y, direction, drops } => {
                assert_eq!((*x, *y), (0, 0));
                Some((*direction, drops.clone()))
            }
            _ => None,
        })
        .collect();
    assert!(slides.contains(&(Direction::North, vec![1])));
    assert!(slides.contains(&(Direction::East, vec![1])));
    assert!(slides.iter().all(|(d, _)| *d == Direction::North || *d == Direction::East));
    assert!(slides.iter().all(|(_, drops)| drops.len() <= 2));
    assert_eq!(slides.len(), 12);
    let places = plies.len() - slides.len();
    assert_eq!(places, 8 * 2);
}

#[test]
fn capstone_placement_needs_a_capstone() {
    let table = generate_slide_table(8);
    let with = empty_state(4, 3, 1).get_possible_plies(&table);
    assert_eq!(with.len(), 16 * 3);
    assert!(with.contains(&Ply::Place { x: 2, y: 1, piece: Piece::Capstone(Color::Black) }));
    let without = empty_state(4, 3, 0).get_possible_plies(&table);
    assert_eq!(without.len(), 16 * 2);
    assert!(without.iter().all(|p| !matches!(p, Ply::Place { piece: Piece::Capstone(_), .. })));
}

#[test]
fn enemy_stack_gives_no_slides() {
    let table = generate_slide_table(8);
    let mut state = empty_state(3, 2, 0);
    state.board[1][1] = vec![Piece::Flatstone(Color::Black)];
    let plies = state.get_possible_plies(&table);
    assert_eq!(plies.len(), 8 * 2);
}

#[test]
fn analysis_starts_empty() {
    let a = StateAnalysis::new();
    assert_eq!(a.p1_pieces, 0);
    assert_eq!(a.p2_total_road, 0);
    assert!(a.p1_road_groups.is_empty());
    assert_eq!(a.p2_flatstone_count, 0);
}

#[test]
fn analysis_of_small_board() {
    let mut state = empty_state(3, 4, 0);
    state.board[0][0] = vec![Piece::Flatstone(Color::White)];
    state.board[1][0] = vec![Piece::Capstone(Color::White)];
    state.board[2][0] = vec![Piece::Flatstone(Color::White), Piece::StandingStone(Color::Black)];
    state.board[1][1] = vec![Piece::Flatstone(Color::Black)];
    state.board[2][2] = vec![Piece::Flatstone(Color::White)];
    let a = analyze(&state);
    assert_eq!(a.p1_flatstone_count, 2);
    assert_eq!(a.p2_flatstone_count, 1);
    let mut p1: Bitmap = 0;
    p1.set(0, 0, 3);
    p1.set(1, 0, 3);
    p1.set(2, 2, 3);
    assert_eq!(a.p1_pieces, p1);
    assert_eq!(a.p1_total_road, p1);
    let mut p2: Bitmap = 0;
    p2.set(2, 0, 3);
    p2.set(1, 1, 3);
    assert_eq!(a.p2_pieces, p2);
    let mut p2_road: Bitmap = 0;
    p2_road.set(1, 1, 3);
    assert_eq!(a.p2_total_road, p2_road);
    assert_eq!(a.p1_road_groups.len(), 2);
    assert_eq!(a.p2_road_groups, vec![p2_road]);
}

#[test]
fn slides_over_blocking_pieces_are_generated() {
    // Generation is permissive: a slide whose path crosses a standing stone or a
    // capstone is still listed; rejecting it is left to applying the ply.
    let table = generate_slide_table(8);
    let mut state = empty_state(3, 2, 0);
    state.board[0][0] = vec![Piece::Flatstone(Color::White); 2];
    state.board[0][1] = vec![Piece::StandingStone(Color::Black)];
    state.board[1][0] = vec![Piece::Capstone(Color::Black)];
    let plies = state.get_possible_plies(&table);
    let north_onto_wall = Ply::Slide { x: 0, y: 0, direction: Direction::North, drops: vec![1] };
    let north_past_wall = Ply::Slide { x: 0, y: 0, direction: Direction::North, drops: vec![1, 1] };
    let east_onto_cap = Ply::Slide { x: 0, y: 0, direction: Direction::East, drops: vec![2] };
    assert!(plies.contains(&north_onto_wall));
    assert!(plies.contains(&north_past_wall));
    assert!(plies.contains(&east_onto_cap));
    for i in 0..plies.len() {
        for j in (i + 1)..plies.len() {
            assert_ne!(plies[i], plies[j]);
        }
    }
}

#[test]
fn road_bits_stay_on_board() {
    let mut state = empty_state(3, 2, 0);
    for x in 0..3 {
        for y in 0..3 {
            state.board[x][y] = vec![Piece::Flatstone(Color::White)];
        }
    }
    let a = analyze(&state);
    assert_eq!(a.p1_total_road, board_mask(3));
    assert_eq!(a.p1_pieces & !board_mask(3), 0);
    assert_eq!(a.p1_road_groups, vec![board_mask(3)]);
    assert_eq!(a.p1_flatstone_count, 9);
}

#[test]
fn groups_grow_from_lowest_remaining_bit() {
    let mut b: Bitmap = 0;
    b.set(4, 0, 5);
    b.set(0, 0, 5);
    b.set(2, 3, 5);
    let groups = b.get_groups(5);
    assert_eq!(groups.len(), 3);
    let mut left = b;
    for g in &groups {
        let low = left & left.wrapping_neg();
        assert_eq!(low & !g, 0);
        left &= !g;
    }
    assert_eq!(left, 0);
}
