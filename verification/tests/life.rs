use std::collections::HashMap;

use life_cycles::board::Board;
use life_cycles::cell::CellState;
use life_cycles::cycle::find_cycle;
use life_cycles::search::find_cycles;
use life_cycles::step::next_gen;

fn sum_counts(freq: &HashMap<usize, usize>) -> u64 {
    let mut total: u64 = 0;
    for (_, count) in freq.iter() {
        total += *count as u64;
    }
    total
}

#[test]
fn cell_conversions() {
    assert_eq!(CellState::from(0u64), CellState::Dead);
    assert_eq!(CellState::from(1u64), CellState::Alive);
    // The lenient variant: any nonzero value counts as alive.
    assert_eq!(CellState::from(7u64), CellState::Alive);
    assert_eq!(CellState::from(true), CellState::Alive);
    assert_eq!(CellState::from(false), CellState::Dead);
    assert!(CellState::Alive.is_alive());
    assert!(!CellState::Alive.is_dead());
    assert!(CellState::Dead.is_dead());
    assert!(!CellState::Dead.is_alive());
    assert_eq!(CellState::Alive.bit(), 1);
    assert_eq!(CellState::Dead.bit(), 0);
}

#[test]
fn new_board_is_all_dead() {
    let b = Board::new(4, 4);
    assert_eq!(b.width, 4);
    assert_eq!(b.height, 4);
    assert_eq!(b.cells.len(), 16);
    for cell in b.cells.iter() {
        assert!(cell.is_dead());
    }
}

#[test]
fn replace_with_conf_follows_bits() {
    let mut b = Board::new(4, 4);
    b.replace_with_conf(0b0110);
    assert!(b.cells[0].is_dead());
    assert!(b.cells[1].is_alive());
    assert!(b.cells[2].is_alive());
    assert!(b.cells[3].is_dead());
    for i in 4..16 {
        assert!(b.cells[i].is_dead());
    }
    b.replace_with_conf(0xFFFF);
    for cell in b.cells.iter() {
        assert!(cell.is_alive());
    }
    b.replace_with_conf(0);
    for cell in b.cells.iter() {
        assert!(cell.is_dead());
    }
}

#[test]
fn single_cell_board_is_its_own_eightfold_neighbor() {
    let mut b = Board::new(1, 1);
    assert_eq!(b.alive_neighbor_count(0, 0), 0);
    b.replace_with_conf(1);
    assert_eq!(b.alive_neighbor_count(0, 0), 8);
}

#[test]
fn single_cell_board_transition() {
    // An alive 1x1 cell has eight alive neighbors (all itself), which is
    // neither three nor two: it dies, and the packed state is zero.
    let mut current = Board::new(1, 1);
    let mut next = Board::new(1, 1);
    current.replace_with_conf(1);
    let packed = next_gen(&mut current, &mut next);
    assert_eq!(packed, 0);
    assert!(next.cells[0].is_dead());
    // A dead 1x1 cell has zero alive neighbors and stays dead.
    current.replace_with_conf(0);
    let packed = next_gen(&mut current, &mut next);
    assert_eq!(packed, 0);
    assert!(next.cells[0].is_dead());
}

#[test]
fn two_by_two_neighbor_aliasing() {
    // With a single alive cell at (0, 0), wraparound aliases that cell into
    // the neighbor slots of the others: twice for the cells sharing a row or
    // column, four times for the diagonal one, and never for itself.
    let mut b = Board::new(2, 2);
    b.replace_with_conf(0b0001);
    assert_eq!(b.alive_neighbor_count(0, 0), 0);
    assert_eq!(b.alive_neighbor_count(0, 1), 2);
    assert_eq!(b.alive_neighbor_count(1, 0), 2);
    assert_eq!(b.alive_neighbor_count(1, 1), 4);
}

#[test]
fn all_alive_boards_count_eight_neighbors() {
    let mut b = Board::new(2, 2);
    b.replace_with_conf(0b1111);
    for row in 0..2 {
        for col in 0..2 {
            assert_eq!(b.alive_neighbor_count(row, col), 8);
        }
    }
    let mut b = Board::new(4, 4);
    b.replace_with_conf(0xFFFF);
    for row in 0..4 {
        for col in 0..4 {
            assert_eq!(b.alive_neighbor_count(row, col), 8);
        }
    }
}

#[test]
fn stepping_is_deterministic() {
    let conf: u64 = 0b0000_0110_0110_0000;
    let mut current1 = Board::new(4, 4);
    let mut current2 = Board::new(4, 4);
    let mut next1 = Board::new(4, 4);
    let mut next2 = Board::new(4, 4);
    current1.replace_with_conf(conf);
    current2.replace_with_conf(conf);
    let packed1 = next_gen(&mut current1, &mut next1);
    let packed2 = next_gen(&mut current2, &mut next2);
    assert_eq!(packed1, packed2);
    // Repeating the very same call also reproduces the packed state.
    let packed3 = next_gen(&mut current1, &mut next1);
    assert_eq!(packed1, packed3);
}

#[test]
fn two_by_two_steps_by_hand() {
    // One alive cell at (0, 0): it sees no alive neighbor and dies of
    // isolation; the cells sharing its row or column see it twice but birth
    // needs exactly three neighbors, so they stay dead; the diagonal cell
    // sees four.  The board dies out: packed 0.
    let mut current = Board::new(2, 2);
    let mut next = Board::new(2, 2);
    current.replace_with_conf(0b0001);
    let packed = next_gen(&mut current, &mut next);
    assert_eq!(packed, 0);
    // The pair at (0, 0) and (0, 1): each alive cell sees the other twice
    // and survives with two neighbors; each dead cell sees four and two,
    // which is six, and stays dead.  The pair is a still life: packed 0b0011.
    current.replace_with_conf(0b0011);
    let packed = next_gen(&mut current, &mut next);
    assert_eq!(packed, 0b0011);
}

#[test]
fn two_by_two_cycles_by_hand() {
    // The trajectory of 0b0001 is all-dead from frame 0 on; the all-dead
    // state first seen at frame 0 repeats at frame 1: the detector reports
    // (0, 1), a cycle of length one.
    let mut b1 = Board::new(2, 2);
    let mut b2 = Board::new(2, 2);
    b1.replace_with_conf(0b0001);
    let (start, end) = find_cycle(&mut b1, &mut b2);
    assert_eq!(start, 0);
    assert_eq!(end, 1);
    // The still-life pair 0b0011 repeats itself immediately: also (0, 1).
    b1.replace_with_conf(0b0011);
    let (start, end) = find_cycle(&mut b1, &mut b2);
    assert_eq!(start, 0);
    assert_eq!(end, 1);
}

#[test]
fn all_dead_reports_unit_cycle() {
    // The all-dead configuration is a fixed point; the detector reports it
    // as start 0, end 1: cycle length one by this library's convention.
    let mut b1 = Board::new(4, 4);
    let mut b2 = Board::new(4, 4);
    let (start, end) = find_cycle(&mut b1, &mut b2);
    assert_eq!(start, 0);
    assert_eq!(end, 1);
}

#[test]
fn all_alive_collapses_to_unit_cycle() {
    // Every cell of the all-alive board has eight alive neighbors, so the
    // whole board dies in one step and then repeats the all-dead state.
    let mut b1 = Board::new(4, 4);
    let mut b2 = Board::new(4, 4);
    b1.replace_with_conf(0xFFFF);
    let (start, end) = find_cycle(&mut b1, &mut b2);
    assert_eq!(start, 0);
    assert_eq!(end, 1);
}

#[test]
fn exhaustive_search_one_by_one() {
    // Both 1x1 configurations die immediately and repeat the dead state:
    // cycle length one, twice.
    let freq = find_cycles(1, 1);
    assert_eq!(freq.len(), 1);
    assert_eq!(freq.get(&1), Some(&2));
}

#[test]
fn exhaustive_search_two_by_two_counts_every_configuration() {
    let freq = find_cycles(2, 2);
    assert_eq!(sum_counts(&freq), 16);
    for (period, count) in freq.iter() {
        assert!(*period >= 1);
        assert!(*count >= 1);
    }
}

#[test]
fn exhaustive_search_four_by_four_counts_every_configuration() {
    let freq = find_cycles(4, 4);
    assert_eq!(sum_counts(&freq), 65536);
    for (period, count) in freq.iter() {
        assert!(*period >= 1);
        assert!(*count >= 1);
    }
}
