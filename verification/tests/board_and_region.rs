use goban::board::Board;
use goban::region::{flood_fill, neighbors_indices};
use goban::stones::{get_stone_name_from_stone, Stone, BLACK_STONE, EMPTY, WHITE_STONE};

#[test]
fn board_sizes_are_clamped() {
    assert_eq!(Board::new(9).side(), 9);
    assert_eq!(Board::new(13).side(), 13);
    assert_eq!(Board::new(19).side(), 19);
    assert_eq!(Board::new(0).side(), 19);
    assert_eq!(Board::new(10).side(), 19);
    assert_eq!(Board::new(100).side(), 19);
}

#[test]
fn new_board_is_empty() {
    let b = Board::new(9);
    for i in 0..9 {
        for j in 0..9 {
            assert_eq!(b.get((i, j)), Stone::Empty);
        }
    }
}

#[test]
fn set_get_and_equality() {
    let mut a = Board::new(9);
    let mut b = Board::new(9);
    assert!(a.equals(&b));
    a.set((4, 4), Stone::Black);
    assert_eq!(a.get((4, 4)), Stone::Black);
    assert!(!a.equals(&b));
    b.set((4, 4), Stone::Black);
    assert!(a.equals(&b));
    let c = a.duplicate();
    assert!(c.equals(&a));
    a.set((0, 0), Stone::White);
    assert!(!c.equals(&a));
}

#[test]
fn boards_of_different_sizes_differ() {
    let a = Board::new(9);
    let b = Board::new(13);
    assert!(!a.equals(&b));
}

#[test]
fn stone_names() {
    assert_eq!(get_stone_name_from_stone(Stone::Black), "Black");
    assert_eq!(get_stone_name_from_stone(Stone::White), "White");
    assert_eq!(get_stone_name_from_stone(Stone::Empty), "PASS");
    assert_eq!(BLACK_STONE, Stone::Black);
    assert_eq!(WHITE_STONE, Stone::White);
    assert_eq!(EMPTY, Stone::Empty);
}

#[test]
fn stone_opposite() {
    assert_eq!(Stone::Black.opposite(), Stone::White);
    assert_eq!(Stone::White.opposite(), Stone::Black);
    assert_eq!(Stone::Empty.opposite(), Stone::Empty);
}

#[test]
fn neighbors_in_centre_and_corner() {
    let centre = neighbors_indices((4, 4), 9);
    assert_eq!(centre.len(), 4);
    assert!(centre.contains(&(3, 4)));
    assert!(centre.contains(&(5, 4)));
    assert!(centre.contains(&(4, 3)));
    assert!(centre.contains(&(4, 5)));
    let corner = neighbors_indices((0, 0), 9);
    assert_eq!(corner.len(), 2);
    assert!(corner.contains(&(1, 0)));
    assert!(corner.contains(&(0, 1)));
    let edge = neighbors_indices((0, 4), 9);
    assert_eq!(edge.len(), 3);
}

#[test]
fn neighbors_come_in_fixed_order() {
    // above, below, left, right, each present exactly when on the grid
    assert_eq!(neighbors_indices((4, 4), 9), vec![(3, 4), (5, 4), (4, 3), (4, 5)]);
    assert_eq!(neighbors_indices((0, 0), 9), vec![(1, 0), (0, 1)]);
    assert_eq!(neighbors_indices((8, 8), 9), vec![(7, 8), (8, 7)]);
    assert_eq!(neighbors_indices((0, 4), 9), vec![(1, 4), (0, 3), (0, 5)]);
}

#[test]
fn flood_fill_single_stone_group_and_border() {
    let mut b = Board::new(9);
    b.set((2, 2), Stone::Black);
    let region = flood_fill(&b, (2, 2), true, false);
    assert_eq!(region.group, vec![(2, 2)]);
    assert_eq!(region.border.len(), 4);
    assert!(region.border.contains(&(1, 2)));
    assert!(region.border.contains(&(3, 2)));
    assert!(region.border.contains(&(2, 1)));
    assert!(region.border.contains(&(2, 3)));
    // every group member matches the start cell, every border member differs
    for c in &region.group {
        assert_eq!(b.get(*c), Stone::Black);
    }
    for c in &region.border {
        assert!(b.get(*c) != Stone::Black);
    }
}

#[test]
fn flood_fill_connected_chain() {
    let mut b = Board::new(9);
    b.set((0, 0), Stone::White);
    b.set((0, 1), Stone::White);
    b.set((1, 1), Stone::White);
    // a separate white stone does not belong to the group
    b.set((5, 5), Stone::White);
    let region = flood_fill(&b, (0, 0), true, false);
    assert_eq!(region.group.len(), 3);
    assert!(region.group.contains(&(0, 0)));
    assert!(region.group.contains(&(0, 1)));
    assert!(region.group.contains(&(1, 1)));
    assert!(!region.group.contains(&(5, 5)));
    // liberties of the chain
    assert!(region.border.contains(&(1, 0)));
    assert!(region.border.contains(&(0, 2)));
    assert!(region.border.contains(&(2, 1)));
    assert!(region.border.contains(&(1, 2)));
    assert_eq!(region.border.len(), 4);
}

#[test]
fn flood_fill_without_border_leaves_it_empty() {
    let mut b = Board::new(9);
    b.set((2, 2), Stone::Black);
    let region = flood_fill(&b, (2, 2), false, false);
    assert_eq!(region.group, vec![(2, 2)]);
    assert!(region.border.is_empty());
}

#[test]
fn flood_fill_visits_no_coordinate_twice() {
    let b = Board::new(9);
    let region = flood_fill(&b, (4, 4), true, false);
    // the whole empty board is one region
    assert_eq!(region.group.len(), 81);
    let mut seen = vec![vec![false; 9]; 9];
    for (x, y) in &region.group {
        assert!(!seen[*x][*y]);
        seen[*x][*y] = true;
    }
    assert!(region.border.is_empty());
}

#[test]
fn flood_fill_territory_mode_crosses_empty_cells() {
    let mut b = Board::new(9);
    b.set((0, 0), Stone::Black);
    b.set((0, 2), Stone::Black);
    // liberty mode stops at the empty cell between the stones
    let liberty = flood_fill(&b, (0, 0), true, false);
    assert_eq!(liberty.group, vec![(0, 0)]);
    // territory mode walks through it and reaches the second stone
    let territory = flood_fill(&b, (0, 0), false, true);
    assert!(territory.group.contains(&(0, 2)));
    assert!(territory.group.contains(&(0, 1)));
}
