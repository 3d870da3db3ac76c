use algorithms::game_of_life::{
    is_alive, keeps_margin, life, neighbor_count, neighbors, step, Cell,
};

fn sorted(mut cells: Vec<Cell>) -> Vec<Cell> {
    cells.sort();
    cells
}

#[test]
fn eight_neighbors_column_by_column() {
    assert_eq!(
        neighbors((0, 0)),
        vec![(-1, -1), (-1, 0), (-1, 1), (0, -1), (0, 1), (1, -1), (1, 0), (1, 1)]
    );
    assert_eq!(
        neighbors((5, -3)),
        vec![(4, -4), (4, -3), (4, -2), (5, -4), (5, -2), (6, -4), (6, -3), (6, -2)]
    );
}

#[test]
fn neighbors_at_the_edge_of_the_range() {
    let ring = neighbors((i32::MAX - 1, i32::MIN + 1));
    assert!(ring.contains(&(i32::MAX, i32::MIN)));
    assert_eq!(ring.len(), 8);
}

#[test]
fn counting_live_neighbors() {
    let cells = vec![(0, 0), (1, 0), (2, 0), (5, 5)];
    assert_eq!(neighbor_count((1, 1), &cells), 3);
    assert_eq!(neighbor_count((1, 0), &cells), 2);
    assert_eq!(neighbor_count((0, 0), &cells), 1);
    assert_eq!(neighbor_count((5, 5), &cells), 0);
    assert_eq!(neighbor_count((9, 9), &cells), 0);
    assert_eq!(neighbor_count((1, 1), &vec![(0, 0), (0, 0), (0, 0)]), 1);
    assert!(is_alive(&cells, (5, 5)));
    assert!(!is_alive(&cells, (5, 6)));
}

#[test]
fn block_stays() {
    let block = vec![(0, 0), (0, 1), (1, 0), (1, 1)];
    assert_eq!(sorted(step(&block)), sorted(block));
}

#[test]
fn blinker_turns() {
    let flat = vec![(0, 1), (1, 1), (2, 1)];
    let upright = vec![(1, 0), (1, 1), (1, 2)];
    assert_eq!(sorted(step(&flat)), sorted(upright.clone()));
    assert_eq!(sorted(step(&upright)), sorted(flat.clone()));
    assert_eq!(sorted(life(flat.clone(), 2)), sorted(flat.clone()));
    assert_eq!(sorted(life(flat, 7)), sorted(upright));
}

#[test]
fn glider_moves_one_cell_in_four_generations() {
    let glider = vec![(1, 0), (2, 1), (0, 2), (1, 2), (2, 2)];
    let moved: Vec<Cell> = glider.iter().map(|&(x, y)| (x + 1, y + 1)).collect();
    assert_eq!(sorted(life(glider.clone(), 4)), sorted(moved));
    let far: Vec<Cell> = glider.iter().map(|&(x, y)| (x + 5, y + 5)).collect();
    assert_eq!(sorted(life(glider, 20)), sorted(far));
}

#[test]
fn lonely_cells_die_and_nothing_comes_of_nothing() {
    assert_eq!(step(&vec![(3, 3)]), vec![]);
    assert_eq!(step(&vec![(0, 0), (1, 0)]), vec![]);
    assert_eq!(step(&vec![]), vec![]);
    assert_eq!(life(vec![], 10), vec![]);
}

#[test]
fn crowded_cell_dies() {
    let plus = vec![(1, 1), (0, 1), (2, 1), (1, 0), (1, 2)];
    let next = step(&plus);
    assert!(!next.contains(&(1, 1)));
    assert_eq!(
        sorted(next),
        sorted(vec![(0, 0), (1, 0), (2, 0), (0, 1), (2, 1), (0, 2), (1, 2), (2, 2)])
    );
}

#[test]
fn no_generation_leaves_the_cells_as_they_are() {
    let cells = vec![(2, 1), (0, 1), (2, 1)];
    assert_eq!(life(cells.clone(), 0), cells);
}

#[test]
fn cell_that_is_listed_twice_lives_once() {
    let flat = vec![(0, 1), (1, 1), (2, 1), (1, 1), (0, 1)];
    assert_eq!(sorted(step(&flat)), vec![(1, 0), (1, 1), (1, 2)]);
}

#[test]
fn step_lists_each_cell_once() {
    let cells = vec![(0, 0), (1, 0), (2, 0), (0, 1), (1, 1), (2, 2), (3, 1)];
    let next = step(&cells);
    let mut unique = next.clone();
    unique.sort();
    unique.dedup();
    assert_eq!(unique.len(), next.len());
}

#[test]
fn step_near_the_edge_of_the_range() {
    let x = i32::MAX - 2;
    let y = i32::MIN + 2;
    let flat = vec![(x - 2, y + 1), (x - 1, y + 1), (x, y + 1)];
    assert_eq!(sorted(step(&flat)), vec![(x - 1, y), (x - 1, y + 1), (x - 1, y + 2)]);
}

#[test]
fn margin_of_the_cells() {
    assert!(keeps_margin(&vec![], 5));
    assert!(keeps_margin(&vec![], usize::MAX));
    assert!(keeps_margin(&vec![(0, 0), (i32::MAX - 2, i32::MIN + 2)], 2));
    assert!(!keeps_margin(&vec![(0, 0), (i32::MAX - 1, 0)], 2));
    assert!(!keeps_margin(&vec![(0, i32::MIN + 1)], 2));
    assert!(keeps_margin(&vec![(i32::MAX, i32::MIN)], 0));
    assert!(keeps_margin(&vec![(0, -1)], 0x7fff_ffff));
    assert!(!keeps_margin(&vec![(0, 0)], usize::MAX));
    assert!(!keeps_margin(&vec![(1, 0)], 0x7fff_ffff));
}
