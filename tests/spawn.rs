use sandfall::grid::{Cell, World};
use sandfall::spawn::SPAWN_RATE;

#[test]
fn spawn_fills_only_the_top_row() {
    let mut w = World::new(6, 4);
    for _ in 0..10 {
        w.spawn_sand(SPAWN_RATE);
    }
    let top = (0..6).filter(|x| w.get(0, *x) == Ok(Cell::Material)).count();
    assert!(top >= 1);
    assert!(w.grid[6..].iter().all(|c| *c == Cell::Empty));
}

#[test]
fn spawn_on_single_column_fills_it() {
    let mut w = World::new(1, 2);
    w.spawn_sand(1);
    assert_eq!(w.grid, vec![Cell::Material, Cell::Empty]);
}

#[test]
fn spawn_trial_count_bounds_new_material() {
    let mut w = World::new(50, 2);
    w.spawn_sand(3);
    let n = w.grid.iter().filter(|c| **c == Cell::Material).count();
    assert!(n >= 1 && n <= 3);
    let mut w = World::new(50, 2);
    w.spawn_sand(0);
    assert!(w.grid.iter().all(|c| *c == Cell::Empty));
}

#[test]
fn spawn_on_full_top_row_is_a_no_op() {
    let mut w = World::new(4, 3);
    for x in 0..4 {
        w.set(0, x, Cell::Material).unwrap();
    }
    w.set(2, 1, Cell::Material).unwrap();
    let before = w.grid.clone();
    for _ in 0..20 {
        w.spawn_sand(SPAWN_RATE);
        assert_eq!(w.grid, before);
    }
}

#[test]
fn spawn_at_chosen_columns() {
    let mut w = World::new(5, 2);
    w.set(0, 4, Cell::Material).unwrap();
    w.spawn_at(&vec![1, 3, 1, 4]);
    assert_eq!(
        w.grid,
        vec![
            Cell::Empty,
            Cell::Material,
            Cell::Empty,
            Cell::Material,
            Cell::Material,
            Cell::Empty,
            Cell::Empty,
            Cell::Empty,
            Cell::Empty,
            Cell::Empty,
        ]
    );
}
