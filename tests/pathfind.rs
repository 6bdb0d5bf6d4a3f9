use mapgen::cellset::CellSet;
use mapgen::pathfind::{find_path, Astar, CostField};

fn lateral_steps(path: &[(i32, i32)]) -> bool {
    path.windows(2).all(|w| (w[0].0 - w[1].0).abs() + (w[0].1 - w[1].1).abs() == 1)
}

#[test]
fn straight_line_on_unit_costs() {
    let a = Astar::new(5, (0, 2), (4, 2));
    let p = a.calculate_path().unwrap();
    assert_eq!(p, vec![(0, 2), (1, 2), (2, 2), (3, 2), (4, 2)]);
}

#[test]
fn path_goes_around_a_wall() {
    let mut a = Astar::new(5, (0, 0), (4, 0));
    let mut wall = CellSet::new(5);
    for y in 0..4 {
        wall.insert((2, y));
    }
    a.set_impassable(wall);
    let p = a.calculate_path().unwrap();
    assert_eq!(p[0], (0, 0));
    assert_eq!(*p.last().unwrap(), (4, 0));
    assert!(lateral_steps(&p));
    assert!(p.iter().all(|c| c.0 != 2 || c.1 == 4));
    assert_eq!(p.len(), 13);
}

#[test]
fn unreachable_goal_gives_none() {
    let mut a = Astar::new(4, (0, 0), (3, 3));
    let mut wall = CellSet::new(4);
    for y in 0..4 {
        wall.insert((1, y));
    }
    a.set_impassable(wall);
    assert!(a.calculate_path().is_none());
}

#[test]
fn blocked_or_off_grid_ends_give_none() {
    let mut blocked = CellSet::new(3);
    blocked.insert((0, 0));
    let costs = CostField::new(3);
    assert!(find_path(&blocked, &costs, (0, 0), (2, 2)).is_none());
    assert!(find_path(&blocked, &costs, (1, 1), (3, 3)).is_none());
    assert_eq!(find_path(&blocked, &costs, (1, 1), (1, 1)), Some(vec![(1, 1)]));
}

#[test]
fn costs_steer_the_path() {
    let mut costs = CostField::new(3);
    costs.set((1, 0), 9);
    costs.set((1, 1), 9);
    assert_eq!(costs.get((1, 0)), 9);
    assert_eq!(costs.get((7, 7)), 1);
    let blocked = CellSet::new(3);
    let p = find_path(&blocked, &costs, (0, 0), (2, 0)).unwrap();
    assert_eq!(p, vec![(0, 0), (0, 1), (0, 2), (1, 2), (2, 2), (2, 1), (2, 0)]);
    let mut a = Astar::new(3, (0, 0), (2, 0));
    a.set_costs(costs);
    assert_eq!(a.calculate_path().unwrap().len(), 7);
}
