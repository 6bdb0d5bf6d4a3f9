use mapgen::cellset::CellSet;
use mapgen::regions::VoronoiTiling;
use mapgen::rivers::{carve_river, costs_from_draws, create_rivers, farthest_corner, random_costs, MAX_COST, MAX_RIVERS};

fn land(size: usize) -> VoronoiTiling {
    let mut t = VoronoiTiling::new(size);
    for y in 0..size as i32 {
        for x in 0..size as i32 {
            t.add_open((x, y));
        }
    }
    t
}

#[test]
fn corner_farthest_from_start() {
    assert_eq!(farthest_corner((1, 1), 10), (9, 9));
    assert_eq!(farthest_corner((8, 1), 10), (0, 9));
    assert_eq!(farthest_corner((5, 5), 11), (0, 0));
    assert_eq!(farthest_corner((0, 0), 1), (0, 0));
}

#[test]
fn carving_thickens_and_clips() {
    let mut t = land(6);
    t.remove_open((3, 2));
    let mut water = CellSet::new(6);
    water.insert((3, 2));
    water.insert((0, 0));
    let mut obstacles = CellSet::new(6);
    let path = vec![(1, 2), (2, 2), (3, 2), (4, 2)];
    let cut = carve_river(&mut t, &mut water, &mut obstacles, path);
    assert_eq!(cut.path, vec![(1, 2), (2, 2)]);
    let mut cells = cut.cells.clone();
    cells.sort();
    let mut expect = vec![];
    for x in 0..4 {
        for y in 1..4 {
            expect.push((x, y));
        }
    }
    expect.sort();
    assert_eq!(cells, expect);
    for c in &expect {
        assert!(!t.open_contains(*c));
        assert!(water.contains(*c));
        assert!(obstacles.contains(*c));
    }
    // the ring around carved land is blocked too, and nothing farther out
    assert!(obstacles.contains((0, 0)));
    assert!(obstacles.contains((4, 4)));
    assert!(!obstacles.contains((5, 2)));
    assert!(!obstacles.contains((0, 5)));
    assert_eq!(t.open_len(), 36 - 12);
}

#[test]
fn path_that_starts_off_land_carves_nothing() {
    let mut t = land(4);
    t.remove_open((0, 0));
    let mut water = CellSet::new(4);
    let mut obstacles = CellSet::new(4);
    let cut = carve_river(&mut t, &mut water, &mut obstacles, vec![(0, 0), (1, 0)]);
    assert!(cut.path.is_empty());
    assert!(cut.cells.is_empty());
    assert_eq!(t.open_len(), 15);
}

#[test]
fn rivers_do_not_cross() {
    for seed in 0..20u64 {
        let mut t = land(16);
        let mut water = CellSet::new(16);
        let mut rng = fastrand::Rng::with_seed(seed);
        let rivers = create_rivers(&mut t, &mut water, &mut rng);
        assert!(rivers.len() <= MAX_RIVERS);
        for (i, r) in rivers.iter().enumerate() {
            assert!(!r.path.is_empty());
            for later in rivers.iter().skip(i + 1) {
                for c in &later.path {
                    assert!(!r.cells.contains(c));
                }
                for c in &later.cells {
                    assert!(!r.cells.contains(c));
                }
            }
            for c in &r.cells {
                assert!(!t.open_contains(*c));
                assert!(water.contains(*c));
            }
        }
    }
}

#[test]
fn rivers_repeat_for_a_seed() {
    let run = || {
        let mut t = land(12);
        let mut water = CellSet::new(12);
        let mut rng = fastrand::Rng::with_seed(99);
        create_rivers(&mut t, &mut water, &mut rng).into_iter().map(|r| r.cells).collect::<Vec<_>>()
    };
    assert_eq!(run(), run());
}

#[test]
fn no_land_no_rivers() {
    let mut t = VoronoiTiling::new(5);
    let mut water = CellSet::new(5);
    let mut rng = fastrand::Rng::with_seed(1);
    assert!(create_rivers(&mut t, &mut water, &mut rng).is_empty());
}

#[test]
fn random_costs_in_range() {
    let mut rng = fastrand::Rng::with_seed(5);
    let c = random_costs(6, &mut rng);
    for y in 0..6 {
        for x in 0..6 {
            let v = c.get((x, y)) as i32;
            assert!(v >= 1 && v < MAX_COST);
        }
    }
}

#[test]
fn costs_follow_the_draws() {
    let c = costs_from_draws(2, &vec![1, 2, 3, 4]);
    assert_eq!(c.get((0, 0)), 1);
    assert_eq!(c.get((1, 0)), 2);
    assert_eq!(c.get((0, 1)), 3);
    assert_eq!(c.get((1, 1)), 4);
}

#[test]
fn first_river_always_carved_on_land() {
    for seed in 0..10u64 {
        let mut t = land(7);
        let mut water = CellSet::new(7);
        let mut rng = fastrand::Rng::with_seed(seed);
        let rivers = create_rivers(&mut t, &mut water, &mut rng);
        assert!(!rivers.is_empty());
        for r in &rivers {
            assert_eq!(r.path[..], r.planned[..r.path.len()]);
            assert_eq!(*r.planned.last().unwrap(), farthest_corner(r.planned[0], 7));
        }
    }
}
