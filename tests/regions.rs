use mapgen::regions::{merge_outputs, within_growth_radius_exec, VoronoiTiling};

fn open_square(size: usize) -> VoronoiTiling {
    let mut t = VoronoiTiling::new(size);
    for y in 0..size as i32 {
        for x in 0..size as i32 {
            assert!(t.add_open((x, y)));
        }
    }
    t
}

fn run_to_done(t: &mut VoronoiTiling, rng: &mut fastrand::Rng) {
    for _ in 0..1000 {
        if t.is_done() {
            return;
        }
        t.next(rng);
    }
    panic!("tiler did not finish");
}

#[test]
fn single_seed_fills_five_by_five() {
    let mut t = open_square(5);
    t.set_desired_points(1);
    let mut rng = fastrand::Rng::with_seed(7);
    let seeds = t.next(&mut rng);
    assert_eq!(seeds.len(), 1);
    assert_eq!(t.seed_count(), 1);
    run_to_done(&mut t, &mut rng);
    assert_eq!(t.open_len(), 0);
    assert_eq!(t.region_cells(0).len(), 25);
}

#[test]
fn radius_grows_by_one_and_regions_only_grow() {
    let mut t = open_square(12);
    t.set_desired_points(3);
    let mut rng = fastrand::Rng::with_seed(11);
    t.next(&mut rng);
    assert_eq!(t.current_radius(), 1);
    let mut sizes = vec![1usize; 3];
    let mut radius = 1;
    while !t.is_done() {
        let out = t.next(&mut rng);
        radius += 1;
        assert_eq!(t.current_radius(), radius);
        for i in 0..3 {
            let now = t.region_cells(i).len();
            assert!(now >= sizes[i]);
            assert_eq!(now, sizes[i] + out[i].len());
            sizes[i] = now;
        }
    }
}

#[test]
fn partition_keeps_every_habitable_cell() {
    let mut t = open_square(10);
    t.set_desired_points(4);
    let mut rng = fastrand::Rng::with_seed(3);
    for _ in 0..4 {
        t.next(&mut rng);
        let total: usize = (0..t.seed_count()).map(|i| t.region_cells(i).len()).sum();
        assert_eq!(t.open_len() + total, 100);
    }
    run_to_done(&mut t, &mut rng);
    let mut all: Vec<(i32, i32)> = vec![];
    for i in 0..t.seed_count() {
        all.extend(t.region_cells(i));
    }
    all.sort();
    all.dedup();
    assert_eq!(all.len() + t.open_len(), 100);
}

#[test]
fn cells_stay_within_radius_of_seed() {
    let mut t = open_square(15);
    t.set_desired_points(5);
    let mut rng = fastrand::Rng::with_seed(5);
    run_to_done(&mut t, &mut rng);
    let bound = t.current_radius() as f64 + std::f64::consts::SQRT_2 - 1.0;
    for i in 0..t.seed_count() {
        let s = t.seed(i);
        for c in t.region_cells(i) {
            let dx = (c.0 - s.0) as f64;
            let dy = (c.1 - s.1) as f64;
            assert!((dx * dx + dy * dy).sqrt() <= bound + 1e-9);
        }
    }
}

#[test]
fn growth_radius_thresholds() {
    assert!(within_growth_radius_exec((0, 0), (0, 0), 0));
    assert!(!within_growth_radius_exec((1, 0), (0, 0), 0));
    assert!(within_growth_radius_exec((1, 1), (0, 0), 1));
    assert!(!within_growth_radius_exec((2, 0), (0, 0), 1));
    assert!(within_growth_radius_exec((2, 1), (0, 0), 2));
    assert!(!within_growth_radius_exec((2, 2), (0, 0), 2));
    assert!(within_growth_radius_exec((3, 3), (0, 0), 4));
    assert!(!within_growth_radius_exec((4, 3), (0, 0), 4));
}

#[test]
fn same_seed_same_regions() {
    let run = |seed: u64| {
        let mut t = open_square(9);
        t.set_desired_points(3);
        let mut rng = fastrand::Rng::with_seed(seed);
        run_to_done(&mut t, &mut rng);
        (0..t.seed_count()).map(|i| t.region_cells(i)).collect::<Vec<_>>()
    };
    assert_eq!(run(21), run(21));
}

#[test]
fn grid_seeding_without_offset_uses_lattice() {
    let mut t = open_square(7);
    t.with_grid_points(7, 3, 0);
    let mut rng = fastrand::Rng::with_seed(1);
    let out = t.next(&mut rng);
    assert_eq!(out.len(), 9);
    let mut seeds: Vec<_> = (0..t.seed_count()).map(|i| t.seed(i)).collect();
    seeds.sort();
    let mut lattice = vec![];
    for x in [0, 3, 6] {
        for y in [0, 3, 6] {
            lattice.push((x, y));
        }
    }
    assert_eq!(seeds, lattice);
    assert_eq!(t.desired_points(), 9);
    assert_eq!(t.current_radius(), 1);
}

#[test]
fn grid_seeding_with_offset_stays_near_lattice() {
    let mut t = open_square(20);
    t.with_grid_points(20, 5, 2);
    let mut rng = fastrand::Rng::with_seed(4);
    t.next(&mut rng);
    assert!(t.seed_count() > 0);
    for i in 0..t.seed_count() {
        let (x, y) = t.seed(i);
        let lx = ((x + 2) / 5) * 5;
        let ly = ((y + 2) / 5) * 5;
        let near = [lx - 5, lx, lx + 5].iter().any(|&ax| {
            [ly - 5, ly, ly + 5].iter().any(|&ay| {
                let dx = (x - ax) as i64;
                let dy = (y - ay) as i64;
                ax >= 0 && ay >= 0 && dx * dx + dy * dy <= 4
            })
        });
        assert!(near);
    }
}

#[test]
fn islands_continue_with_open_set() {
    let mut t = VoronoiTiling::new(10);
    for y in 0..3 {
        for x in 0..3 {
            t.add_open((x, y));
            t.add_open((x + 7, y + 7));
        }
    }
    let mut rng = fastrand::Rng::with_seed(2);
    t.with_grid_points(3, 5, 0);
    t.next(&mut rng);
    assert_eq!(t.seed_count(), 1);
    run_to_done(&mut t, &mut rng);
    assert_eq!(t.open_len(), 9);
    t.continue_with_open_set();
    assert!(!t.is_done());
    assert_eq!(t.current_radius(), 0);
    assert_eq!(t.desired_points(), 1);
    run_to_done(&mut t, &mut rng);
    assert_eq!(t.open_len(), 0);
    assert_eq!(t.seed_count(), 2);
    assert_eq!(t.region_cells(1).len(), 9);
}

#[test]
fn continue_with_empty_open_set_does_nothing() {
    let mut t = open_square(3);
    t.set_desired_points(1);
    let mut rng = fastrand::Rng::with_seed(8);
    run_to_done(&mut t, &mut rng);
    t.continue_with_open_set();
    assert!(t.is_done());
}

#[test]
fn no_open_cells_finishes_at_once() {
    let mut t = VoronoiTiling::new(4);
    t.set_desired_points(3);
    let mut rng = fastrand::Rng::with_seed(8);
    let out = t.next(&mut rng);
    assert!(out.is_empty());
    assert!(t.is_done());
    assert!(t.next(&mut rng).is_empty());
}

#[test]
fn desired_points_clamped_to_open_cells() {
    let mut t = VoronoiTiling::new(4);
    t.add_open((0, 0));
    t.add_open((1, 0));
    t.set_desired_points(10);
    let mut rng = fastrand::Rng::with_seed(8);
    let out = t.next(&mut rng);
    assert_eq!(out.len(), 2);
    assert_eq!(t.open_len(), 0);
}

#[test]
fn bounds_and_masks_of_a_region() {
    let mut t = open_square(3);
    t.set_desired_points(1);
    let mut rng = fastrand::Rng::with_seed(6);
    run_to_done(&mut t, &mut rng);
    assert_eq!(t.region_bounds(0), Some((0, 2, 0, 2)));
    assert_eq!(t.region_bounds(1), None);
    let solid = t.region_mask(0, 0, 2, 0, 2, false);
    assert!(solid.iter().all(|row| row.iter().all(|v| *v)));
    let outline = t.region_mask(0, 0, 2, 0, 2, true);
    assert_eq!(outline, vec![vec![true, true, true], vec![true, false, true], vec![true, true, true]]);
    let wider = t.region_mask(0, -1, 3, 1, 1, false);
    assert_eq!(wider, vec![vec![false, true, true, true, false]]);
}

#[test]
fn add_open_refuses_off_grid_and_claimed() {
    let mut t = open_square(3);
    assert!(!t.add_open((3, 0)));
    assert!(!t.add_open((-1, 0)));
    t.set_desired_points(1);
    let mut rng = fastrand::Rng::with_seed(6);
    t.next(&mut rng);
    let s = t.seed(0);
    assert!(!t.add_open(s));
    assert_eq!(t.region_of(s), Some(0));
    assert!(t.remove_open((5, 5)) == false);
}

#[test]
fn surrounding_order_is_fixed() {
    assert_eq!(
        VoronoiTiling::get_surrounding((5, 5)),
        [(4, 4), (5, 4), (6, 4), (4, 5), (6, 5), (4, 6), (5, 6), (6, 6)]
    );
}

#[test]
fn next_n_merges_per_region() {
    let mut t = open_square(8);
    t.set_desired_points(2);
    let mut rng = fastrand::Rng::with_seed(9);
    let out = t.next_n(&mut rng, 3);
    assert_eq!(out.len(), 2);
    let total: usize = out.iter().map(|v| v.len()).sum();
    assert_eq!(total + t.open_len(), 64);
}

#[test]
fn settle_round_starts_next_round_or_completes() {
    let mut t = VoronoiTiling::new(8);
    for y in 0..2 {
        for x in 0..2 {
            t.add_open((x, y));
            t.add_open((x + 6, y + 6));
        }
    }
    let mut rng = fastrand::Rng::with_seed(12);
    assert!(!t.settle_round());
    t.with_grid_points(2, 4, 0);
    t.next(&mut rng);
    run_to_done(&mut t, &mut rng);
    assert_eq!(t.open_len(), 4);
    assert!(!t.settle_round());
    assert!(!t.is_done());
    run_to_done(&mut t, &mut rng);
    assert_eq!(t.open_len(), 0);
    assert!(t.settle_round());
    assert_eq!(t.seed_count(), 2);
}

#[test]
fn seeding_at_offsets_skips_taken_and_closed_cells() {
    let mut t = open_square(5);
    t.remove_open((4, 4));
    let cands = vec![(0, 0), (2, 2), (3, 3), (1, 1)];
    let offsets = vec![(1, 0), (0, 0), (1, 1), (0, -1)];
    let mut out = vec![];
    t.seed_at_offsets(&cands, &offsets, &mut out);
    // (1,0) and (2,2) land on open cells, (4,4) is closed, (1,0) is taken
    assert_eq!(t.seed_count(), 2);
    assert_eq!(t.seed(0), (1, 0));
    assert_eq!(t.seed(1), (2, 2));
    assert_eq!(out, vec![vec![(1, 0)], vec![(2, 2)]]);
    assert!(!t.open_contains((1, 0)));
}

#[test]
fn merging_outputs_concatenates_per_region() {
    let a = vec![vec![(0, 0)], vec![]];
    let b = vec![vec![(1, 1)], vec![(2, 2)], vec![(3, 3)]];
    assert_eq!(merge_outputs(&a, &b), vec![vec![(0, 0), (1, 1)], vec![(2, 2)], vec![(3, 3)]]);
}

#[test]
fn empty_box_gives_empty_mask() {
    let t = open_square(3);
    assert!(t.region_mask(0, 2, 1, 0, 2, false).is_empty());
    assert!(t.region_mask(0, 0, 2, 3, 1, true).is_empty());
}
