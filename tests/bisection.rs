use mapgen::bisection::RecursiveTiling;
use mapgen::cellset::CellSet;

fn open_tiler(size: usize, desired: usize) -> RecursiveTiling {
    let mut t = RecursiveTiling::new(size, desired);
    for y in 0..size as i32 {
        for x in 0..size as i32 {
            assert!(t.add_open((x, y)));
        }
    }
    t
}

#[test]
fn splits_until_tiles_are_small() {
    let mut t = open_tiler(6, 9);
    let mut rng = fastrand::Rng::with_seed(13);
    for _ in 0..10_000 {
        if t.is_all_done() {
            break;
        }
        t.next(&mut rng);
    }
    assert!(t.is_all_done());
    let mut all = vec![];
    for i in 0..t.tile_count() {
        let tile = t.tile(i);
        assert!(tile.len() <= 9);
        all.extend(tile);
    }
    all.sort();
    let n = all.len();
    all.dedup();
    assert_eq!(all.len(), n);
    assert_eq!(n, 36);
}

#[test]
fn first_step_starts_two_halves() {
    let mut t = open_tiler(4, 4);
    let mut rng = fastrand::Rng::with_seed(2);
    let (reset, a, b) = t.next(&mut rng);
    assert!(!reset);
    assert_eq!(a.len(), 1);
    assert_eq!(b.len(), 1);
    assert_ne!(a[0], b[0]);
    assert_eq!(t.pool_len(), 14);
}

#[test]
fn done_tiler_reports_reset_and_stays() {
    let mut t = RecursiveTiling::new(3, 5);
    let mut rng = fastrand::Rng::with_seed(2);
    let (reset, a, b) = t.next(&mut rng);
    assert!(!reset && a.is_empty() && b.is_empty());
    assert!(t.is_all_done());
    assert!(t.should_reset());
    assert!(!t.should_reset());
    let (reset, _, _) = t.next(&mut rng);
    assert!(reset);
}

#[test]
fn next_n_stops_at_reset() {
    let mut t = open_tiler(5, 3);
    let mut rng = fastrand::Rng::with_seed(4);
    let (reset, a, b) = t.next_n(&mut rng, 10_000);
    assert!(reset || t.is_all_done());
    assert!(a.len() + b.len() > 0);
}

#[test]
fn remove_two_needs_two() {
    let mut rng = fastrand::Rng::with_seed(1);
    let mut s = CellSet::new(3);
    s.insert((1, 1));
    assert!(RecursiveTiling::remove_two_random_from_set(&mut s, &mut rng).is_none());
    assert_eq!(s.len(), 1);
    s.insert((2, 2));
    let pair = RecursiveTiling::remove_two_random_from_set(&mut s, &mut rng).unwrap();
    assert_ne!(pair[0], pair[1]);
    assert!(s.is_empty());
}

#[test]
fn surrounding_with_and_without_self() {
    assert!(RecursiveTiling::get_surrounding(None, true).is_empty());
    let v = RecursiveTiling::get_surrounding(Some((0, 0)), true);
    assert_eq!(v.len(), 9);
    assert_eq!(v[0], (-1, -1));
    assert_eq!(v[8], (0, 0));
    assert_eq!(RecursiveTiling::get_surrounding(Some((0, 0)), false).len(), 8);
}

#[test]
fn random_member_of_frontier() {
    let mut s = CellSet::new(3);
    assert!(RecursiveTiling::get_random_from_frontier(&s).is_none());
    s.insert((2, 1));
    assert_eq!(RecursiveTiling::get_random_from_frontier(&s), Some((2, 1)));
}

#[test]
fn get_next_set_to_divide_takes_oversized() {
    let mut t = open_tiler(4, 20);
    let mut rng = fastrand::Rng::with_seed(3);
    while t.tile_count() == 0 {
        t.next(&mut rng);
    }
    assert!(t.get_next_set_to_divide().is_none());
}
