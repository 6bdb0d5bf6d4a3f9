use mapgen::cellset::CellSet;

#[test]
fn insert_remove_contains() {
    let mut s = CellSet::new(4);
    assert!(s.is_empty());
    assert!(s.insert((1, 2)));
    assert!(!s.insert((1, 2)));
    assert!(s.insert((3, 3)));
    assert_eq!(s.len(), 2);
    assert!(s.contains((1, 2)));
    assert!(!s.contains((2, 1)));
    assert!(!s.contains((-1, 0)));
    assert!(!s.contains((4, 0)));
    assert!(s.remove((1, 2)));
    assert!(!s.remove((1, 2)));
    assert_eq!(s.to_vec(), vec![(3, 3)]);
}

#[test]
fn swap_remove_keeps_members() {
    let mut s = CellSet::new(3);
    for y in 0..3 {
        for x in 0..3 {
            s.insert((x, y));
        }
    }
    s.remove((0, 0));
    s.remove((2, 2));
    let mut v = s.to_vec();
    v.sort();
    assert_eq!(v, vec![(0, 1), (0, 2), (1, 0), (1, 1), (1, 2), (2, 0), (2, 1)]);
    s.clear();
    assert_eq!(s.len(), 0);
}

#[test]
fn from_cells_dedups() {
    let s = CellSet::from_cells(5, &vec![(1, 1), (2, 2), (1, 1)]);
    assert_eq!(s.len(), 2);
    assert!(s.contains((2, 2)));
}
