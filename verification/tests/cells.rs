use flip_solver::GCell;

fn cell_of(vals: &[u8]) -> GCell {
    let mut cell = GCell::empty();
    for &v in vals {
        let mut one = GCell::new();
        one.set(v);
        cell = cell.union(&one);
    }
    cell
}

#[test]
fn new_cell_allows_all_four_values() {
    let cell = GCell::new();
    for v in 0..4u8 {
        assert!(cell.has(v));
    }
    assert!(!cell.has(4));
    assert!(!cell.has(255));
    assert_eq!(cell.values(), vec![0, 1, 2, 3]);
    assert!(!cell.is_known());
    assert_eq!(cell.value(), None);
}

#[test]
fn empty_cell_allows_nothing() {
    let cell = GCell::empty();
    for v in 0..=255u8 {
        assert!(!cell.has(v));
    }
    assert_eq!(cell.values(), Vec::<u8>::new());
    assert!(!cell.is_known());
    assert_eq!(cell.value(), None);
}

#[test]
fn empty_and_singleton_are_told_apart() {
    let empty = GCell::empty();
    let single = cell_of(&[2]);
    assert_ne!(empty, single);
    assert!(single.is_known());
    assert!(!empty.is_known());
    assert_eq!(single.value(), Some(2));
}

#[test]
fn set_of_a_possible_value_leaves_only_that_value() {
    for v in 0..4u8 {
        let mut cell = GCell::new();
        cell.set(v);
        assert_eq!(cell.values(), vec![v]);
        assert!(cell.is_known());
        assert_eq!(cell.value(), Some(v));
    }
}

#[test]
fn set_of_an_impossible_value_changes_nothing() {
    let mut cell = cell_of(&[0, 1]);
    cell.set(2);
    assert_eq!(cell.values(), vec![0, 1]);
    assert_eq!(cell, cell_of(&[0, 1]));
    cell.set(3);
    assert_eq!(cell.values(), vec![0, 1]);
}

#[test]
fn set_of_a_value_outside_the_alphabet_changes_nothing() {
    let mut cell = GCell::new();
    cell.set(4);
    assert_eq!(cell, GCell::new());
    cell.set(200);
    assert_eq!(cell, GCell::new());
    let mut none = GCell::empty();
    none.set(0);
    assert_eq!(none, GCell::empty());
}

#[test]
fn set_on_a_known_cell_keeps_it() {
    let mut cell = cell_of(&[3]);
    cell.set(3);
    assert_eq!(cell.values(), vec![3]);
    cell.set(1);
    assert_eq!(cell.values(), vec![3]);
}

#[test]
fn intersect_keeps_the_common_values() {
    assert_eq!(cell_of(&[0, 1, 2]).intersect(&cell_of(&[1, 2, 3])), cell_of(&[1, 2]));
    assert_eq!(cell_of(&[0, 1]).intersect(&cell_of(&[2, 3])), GCell::empty());
    assert_eq!(GCell::new().intersect(&cell_of(&[3])), cell_of(&[3]));
    assert_eq!(GCell::empty().intersect(&GCell::new()), GCell::empty());
}

#[test]
fn union_keeps_every_value_once() {
    assert_eq!(cell_of(&[0, 1]).union(&cell_of(&[1, 3])), cell_of(&[0, 1, 3]));
    assert_eq!(cell_of(&[0, 1]).union(&cell_of(&[1, 3])).values(), vec![0, 1, 3]);
    assert_eq!(cell_of(&[2]).union(&GCell::empty()), cell_of(&[2]));
    assert_eq!(GCell::empty().union(&GCell::empty()), GCell::empty());
    assert_eq!(cell_of(&[0, 1, 2, 3]), GCell::new());
}

#[test]
fn intersect_and_union_over_all_pairs() {
    for a in 0..16u8 {
        for b in 0..16u8 {
            let va: Vec<u8> = (0..4).filter(|v| a >> v & 1 == 1).collect();
            let vb: Vec<u8> = (0..4).filter(|v| b >> v & 1 == 1).collect();
            let both: Vec<u8> = (0..4).filter(|v| (a & b) >> v & 1 == 1).collect();
            let either: Vec<u8> = (0..4).filter(|v| (a | b) >> v & 1 == 1).collect();
            assert_eq!(cell_of(&va).intersect(&cell_of(&vb)).values(), both);
            assert_eq!(cell_of(&va).union(&cell_of(&vb)).values(), either);
        }
    }
}

#[test]
fn is_known_means_exactly_one_value() {
    for a in 0..16u8 {
        let vals: Vec<u8> = (0..4).filter(|v| a >> v & 1 == 1).collect();
        let cell = cell_of(&vals);
        assert_eq!(cell.is_known(), vals.len() == 1);
        assert_eq!(cell.value(), if vals.len() == 1 { Some(vals[0]) } else { None });
        for v in 0..6u8 {
            assert_eq!(cell.has(v), vals.contains(&v));
        }
    }
}

#[test]
fn resolved_cells_are_known_or_open_between_zero_and_one() {
    assert!(cell_of(&[0]).is_resolved());
    assert!(cell_of(&[2]).is_resolved());
    assert!(cell_of(&[3]).is_resolved());
    assert!(cell_of(&[0, 1]).is_resolved());
    assert!(GCell::empty().is_resolved());
    assert!(!cell_of(&[0, 2]).is_resolved());
    assert!(!cell_of(&[1, 3]).is_resolved());
    assert!(!cell_of(&[2, 3]).is_resolved());
    assert!(!GCell::new().is_resolved());
}
