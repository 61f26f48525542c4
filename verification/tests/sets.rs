use ucd_generate::sparse_set::SparseSet;
use ucd_generate::state_set::StateSet;

fn set_of(ids: &[u32]) -> StateSet {
    let mut set = StateSet::empty();
    for &id in ids {
        set.add(id);
    }
    set
}

fn ids_of(set: &StateSet) -> Vec<u32> {
    (0..set.len()).map(|i| set.get(i)).collect()
}

#[test]
fn sparse_set_keeps_insertion_order() {
    let mut set = SparseSet::new(10);
    assert!(set.is_empty());
    assert_eq!(set.capacity(), 10);
    set.insert(7);
    set.insert(2);
    set.insert(7);
    set.insert(9);
    assert_eq!(set.len(), 3);
    assert_eq!((set.get(0), set.get(1), set.get(2)), (7, 2, 9));
    assert!(set.contains(2));
    assert!(!set.contains(3));
    assert!(!set.contains(100));
    set.clear();
    assert!(set.is_empty());
    assert!(!set.contains(7));
    set.insert(2);
    assert_eq!(set.get(0), 2);
}

#[test]
fn sparse_set_fills_up_to_its_bound() {
    let mut set = SparseSet::new(4);
    for id in [3, 2, 1, 0, 3, 0] {
        set.insert(id);
    }
    assert_eq!(set.len(), 4);
}

#[test]
fn canonicalize_sorts_and_drops_repetitions() {
    let mut set = set_of(&[5, 1, 5, 3, 1, 1, 9, 0]);
    set.canonicalize();
    assert_eq!(ids_of(&set), vec![0, 1, 3, 5, 9]);
    assert_eq!(set.first(), 0);
    let mut empty = StateSet::empty();
    empty.canonicalize();
    assert!(empty.is_empty());
}

#[test]
fn intersection_and_difference() {
    let a = set_of(&[1, 3, 5, 7, 9]);
    let b = set_of(&[0, 3, 4, 7, 8, 9, 10]);
    assert_eq!(ids_of(&a.intersection(&b)), vec![3, 7, 9]);
    assert_eq!(ids_of(&a.subtract(&b)), vec![1, 5]);
    assert_eq!(ids_of(&b.subtract(&a)), vec![0, 4, 8, 10]);
    let empty = StateSet::empty();
    assert!(a.intersection(&empty).is_empty());
    assert!(empty.intersection(&a).is_empty());
    assert_eq!(ids_of(&a.subtract(&empty)), vec![1, 3, 5, 7, 9]);
    assert!(empty.subtract(&a).is_empty());
    assert!(a.subtract(&a).is_empty());
    assert_eq!(ids_of(&a.intersection(&a)), vec![1, 3, 5, 7, 9]);
}

#[test]
fn copies_and_comparison() {
    let a = set_of(&[1, 2]);
    let mut copy = a.deep_clone();
    assert!(a.same_as(&copy));
    copy.add(3);
    assert!(!a.same_as(&copy));
    assert_eq!(a.len(), 2);
    copy.clear();
    assert!(copy.is_empty());
}
