use futures_join::ready_set::ReadySet;

fn taken(set: &mut ReadySet) -> Vec<usize> {
    let mut out = Vec::new();
    set.take_all(&mut out);
    out
}

#[test]
fn new_set_is_empty() {
    for len in [0, 1, 63, 64, 65, 4096, 4097] {
        let mut set = ReadySet::new(len);
        assert!(set.is_empty());
        assert_eq!(taken(&mut set), Vec::<usize>::new());
        for index in 0..len {
            assert!(!set.contains(index));
        }
    }
}

#[test]
fn only_the_first_insertion_wakes() {
    let mut set = ReadySet::new(5000);
    assert!(set.insert(4999));
    assert!(!set.insert(4999));
    assert!(!set.insert(0));
    assert!(!set.insert(64));
    assert!(!set.insert(4096));
    assert!(set.contains(4999) && set.contains(0) && set.contains(64) && set.contains(4096));
    assert!(!set.contains(1) && !set.contains(63) && !set.contains(4998));
    assert!(!set.is_empty());
    assert_eq!(taken(&mut set), vec![0, 64, 4096, 4999]);
    assert!(set.is_empty());
    assert!(set.insert(0));
}

#[test]
fn indices_are_taken_in_ascending_order() {
    for len in [1, 8, 64, 65, 130, 4096, 4097, 10000] {
        let mut set = ReadySet::new(len);
        let mut indices: Vec<usize> = (0..len).filter(|i| i % 7 == 0 || i % 64 == 63).collect();
        for &index in indices.iter().rev() {
            set.insert(index);
        }
        indices.sort();
        assert_eq!(taken(&mut set), indices);
        assert_eq!(taken(&mut set), Vec::<usize>::new());
    }
}

#[test]
fn taken_indices_are_appended() {
    let mut set = ReadySet::new(100);
    let mut out = vec![7, 7];
    set.insert(99);
    set.insert(3);
    set.take_all(&mut out);
    assert_eq!(out, vec![7, 7, 3, 99]);
    assert!(!set.contains(3) && !set.contains(99));
}

#[test]
fn every_index_is_found_again() {
    let mut set = ReadySet::new(4200);
    for index in 0..4200 {
        assert_eq!(set.insert(index), index == 0);
    }
    assert_eq!(taken(&mut set), (0..4200).collect::<Vec<_>>());
}
