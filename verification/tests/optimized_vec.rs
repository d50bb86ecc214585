use price_store::optimized_vec::OptimizedVec;

fn live<T: Clone>(o: &OptimizedVec<T>) -> Vec<T> {
    o.iter().cloned().collect()
}

/// `[1, 2, 3, 4, 5]` with its first two elements removed from the front.
fn shifted_by_two() -> OptimizedVec<i32> {
    let mut o = OptimizedVec::from(vec![1, 2, 3, 4, 5]);
    o.remove(0);
    o.remove(0);
    o
}

#[test]
fn from() {
    let f = vec![1, 2, 3, 4, 5];
    let o = OptimizedVec::from(f.clone());
    assert_eq!(f.len(), o.len());
    assert_eq!(o.slack(), 0);
}

#[test]
fn push_into_empty() {
    let mut o = OptimizedVec::new();
    assert_eq!(o.len(), 0);
    assert_eq!(o.slack(), 0);
    o.push(1);
    assert_eq!(o.len(), 1);
    assert_eq!(o.slack(), 0);
}

#[test]
fn insert_into_empty() {
    let mut o = OptimizedVec::new();
    assert_eq!(o.len(), 0);
    assert_eq!(o.slack(), 0);
    o.insert(0, 1);
    assert_eq!(o.len(), 1);
    assert_eq!(o.slack(), 0);
}

#[test]
fn insert_with_data() {
    let mut o = OptimizedVec::from(vec![1, 2, 3, 4, 5]);
    assert_eq!(o.len(), 5);
    assert_eq!(o.slack(), 0);
    o.insert(3, 3);
    assert_eq!(o.len(), 6);
    assert_eq!(o.slack(), 0);
    o.insert(0, 0);
    assert_eq!(o.len(), 7);
    assert_eq!(o.slack(), 0);
    o.insert(7, 7);
    assert_eq!(o.len(), 8);
    assert_eq!(o.slack(), 0);
}

#[test]
fn insert_shifted_head() {
    let mut o = shifted_by_two();
    assert_eq!(o.storage_len(), 5);
    assert_eq!(o.len(), 3);
    assert_eq!(o.slack(), 2);
    o.insert(3, 3);
    assert_eq!(o.storage_len(), 6);
    assert_eq!(o.len(), 4);
    assert_eq!(o.slack(), 2);
    o.insert(1, 1);
    assert_eq!(o.storage_len(), 7);
    assert_eq!(o.len(), 5);
    assert_eq!(o.slack(), 2);
    o.insert(0, 0);
    assert_eq!(o.storage_len(), 7);
    assert_eq!(o.len(), 6);
    assert_eq!(o.slack(), 1);
    o.insert(0, 0);
    assert_eq!(o.storage_len(), 7);
    assert_eq!(o.len(), 7);
    assert_eq!(o.slack(), 0);
}

#[test]
#[should_panic]
fn remove_empty() {
    let mut o = OptimizedVec::<i32>::new();
    o.remove(0)
}

#[test]
fn remove_with_data() {
    let mut o = OptimizedVec::from(vec![1, 2, 3, 4, 5]);
    assert_eq!(o.storage_len(), 5);
    assert_eq!(o.len(), 5);
    assert_eq!(o.slack(), 0);
    o.remove(3);
    assert_eq!(o.storage_len(), 4);
    assert_eq!(o.len(), 4);
    assert_eq!(o.slack(), 0);
    o.remove(0);
    assert_eq!(o.storage_len(), 4);
    assert_eq!(o.len(), 3);
    assert_eq!(o.slack(), 1);
    o.remove(1);
    assert_eq!(o.storage_len(), 3);
    assert_eq!(o.len(), 2);
    assert_eq!(o.slack(), 1);
    o.remove(0);
    assert_eq!(o.storage_len(), 3);
    assert_eq!(o.len(), 1);
    assert_eq!(o.slack(), 2);
}

#[test]
#[should_panic]
fn remove_all_shifted() {
    let mut o = OptimizedVec::from(vec![1]);
    o.remove(0);
    assert_eq!(o.storage_len(), 1);
    assert_eq!(o.len(), 0);
    assert_eq!(o.slack(), 1);
    o.remove(0);
}

#[test]
fn combined() {
    let mut o = OptimizedVec::new();
    o.push(1);
    assert_eq!(o.storage_len(), 1);
    assert_eq!(o.len(), 1);
    assert_eq!(o.slack(), 0);
    o.remove(0);
    assert_eq!(o.storage_len(), 1);
    assert_eq!(o.len(), 0);
    assert_eq!(o.slack(), 1);
    o.push(1);
    assert_eq!(o.storage_len(), 2);
    assert_eq!(o.len(), 1);
    assert_eq!(o.slack(), 1);
    o.insert(0, 0);
    assert_eq!(o.storage_len(), 2);
    assert_eq!(o.len(), 2);
    assert_eq!(o.slack(), 0);
}

#[test]
fn with_capacity_starts_empty() {
    let mut o = OptimizedVec::<u8>::with_capacity(16);
    assert!(o.is_empty());
    assert_eq!(o.len(), 0);
    assert_eq!(o.slack(), 0);
    assert_eq!(o.storage_len(), 0);
    o.push(9);
    assert!(!o.is_empty());
    assert_eq!(live(&o), vec![9]);
}

#[test]
fn insert_places_at_logical_index() {
    let mut o = OptimizedVec::from(vec![10, 20, 30]);
    o.insert(1, 15);
    assert_eq!(live(&o), vec![10, 15, 20, 30]);
    o.insert(4, 40);
    assert_eq!(live(&o), vec![10, 15, 20, 30, 40]);
    o.insert(0, 5);
    assert_eq!(live(&o), vec![5, 10, 15, 20, 30, 40]);
}

#[test]
fn insert_behind_slack_counts_from_logical_start() {
    let mut o = shifted_by_two();
    assert_eq!(live(&o), vec![3, 4, 5]);
    o.insert(3, 6);
    assert_eq!(live(&o), vec![3, 4, 5, 6]);
    o.insert(1, 9);
    assert_eq!(live(&o), vec![3, 9, 4, 5, 6]);
    o.insert(0, 2);
    assert_eq!(live(&o), vec![2, 3, 9, 4, 5, 6]);
    assert_eq!(o.slack(), 1);
    o.insert(0, 1);
    assert_eq!(live(&o), vec![1, 2, 3, 9, 4, 5, 6]);
    assert_eq!(o.slack(), 0);
    o.insert(0, 0);
    assert_eq!(live(&o), vec![0, 1, 2, 3, 9, 4, 5, 6]);
    assert_eq!(o.slack(), 0);
    assert_eq!(o.storage_len(), 8);
}

#[test]
fn insert_at_front_of_emptied_sequence_reuses_slack() {
    let mut o = OptimizedVec::from(vec![7]);
    o.remove(0);
    assert!(o.is_empty());
    o.insert(0, 8);
    assert_eq!(live(&o), vec![8]);
    assert_eq!(o.slack(), 0);
    assert_eq!(o.storage_len(), 1);
}

#[test]
fn remove_takes_the_logical_element() {
    let mut o = shifted_by_two();
    o.remove(1);
    assert_eq!(live(&o), vec![3, 5]);
    o.remove(1);
    assert_eq!(live(&o), vec![3]);
    o.remove(0);
    assert_eq!(live(&o), Vec::<i32>::new());
    assert_eq!(o.slack(), 3);
    assert_eq!(o.storage_len(), 3);
}

#[test]
fn get_and_index_skip_the_slack() {
    let o = shifted_by_two();
    assert_eq!(*o.get(0), 3);
    assert_eq!(*o.get(2), 5);
    assert_eq!(o[0], 3);
    assert_eq!(o[1], 4);
}

#[test]
fn get_mut_changes_one_element() {
    let mut o = shifted_by_two();
    *o.get_mut(1) = 40;
    assert_eq!(live(&o), vec![3, 40, 5]);
    assert_eq!(o.slack(), 2);
    assert_eq!(o.storage_len(), 5);
}

#[test]
fn iter_is_restartable_and_ordered() {
    let o = shifted_by_two();
    let once: Vec<i32> = o.iter().copied().collect();
    let twice: Vec<i32> = o.iter().copied().collect();
    assert_eq!(once, vec![3, 4, 5]);
    assert_eq!(once, twice);
    assert_eq!(OptimizedVec::<i32>::new().iter().count(), 0);
}

#[test]
fn equality_ignores_slack() {
    let shifted = shifted_by_two();
    let plain = OptimizedVec::from(vec![3, 4, 5]);
    assert!(shifted == plain);
    assert!(plain == shifted);
    assert!(shifted != OptimizedVec::from(vec![3, 4]));
    assert!(shifted != OptimizedVec::from(vec![3, 4, 6]));
    assert!(shifted != OptimizedVec::from(vec![1, 2, 3, 4, 5]));
    assert!(OptimizedVec::<i32>::new() == OptimizedVec::from(Vec::new()));
}

#[test]
fn clone_keeps_the_live_elements() {
    let o = shifted_by_two();
    let c = o.clone();
    assert!(c == o);
    assert_eq!(live(&c), vec![3, 4, 5]);
    assert_eq!(c.slack(), 2);
}

#[test]
fn binary_search_finds_present_keys() {
    let o = OptimizedVec::from(vec![(1, 'a'), (3, 'b'), (5, 'c'), (7, 'd')]);
    assert_eq!(o.binary_search_by_key(&1, |e| e.0), Ok(0));
    assert_eq!(o.binary_search_by_key(&3, |e| e.0), Ok(1));
    assert_eq!(o.binary_search_by_key(&5, |e| e.0), Ok(2));
    assert_eq!(o.binary_search_by_key(&7, |e| e.0), Ok(3));
}

#[test]
fn binary_search_gives_insertion_point_for_absent_keys() {
    let o = OptimizedVec::from(vec![(1, 'a'), (3, 'b'), (5, 'c'), (7, 'd')]);
    assert_eq!(o.binary_search_by_key(&0, |e| e.0), Err(0));
    assert_eq!(o.binary_search_by_key(&2, |e| e.0), Err(1));
    assert_eq!(o.binary_search_by_key(&4, |e| e.0), Err(2));
    assert_eq!(o.binary_search_by_key(&6, |e| e.0), Err(3));
    assert_eq!(o.binary_search_by_key(&8, |e| e.0), Err(4));
    assert_eq!(OptimizedVec::<(i32, char)>::new().binary_search_by_key(&8, |e| e.0), Err(0));
}

#[test]
fn binary_search_looks_at_live_elements_only() {
    let mut o = OptimizedVec::from(vec![10, 20, 30, 40, 50]);
    o.remove(0);
    o.remove(0);
    assert_eq!(o.binary_search_by_key(&10, |e| *e), Err(0));
    assert_eq!(o.binary_search_by_key(&20, |e| *e), Err(0));
    assert_eq!(o.binary_search_by_key(&30, |e| *e), Ok(0));
    assert_eq!(o.binary_search_by_key(&45, |e| *e), Err(2));
    assert_eq!(o.binary_search_by_key(&50, |e| *e), Ok(2));
}

#[test]
fn binary_search_among_equal_keys_returns_one_of_them() {
    let o = OptimizedVec::from(vec![1, 4, 4, 4, 9]);
    let found = o.binary_search_by_key(&4, |e| *e);
    assert!(matches!(found, Ok(1) | Ok(2) | Ok(3)));
}

#[test]
fn front_removal_and_push_cycles_match_a_plain_sequence() {
    let mut o = OptimizedVec::from(vec![0, 1, 2]);
    let mut model = vec![0, 1, 2];
    for round in 3..40 {
        o.remove(0);
        model.remove(0);
        o.push(round);
        model.push(round);
        assert_eq!(live(&o), model);
        assert_eq!(o.len(), 3);
    }
    // nothing was shifted: every removal left its slot behind as slack
    assert_eq!(o.slack(), 37);
    assert_eq!(o.storage_len(), 40);
}

#[test]
fn default_is_empty() {
    let o = OptimizedVec::<u32>::default();
    assert!(o.is_empty());
    assert_eq!(o.slack(), 0);
    assert_eq!(o.storage_len(), 0);
    assert!(o == OptimizedVec::new());
}
