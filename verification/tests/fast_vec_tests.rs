use rust_projects::fast_vec::FastVec;

#[test]
fn new_vector_is_empty_with_one_slot() {
    let v: FastVec<i32> = FastVec::new();
    assert_eq!(v.len(), 0);
    assert_eq!(v.capacity(), 1);
}

#[test]
fn push_doubles_capacity_when_full() {
    let mut v: FastVec<i32> = FastVec::new();
    v.push(1);
    assert_eq!(v.capacity(), 1);
    v.push(2);
    assert_eq!(v.capacity(), 2);
    v.push(3);
    assert_eq!(v.capacity(), 4);
    v.push(4);
    assert_eq!(v.capacity(), 4);
    v.push(5);
    assert_eq!(v.capacity(), 8);
    assert_eq!(v.len(), 5);
    assert_eq!(*v.get(0), 1);
    assert_eq!(*v.get(4), 5);
}

#[test]
fn push_onto_zero_capacity_gives_one_slot() {
    let mut v: FastVec<i32> = FastVec::with_capacity(0);
    assert_eq!(v.capacity(), 0);
    v.push(7);
    assert_eq!(v.capacity(), 1);
    assert_eq!(*v.get(0), 7);
}

#[test]
fn remove_shifts_later_elements() {
    let mut v = FastVec::from_vec(vec![10, 20, 30, 40]);
    assert_eq!(v.capacity(), 4);
    v.remove(1);
    assert_eq!(v.len(), 3);
    assert_eq!(v.capacity(), 4);
    assert_eq!(v.into_vec(), vec![10, 30, 40]);
}

#[test]
fn clear_drops_everything() {
    let mut v = FastVec::from_vec(vec![1, 2, 3]);
    v.clear();
    assert_eq!(v.len(), 0);
    assert_eq!(v.capacity(), 0);
    v.push(9);
    assert_eq!(v.capacity(), 1);
    assert_eq!(v.into_vec(), vec![9]);
}

#[test]
fn from_vec_then_into_vec_round_trips() {
    let original = vec![3, 1, 4, 1, 5];
    let v = FastVec::from_vec(original.clone());
    assert_eq!(v.into_vec(), original);
}

#[test]
fn display_string_lists_items() {
    let empty: FastVec<String> = FastVec::new();
    assert_eq!(empty.to_display_string(), "FastVec[]");
    let v = FastVec::from_vec(vec!["a".to_string(), "bc".to_string(), "d".to_string()]);
    assert_eq!(v.to_display_string(), "FastVec[a, bc, d]");
}

#[test]
fn growth_never_shrinks_and_at_most_doubles() {
    let mut v: FastVec<u8> = FastVec::with_capacity(3);
    let mut previous = v.capacity();
    for i in 0..20u8 {
        v.push(i);
        let now = v.capacity();
        assert!(now >= previous);
        assert!(now >= v.len());
        assert!(now <= 2 * previous.max(1));
        previous = now;
    }
    assert_eq!(v.capacity(), 24);
}

#[test]
fn length_counts_pushes_less_removals_since_the_last_clear() {
    let mut v: FastVec<u32> = FastVec::from_vec(vec![7, 8]);
    v.push(1);
    v.push(2);
    v.remove(0);
    // no clear yet: 2 to start with, 2 pushes, 1 removal
    assert_eq!(v.len(), 2 + 2 - 1);
    v.clear();
    v.push(3);
    v.push(4);
    v.push(5);
    v.remove(1);
    // since the clear: 3 pushes, 1 removal
    assert_eq!(v.len(), 3 - 1);
    assert!(v.len() <= v.capacity());
    assert_eq!(v.into_vec(), vec![3, 5]);
}
