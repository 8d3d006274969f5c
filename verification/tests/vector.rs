use dashc::vector::{GeometryDedup, Lookup};

#[test]
fn identical_geometry_dedups_to_one_index() {
    let mut dedup = GeometryDedup::new();
    let square = vec![0u64, 1, 4, 1, 0, 0, 40, 0];
    assert_eq!(dedup.find(&square, 7), Lookup::Miss);
    assert_eq!(dedup.record(square.clone(), 7), 0);
    assert_eq!(dedup.find(&square, 7), Lookup::Hit(0));
    assert_eq!(dedup.len(), 1);
}

#[test]
fn a_hash_collision_does_not_return_the_other_shapes_index() {
    let mut dedup = GeometryDedup::new();
    let square = vec![0u64, 1, 4];
    let wide = vec![0u64, 1, 5];
    dedup.record(square.clone(), 7);
    assert_eq!(dedup.find(&wide, 7), Lookup::Collided);
    assert_eq!(dedup.record(wide.clone(), 7), 1);
    assert_eq!(dedup.find(&square, 7), Lookup::Hit(0), "the bucket stays with the first shape");
    assert_eq!(dedup.find(&wide, 7), Lookup::Collided, "a colliding shape stops deduplicating");
}

#[test]
fn truncate_forgets_the_dedup_entry_for_the_rolled_back_shape() {
    let mut dedup = GeometryDedup::new();
    dedup.record(vec![1], 1);
    dedup.record(vec![2], 2);
    dedup.truncate(1);
    assert_eq!(dedup.len(), 1);
    assert_eq!(dedup.find(&vec![2], 2), Lookup::Miss);
    assert_eq!(dedup.find(&vec![1], 1), Lookup::Hit(0));
    assert_eq!(dedup.record(vec![2], 2), 1);
}

#[test]
fn truncate_past_the_end_keeps_every_shape() {
    let mut dedup = GeometryDedup::new();
    dedup.record(vec![1], 1);
    dedup.record(vec![2], 2);
    dedup.truncate(5);
    assert_eq!(dedup.len(), 2);
    assert_eq!(dedup.find(&vec![2], 2), Lookup::Hit(1));
}
