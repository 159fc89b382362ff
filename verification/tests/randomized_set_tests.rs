use algos::randomized_set::RandomizedSet;

#[test]
fn randomized_set_simple_test() {
    let mut obj = RandomizedSet::new();
    assert_eq!(obj.insert(1), true);
    assert_eq!(obj.insert(1), false);
    assert_eq!(obj.insert(2), true);
    assert_eq!(obj.remove(1), true);
    assert_eq!(obj.remove(1), false);
    println!("Random element: {}", obj.get_random());
}

#[test]
fn randomized_set_random_pick_is_a_member() {
    let mut obj = RandomizedSet::new();
    for x in [10, 20, 30, 40] {
        obj.insert(x);
    }
    obj.remove(20);
    for _ in 0..32 {
        let r = obj.get_random();
        assert!(r == 10 || r == 30 || r == 40);
    }
}

#[test]
fn randomized_set_remove_swaps_the_last_value_in() {
    let mut obj = RandomizedSet::new();
    obj.insert(7);
    obj.insert(8);
    obj.insert(9);
    assert_eq!(obj.remove(7), true);
    assert_eq!(obj.insert(7), true);
    assert_eq!(obj.remove(8), true);
    assert_eq!(obj.remove(9), true);
    assert_eq!(obj.remove(9), false);
    assert_eq!(obj.get_random(), 7);
}
