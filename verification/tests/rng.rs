use puzzle2048::rng::next_excluding;

#[test]
fn next_excluding_avoids_the_forbidden_values() {
    for _ in 0..50 {
        let v = next_excluding(0, 4, &vec![1, 3]).unwrap();
        assert!(v == 0 || v == 2);
    }
    for _ in 0..50 {
        let v = next_excluding(2, 6, &vec![]).unwrap();
        assert!((2..6).contains(&v));
    }
}

#[test]
fn next_excluding_fails_only_on_a_covered_range() {
    assert!(next_excluding(0, 3, &vec![0, 1, 2]).is_none());
    assert!(next_excluding(5, 5, &vec![]).is_none());
    assert!(next_excluding(0, 1, &vec![7]).is_some());
}
