use rs_deesser::ring::SampleRing;

#[test]
fn keeps_the_most_recent_samples() {
    let mut ring = SampleRing::new(4, 0.0f32);
    for i in 0..6 {
        ring.push(i as f32);
    }
    assert_eq!(ring.write_index(), 6);
    assert_eq!(ring.oldest_index(), 2);
    assert!(!ring.contains(1));
    assert_eq!(ring.get(2), 2.0);
    assert_eq!(ring.get(5), 5.0);
}

#[test]
fn add_modifies_in_place() {
    let plus = |a: f32, b: f32| a + b;
    let mut ring = SampleRing::new(4, 0.0f32);
    ring.push(1.0);
    ring.add(0, 0.5, &plus);
    assert_eq!(ring.get(0), 1.5);
}

#[test]
fn an_empty_ring_holds_nothing() {
    let ring = SampleRing::new(3, 0u8);
    assert_eq!(ring.capacity(), 3);
    assert_eq!(ring.write_index(), 0);
    assert_eq!(ring.oldest_index(), 0);
    assert!(!ring.contains(0));
}

#[test]
fn a_ring_that_is_just_full_still_holds_everything() {
    let mut ring = SampleRing::new(3, 0i32);
    for i in 0..3 {
        ring.push(10 * i);
    }
    assert_eq!(ring.oldest_index(), 0);
    for i in 0..3 {
        assert!(ring.contains(i));
        assert_eq!(ring.get(i), 10 * i as i32);
    }
    assert!(!ring.contains(3));
}

#[test]
fn adding_leaves_the_other_samples_alone() {
    let plus = |a: i32, b: i32| a + b;
    let mut ring = SampleRing::new(4, 0i32);
    for i in 0..7 {
        ring.push(i);
    }
    ring.add(4, 100, &plus);
    assert_eq!(ring.get(3), 3);
    assert_eq!(ring.get(4), 104);
    assert_eq!(ring.get(5), 5);
    assert_eq!(ring.get(6), 6);
}
