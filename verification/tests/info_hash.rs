use dht::info_hash_big::InfoHash;

#[test]
fn dist_with_zero_is_self() {
    let a = InfoHash::random();
    let zero = InfoHash::zero();

    let dist = a.dist(&zero);

    assert_eq!(a, dist);
}

#[test]
fn dist_with_self_is_zero() {
    let a = InfoHash::random();
    let dist = a.dist(&a);

    let zero = InfoHash::zero();

    assert_eq!(dist, zero);
}

#[test]
fn dist_is_lanewise_xor() {
    let a = InfoHash::from_lanes([0xff00, 1, 2, 3, 0xffff_ffff]);
    let b = InfoHash::from_lanes([0x0ff0, 1, 6, 0, 0x0f0f_0f0f]);
    assert_eq!(a.dist(&b).lanes(), [0xf0f0, 0, 4, 3, 0xf0f0_f0f0]);
}

#[test]
fn dist_is_symmetric_and_composes() {
    let a = InfoHash::from_lanes([1, 2, 3, 4, 5]);
    let b = InfoHash::from_lanes([9, 8, 7, 6, 5]);
    let c = InfoHash::from_lanes([100, 200, 300, 400, 500]);
    assert_eq!(a.dist(&b), b.dist(&a));
    assert_eq!(a.dist(&b).dist(&b.dist(&c)), a.dist(&c));
    assert!(a.dist(&b) != InfoHash::zero());
}

#[test]
fn zero_has_zero_lanes() {
    assert_eq!(InfoHash::zero().lanes(), [0, 0, 0, 0, 0]);
}

#[test]
fn equality_compares_every_lane() {
    let a = InfoHash::from_lanes([1, 2, 3, 4, 5]);
    assert!(a == InfoHash::from_lanes([1, 2, 3, 4, 5]));
    assert!(a != InfoHash::from_lanes([1, 2, 3, 4, 6]));
    assert!(a != InfoHash::from_lanes([0, 2, 3, 4, 5]));
}

#[test]
fn random_hashes_differ() {
    // Two independent draws of 160 bits coincide with negligible probability.
    assert!(InfoHash::random() != InfoHash::random());
}

#[test]
fn text_is_hex_lanes_most_significant_first() {
    let a = InfoHash::from_lanes([0xab, 0x12345, 0, 0xdead_beef, 0x7]);
    assert_eq!(a.to_string(), "   7deadbeef   012345  ab");
    assert_eq!(InfoHash::zero().to_string(), "   0   0   0   0   0");
}
