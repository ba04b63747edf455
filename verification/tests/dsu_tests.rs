use photonical::dsu::NetworkDsu;

#[test]
fn fresh_sets_are_singletons() {
    let mut d = NetworkDsu::new(4);
    for i in 0..4u32 {
        assert_eq!(d.find(i), i);
    }
}

#[test]
fn union_joins_two_sets() {
    let mut d = NetworkDsu::new(5);
    d.union(1, 3);
    assert_eq!(d.find(1), d.find(3));
    assert_ne!(d.find(1), d.find(0));
    assert_ne!(d.find(3), d.find(4));
}

#[test]
fn equal_ranks_put_y_under_x() {
    let mut d = NetworkDsu::new(3);
    d.union(2, 0);
    assert_eq!(d.find(0), 2);
    assert_eq!(d.find(2), 2);
}

#[test]
fn lower_rank_goes_below_higher() {
    let mut d = NetworkDsu::new(4);
    d.union(0, 1);
    // root 0 now has rank 1; root 3 has rank 0 and goes below it
    d.union(3, 0);
    assert_eq!(d.find(3), 0);
    assert_eq!(d.find(1), 0);
}

#[test]
fn union_is_transitive() {
    let mut d = NetworkDsu::new(6);
    d.union(0, 1);
    d.union(2, 3);
    d.union(1, 2);
    let r = d.find(0);
    assert_eq!(d.find(3), r);
    assert_eq!(d.find(2), r);
    assert_ne!(d.find(4), r);
    d.union(3, 0);
    assert_eq!(d.find(0), r);
}

#[test]
fn long_chains_stay_joined() {
    let n = 1000u32;
    let mut d = NetworkDsu::new(n as usize);
    for i in 1..n {
        d.union(i - 1, i);
    }
    let r = d.find(0);
    for i in 0..n {
        assert_eq!(d.find(i), r);
    }
}

#[test]
fn empty_forest() {
    let _d = NetworkDsu::new(0);
}

#[test]
fn repeated_finds_agree() {
    let mut d = NetworkDsu::new(4);
    d.union(0, 1);
    d.union(2, 3);
    d.union(0, 2);
    assert_eq!(d.find(3), 0);
    assert_eq!(d.find(3), 0);
    assert_eq!(d.find(0), 0);
}
