use subnet_calc::aggregate::{aggregate_many, can_aggregate, contains, ip_in_subnet, overlaps};
use subnet_calc::subnet::{analyze, SubnetInfo};

fn s(input: &str) -> SubnetInfo {
    analyze(input).unwrap()
}

#[test]
fn contains_works() {
    assert!(contains(&s("192.168.0.0/16"), &s("192.168.1.0/24")));
    assert!(!contains(&s("192.168.1.0/24"), &s("192.168.0.0/16")));
    assert!(contains(&s("192.168.1.0/24"), &s("192.168.1.0/24")));
    assert!(!contains(&s("10.0.0.0/8"), &s("192.168.0.0/16")));
}

#[test]
fn ip_in_subnet_works() {
    let net = s("192.168.1.0/24");
    assert!(ip_in_subnet(0xC0A80105, &net));
    assert!(!ip_in_subnet(0xC0A80205, &net));
    assert!(ip_in_subnet(0xC0A801FF, &net));
}

#[test]
fn overlaps_works() {
    assert!(overlaps(&s("192.168.1.0/24"), &s("192.168.1.128/25")));
    assert!(!overlaps(&s("192.168.1.0/24"), &s("192.168.2.0/24")));
    assert!(!overlaps(&s("192.168.1.0/25"), &s("192.168.1.128/25")));
    assert!(overlaps(&s("192.168.0.0/16"), &s("192.168.1.0/24")));
}

#[test]
fn can_aggregate_works() {
    assert_eq!(
        can_aggregate(&s("192.168.0.0/24"), &s("192.168.1.0/24")),
        Some(s("192.168.0.0/23"))
    );
    assert_eq!(can_aggregate(&s("192.168.0.0/24"), &s("192.168.2.0/24")), None);
    assert_eq!(can_aggregate(&s("192.168.1.0/24"), &s("192.168.2.0/24")), None);
    assert_eq!(can_aggregate(&s("192.168.0.0/24"), &s("192.168.0.0/24")), None);
    assert_eq!(can_aggregate(&s("0.0.0.0/0"), &s("192.168.0.0/24")), None);
    assert_eq!(
        can_aggregate(&s("10.0.0.0/25"), &s("10.0.0.128/25")),
        Some(s("10.0.0.0/24"))
    );
}

#[test]
fn aggregate_many_works() {
    assert_eq!(
        aggregate_many(vec![
            s("192.168.0.0/24"),
            s("192.168.1.0/24"),
            s("192.168.2.0/24"),
            s("192.168.3.0/24"),
        ]),
        vec![s("192.168.0.0/22")]
    );
    assert_eq!(
        aggregate_many(vec![s("10.0.0.0/24"), s("10.0.2.0/24")]),
        vec![s("10.0.0.0/24"), s("10.0.2.0/24")]
    );
    assert_eq!(
        aggregate_many(vec![s("192.168.0.0/24"), s("192.168.1.0/24")]),
        vec![s("192.168.0.0/23")]
    );
    assert_eq!(
        aggregate_many(vec![
            s("192.168.0.0/24"),
            s("192.168.2.0/24"),
            s("192.168.1.0/24"),
            s("192.168.3.0/24"),
        ]),
        vec![s("192.168.0.0/22")]
    );
}

// Laws on concrete values, and edge cases.

#[test]
fn containment_is_reflexive_and_antisymmetric() {
    let a = s("10.1.0.0/16");
    let b = s("10.1.0.0/16");
    assert!(contains(&a, &a));
    assert!(contains(&a, &b) && contains(&b, &a));
    assert_eq!(a.network, b.network);
    assert_eq!(a.cidr, b.cidr);
}

#[test]
fn overlap_is_symmetric_and_follows_containment() {
    let pairs = [
        ("192.168.1.0/24", "192.168.1.128/25"),
        ("192.168.1.0/24", "192.168.2.0/24"),
        ("10.0.0.0/8", "10.200.0.0/16"),
        ("0.0.0.0/0", "255.255.255.255/32"),
    ];
    for (x, y) in pairs {
        let (a, b) = (s(x), s(y));
        assert_eq!(overlaps(&a, &b), overlaps(&b, &a));
        if contains(&a, &b) {
            assert!(overlaps(&a, &b));
        }
    }
}

#[test]
fn merged_block_is_union_of_halves() {
    let a = s("10.0.0.0/25");
    let b = s("10.0.0.128/25");
    let m = can_aggregate(&a, &b).unwrap();
    assert_eq!(can_aggregate(&b, &a), Some(m));
    assert!(contains(&m, &a) && contains(&m, &b));
    assert_eq!(m.total_ips, a.total_ips + b.total_ips);
}

#[test]
fn aggregate_whole_space() {
    assert_eq!(
        aggregate_many(vec![s("0.0.0.0/1"), s("128.0.0.0/1")]),
        vec![s("0.0.0.0/0")]
    );
    assert_eq!(aggregate_many(vec![s("0.0.0.0/0")]), vec![s("0.0.0.0/0")]);
}

#[test]
fn aggregate_empty_and_duplicates() {
    assert_eq!(aggregate_many(vec![]), Vec::<SubnetInfo>::new());
    assert_eq!(
        aggregate_many(vec![s("10.0.0.0/24"), s("10.0.0.0/24")]),
        vec![s("10.0.0.0/24"), s("10.0.0.0/24")]
    );
}

#[test]
fn aggregate_sorts_by_network_then_prefix() {
    assert_eq!(
        aggregate_many(vec![s("10.0.1.0/24"), s("10.0.0.0/16"), s("10.0.0.0/8")]),
        vec![s("10.0.0.0/8"), s("10.0.0.0/16"), s("10.0.1.0/24")]
    );
}

#[test]
fn aggregate_covers_the_same_addresses() {
    let nets = vec![s("172.16.0.0/24"), s("172.16.1.0/24"), s("172.16.3.0/24"), s("172.16.2.0/24"), s("172.16.9.0/24")];
    let out = aggregate_many(nets.clone());
    for probe in [0xAC100000u32, 0xAC1001FF, 0xAC100305, 0xAC100400, 0xAC100901, 0xAC100A00] {
        let before = nets.iter().any(|n| ip_in_subnet(probe, n));
        let after = out.iter().any(|n| ip_in_subnet(probe, n));
        assert_eq!(before, after);
    }
    assert_eq!(out, vec![s("172.16.0.0/22"), s("172.16.9.0/24")]);
}

#[test]
fn aggregate_result_is_sorted_and_settled() {
    let nets = vec![
        s("10.0.3.0/24"), s("10.0.1.0/24"), s("10.0.0.0/24"), s("10.0.2.0/24"),
        s("10.0.5.0/24"), s("10.0.8.0/23"), s("9.0.0.0/8"),
    ];
    let out = aggregate_many(nets);
    for w in out.windows(2) {
        assert!(w[0].network <= w[1].network);
        assert_eq!(can_aggregate(&w[0], &w[1]), None);
    }
    assert_eq!(out, vec![s("9.0.0.0/8"), s("10.0.0.0/22"), s("10.0.5.0/24"), s("10.0.8.0/23")]);
}
