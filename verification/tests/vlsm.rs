use subnet_calc::subnet::SubnetError;
use subnet_calc::vlsm::{vlsm, VlsmError};

#[test]
fn test_classic() {
    let result = vlsm(
        "192.168.1.0/24",
        vec![
            ("子网1".to_string(), 100),
            ("子网2".to_string(), 50),
            ("子网3".to_string(), 20),
            ("子网4".to_string(), 2),
        ],
    )
    .unwrap();
    assert_eq!(result.allocated.len(), 4);
    assert!(result.failed.is_empty());

    let e1 = &result.allocated[0];
    assert_eq!(e1.name, "子网1");
    assert_eq!(e1.allocated_block, 128);
    assert_eq!(e1.cidr, 25);
    assert_eq!(e1.network, 0xC0A80100);

    let e2 = &result.allocated[1];
    assert_eq!(e2.name, "子网2");
    assert_eq!(e2.allocated_block, 64);
    assert_eq!(e2.cidr, 26);
    assert_eq!(e2.network, 0xC0A80180);

    let e3 = &result.allocated[2];
    assert_eq!(e3.name, "子网3");
    assert_eq!(e3.allocated_block, 32);
    assert_eq!(e3.cidr, 27);
    assert_eq!(e3.network, 0xC0A801C0);

    let e4 = &result.allocated[3];
    assert_eq!(e4.name, "子网4");
    assert_eq!(e4.allocated_block, 4);
    assert_eq!(e4.cidr, 30);
    assert_eq!(e4.network, 0xC0A801E0);
}

#[test]
fn test_order_preserved() {
    let result = vlsm(
        "192.168.1.0/24",
        vec![
            ("A".to_string(), 20),
            ("B".to_string(), 100),
            ("C".to_string(), 50),
            ("D".to_string(), 2),
        ],
    )
    .unwrap();
    assert_eq!(result.allocated.len(), 4);
    assert_eq!(result.allocated[0].name, "A");
    assert_eq!(result.allocated[1].name, "B");
    assert_eq!(result.allocated[2].name, "C");
    assert_eq!(result.allocated[3].name, "D");
}

#[test]
fn test_partial_success() {
    let result = vlsm(
        "192.168.1.0/24",
        vec![("A".to_string(), 200), ("B".to_string(), 100)],
    )
    .unwrap();
    assert_eq!(result.allocated.len(), 1);
    assert_eq!(result.failed.len(), 1);
    assert_eq!(result.failed[0].name, "B");
}

#[test]
fn test_zero_hosts() {
    let result = vlsm("192.168.1.0/24", vec![("A".to_string(), 0)]).unwrap();
    assert!(result.allocated.is_empty());
    assert_eq!(result.failed.len(), 1);
    assert!(result.failed[0].reason.contains("≥ 1"));
}

#[test]
fn test_empty_requirements() {
    let result = vlsm("192.168.1.0/24", vec![]);
    assert_eq!(result, Err(VlsmError::NoRequirements));
}

#[test]
fn test_block_exceeds_capacity() {
    let result = vlsm("192.168.1.0/24", vec![("A".to_string(), 300)]).unwrap();
    assert!(result.allocated.is_empty());
    assert_eq!(result.failed.len(), 1);
    assert!(result.failed[0].reason.contains("容量"));
}

// Further scenarios: every failure reason, the exact fields of an entry,
// and the soundness of the allocation.

#[test]
fn bad_base_network_is_an_error() {
    assert_eq!(
        vlsm("", vec![("A".to_string(), 1)]),
        Err(VlsmError::SubnetError(SubnetError::Empty))
    );
    assert!(matches!(
        vlsm("invalid", vec![("A".to_string(), 10)]),
        Err(VlsmError::SubnetError(_))
    ));
}

#[test]
fn bad_base_network_wins_over_empty_requirements() {
    assert!(matches!(vlsm("x", vec![]), Err(VlsmError::SubnetError(_))));
}

#[test]
fn host_count_overflow_is_reported() {
    let result = vlsm("10.0.0.0/8", vec![("big".to_string(), usize::MAX)]).unwrap();
    assert!(result.allocated.is_empty());
    assert_eq!(result.failed.len(), 1);
    assert_eq!(result.failed[0].reason, "主机数计算溢出");
    assert_eq!(result.failed[0].required_hosts, usize::MAX);
}

#[test]
fn out_of_space_is_reported() {
    let result = vlsm(
        "192.168.1.0/24",
        vec![("A".to_string(), 100), ("B".to_string(), 100), ("C".to_string(), 100)],
    )
    .unwrap();
    assert_eq!(result.allocated.len(), 2);
    assert_eq!(result.failed.len(), 1);
    assert_eq!(result.failed[0].name, "C");
    assert_eq!(result.failed[0].reason, "地址空间不足");
}

#[test]
fn failures_keep_input_order() {
    let result = vlsm(
        "192.168.1.0/24",
        vec![
            ("Z".to_string(), 0),
            ("big".to_string(), 200),
            ("huge".to_string(), 1000),
            ("more".to_string(), 100),
        ],
    )
    .unwrap();
    let names: Vec<&str> = result.failed.iter().map(|f| f.name.as_str()).collect();
    assert_eq!(names, vec!["Z", "huge", "more"]);
    assert_eq!(result.failed[0].reason, "需求主机数必须 ≥ 1");
    assert_eq!(result.failed[1].reason, "块大小超过基础网段容量");
    assert_eq!(result.failed[2].reason, "地址空间不足");
    assert_eq!(result.allocated.len(), 1);
    assert_eq!(result.allocated[0].name, "big");
}

#[test]
fn entry_fields_are_exact() {
    let result = vlsm("10.0.0.0/29", vec![("p2p".to_string(), 1), ("lan".to_string(), 3)]).unwrap();
    assert_eq!(result.allocated.len(), 1);
    let lan = &result.allocated[0];
    assert_eq!(lan.name, "lan");
    assert_eq!(lan.required_hosts, 3);
    assert_eq!(lan.allocated_block, 8);
    assert_eq!(lan.network, 0x0A000000);
    assert_eq!(lan.mask, 0xFFFFFFF8);
    assert_eq!(lan.cidr, 29);
    assert_eq!(lan.first_host, 0x0A000001);
    assert_eq!(lan.last_host, 0x0A000006);
    assert_eq!(lan.broadcast, 0x0A000007);
    assert_eq!(lan.usable, 6);
    assert_eq!(result.failed.len(), 1);
    assert_eq!(result.failed[0].name, "p2p");
}

#[test]
fn smallest_block_is_four() {
    let result = vlsm("10.0.0.0/30", vec![("one".to_string(), 1)]).unwrap();
    let e = &result.allocated[0];
    assert_eq!(e.allocated_block, 4);
    assert_eq!(e.cidr, 30);
    assert_eq!(e.usable, 2);
}

#[test]
fn whole_space_base() {
    let result = vlsm("0.0.0.0/0", vec![("all".to_string(), 4294967294)]).unwrap();
    if usize::MAX as u64 >= 4294967296 {
        let e = &result.allocated[0];
        assert_eq!(e.allocated_block, 4294967296);
        assert_eq!(e.cidr, 0);
        assert_eq!(e.network, 0);
        assert_eq!(e.broadcast, 0xFFFFFFFF);
    }
}

#[test]
fn allocations_are_disjoint_and_inside_base() {
    let result = vlsm(
        "172.16.0.0/20",
        vec![
            ("a".to_string(), 500),
            ("b".to_string(), 7),
            ("c".to_string(), 1000),
            ("d".to_string(), 60),
            ("e".to_string(), 2000),
            ("f".to_string(), 3),
        ],
    )
    .unwrap();
    let base_lo = 0xAC100000u32;
    let base_hi = 0xAC100FFFu32;
    for e in &result.allocated {
        assert!(base_lo <= e.network && e.broadcast <= base_hi);
        assert_eq!(e.network % (e.allocated_block as u32), 0);
        assert!(e.usable >= e.required_hosts as u64);
    }
    for (i, x) in result.allocated.iter().enumerate() {
        for y in result.allocated.iter().skip(i + 1) {
            assert!(x.broadcast < y.network || y.broadcast < x.network);
        }
    }
}

#[test]
fn vlsm_error_messages() {
    assert_eq!(VlsmError::NoRequirements.to_string(), "需求列表为空");
    assert_eq!(
        VlsmError::SubnetError(SubnetError::Empty).to_string(),
        "子网错误: 输入为空"
    );
}
