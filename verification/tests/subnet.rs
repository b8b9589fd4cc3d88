use subnet_calc::ip::IpClass;
use subnet_calc::subnet::{analyze, cidr_representation, mask_binary_grouped, subnet_from, SubnetError};

#[test]
fn analyze_ip_cidr() {
    let info = analyze("192.168.1.100/24").unwrap();
    assert_eq!(info.network, 0xC0A80100);
    assert_eq!(info.broadcast, 0xC0A801FF);
    assert_eq!(info.usable_ips, 254);
    assert_eq!(info.first_host, 0xC0A80101);
    assert_eq!(info.last_host, 0xC0A801FE);
    assert_eq!(info.cidr, 24);
    assert!(info.is_private);
}

#[test]
fn analyze_ip_space_dotted_mask() {
    let info = analyze("10.0.0.1 255.255.255.252").unwrap();
    assert_eq!(info.cidr, 30);
    assert_eq!(info.network, 0x0A000000);
    assert_eq!(info.broadcast, 0x0A000003);
    assert_eq!(info.usable_ips, 2);
    assert_eq!(info.first_host, 0x0A000001);
    assert_eq!(info.last_host, 0x0A000002);
}

#[test]
fn analyze_ip_space_numeric_cidr() {
    let info = analyze("10.0.0.1 30").unwrap();
    assert_eq!(info.cidr, 30);
    assert_eq!(info.network, 0x0A000000);
    assert_eq!(info.broadcast, 0x0A000003);
    assert_eq!(info.usable_ips, 2);
    assert_eq!(info.first_host, 0x0A000001);
    assert_eq!(info.last_host, 0x0A000002);
}

#[test]
fn analyze_rfc3021_31() {
    let info = analyze("10.0.0.0/31").unwrap();
    assert_eq!(info.usable_ips, 2);
    assert_eq!(info.first_host, 0x0A000000);
    assert_eq!(info.last_host, 0x0A000001);
}

#[test]
fn analyze_32() {
    let info = analyze("10.0.0.5/32").unwrap();
    assert_eq!(info.usable_ips, 1);
    assert_eq!(info.first_host, 0x0A000005);
    assert_eq!(info.last_host, 0x0A000005);
}

#[test]
fn analyze_0() {
    let info = analyze("0.0.0.0/0").unwrap();
    assert_eq!(info.total_ips, 4294967296);
    assert_eq!(info.usable_ips, 4294967294);
    assert_eq!(info.first_host, 0x00000001);
    assert_eq!(info.last_host, 0xFFFFFFFE);
}

#[test]
fn analyze_plain_ip_class_c() {
    let info = analyze("192.168.1.1").unwrap();
    assert_eq!(info.cidr, 24);
    assert_eq!(info.network, 0xC0A80100);
}

#[test]
fn analyze_plain_ip_class_a() {
    let info = analyze("10.1.1.1").unwrap();
    assert_eq!(info.cidr, 8);
    assert_eq!(info.network, 0x0A000000);
}

#[test]
fn analyze_plain_ip_class_b() {
    let info = analyze("172.16.1.1").unwrap();
    assert_eq!(info.cidr, 16);
    assert_eq!(info.network, 0xAC100000);
}

#[test]
fn analyze_plain_ip_class_d() {
    assert_eq!(
        analyze("224.0.0.1"),
        Err(SubnetError::NoDefaultMask(IpClass::ClassD))
    );
}

#[test]
fn analyze_plain_ip_class_e() {
    assert_eq!(
        analyze("240.0.0.1"),
        Err(SubnetError::NoDefaultMask(IpClass::ClassE))
    );
}

#[test]
fn analyze_fullwidth() {
    let info = analyze("１９２．１６８．１．１／２４").unwrap();
    assert_eq!(info.network, 0xC0A80100);
    assert_eq!(info.cidr, 24);
}

#[test]
fn analyze_spaces_around_slash() {
    let info = analyze("192.168.1.1 / 24").unwrap();
    assert_eq!(info.network, 0xC0A80100);
    assert_eq!(info.cidr, 24);
}

#[test]
fn cidr_representation_works() {
    let info = analyze("192.168.1.0/24").unwrap();
    assert_eq!(cidr_representation(&info), "192.168.1.0/24");
}

#[test]
fn mask_binary_grouped_works() {
    let info = analyze("192.168.1.1/24").unwrap();
    assert_eq!(
        mask_binary_grouped(&info),
        "11111111.11111111.11111111.00000000"
    );
}

#[test]
fn analyze_invalid_ip() {
    assert!(matches!(
        analyze("999.1.1.1/24"),
        Err(SubnetError::IpError(_))
    ));
}

#[test]
fn analyze_invalid_cidr() {
    assert!(matches!(
        analyze("1.2.3.4/33"),
        Err(SubnetError::MaskError(_))
    ));
}

#[test]
fn analyze_empty() {
    assert_eq!(analyze(""), Err(SubnetError::Empty));
}

// Further scenarios.

#[test]
fn analyze_fields_of_a_class_b_block() {
    let info = analyze("172.16.5.4/20").unwrap();
    assert_eq!(info.network, 0xAC100000);
    assert_eq!(info.broadcast, 0xAC100FFF);
    assert_eq!(info.mask, 0xFFFFF000);
    assert_eq!(info.wildcard, 0x00000FFF);
    assert_eq!(info.total_ips, 4096);
    assert_eq!(info.usable_ips, 4094);
    assert_eq!(info.ip_class, IpClass::ClassB);
    assert!(info.is_private);
}

#[test]
fn analyze_keeps_class_of_the_address() {
    let info = analyze("8.8.8.8/24").unwrap();
    assert_eq!(info.ip_class, IpClass::ClassA);
    assert!(!info.is_private);
}

#[test]
fn analyze_whitespace_only_is_empty() {
    assert_eq!(analyze("   \t "), Err(SubnetError::Empty));
}

#[test]
fn analyze_splits_at_first_slash() {
    assert!(matches!(analyze("1.2.3.4/24/8"), Err(SubnetError::MaskError(_))));
}

#[test]
fn analyze_of_own_cidr_text_gives_same_block() {
    for text in ["192.168.1.100/24", "10.0.0.1 255.255.255.252", "0.0.0.0/0", "10.0.0.5/32"] {
        let info = analyze(text).unwrap();
        let again = analyze(&cidr_representation(&info)).unwrap();
        assert_eq!(again.network, info.network);
        assert_eq!(again.cidr, info.cidr);
        assert_eq!(again.broadcast, info.broadcast);
        assert_eq!(again.usable_ips, info.usable_ips);
    }
}

#[test]
fn subnet_from_matches_analyze() {
    assert_eq!(subnet_from(0xC0A80164, 24), analyze("192.168.1.100/24").unwrap());
}

#[test]
fn subnet_error_messages() {
    assert_eq!(SubnetError::Empty.to_string(), "输入为空");
    assert_eq!(
        SubnetError::NoDefaultMask(IpClass::ClassD).to_string(),
        "组播地址无默认子网掩码"
    );
    assert_eq!(
        analyze("1.2.3.4/33").unwrap_err().to_string(),
        "非法 CIDR 前缀长度: 33（应在 0-32 之间）"
    );
}
