use subnet_calc::ip::{
    ip_class, is_broadcast, is_loopback, is_private, is_valid_ipv4, parse_ipv4, to_binary,
    to_dotted, to_hex, to_integer, IpClass, IpError,
};

#[test]
fn parse_ipv4_valid() {
    assert_eq!(parse_ipv4("192.168.1.1"), Ok(0xC0A80101));
    assert_eq!(parse_ipv4("0.0.0.0"), Ok(0));
    assert_eq!(parse_ipv4("255.255.255.255"), Ok(0xFFFFFFFF));
}

#[test]
fn parse_ipv4_invalid() {
    assert_eq!(
        parse_ipv4("999.1.1.1"),
        Err(IpError::SegmentOutOfRange {
            segment: "999".to_string(),
            value: 999
        })
    );
    assert_eq!(parse_ipv4("1.2.3"), Err(IpError::WrongSegmentCount(3)));
    assert_eq!(parse_ipv4("1.2.3.4.5"), Err(IpError::WrongSegmentCount(5)));
    assert_eq!(
        parse_ipv4("a.b.c.d"),
        Err(IpError::SegmentNotNumber("a".to_string()))
    );
    assert_eq!(
        parse_ipv4("01.2.3.4"),
        Err(IpError::LeadingZero("01".to_string()))
    );
    assert_eq!(parse_ipv4(""), Err(IpError::Empty));
}

#[test]
fn is_valid_ipv4_works() {
    assert!(is_valid_ipv4("192.168.1.1"));
    assert!(!is_valid_ipv4("999.1.1.1"));
    assert!(!is_valid_ipv4(""));
}

#[test]
fn to_binary_works() {
    assert_eq!(to_binary(0xC0A80101), "11000000.10101000.00000001.00000001");
}

#[test]
fn to_hex_works() {
    assert_eq!(to_hex(0xC0A80101), "C0A80101");
}

#[test]
fn to_integer_works() {
    assert_eq!(to_integer(0xC0A80101), "3232235777");
}

#[test]
fn to_dotted_works() {
    assert_eq!(to_dotted(0xC0A80101), "192.168.1.1");
    assert_eq!(to_dotted(0), "0.0.0.0");
    assert_eq!(to_dotted(0xFFFFFFFF), "255.255.255.255");
}

#[test]
fn ip_class_works() {
    assert_eq!(ip_class(0x0A000001), IpClass::ClassA);
    assert_eq!(ip_class(0xAC100001), IpClass::ClassB);
    assert_eq!(ip_class(0xC0A80101), IpClass::ClassC);
    assert_eq!(ip_class(0xE0000001), IpClass::ClassD);
    assert_eq!(ip_class(0xF0000001), IpClass::ClassE);

    assert_eq!(ip_class(0x7F000001), IpClass::ClassA);
    assert_eq!(ip_class(0x80000001), IpClass::ClassB);
    assert_eq!(ip_class(0xBF000001), IpClass::ClassB);
    assert_eq!(ip_class(0xC0000001), IpClass::ClassC);
    assert_eq!(ip_class(0xDF000001), IpClass::ClassC);
    assert_eq!(ip_class(0xE0000001), IpClass::ClassD);
    assert_eq!(ip_class(0xEF000001), IpClass::ClassD);
    assert_eq!(ip_class(0xF0000001), IpClass::ClassE);
    assert_eq!(ip_class(0xFF000001), IpClass::ClassE);
}

#[test]
fn ip_class_description_works() {
    assert_eq!(IpClass::ClassA.description(), "A类地址");
    assert_eq!(IpClass::ClassB.description(), "B类地址");
    assert_eq!(IpClass::ClassC.description(), "C类地址");
    assert_eq!(IpClass::ClassD.description(), "组播地址");
    assert_eq!(IpClass::ClassE.description(), "保留地址");
}

#[test]
fn is_private_works() {
    assert!(is_private(0x0A000001));
    assert!(is_private(0xAC100001));
    assert!(is_private(0xAC1FFF01));
    assert!(!is_private(0xAC200001));
    assert!(is_private(0xC0A80101));
    assert!(!is_private(0x08080808));
}

#[test]
fn is_loopback_works() {
    assert!(is_loopback(0x7F000001));
    assert!(!is_loopback(0x7E000001));
}

#[test]
fn is_broadcast_works() {
    assert!(is_broadcast(0xFFFFFFFF));
    assert!(!is_broadcast(0xFFFFFFFE));
}

// Edge cases handled by the parser.

#[test]
fn parse_ipv4_edges() {
    assert_eq!(parse_ipv4("  10.0.0.1  "), Ok(0x0A000001));
    assert_eq!(parse_ipv4("   "), Err(IpError::Empty));
    assert_eq!(parse_ipv4("1..2.3"), Err(IpError::SegmentNotNumber("".to_string())));
    assert_eq!(parse_ipv4("1.2.3.-4"), Err(IpError::SegmentNotNumber("-4".to_string())));
    assert_eq!(parse_ipv4("+1.2.3.4"), Ok(0x01020304));
    assert_eq!(parse_ipv4("0.0.0.00"), Err(IpError::LeadingZero("00".to_string())));
    assert_eq!(
        parse_ipv4("1.2.3.99999999999"),
        Err(IpError::SegmentNotNumber("99999999999".to_string()))
    );
    assert_eq!(
        parse_ipv4("256.0.0.0"),
        Err(IpError::SegmentOutOfRange { segment: "256".to_string(), value: 256 })
    );
}

#[test]
fn ip_error_messages() {
    assert_eq!(IpError::Empty.to_string(), "输入为空");
    assert_eq!(IpError::WrongSegmentCount(3).to_string(), "IP 地址段数不为 4，实际段数为 3");
    assert_eq!(
        IpError::SegmentNotNumber("a".to_string()).to_string(),
        "段 \"a\" 不是合法数字"
    );
    assert_eq!(
        IpError::SegmentOutOfRange { segment: "999".to_string(), value: 999 }.to_string(),
        "段 \"999\" 的值 999 超出范围（0-255）"
    );
    assert_eq!(
        IpError::LeadingZero("01".to_string()).to_string(),
        "段 \"01\" 存在前导零"
    );
}

#[test]
fn conversions_of_extremes() {
    assert_eq!(to_hex(0), "00000000");
    assert_eq!(to_hex(0x0000ABCD), "0000ABCD");
    assert_eq!(to_integer(0), "0");
    assert_eq!(to_integer(0xFFFFFFFF), "4294967295");
    assert_eq!(to_binary(0), "00000000.00000000.00000000.00000000");
}

#[test]
fn dotted_text_parses_back() {
    for ip in [0u32, 1, 0x7F000001, 0xC0A80101, 0xFFFFFFFF, 0x0A0B0C0D] {
        assert_eq!(parse_ipv4(&to_dotted(ip)), Ok(ip));
    }
}

#[test]
fn private_and_loopback_edges() {
    assert!(is_private(0xC0A8FFFF));
    assert!(!is_private(0xC0A90000));
    assert!(!is_private(0x0B000000));
    assert!(is_loopback(0x7FFFFFFF));
    assert!(!is_loopback(0x80000000));
}
