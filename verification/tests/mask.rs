use subnet_calc::mask::{
    cidr_to_mask, is_valid_mask, mask_to_cidr, parse_mask, to_dotted, to_dotted_wildcard,
    wildcard_mask, MaskError,
};

#[test]
fn test_is_valid_mask() {
    assert_eq!(is_valid_mask(0xFFFFFF00), true);
    assert_eq!(is_valid_mask(0), true);
    assert_eq!(is_valid_mask(0xFFFFFFFF), true);
    assert_eq!(is_valid_mask(0xFFFFFF01), false);
    assert_eq!(is_valid_mask(0xFF00FF00), false);
    assert_eq!(is_valid_mask(0x00FFFFFF), false);
}

#[test]
fn test_mask_to_cidr() {
    assert_eq!(mask_to_cidr(0xFFFFFF00), Some(24));
    assert_eq!(mask_to_cidr(0), Some(0));
    assert_eq!(mask_to_cidr(0xFFFFFFFF), Some(32));
    assert_eq!(mask_to_cidr(0xFFFFFF01), None);
    assert_eq!(mask_to_cidr(0xFF00FF00), None);
    assert_eq!(mask_to_cidr(0x80000000), Some(1));
    assert_eq!(mask_to_cidr(0xFE000000), Some(7));
}

#[test]
fn test_cidr_to_mask() {
    assert_eq!(cidr_to_mask(0), 0);
    assert_eq!(cidr_to_mask(8), 0xFF000000);
    assert_eq!(cidr_to_mask(16), 0xFFFF0000);
    assert_eq!(cidr_to_mask(24), 0xFFFFFF00);
    assert_eq!(cidr_to_mask(32), 0xFFFFFFFF);
    assert_eq!(cidr_to_mask(1), 0x80000000);
    assert_eq!(cidr_to_mask(31), 0xFFFFFFFE);
}

#[test]
fn test_wildcard_mask() {
    assert_eq!(wildcard_mask(0xFFFFFF00), 0x000000FF);
    assert_eq!(wildcard_mask(0), 0xFFFFFFFF);
    assert_eq!(wildcard_mask(0xFFFFFFFF), 0);
}

#[test]
fn test_to_dotted() {
    assert_eq!(to_dotted(0xFFFFFF00), "255.255.255.0");
    assert_eq!(to_dotted(0), "0.0.0.0");
    assert_eq!(to_dotted(0xFFFFFFFF), "255.255.255.255");
}

#[test]
fn test_to_dotted_wildcard() {
    assert_eq!(to_dotted_wildcard(0xFFFFFF00), "0.0.0.255");
    assert_eq!(to_dotted_wildcard(0), "255.255.255.255");
}

#[test]
fn test_parse_mask_valid() {
    assert_eq!(parse_mask("24"), Ok(24));
    assert_eq!(parse_mask("0"), Ok(0));
    assert_eq!(parse_mask("32"), Ok(32));
    assert_eq!(parse_mask("255.255.255.0"), Ok(24));
    assert_eq!(parse_mask("0.0.0.0"), Ok(0));
    assert_eq!(parse_mask("255.255.255.255"), Ok(32));
    assert_eq!(parse_mask("255.255.255.252"), Ok(30));
}

#[test]
fn test_parse_mask_invalid() {
    assert_eq!(parse_mask("33"), Err(MaskError::InvalidPrefixLength(33)));
    assert_eq!(
        parse_mask("255.255.255.1"),
        Err(MaskError::InvalidMask(0xFFFFFF01))
    );
    assert_eq!(parse_mask("abc"), Err(MaskError::NotNumber("abc".to_string())));
    assert_eq!(parse_mask(""), Err(MaskError::Empty));
    assert_eq!(parse_mask("1.2.3"), Err(MaskError::WrongSegmentCount(3)));
    assert_eq!(
        parse_mask("256.0.0.0"),
        Err(MaskError::SegmentOutOfRange {
            segment: "256".to_string(),
            value: 256
        })
    );
}

// Round trips and edge cases.

#[test]
fn prefix_and_mask_round_trip() {
    for c in 0u8..=32 {
        assert_eq!(mask_to_cidr(cidr_to_mask(c)), Some(c));
        assert!(is_valid_mask(cidr_to_mask(c)));
        assert_eq!(parse_mask(&to_dotted(cidr_to_mask(c))), Ok(c));
        assert_eq!(parse_mask(&c.to_string()), Ok(c));
    }
}

#[test]
fn parse_mask_edges() {
    assert_eq!(parse_mask("  24 "), Ok(24));
    assert_eq!(parse_mask("+8"), Ok(8));
    assert_eq!(parse_mask("024"), Ok(24));
    assert_eq!(parse_mask("4294967296"), Err(MaskError::NotNumber("4294967296".to_string())));
    assert_eq!(parse_mask("255.a.0.0"), Err(MaskError::NotNumber("a".to_string())));
    assert_eq!(parse_mask("255.0.255.0"), Err(MaskError::InvalidMask(0xFF00FF00)));
    assert_eq!(parse_mask("1.2.3.4.5"), Err(MaskError::WrongSegmentCount(5)));
}

#[test]
fn mask_error_messages() {
    assert_eq!(MaskError::Empty.to_string(), "输入为空");
    assert_eq!(
        MaskError::InvalidPrefixLength(33).to_string(),
        "非法 CIDR 前缀长度: 33（应在 0-32 之间）"
    );
    assert_eq!(MaskError::NotNumber("x".to_string()).to_string(), "输入不是有效数字: x");
    assert_eq!(MaskError::InvalidMask(0xFFFFFF01).to_string(), "非法掩码值: 0xFFFFFF01");
    assert_eq!(MaskError::InvalidMask(1).to_string(), "非法掩码值: 0x00000001");
    assert_eq!(
        MaskError::WrongSegmentCount(3).to_string(),
        "点分十进制段数错误: 3（应为 4 段）"
    );
    assert_eq!(
        MaskError::SegmentOutOfRange { segment: "256".to_string(), value: 256 }.to_string(),
        "段 256 的值 256 超出范围（应在 0-255 之间）"
    );
}
