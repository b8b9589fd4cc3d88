use subnet_calc::error::CoreError;
use subnet_calc::ip;
use subnet_calc::mask::MaskError;
use subnet_calc::subnet;
use subnet_calc::vlsm;

#[test]
fn test_core_error_display_ip() {
    let result = ip::parse_ipv4("999.999.999.999");
    assert!(result.is_err());
    let err = result.unwrap_err();
    let core_err = CoreError::Ip(err);
    let display = core_err.to_string();
    assert!(!display.is_empty());
}

#[test]
fn test_core_error_display_mask() {
    let mask_err = MaskError::InvalidMask(1);
    let core_err = CoreError::Mask(mask_err);
    let display = core_err.to_string();
    assert!(!display.is_empty());
}

#[test]
fn test_core_error_display_subnet() {
    let result = subnet::analyze("invalid");
    assert!(result.is_err());
    let err = result.unwrap_err();
    let core_err = CoreError::Subnet(err);
    let display = core_err.to_string();
    assert!(!display.is_empty());
}

#[test]
fn test_core_error_display_vlsm() {
    let result = vlsm::vlsm("invalid", vec![("A".to_string(), 10)]);
    assert!(result.is_err());
    let err = result.unwrap_err();
    let core_err = CoreError::Vlsm(err);
    let display = core_err.to_string();
    assert!(!display.is_empty());
}

#[test]
fn test_from_ip_error() {
    let ip_err = ip::parse_ipv4("999.999.999.999").unwrap_err();
    let core_err: CoreError = ip_err.into();
    match core_err {
        CoreError::Ip(_) => {}
        _ => panic!("Expected CoreError::Ip"),
    }
}

#[test]
fn test_from_mask_error() {
    let mask_err = MaskError::InvalidMask(1);
    let core_err: CoreError = mask_err.into();
    match core_err {
        CoreError::Mask(_) => {}
        _ => panic!("Expected CoreError::Mask"),
    }
}

#[test]
fn test_from_subnet_error() {
    let subnet_err = subnet::analyze("invalid").unwrap_err();
    let core_err: CoreError = subnet_err.into();
    match core_err {
        CoreError::Subnet(_) => {}
        _ => panic!("Expected CoreError::Subnet"),
    }
}

#[test]
fn test_from_vlsm_error() {
    let vlsm_err = vlsm::vlsm("invalid", vec![("A".to_string(), 10)]).unwrap_err();
    let core_err: CoreError = vlsm_err.into();
    match core_err {
        CoreError::Vlsm(_) => {}
        _ => panic!("Expected CoreError::Vlsm"),
    }
}

#[test]
fn test_core_error_debug_ip() {
    let ip_err = ip::parse_ipv4("999.999.999.999").unwrap_err();
    let core_err = CoreError::Ip(ip_err);
    let debug_str = format!("{:?}", core_err);
    assert!(debug_str.contains("Ip"));
}

#[test]
fn test_core_error_debug_mask() {
    let mask_err = MaskError::InvalidMask(1);
    let core_err = CoreError::Mask(mask_err);
    let debug_str = format!("{:?}", core_err);
    assert!(debug_str.contains("Mask"));
}

#[test]
fn test_core_error_debug_subnet() {
    let subnet_err = subnet::analyze("invalid").unwrap_err();
    let core_err = CoreError::Subnet(subnet_err);
    let debug_str = format!("{:?}", core_err);
    assert!(debug_str.contains("Subnet"));
}

#[test]
fn test_core_error_debug_vlsm() {
    let vlsm_err = vlsm::vlsm("invalid", vec![("A".to_string(), 10)]).unwrap_err();
    let core_err = CoreError::Vlsm(vlsm_err);
    let debug_str = format!("{:?}", core_err);
    assert!(debug_str.contains("Vlsm"));
}

// The error type offers its message through `to_string`.
#[test]
fn test_core_error_is_std_error() {
    let subnet_err = subnet::analyze("invalid").unwrap_err();
    let core_err = CoreError::Subnet(subnet_err);
    assert!(!core_err.to_string().is_empty());
}

#[test]
fn test_core_error_chain_ip_to_subnet() {
    let result = subnet::analyze("invalid.ip.address/24");
    assert!(result.is_err());
    let err = result.unwrap_err();
    let core_err = CoreError::Subnet(err);
    assert!(matches!(core_err, CoreError::Subnet(_)));
}

#[test]
fn test_core_error_multiple_variants() {
    let ip_err = ip::parse_ipv4("999.999.999.999").unwrap_err();
    let mask_err = MaskError::InvalidMask(0);
    let subnet_err = subnet::analyze("invalid").unwrap_err();
    let vlsm_err = vlsm::vlsm("invalid", vec![("A".to_string(), 10)]).unwrap_err();

    let core_errs = vec![
        CoreError::Ip(ip_err),
        CoreError::Mask(mask_err),
        CoreError::Subnet(subnet_err),
        CoreError::Vlsm(vlsm_err),
    ];

    assert_eq!(core_errs.len(), 4);

    for err in &core_errs {
        let display = err.to_string();
        assert!(!display.is_empty(), "Display should not be empty");
    }
}

#[test]
fn test_core_error_conversion_consistency() {
    let ip_err = ip::parse_ipv4("999.999.999.999").unwrap_err();

    let core_err: CoreError = ip_err.clone().into();
    assert!(matches!(core_err, CoreError::Ip(_)));

    let core_err2 = CoreError::Ip(ip_err);
    assert!(matches!(core_err2, CoreError::Ip(_)));
}

// Exact messages: each variant shows the message of the error it wraps.
#[test]
fn core_error_messages_are_those_of_the_wrapped_error() {
    let ip_err = ip::parse_ipv4("999.999.999.999").unwrap_err();
    assert_eq!(CoreError::Ip(ip_err.clone()).to_string(), ip_err.to_string());
    assert_eq!(
        CoreError::Ip(ip_err).to_string(),
        "段 \"999\" 的值 999 超出范围（0-255）"
    );
    assert_eq!(CoreError::Mask(MaskError::Empty).to_string(), "输入为空");
    let vlsm_err = vlsm::vlsm("1.2.3.4/40", vec![("A".to_string(), 10)]).unwrap_err();
    assert_eq!(
        CoreError::Vlsm(vlsm_err).to_string(),
        "子网错误: 非法 CIDR 前缀长度: 40（应在 0-32 之间）"
    );
    let subnet_err = subnet::analyze("224.0.0.1").unwrap_err();
    assert_eq!(CoreError::from(subnet_err).to_string(), "组播地址无默认子网掩码");
}
