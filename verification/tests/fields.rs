use subnet_calc::fields::{
    history_fields, raw_subnet_fields, subnet_fields, vlsm_entry_fields, vlsm_failure_fields,
    FieldValue,
};
use subnet_calc::history::{HistoryEntry, Timestamp};
use subnet_calc::subnet::analyze;
use subnet_calc::vlsm::vlsm;

fn text(s: &str) -> FieldValue {
    FieldValue::Text(s.to_string())
}

fn names(fields: &[(String, FieldValue)]) -> Vec<&str> {
    fields.iter().map(|(n, _)| n.as_str()).collect()
}

#[test]
fn subnet_fields_use_dotted_notation() {
    let f = subnet_fields(&analyze("192.168.1.100/24").unwrap());
    assert_eq!(
        names(&f),
        vec!["network", "broadcast", "mask", "wildcard", "cidr", "total_ips", "usable_ips", "first_host", "last_host", "ip_class", "is_private"]
    );
    assert_eq!(f[0].1, text("192.168.1.0"));
    assert_eq!(f[4].1, text("192.168.1.0/24"));
    assert_eq!(f[5].1, FieldValue::Number(256));
    assert_eq!(f[9].1, text("C类地址"));
    assert_eq!(f[10].1, FieldValue::Flag(true));
}

#[test]
fn raw_fields_use_numbers() {
    let f = raw_subnet_fields(&analyze("192.168.1.100/24").unwrap());
    assert_eq!(f[0].1, FieldValue::Number(0xC0A80100));
    assert_eq!(f[4].1, FieldValue::Number(24));
    assert_eq!(f[9].1, text("ClassC"));
}

#[test]
fn history_fields_start_with_input() {
    let e = HistoryEntry {
        timestamp: Timestamp { secs: 0, nanos: 0, offset_secs: 0 },
        input: "10.0.0.1/8".to_string(),
        result: analyze("10.0.0.1/8").unwrap(),
    };
    let f = history_fields(&e);
    assert_eq!(f.len(), 12);
    assert_eq!(f[0], ("input".to_string(), text("10.0.0.1/8")));
    assert_eq!(f[1].1, text("10.0.0.0"));
}

#[test]
fn vlsm_fields() {
    let r = vlsm("192.168.1.0/24", vec![("a".to_string(), 50), ("b".to_string(), 0)]).unwrap();
    let f = vlsm_entry_fields(&r.allocated[0]);
    assert_eq!(
        names(&f),
        vec!["name", "required_hosts", "block_size", "network", "mask", "cidr", "first_host", "last_host", "broadcast", "usable"]
    );
    assert_eq!(f[2].1, FieldValue::Number(64));
    assert_eq!(f[5].1, text("/26"));
    let g = vlsm_failure_fields(&r.failed[0]);
    assert_eq!(g[0].1, text("b"));
    assert_eq!(g[2].1, text("需求主机数必须 ≥ 1"));
}
