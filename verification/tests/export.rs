use subnet_calc::export::{
    cidr_representation, export_csv_line, export_csv_with_header, export_history_csv,
    export_markdown_row, export_markdown_table, export_vlsm_csv, export_vlsm_markdown, to_dotted,
    ExportFormat,
};
use subnet_calc::history::{HistoryEntry, Timestamp};
use subnet_calc::subnet::{self, SubnetInfo};
use subnet_calc::vlsm::{self, VlsmResult};

fn sample_subnet_info() -> SubnetInfo {
    subnet::analyze("192.168.1.100/24").unwrap()
}

#[test]
fn export_format_display_json() {
    assert_eq!(ExportFormat::Json.to_string(), "JSON");
}

#[test]
fn export_format_display_csv() {
    assert_eq!(ExportFormat::Csv.to_string(), "CSV");
}

#[test]
fn export_format_display_markdown() {
    assert_eq!(ExportFormat::Markdown.to_string(), "Markdown");
}

#[test]
fn export_csv_line_format() {
    let info = sample_subnet_info();
    let line = export_csv_line(&info);
    let fields: Vec<&str> = line.split(',').collect();
    assert_eq!(fields.len(), 9, "CSV line should have 9 fields");
    assert_eq!(fields[0], "192.168.1.0/24");
}

#[test]
fn export_csv_with_header_has_header() {
    let info = sample_subnet_info();
    let csv = export_csv_with_header(&[info]);
    assert!(csv.starts_with("CIDR,网络地址,广播地址,子网掩码,反掩码,IP总数,可用主机数,首个可用IP,末个可用IP\n"));
}

#[test]
fn export_csv_with_header_multiple_entries() {
    let info1 = subnet::analyze("192.168.1.1/24").unwrap();
    let info2 = subnet::analyze("10.0.0.1/16").unwrap();
    let csv = export_csv_with_header(&[info1, info2]);
    let lines: Vec<&str> = csv.lines().collect();
    assert_eq!(lines.len(), 3, "Should have header + 2 data rows");
    assert!(lines[1].starts_with("192.168.1.0/24,"));
    assert!(lines[2].starts_with("10.0.0.0/16,"));
}

#[test]
fn export_csv_with_header_empty_input() {
    let csv = export_csv_with_header(&[]);
    let lines: Vec<&str> = csv.lines().collect();
    assert_eq!(lines.len(), 1, "Empty input should only have header");
}

#[test]
fn export_markdown_row_format() {
    let info = sample_subnet_info();
    let row = export_markdown_row(&info);
    assert!(row.starts_with("| "));
    assert!(row.ends_with(" |"));
}

#[test]
fn export_markdown_table_has_header_and_separator() {
    let info = sample_subnet_info();
    let table = export_markdown_table(&[info]);
    let lines: Vec<&str> = table.lines().collect();
    assert!(lines[0].contains("CIDR"));
    assert!(lines[1].contains("------"));
}

#[test]
fn export_markdown_table_multiple_entries() {
    let info1 = subnet::analyze("192.168.1.1/24").unwrap();
    let info2 = subnet::analyze("10.0.0.1/8").unwrap();
    let table = export_markdown_table(&[info1, info2]);
    let lines: Vec<&str> = table.lines().collect();
    assert_eq!(lines.len(), 4, "Should have header + separator + 2 data rows");
}

#[test]
fn export_history_csv_has_header() {
    let info = subnet::analyze("192.168.1.1/24").unwrap();
    let entry = HistoryEntry {
        timestamp: Timestamp::now(),
        input: "192.168.1.1/24".to_string(),
        result: info,
    };
    let csv = export_history_csv(&[entry]);
    let lines: Vec<&str> = csv.lines().collect();
    assert!(lines[0].starts_with("时间戳,输入,CIDR,"));
}

#[test]
fn export_history_csv_empty_input() {
    let csv = export_history_csv(&[]);
    let lines: Vec<&str> = csv.lines().collect();
    assert_eq!(lines.len(), 1, "Should only have header");
}

#[test]
fn export_vlsm_csv_allocated_section() {
    let result = vlsm::vlsm("192.168.1.0/24", vec![("子网1".to_string(), 10)]).unwrap();
    let csv = export_vlsm_csv(&result);
    assert!(csv.starts_with("名称,需求主机数,块大小,网络地址,CIDR,掩码,首个可用IP,末个可用IP,广播地址,可用主机数\n"));
    assert!(csv.contains("子网1"));
}

#[test]
fn export_vlsm_csv_failed_section() {
    let result = vlsm::vlsm("192.168.1.0/24", vec![("A".to_string(), 300)]).unwrap();
    let csv = export_vlsm_csv(&result);
    assert!(csv.contains("失败项:"));
    assert!(csv.contains("名称,需求主机数,原因"));
}

#[test]
fn export_vlsm_csv_empty_result() {
    let empty_result = VlsmResult {
        allocated: vec![],
        failed: vec![],
    };
    let csv = export_vlsm_csv(&empty_result);
    let lines: Vec<&str> = csv.lines().collect();
    assert_eq!(lines.len(), 1, "Should only have header");
}

#[test]
fn export_vlsm_markdown_allocated_section() {
    let result = vlsm::vlsm("192.168.1.0/24", vec![("子网1".to_string(), 10)]).unwrap();
    let md = export_vlsm_markdown(&result);
    assert!(md.starts_with("| 名称 | 需求主机数 | 块大小 |"));
    assert!(md.contains("子网1"));
}

#[test]
fn export_vlsm_markdown_failed_section() {
    let result = vlsm::vlsm("192.168.1.0/24", vec![("A".to_string(), 300)]).unwrap();
    let md = export_vlsm_markdown(&result);
    assert!(md.contains("**失败项:**"));
}

#[test]
fn export_vlsm_markdown_empty_result() {
    let empty_result = VlsmResult {
        allocated: vec![],
        failed: vec![],
    };
    let md = export_vlsm_markdown(&empty_result);
    let lines: Vec<&str> = md.lines().collect();
    assert_eq!(lines.len(), 2, "Should have header + separator");
}

#[test]
fn to_dotted_converts_correctly() {
    assert_eq!(to_dotted(0xC0A80100), "192.168.1.0");
}

#[test]
fn to_dotted_zero() {
    assert_eq!(to_dotted(0x00000000), "0.0.0.0");
}

#[test]
fn to_dotted_broadcast() {
    assert_eq!(to_dotted(0xFFFFFFFF), "255.255.255.255");
}

// Exact texts.

#[test]
fn csv_line_exact() {
    assert_eq!(
        export_csv_line(&sample_subnet_info()),
        "192.168.1.0/24,192.168.1.0,192.168.1.255,255.255.255.0,0.0.0.255,256,254,192.168.1.1,192.168.1.254"
    );
}

#[test]
fn markdown_row_exact() {
    assert_eq!(
        export_markdown_row(&sample_subnet_info()),
        "| 192.168.1.0/24 | 192.168.1.0 | 192.168.1.255 | 255.255.255.0 | 0.0.0.255 | 256 | 254 | 192.168.1.1 | 192.168.1.254 |"
    );
}

#[test]
fn cidr_representation_of_export() {
    assert_eq!(cidr_representation(&sample_subnet_info()), "192.168.1.0/24");
}

#[test]
fn vlsm_csv_exact() {
    let result = vlsm::vlsm("192.168.1.0/24", vec![("a".to_string(), 10), ("b".to_string(), 0)]).unwrap();
    let csv = export_vlsm_csv(&result);
    assert_eq!(
        csv,
        "名称,需求主机数,块大小,网络地址,CIDR,掩码,首个可用IP,末个可用IP,广播地址,可用主机数\n\
         a,10,16,192.168.1.0,/28,255.255.255.240,192.168.1.1,192.168.1.14,192.168.1.15,14\n\
         \n失败项:\n名称,需求主机数,原因\n\
         b,0,需求主机数必须 ≥ 1\n"
    );
}

#[test]
fn history_csv_row_holds_input_and_result() {
    let info = subnet::analyze("10.0.0.1/8").unwrap();
    let entry = HistoryEntry {
        timestamp: Timestamp { secs: 0, nanos: 0, offset_secs: 0 },
        input: "10.0.0.1/8".to_string(),
        result: info,
    };
    let csv = export_history_csv(&[entry]);
    let lines: Vec<&str> = csv.lines().collect();
    assert_eq!(lines.len(), 2);
    assert!(lines[1].starts_with("1970-01-01 00:00:00,10.0.0.1/8,10.0.0.0/8,"));
}
