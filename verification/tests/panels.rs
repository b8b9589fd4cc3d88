use subnet_calc::panels::{all_tabs, Tab};
use subnet_calc::history::HistoryStore;
use subnet_calc::panels::{
    add_requirement, analyze_and_record, batch_analyze, convert_target, entry_row_text,
    host_range_text, hosts_text, merge_verdict, network_bit_flags, nonblank_lines_of,
    pair_report, parse_requirements, prefix_text, remove_positions, remove_requirement,
    successful_infos, summarize_lines, summary_text, visible_positions, yes_no, ConvertTarget, MergeRefusal,
    PairError,
};
use subnet_calc::subnet::{analyze, SubnetError, SubnetInfo};
use subnet_calc::vlsm::vlsm;

fn s(input: &str) -> SubnetInfo {
    analyze(input).unwrap()
}

fn store() -> HistoryStore {
    HistoryStore::new("/tmp/subnet_calc_panels_test.json".to_string())
}

#[test]
fn yes_no_words() {
    assert_eq!(yes_no(true), "是");
    assert_eq!(yes_no(false), "否");
}

#[test]
fn summary_text_lists_every_field() {
    assert_eq!(
        summary_text(&s("192.168.1.100/24")),
        "网络地址: 192.168.1.0\n广播地址: 192.168.1.255\n子网掩码: 255.255.255.0\n反掩码: 0.0.0.255\nCIDR 表示: 192.168.1.0/24\nIP 类别: C类地址\n是否私有: 是\nIP 总数: 256\n可用主机数: 254\n首个可用 IP: 192.168.1.1\n末个可用 IP: 192.168.1.254"
    );
}

#[test]
fn analyze_and_record_blank_input() {
    let mut h = store();
    assert_eq!(analyze_and_record("   ", &mut h), None);
    assert!(h.entries().is_empty());
}

#[test]
fn analyze_and_record_records_success_only() {
    let mut h = store();
    let r = analyze_and_record("10.0.0.1/8", &mut h);
    assert_eq!(r, Some(Ok(s("10.0.0.0/8"))));
    assert_eq!(h.entries().len(), 1);
    assert_eq!(h.entries()[0].input, "10.0.0.1/8");
    let r = analyze_and_record("10.0.0.1/40", &mut h);
    assert!(matches!(r, Some(Err(SubnetError::MaskError(_)))));
    assert_eq!(h.entries().len(), 1);
}

#[test]
fn nonblank_lines_are_numbered_from_one() {
    let lines = nonblank_lines_of("a\n\n  b \r\n\t\nc\n");
    let got: Vec<(usize, &str)> = lines.iter().map(|(n, t)| (*n, t.as_str())).collect();
    assert_eq!(got, vec![(1, "a"), (3, "b"), (5, "c")]);
    assert!(nonblank_lines_of("").is_empty());
}

#[test]
fn batch_analyze_each_line_and_record_successes() {
    let mut h = store();
    let items = batch_analyze("192.168.1.1/24\n\nbad\r\n10.0.0.1/8\n192.168.1.1/24", &mut h);
    assert_eq!(items.len(), 4);
    assert_eq!(items[0].input_text, "192.168.1.1/24");
    assert_eq!(items[0].result, Ok(s("192.168.1.0/24")));
    assert_eq!(items[1].input_text, "bad");
    assert!(items[1].result.is_err());
    assert_eq!(items[2].result, Ok(s("10.0.0.0/8")));
    let inputs: Vec<&str> = h.entries().iter().map(|e| e.input.as_str()).collect();
    assert_eq!(inputs, vec!["192.168.1.1/24", "10.0.0.1/8"]);
}

#[test]
fn merge_verdict_gives_each_reason() {
    assert_eq!(
        merge_verdict(&s("192.168.0.0/24"), &s("192.168.1.0/24")),
        Ok(s("192.168.0.0/23"))
    );
    assert_eq!(
        merge_verdict(&s("192.168.0.0/24"), &s("192.168.0.0/16")),
        Err(MergeRefusal::PrefixDiffers)
    );
    assert_eq!(
        merge_verdict(&s("0.0.0.0/0"), &s("0.0.0.0/0")),
        Err(MergeRefusal::WholeSpace)
    );
    assert_eq!(
        merge_verdict(&s("10.0.0.0/24"), &s("10.0.0.0/24")),
        Err(MergeRefusal::SameNetwork)
    );
    assert_eq!(
        merge_verdict(&s("192.168.1.0/24"), &s("192.168.2.0/24")),
        Err(MergeRefusal::NoCommonSupernet)
    );
}

#[test]
fn refusal_words() {
    assert_eq!(MergeRefusal::PrefixDiffers.text(), "前缀长度不同");
    assert_eq!(MergeRefusal::WholeSpace.text(), "/0 不可再聚合");
    assert_eq!(MergeRefusal::SameNetwork.text(), "相同网段");
    assert_eq!(MergeRefusal::NoCommonSupernet.answer(), "否（不在同一超网）");
}

#[test]
fn pair_report_relations() {
    let r = pair_report("192.168.0.0/16", "192.168.1.0/24").unwrap();
    assert!(r.a_contains_b);
    assert!(!r.b_contains_a);
    assert!(r.overlap);
    assert_eq!(r.merge, Err(MergeRefusal::PrefixDiffers));
}

#[test]
fn pair_report_errors_name_the_input() {
    let e = pair_report("x", "y").unwrap_err();
    assert!(matches!(e, PairError::A(_)));
    let e = pair_report("10.0.0.0/8", "").unwrap_err();
    assert_eq!(e, PairError::B(SubnetError::Empty));
    assert_eq!(e.to_string(), "网段 B 错误: 输入为空");
}

#[test]
fn summarize_lines_aggregates() {
    let r = summarize_lines("192.168.0.0/24\n192.168.1.0/24\n192.168.2.0/24\n192.168.3.0/24");
    assert_eq!(r, Ok(vec![s("192.168.0.0/22")]));
}

#[test]
fn summarize_lines_reports_bad_lines() {
    let r = summarize_lines("10.0.0.0/8\n\n1.2.3.4/33\n\nfoo");
    assert_eq!(
        r,
        Err("第3行: 非法 CIDR 前缀长度: 33（应在 0-32 之间）; 第5行: IP 地址段数不为 4，实际段数为 1".to_string())
    );
}

#[test]
fn summarize_lines_without_subnets() {
    assert_eq!(summarize_lines(" \n\t\n"), Err("无有效网段".to_string()));
}

#[test]
fn convert_target_reads_address_then_mask() {
    assert_eq!(convert_target("  "), ConvertTarget::Blank);
    assert_eq!(convert_target(" 192.168.1.1 "), ConvertTarget::Ip(0xC0A80101));
    assert_eq!(convert_target("255.255.255.0"), ConvertTarget::Ip(0xFFFFFF00));
    assert_eq!(convert_target("24"), ConvertTarget::Mask(24));
    assert_eq!(convert_target("33"), ConvertTarget::Unknown);
    assert_eq!(convert_target("abc"), ConvertTarget::Unknown);
}

#[test]
fn requirements_rows() {
    let mut rows = vec![
        ("子网1".to_string(), " 100 ".to_string()),
        ("x".to_string(), "ten".to_string()),
        ("子网3".to_string(), "20".to_string()),
    ];
    assert_eq!(
        parse_requirements(&rows),
        vec![("子网1".to_string(), 100), ("子网3".to_string(), 20)]
    );
    add_requirement(&mut rows);
    assert_eq!(rows[3], ("子网4".to_string(), "10".to_string()));
    remove_requirement(&mut rows, 1);
    assert_eq!(rows.len(), 3);
    assert_eq!(rows[1].0, "子网3");
    remove_requirement(&mut rows, 7);
    assert_eq!(rows.len(), 3);
    let mut one = vec![("a".to_string(), "1".to_string())];
    remove_requirement(&mut one, 0);
    assert_eq!(one.len(), 1);
}

#[test]
fn vlsm_row_texts() {
    let r = vlsm("192.168.1.0/24", vec![("lan".to_string(), 50)]).unwrap();
    let e = &r.allocated[0];
    assert_eq!(
        entry_row_text(e),
        "lan,50,192.168.1.0,26,255.255.255.192,192.168.1.1,192.168.1.62,192.168.1.63"
    );
    assert_eq!(host_range_text(e), "192.168.1.1 ~ 192.168.1.62");
    assert_eq!(prefix_text(e.cidr), "/26");
}

#[test]
fn history_screen_positions_and_removal() {
    let mut h = store();
    h.add("Alpha", s("10.0.0.0/8"));
    h.add("beta", s("10.0.0.0/8"));
    h.add("ALPHABET", s("10.0.0.0/8"));
    assert_eq!(visible_positions(&h, "  "), vec![0, 1, 2]);
    assert_eq!(visible_positions(&h, "alp"), vec![0, 2]);
    assert_eq!(visible_positions(&h, "zzz"), Vec::<usize>::new());
    remove_positions(&mut h, &vec![0, 2]);
    let inputs: Vec<&str> = h.entries().iter().map(|e| e.input.as_str()).collect();
    assert_eq!(inputs, vec!["beta"]);
    assert_eq!(hosts_text(&s("10.0.0.0/30")), "2 台主机");
}

#[test]
fn network_bits_follow_prefix() {
    let flags = network_bit_flags(&s("10.0.0.0/10"));
    assert_eq!(flags.len(), 35);
    let on: usize = flags.iter().filter(|b| **b).count();
    assert_eq!(on, 10);
    assert!(flags[0] && flags[7] && !flags[8] && flags[9] && flags[10] && !flags[11]);
    assert!(network_bit_flags(&s("0.0.0.0/0")).iter().all(|b| !*b));
}

#[test]
fn batch_exports_only_successes() {
    let mut h = store();
    let items = batch_analyze("10.0.0.1/8
nope
172.16.0.1/12", &mut h);
    assert_eq!(successful_infos(&items), vec![s("10.0.0.0/8"), s("172.16.0.0/12")]);
}

#[test]
fn batch_records_each_line_with_its_own_analysis() {
    let mut h = store();
    h.add("10.0.0.1/8", s("192.168.0.0/16"));
    batch_analyze("172.16.0.1/12\n10.0.0.1/8\nbad", &mut h);
    let pairs: Vec<(&str, SubnetInfo)> = h.entries().iter().map(|e| (e.input.as_str(), e.result)).collect();
    assert_eq!(
        pairs,
        vec![("10.0.0.1/8", s("10.0.0.0/8")), ("172.16.0.1/12", s("172.16.0.0/12"))]
    );
}

#[test]
fn tabs_in_order_with_titles() {
    let titles: Vec<&str> = all_tabs().iter().map(|t| t.title()).collect();
    assert_eq!(titles, vec!["基础计算", "VLSM 划分", "格式转换", "包含与聚合", "历史记录"]);
    assert_eq!(all_tabs()[0], Tab::Basic);
}
