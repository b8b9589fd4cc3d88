//! How the rows of the CSV and Markdown exports line up with their headers.
use vstd::prelude::*;

use crate::export::{
    csv_header, csv_line, failure_csv_row, failure_markdown_row, history_csv_header,
    history_csv_row, markdown_header, markdown_row, vlsm_csv_header, vlsm_csv_row,
    vlsm_markdown_header, vlsm_markdown_row,
};
use crate::history::{timestamp_text, HistoryEntryModel};
use crate::ip::dotted;
use crate::panels::join_text;
use crate::subnet::{cidr_text, SubnetInfo};
use crate::text::dec;
use crate::vlsm::{EntryModel, FailureModel};

verus! {

// ---------------------------------------------------------------------------
// Column laws: each row lines up with its header
// ---------------------------------------------------------------------------

/// A Markdown table line: the cells between `| ` and ` |`, separated by ` | `.
pub open spec fn table_line(cells: Seq<Seq<char>>) -> Seq<char> {
    "| "@ + join_text(cells, " | "@) + " |"@
}

/// A CSV line: the cells separated by commas.
pub open spec fn comma_line(cells: Seq<Seq<char>>) -> Seq<char> {
    join_text(cells, ","@)
}

proof fn lemma_join_text_step(c: Seq<Seq<char>>, sep: Seq<char>, i: int)
    requires
        1 <= i < c.len(),
    ensures
        join_text(c.take(i + 1), sep) == join_text(c.take(i), sep) + sep + c[i],
{
    assert(c.take(i + 1).drop_last() =~= c.take(i));
    assert(c.take(i + 1).last() == c[i]);
}

proof fn lemma_table_line_3(c: Seq<Seq<char>>)
    requires
        c.len() == 3,
    ensures
        table_line(c) == "| "@ + c[0] + " | "@ + c[1] + " | "@ + c[2] + " |"@,
{
    assert(c.take(1) =~= seq![c[0]]);
    lemma_join_text_step(c, " | "@, 1);
    assert("| "@ + join_text(c.take(2), " | "@) =~= "| "@ + join_text(c.take(1), " | "@) + " | "@ + c[1]);
    lemma_join_text_step(c, " | "@, 2);
    assert("| "@ + join_text(c.take(3), " | "@) =~= "| "@ + join_text(c.take(2), " | "@) + " | "@ + c[2]);
    assert(c.take(3) =~= c);
}

proof fn lemma_table_line_9(c: Seq<Seq<char>>)
    requires
        c.len() == 9,
    ensures
        table_line(c) == "| "@ + c[0] + " | "@ + c[1] + " | "@ + c[2] + " | "@ + c[3] + " | "@ + c[4] + " | "@ + c[5] + " | "@ + c[6] + " | "@ + c[7] + " | "@ + c[8] + " |"@,
{
    assert(c.take(1) =~= seq![c[0]]);
    lemma_join_text_step(c, " | "@, 1);
    assert("| "@ + join_text(c.take(2), " | "@) =~= "| "@ + join_text(c.take(1), " | "@) + " | "@ + c[1]);
    lemma_join_text_step(c, " | "@, 2);
    assert("| "@ + join_text(c.take(3), " | "@) =~= "| "@ + join_text(c.take(2), " | "@) + " | "@ + c[2]);
    lemma_join_text_step(c, " | "@, 3);
    assert("| "@ + join_text(c.take(4), " | "@) =~= "| "@ + join_text(c.take(3), " | "@) + " | "@ + c[3]);
    lemma_join_text_step(c, " | "@, 4);
    assert("| "@ + join_text(c.take(5), " | "@) =~= "| "@ + join_text(c.take(4), " | "@) + " | "@ + c[4]);
    lemma_join_text_step(c, " | "@, 5);
    assert("| "@ + join_text(c.take(6), " | "@) =~= "| "@ + join_text(c.take(5), " | "@) + " | "@ + c[5]);
    lemma_join_text_step(c, " | "@, 6);
    assert("| "@ + join_text(c.take(7), " | "@) =~= "| "@ + join_text(c.take(6), " | "@) + " | "@ + c[6]);
    lemma_join_text_step(c, " | "@, 7);
    assert("| "@ + join_text(c.take(8), " | "@) =~= "| "@ + join_text(c.take(7), " | "@) + " | "@ + c[7]);
    lemma_join_text_step(c, " | "@, 8);
    assert("| "@ + join_text(c.take(9), " | "@) =~= "| "@ + join_text(c.take(8), " | "@) + " | "@ + c[8]);
    assert(c.take(9) =~= c);
}

proof fn lemma_table_line_10(c: Seq<Seq<char>>)
    requires
        c.len() == 10,
    ensures
        table_line(c) == "| "@ + c[0] + " | "@ + c[1] + " | "@ + c[2] + " | "@ + c[3] + " | "@ + c[4] + " | "@ + c[5] + " | "@ + c[6] + " | "@ + c[7] + " | "@ + c[8] + " | "@ + c[9] + " |"@,
{
    assert(c.take(1) =~= seq![c[0]]);
    lemma_join_text_step(c, " | "@, 1);
    assert("| "@ + join_text(c.take(2), " | "@) =~= "| "@ + join_text(c.take(1), " | "@) + " | "@ + c[1]);
    lemma_join_text_step(c, " | "@, 2);
    assert("| "@ + join_text(c.take(3), " | "@) =~= "| "@ + join_text(c.take(2), " | "@) + " | "@ + c[2]);
    lemma_join_text_step(c, " | "@, 3);
    assert("| "@ + join_text(c.take(4), " | "@) =~= "| "@ + join_text(c.take(3), " | "@) + " | "@ + c[3]);
    lemma_join_text_step(c, " | "@, 4);
    assert("| "@ + join_text(c.take(5), " | "@) =~= "| "@ + join_text(c.take(4), " | "@) + " | "@ + c[4]);
    lemma_join_text_step(c, " | "@, 5);
    assert("| "@ + join_text(c.take(6), " | "@) =~= "| "@ + join_text(c.take(5), " | "@) + " | "@ + c[5]);
    lemma_join_text_step(c, " | "@, 6);
    assert("| "@ + join_text(c.take(7), " | "@) =~= "| "@ + join_text(c.take(6), " | "@) + " | "@ + c[6]);
    lemma_join_text_step(c, " | "@, 7);
    assert("| "@ + join_text(c.take(8), " | "@) =~= "| "@ + join_text(c.take(7), " | "@) + " | "@ + c[7]);
    lemma_join_text_step(c, " | "@, 8);
    assert("| "@ + join_text(c.take(9), " | "@) =~= "| "@ + join_text(c.take(8), " | "@) + " | "@ + c[8]);
    lemma_join_text_step(c, " | "@, 9);
    assert("| "@ + join_text(c.take(10), " | "@) =~= "| "@ + join_text(c.take(9), " | "@) + " | "@ + c[9]);
    assert(c.take(10) =~= c);
}

proof fn lemma_comma_line_3(c: Seq<Seq<char>>)
    requires
        c.len() == 3,
    ensures
        comma_line(c) == c[0] + seq![','] + c[1] + seq![','] + c[2],
{
    reveal_strlit(",");
    assert(","@ =~= seq![',']);
    assert(c.take(1) =~= seq![c[0]]);
    lemma_join_text_step(c, ","@, 1);
    lemma_join_text_step(c, ","@, 2);
    assert(c.take(3) =~= c);
}

proof fn lemma_comma_line_9(c: Seq<Seq<char>>)
    requires
        c.len() == 9,
    ensures
        comma_line(c) == c[0] + seq![','] + c[1] + seq![','] + c[2] + seq![','] + c[3] + seq![','] + c[4] + seq![','] + c[5] + seq![','] + c[6] + seq![','] + c[7] + seq![','] + c[8],
{
    reveal_strlit(",");
    assert(","@ =~= seq![',']);
    assert(c.take(1) =~= seq![c[0]]);
    lemma_join_text_step(c, ","@, 1);
    lemma_join_text_step(c, ","@, 2);
    lemma_join_text_step(c, ","@, 3);
    lemma_join_text_step(c, ","@, 4);
    lemma_join_text_step(c, ","@, 5);
    lemma_join_text_step(c, ","@, 6);
    lemma_join_text_step(c, ","@, 7);
    lemma_join_text_step(c, ","@, 8);
    assert(c.take(9) =~= c);
}

proof fn lemma_comma_line_10(c: Seq<Seq<char>>)
    requires
        c.len() == 10,
    ensures
        comma_line(c) == c[0] + seq![','] + c[1] + seq![','] + c[2] + seq![','] + c[3] + seq![','] + c[4] + seq![','] + c[5] + seq![','] + c[6] + seq![','] + c[7] + seq![','] + c[8] + seq![','] + c[9],
{
    reveal_strlit(",");
    assert(","@ =~= seq![',']);
    assert(c.take(1) =~= seq![c[0]]);
    lemma_join_text_step(c, ","@, 1);
    lemma_join_text_step(c, ","@, 2);
    lemma_join_text_step(c, ","@, 3);
    lemma_join_text_step(c, ","@, 4);
    lemma_join_text_step(c, ","@, 5);
    lemma_join_text_step(c, ","@, 6);
    lemma_join_text_step(c, ","@, 7);
    lemma_join_text_step(c, ","@, 8);
    lemma_join_text_step(c, ","@, 9);
    assert(c.take(10) =~= c);
}

proof fn lemma_comma_line_11(c: Seq<Seq<char>>)
    requires
        c.len() == 11,
    ensures
        comma_line(c) == c[0] + seq![','] + c[1] + seq![','] + c[2] + seq![','] + c[3] + seq![','] + c[4] + seq![','] + c[5] + seq![','] + c[6] + seq![','] + c[7] + seq![','] + c[8] + seq![','] + c[9] + seq![','] + c[10],
{
    reveal_strlit(",");
    assert(","@ =~= seq![',']);
    assert(c.take(1) =~= seq![c[0]]);
    lemma_join_text_step(c, ","@, 1);
    lemma_join_text_step(c, ","@, 2);
    lemma_join_text_step(c, ","@, 3);
    lemma_join_text_step(c, ","@, 4);
    lemma_join_text_step(c, ","@, 5);
    lemma_join_text_step(c, ","@, 6);
    lemma_join_text_step(c, ","@, 7);
    lemma_join_text_step(c, ","@, 8);
    lemma_join_text_step(c, ","@, 9);
    lemma_join_text_step(c, ","@, 10);
    assert(c.take(11) =~= c);
}

proof fn lemma_prefix_two(t: Seq<char>, i: Seq<char>, c: Seq<Seq<char>>)
    requires
        c.len() == 9,
    ensures
        t + seq![','] + i + seq![','] + (c[0] + seq![','] + c[1] + seq![','] + c[2] + seq![','] + c[3] + seq![','] + c[4] + seq![','] + c[5] + seq![','] + c[6] + seq![','] + c[7] + seq![','] + c[8]) == t + seq![','] + i + seq![','] + c[0] + seq![','] + c[1] + seq![','] + c[2] + seq![','] + c[3] + seq![','] + c[4] + seq![','] + c[5] + seq![','] + c[6] + seq![','] + c[7] + seq![','] + c[8],
{
    assert(t + seq![','] + i + seq![','] + (c[0] + seq![','] + c[1] + seq![','] + c[2] + seq![','] + c[3] + seq![','] + c[4] + seq![','] + c[5] + seq![','] + c[6] + seq![','] + c[7] + seq![','] + c[8]) =~= t + seq![','] + i + seq![','] + c[0] + seq![','] + c[1] + seq![','] + c[2] + seq![','] + c[3] + seq![','] + c[4] + seq![','] + c[5] + seq![','] + c[6] + seq![','] + c[7] + seq![','] + c[8]);
}

proof fn lemma_newline()
    ensures
        "\n"@ == seq!['\n'],
        forall|q: Seq<char>| #[trigger] (q + " |"@ + "\n"@) == q + " |\n"@,
{
    reveal_strlit("\n");
    reveal_strlit(" |");
    reveal_strlit(" |\n");
    assert("\n"@ =~= seq!['\n']);
    assert forall|q: Seq<char>| #[trigger] (q + " |"@ + "\n"@) == q + " |\n"@ by {
        assert(q + " |"@ + "\n"@ =~= q + " |\n"@);
    }
}

proof fn lemma_slash(p: Seq<char>, d: Seq<char>)
    ensures
        p + " | "@ + ("/"@ + d) == p + " | /"@ + d,
        p + seq![','] + ("/"@ + d) == p + seq![',', '/'] + d,
{
    reveal_strlit(" | ");
    reveal_strlit(" | /");
    reveal_strlit("/");
    assert(p + " | "@ + ("/"@ + d) =~= p + " | /"@ + d);
    assert(p + seq![','] + ("/"@ + d) =~= p + seq![',', '/'] + d);
}

/// The Markdown row of an allocated subnet lines up with its header: the
/// cells hold, in the header's order, the name, required hosts, block size,
/// network, `/prefix`, mask, first usable, last usable, broadcast and usable
/// count.
pub proof fn lemma_vlsm_markdown_columns(e: EntryModel)
    ensures
        vlsm_markdown_row(e) == table_line(seq![e.name, dec(e.required_hosts as nat), dec(e.allocated_block as nat), dotted(e.network), "/"@ + dec(e.cidr as nat), dotted(e.mask), dotted(e.first_host), dotted(e.last_host), dotted(e.broadcast), dec(e.usable as nat)]) + "\n"@,
{
    let c = seq![e.name, dec(e.required_hosts as nat), dec(e.allocated_block as nat), dotted(e.network), "/"@ + dec(e.cidr as nat), dotted(e.mask), dotted(e.first_host), dotted(e.last_host), dotted(e.broadcast), dec(e.usable as nat)];
    lemma_table_line_10(c);
    lemma_slash("| "@ + e.name + " | "@ + dec(e.required_hosts as nat) + " | "@ + dec(e.allocated_block as nat) + " | "@ + dotted(e.network), dec(e.cidr as nat));
    lemma_newline();
}

/// The CSV line of an allocated subnet holds the same cells, in the same
/// order, as its Markdown row.
pub proof fn lemma_vlsm_csv_columns(e: EntryModel)
    ensures
        vlsm_csv_row(e) == comma_line(seq![e.name, dec(e.required_hosts as nat), dec(e.allocated_block as nat), dotted(e.network), "/"@ + dec(e.cidr as nat), dotted(e.mask), dotted(e.first_host), dotted(e.last_host), dotted(e.broadcast), dec(e.usable as nat)]) + "\n"@,
{
    let c = seq![e.name, dec(e.required_hosts as nat), dec(e.allocated_block as nat), dotted(e.network), "/"@ + dec(e.cidr as nat), dotted(e.mask), dotted(e.first_host), dotted(e.last_host), dotted(e.broadcast), dec(e.usable as nat)];
    lemma_comma_line_10(c);
    lemma_slash(e.name + seq![','] + dec(e.required_hosts as nat) + seq![','] + dec(e.allocated_block as nat) + seq![','] + dotted(e.network), dec(e.cidr as nat));
    lemma_newline();
}

/// The Markdown row of a subnet lines up with its header: CIDR, network,
/// broadcast, mask, wildcard, total, usable, first usable, last usable.
pub proof fn lemma_subnet_markdown_columns(info: SubnetInfo)
    ensures
        markdown_row(info) == table_line(seq![cidr_text(info), dotted(info.network), dotted(info.broadcast), dotted(info.mask), dotted(info.wildcard), dec(info.total_ips as nat), dec(info.usable_ips as nat), dotted(info.first_host), dotted(info.last_host)]),
{
    let c = seq![cidr_text(info), dotted(info.network), dotted(info.broadcast), dotted(info.mask), dotted(info.wildcard), dec(info.total_ips as nat), dec(info.usable_ips as nat), dotted(info.first_host), dotted(info.last_host)];
    lemma_table_line_9(c);
}

/// The CSV line of a subnet holds the same cells, in the same order, as its
/// Markdown row.
pub proof fn lemma_subnet_csv_columns(info: SubnetInfo)
    ensures
        csv_line(info) == comma_line(seq![cidr_text(info), dotted(info.network), dotted(info.broadcast), dotted(info.mask), dotted(info.wildcard), dec(info.total_ips as nat), dec(info.usable_ips as nat), dotted(info.first_host), dotted(info.last_host)]),
{
    let c = seq![cidr_text(info), dotted(info.network), dotted(info.broadcast), dotted(info.mask), dotted(info.wildcard), dec(info.total_ips as nat), dec(info.usable_ips as nat), dotted(info.first_host), dotted(info.last_host)];
    lemma_comma_line_9(c);
}

/// The CSV line of a history entry: its time and input, then the cells of
/// its analysis in the subnet order.
pub proof fn lemma_history_csv_columns(e: HistoryEntryModel)
    ensures
        history_csv_row(e) == comma_line(seq![timestamp_text(e.timestamp), e.input, cidr_text(e.result), dotted(e.result.network), dotted(e.result.broadcast), dotted(e.result.mask), dotted(e.result.wildcard), dec(e.result.total_ips as nat), dec(e.result.usable_ips as nat), dotted(e.result.first_host), dotted(e.result.last_host)]) + "\n"@,
{
    let r = e.result;
    let d = seq![cidr_text(r), dotted(r.network), dotted(r.broadcast), dotted(r.mask), dotted(r.wildcard), dec(r.total_ips as nat), dec(r.usable_ips as nat), dotted(r.first_host), dotted(r.last_host)];
    let c = seq![timestamp_text(e.timestamp), e.input, cidr_text(r), dotted(r.network), dotted(r.broadcast), dotted(r.mask), dotted(r.wildcard), dec(r.total_ips as nat), dec(r.usable_ips as nat), dotted(r.first_host), dotted(r.last_host)];
    lemma_comma_line_11(c);
    lemma_comma_line_9(d);
    lemma_subnet_csv_columns(r);
    lemma_prefix_two(timestamp_text(e.timestamp), e.input, d);
    lemma_newline();
}

/// The Markdown row of a failed requirement: name, required hosts, reason.
pub proof fn lemma_failure_markdown_columns(f: FailureModel)
    ensures
        failure_markdown_row(f) == table_line(seq![f.name, dec(f.required_hosts as nat), f.reason]) + "\n"@,
{
    let c = seq![f.name, dec(f.required_hosts as nat), f.reason];
    lemma_table_line_3(c);
    lemma_newline();
}

/// The CSV line of a failed requirement: name, required hosts, reason.
pub proof fn lemma_failure_csv_columns(f: FailureModel)
    ensures
        failure_csv_row(f) == comma_line(seq![f.name, dec(f.required_hosts as nat), f.reason]) + "\n"@,
{
    let c = seq![f.name, dec(f.required_hosts as nat), f.reason];
    lemma_comma_line_3(c);
    lemma_newline();
}

/// The VLSM Markdown header names the columns in the order the rows fill
/// them: name, required hosts, block size, network, CIDR, mask, first
/// usable, last usable, broadcast, usable count.
pub proof fn lemma_vlsm_markdown_header_columns()
    ensures
        vlsm_markdown_header() == table_line(seq!["名称"@, "需求主机数"@, "块大小"@, "网络地址"@, "CIDR"@, "掩码"@, "首个可用IP"@, "末个可用IP"@, "广播地址"@, "可用主机数"@]) + "\n"@ + "|------|------------|--------|----------|------|------|------------|------------|----------|------------|\n"@,
{
    reveal_strlit(" |");
    reveal_strlit(" | ");
    reveal_strlit("CIDR");
    reveal_strlit("\n");
    reveal_strlit("| ");
    reveal_strlit("| 名称 | 需求主机数 | 块大小 | 网络地址 | CIDR | 掩码 | 首个可用IP | 末个可用IP | 广播地址 | 可用主机数 |\n");
    reveal_strlit("|------|------------|--------|----------|------|------|------------|------------|----------|------------|\n");
    reveal_strlit("可用主机数");
    reveal_strlit("名称");
    reveal_strlit("块大小");
    reveal_strlit("广播地址");
    reveal_strlit("掩码");
    reveal_strlit("末个可用IP");
    reveal_strlit("网络地址");
    reveal_strlit("需求主机数");
    reveal_strlit("首个可用IP");
    let c = seq!["名称"@, "需求主机数"@, "块大小"@, "网络地址"@, "CIDR"@, "掩码"@, "首个可用IP"@, "末个可用IP"@, "广播地址"@, "可用主机数"@];
    lemma_table_line_10(c);
    assert(vlsm_markdown_header() =~= table_line(seq!["名称"@, "需求主机数"@, "块大小"@, "网络地址"@, "CIDR"@, "掩码"@, "首个可用IP"@, "末个可用IP"@, "广播地址"@, "可用主机数"@]) + "\n"@ + "|------|------------|--------|----------|------|------|------------|------------|----------|------------|\n"@);
}

/// The VLSM CSV header names the same columns in the same order.
pub proof fn lemma_vlsm_csv_header_columns()
    ensures
        vlsm_csv_header() == comma_line(seq!["名称"@, "需求主机数"@, "块大小"@, "网络地址"@, "CIDR"@, "掩码"@, "首个可用IP"@, "末个可用IP"@, "广播地址"@, "可用主机数"@]) + "\n"@,
{
    reveal_strlit(",");
    reveal_strlit("CIDR");
    reveal_strlit("\n");
    reveal_strlit("可用主机数");
    reveal_strlit("名称");
    reveal_strlit("名称,需求主机数,块大小,网络地址,CIDR,掩码,首个可用IP,末个可用IP,广播地址,可用主机数\n");
    reveal_strlit("块大小");
    reveal_strlit("广播地址");
    reveal_strlit("掩码");
    reveal_strlit("末个可用IP");
    reveal_strlit("网络地址");
    reveal_strlit("需求主机数");
    reveal_strlit("首个可用IP");
    let c = seq!["名称"@, "需求主机数"@, "块大小"@, "网络地址"@, "CIDR"@, "掩码"@, "首个可用IP"@, "末个可用IP"@, "广播地址"@, "可用主机数"@];
    lemma_comma_line_10(c);
    assert(vlsm_csv_header() =~= comma_line(seq!["名称"@, "需求主机数"@, "块大小"@, "网络地址"@, "CIDR"@, "掩码"@, "首个可用IP"@, "末个可用IP"@, "广播地址"@, "可用主机数"@]) + "\n"@);
}

/// The subnet Markdown header names the columns in the order the rows fill
/// them: CIDR, network, broadcast, mask, wildcard, total, usable, first
/// usable, last usable.
pub proof fn lemma_subnet_markdown_header_columns()
    ensures
        markdown_header() == table_line(seq!["CIDR"@, "网络地址"@, "广播地址"@, "子网掩码"@, "反掩码"@, "IP总数"@, "可用主机数"@, "首个可用IP"@, "末个可用IP"@]) + "\n"@ + "|------|----------|----------|----------|--------|--------|------------|------------|------------|\n"@,
{
    reveal_strlit(" |");
    reveal_strlit(" | ");
    reveal_strlit("CIDR");
    reveal_strlit("IP总数");
    reveal_strlit("\n");
    reveal_strlit("| ");
    reveal_strlit("| CIDR | 网络地址 | 广播地址 | 子网掩码 | 反掩码 | IP总数 | 可用主机数 | 首个可用IP | 末个可用IP |\n");
    reveal_strlit("|------|----------|----------|----------|--------|--------|------------|------------|------------|\n");
    reveal_strlit("反掩码");
    reveal_strlit("可用主机数");
    reveal_strlit("子网掩码");
    reveal_strlit("广播地址");
    reveal_strlit("末个可用IP");
    reveal_strlit("网络地址");
    reveal_strlit("首个可用IP");
    let c = seq!["CIDR"@, "网络地址"@, "广播地址"@, "子网掩码"@, "反掩码"@, "IP总数"@, "可用主机数"@, "首个可用IP"@, "末个可用IP"@];
    lemma_table_line_9(c);
    assert(markdown_header() =~= table_line(seq!["CIDR"@, "网络地址"@, "广播地址"@, "子网掩码"@, "反掩码"@, "IP总数"@, "可用主机数"@, "首个可用IP"@, "末个可用IP"@]) + "\n"@ + "|------|----------|----------|----------|--------|--------|------------|------------|------------|\n"@);
}

/// The subnet CSV header names the same columns in the same order.
pub proof fn lemma_subnet_csv_header_columns()
    ensures
        csv_header() == comma_line(seq!["CIDR"@, "网络地址"@, "广播地址"@, "子网掩码"@, "反掩码"@, "IP总数"@, "可用主机数"@, "首个可用IP"@, "末个可用IP"@]) + "\n"@,
{
    reveal_strlit(",");
    reveal_strlit("CIDR");
    reveal_strlit("CIDR,网络地址,广播地址,子网掩码,反掩码,IP总数,可用主机数,首个可用IP,末个可用IP\n");
    reveal_strlit("IP总数");
    reveal_strlit("\n");
    reveal_strlit("反掩码");
    reveal_strlit("可用主机数");
    reveal_strlit("子网掩码");
    reveal_strlit("广播地址");
    reveal_strlit("末个可用IP");
    reveal_strlit("网络地址");
    reveal_strlit("首个可用IP");
    let c = seq!["CIDR"@, "网络地址"@, "广播地址"@, "子网掩码"@, "反掩码"@, "IP总数"@, "可用主机数"@, "首个可用IP"@, "末个可用IP"@];
    lemma_comma_line_9(c);
    assert(csv_header() =~= comma_line(seq!["CIDR"@, "网络地址"@, "广播地址"@, "子网掩码"@, "反掩码"@, "IP总数"@, "可用主机数"@, "首个可用IP"@, "末个可用IP"@]) + "\n"@);
}

/// The history CSV header: time and input, then the subnet columns.
pub proof fn lemma_history_csv_header_columns()
    ensures
        history_csv_header() == comma_line(seq!["时间戳"@, "输入"@, "CIDR"@, "网络地址"@, "广播地址"@, "子网掩码"@, "反掩码"@, "IP总数"@, "可用主机数"@, "首个可用IP"@, "末个可用IP"@]) + "\n"@,
{
    reveal_strlit(",");
    reveal_strlit("CIDR");
    reveal_strlit("IP总数");
    reveal_strlit("\n");
    reveal_strlit("反掩码");
    reveal_strlit("可用主机数");
    reveal_strlit("子网掩码");
    reveal_strlit("广播地址");
    reveal_strlit("时间戳");
    reveal_strlit("时间戳,输入,CIDR,网络地址,广播地址,子网掩码,反掩码,IP总数,可用主机数,首个可用IP,末个可用IP\n");
    reveal_strlit("末个可用IP");
    reveal_strlit("网络地址");
    reveal_strlit("输入");
    reveal_strlit("首个可用IP");
    let c = seq!["时间戳"@, "输入"@, "CIDR"@, "网络地址"@, "广播地址"@, "子网掩码"@, "反掩码"@, "IP总数"@, "可用主机数"@, "首个可用IP"@, "末个可用IP"@];
    lemma_comma_line_11(c);
    assert(history_csv_header() =~= comma_line(seq!["时间戳"@, "输入"@, "CIDR"@, "网络地址"@, "广播地址"@, "子网掩码"@, "反掩码"@, "IP总数"@, "可用主机数"@, "首个可用IP"@, "末个可用IP"@]) + "\n"@);
}

} // verus!
