//! Text exports of subnets, VLSM plans and history: CSV and Markdown.
use vstd::prelude::*;

use crate::history::{timestamp_text, HistoryEntry, HistoryEntryModel};
use crate::ip::{dotted, push_dotted};
use crate::subnet::{cidr_text, push_cidr, SubnetInfo};
use crate::text::{dec, push_dec, push_str};
use crate::vlsm::{EntryModel, FailureModel, VlsmResult};

verus! {

/// The export formats offered to the user.
#[derive(Debug, Clone, Copy, PartialEq, Eq, Structural)]
pub enum ExportFormat {
    Json,
    Csv,
    Markdown,
}

pub open spec fn format_name(f: ExportFormat) -> Seq<char> {
    match f {
        ExportFormat::Json => "JSON"@,
        ExportFormat::Csv => "CSV"@,
        ExportFormat::Markdown => "Markdown"@,
    }
}

impl ExportFormat {
    /// The name of the format as the interface shows it.
    pub fn to_string(&self) -> (s: String)
        ensures
            s@ == format_name(*self),
    {
        let mut out = String::new();
        match self {
            ExportFormat::Json => push_str(&mut out, "JSON"),
            ExportFormat::Csv => push_str(&mut out, "CSV"),
            ExportFormat::Markdown => push_str(&mut out, "Markdown"),
        }
        assert(out@ =~= format_name(*self));
        out
    }
}

/// The texts of the items of `s`, one after the other.
pub open spec fn concat_map<A>(s: Seq<A>, f: spec_fn(A) -> Seq<char>) -> Seq<char>
    decreases s.len(),
{
    if s.len() == 0 {
        Seq::empty()
    } else {
        concat_map(s.drop_last(), f) + f(s.last())
    }
}

proof fn lemma_concat_map_step<A>(s: Seq<A>, i: int, f: spec_fn(A) -> Seq<char>)
    requires
        0 <= i < s.len(),
    ensures
        concat_map(s.take(i + 1), f) == concat_map(s.take(i), f) + f(s[i]),
{
    assert(s.take(i + 1).drop_last() =~= s.take(i));
}

/// The nine fields of a subnet, comma separated: CIDR, network, broadcast,
/// mask, wildcard, total and usable count, first and last host.
pub open spec fn csv_line(info: SubnetInfo) -> Seq<char> {
    cidr_text(info) + seq![','] + dotted(info.network) + seq![','] + dotted(info.broadcast)
        + seq![','] + dotted(info.mask) + seq![','] + dotted(info.wildcard) + seq![','] + dec(
        info.total_ips as nat,
    ) + seq![','] + dec(info.usable_ips as nat) + seq![','] + dotted(info.first_host) + seq![',']
        + dotted(info.last_host)
}

pub open spec fn csv_row(info: SubnetInfo) -> Seq<char> {
    csv_line(info) + seq!['\n']
}

pub open spec fn csv_header() -> Seq<char> {
    "CIDR,网络地址,广播地址,子网掩码,反掩码,IP总数,可用主机数,首个可用IP,末个可用IP\n"@
}

/// Appends a separator and a dotted address.
fn push_sep_dotted(out: &mut String, sep: &str, ip: u32)
    ensures
        final(out)@ == old(out)@ + sep@ + dotted(ip),
{
    let ghost start = out@;
    push_str(out, sep);
    push_dotted(out, ip);
    assert(out@ =~= start + sep@ + dotted(ip));
}

/// Appends a separator and a decimal number.
fn push_sep_dec(out: &mut String, sep: &str, n: u64)
    ensures
        final(out)@ == old(out)@ + sep@ + dec(n as nat),
{
    let ghost start = out@;
    push_str(out, sep);
    push_dec(out, n);
    assert(out@ =~= start + sep@ + dec(n as nat));
}

fn push_csv_line(out: &mut String, info: &SubnetInfo)
    ensures
        final(out)@ == old(out)@ + csv_line(*info),
{
    let ghost start = out@;
    proof {
        reveal_strlit(",");
    assert(","@ =~= seq![',']);
    }
    push_cidr(out, info);
    let ghost p1 = out@;
    push_sep_dotted(out, ",", info.network);
    push_sep_dotted(out, ",", info.broadcast);
    push_sep_dotted(out, ",", info.mask);
    push_sep_dotted(out, ",", info.wildcard);
    let ghost p2 = out@;
    assert(p2 =~= start + (cidr_text(*info) + seq![','] + dotted(info.network) + seq![','] + dotted(info.broadcast)
        + seq![','] + dotted(info.mask) + seq![','] + dotted(info.wildcard)));
    push_sep_dec(out, ",", info.total_ips);
    push_sep_dec(out, ",", info.usable_ips);
    push_sep_dotted(out, ",", info.first_host);
    push_sep_dotted(out, ",", info.last_host);
    assert(out@ =~= start + csv_line(*info));
}

/// One CSV line (no header) for a subnet.
pub fn export_csv_line(info: &SubnetInfo) -> (s: String)
    ensures
        s@ == csv_line(*info),
{
    let mut out = String::new();
    push_csv_line(&mut out, info);
    assert(out@ =~= csv_line(*info));
    out
}

/// A CSV table: the header line, then one line per subnet.
#[verifier::rlimit(40)]
pub fn export_csv_with_header(infos: &[SubnetInfo]) -> (s: String)
    ensures
        s@ == csv_header() + concat_map(infos@, |i: SubnetInfo| csv_row(i)),
{
    let mut out = String::new();
    push_str(&mut out, "CIDR,网络地址,广播地址,子网掩码,反掩码,IP总数,可用主机数,首个可用IP,末个可用IP\n");
    let ghost f = |i: SubnetInfo| csv_row(i);
    let mut k: usize = 0;
    assert(infos@.take(0) =~= Seq::<SubnetInfo>::empty());
    while k < infos.len()
        invariant
            k <= infos@.len(),
            f == (|i: SubnetInfo| csv_row(i)),
            out@ =~= csv_header() + concat_map(infos@.take(k as int), f),
        decreases infos@.len() - k,
    {
        push_csv_line(&mut out, &infos[k]);
        out.push('\n');
        proof {
            lemma_concat_map_step(infos@, k as int, f);
        }
        k += 1;
    }
    assert(infos@.take(infos@.len() as int) =~= infos@);
    out
}

/// A subnet as a Markdown table row.
pub open spec fn markdown_row(info: SubnetInfo) -> Seq<char> {
    "| "@ + cidr_text(info) + " | "@ + dotted(info.network) + " | "@ + dotted(info.broadcast)
        + " | "@ + dotted(info.mask) + " | "@ + dotted(info.wildcard) + " | "@ + dec(
        info.total_ips as nat,
    ) + " | "@ + dec(info.usable_ips as nat) + " | "@ + dotted(info.first_host) + " | "@
        + dotted(info.last_host) + " |"@
}

pub open spec fn markdown_line(info: SubnetInfo) -> Seq<char> {
    markdown_row(info) + seq!['\n']
}

pub open spec fn markdown_header() -> Seq<char> {
    "| CIDR | 网络地址 | 广播地址 | 子网掩码 | 反掩码 | IP总数 | 可用主机数 | 首个可用IP | 末个可用IP |\n"@
        + "|------|----------|----------|----------|--------|--------|------------|------------|------------|\n"@
}

fn push_markdown_row(out: &mut String, info: &SubnetInfo)
    ensures
        final(out)@ == old(out)@ + markdown_row(*info),
{
    let ghost start = out@;
    push_str(out, "| ");
    push_cidr(out, info);
    push_str(out, " | ");
    push_dotted(out, info.network);
    push_str(out, " | ");
    push_dotted(out, info.broadcast);
    push_str(out, " | ");
    push_dotted(out, info.mask);
    push_str(out, " | ");
    push_dotted(out, info.wildcard);
    push_str(out, " | ");
    push_dec(out, info.total_ips);
    push_str(out, " | ");
    push_dec(out, info.usable_ips);
    push_str(out, " | ");
    push_dotted(out, info.first_host);
    push_str(out, " | ");
    push_dotted(out, info.last_host);
    push_str(out, " |");
    assert(out@ =~= start + markdown_row(*info));
}

/// A subnet as one Markdown table row (no header).
pub fn export_markdown_row(info: &SubnetInfo) -> (s: String)
    ensures
        s@ == markdown_row(*info),
{
    let mut out = String::new();
    push_markdown_row(&mut out, info);
    assert(out@ =~= markdown_row(*info));
    out
}

/// A Markdown table: header, separator, then one row per subnet.
#[verifier::rlimit(40)]
pub fn export_markdown_table(infos: &[SubnetInfo]) -> (s: String)
    ensures
        s@ == markdown_header() + concat_map(infos@, |i: SubnetInfo| markdown_line(i)),
{
    let mut out = String::new();
    push_str(&mut out, "| CIDR | 网络地址 | 广播地址 | 子网掩码 | 反掩码 | IP总数 | 可用主机数 | 首个可用IP | 末个可用IP |\n");
    push_str(&mut out, "|------|----------|----------|----------|--------|--------|------------|------------|------------|\n");
    let ghost f = |i: SubnetInfo| markdown_line(i);
    let mut k: usize = 0;
    assert(infos@.take(0) =~= Seq::<SubnetInfo>::empty());
    while k < infos.len()
        invariant
            k <= infos@.len(),
            f == (|i: SubnetInfo| markdown_line(i)),
            out@ =~= markdown_header() + concat_map(infos@.take(k as int), f),
        decreases infos@.len() - k,
    {
        push_markdown_row(&mut out, &infos[k]);
        out.push('\n');
        proof {
            lemma_concat_map_step(infos@, k as int, f);
        }
        k += 1;
    }
    assert(infos@.take(infos@.len() as int) =~= infos@);
    out
}

/// Dotted-decimal text of an address.
pub fn to_dotted(ip: u32) -> (s: String)
    ensures
        s@ == dotted(ip),
{
    crate::ip::to_dotted(ip)
}

/// `network/prefix` text of a subnet.
pub fn cidr_representation(info: &SubnetInfo) -> (s: String)
    ensures
        s@ == cidr_text(*info),
{
    crate::subnet::cidr_representation(info)
}


/// An allocated VLSM subnet as a CSV line: name, required hosts, block size,
/// network, `/prefix`, mask, first and last host, broadcast, usable count.
pub open spec fn vlsm_csv_row(e: EntryModel) -> Seq<char> {
    e.name + seq![','] + dec(e.required_hosts as nat) + seq![','] + dec(e.allocated_block as nat)
        + seq![','] + dotted(e.network) + seq![',', '/'] + dec(e.cidr as nat) + seq![','] + dotted(
        e.mask,
    ) + seq![','] + dotted(e.first_host) + seq![','] + dotted(e.last_host) + seq![','] + dotted(
        e.broadcast,
    ) + seq![','] + dec(e.usable as nat) + seq!['\n']
}

/// A failed VLSM requirement as a CSV line: name, required hosts, reason.
pub open spec fn failure_csv_row(f: FailureModel) -> Seq<char> {
    f.name + seq![','] + dec(f.required_hosts as nat) + seq![','] + f.reason + seq!['\n']
}

pub open spec fn vlsm_csv_header() -> Seq<char> {
    "名称,需求主机数,块大小,网络地址,CIDR,掩码,首个可用IP,末个可用IP,广播地址,可用主机数\n"@
}

/// The VLSM CSV: header and allocated lines, then, where some failed, a
/// blank line, a titled section and one line per failure.
pub open spec fn vlsm_csv(allocated: Seq<EntryModel>, failed: Seq<FailureModel>) -> Seq<char> {
    vlsm_csv_header() + concat_map(allocated, |e: EntryModel| vlsm_csv_row(e)) + if failed.len()
        > 0 {
        "\n失败项:\n"@ + "名称,需求主机数,原因\n"@ + concat_map(failed, |f: FailureModel| failure_csv_row(f))
    } else {
        Seq::empty()
    }
}

fn push_vlsm_csv_row(out: &mut String, e: &crate::vlsm::VlsmEntry)
    ensures
        final(out)@ == old(out)@ + vlsm_csv_row(e@),
{
    let ghost start = out@;
    proof {
        reveal_strlit(",");
    assert(","@ =~= seq![',']);
        reveal_strlit(",/");
    }
    push_str(out, e.name.as_str());
    push_sep_dec(out, ",", e.required_hosts as u64);
    push_sep_dec(out, ",", e.allocated_block);
    push_sep_dotted(out, ",", e.network);
    push_sep_dec(out, ",/", e.cidr as u64);
    let ghost p1 = out@;
    assert(p1 =~= start + (e.name@ + seq![','] + dec(e.required_hosts as nat) + seq![','] + dec(e.allocated_block as nat)
        + seq![','] + dotted(e.network) + seq![',', '/'] + dec(e.cidr as nat)));
    push_sep_dotted(out, ",", e.mask);
    push_sep_dotted(out, ",", e.first_host);
    push_sep_dotted(out, ",", e.last_host);
    push_sep_dotted(out, ",", e.broadcast);
    push_sep_dec(out, ",", e.usable);
    out.push('\n');
    assert(out@ =~= start + vlsm_csv_row(e@));
}

fn push_failure_csv_row(out: &mut String, f: &crate::vlsm::VlsmFailure)
    ensures
        final(out)@ == old(out)@ + failure_csv_row(f@),
{
    let ghost start = out@;
    proof {
        reveal_strlit(",");
    assert(","@ =~= seq![',']);
    }
    push_str(out, f.name.as_str());
    push_sep_dec(out, ",", f.required_hosts as u64);
    out.push(',');
    push_str(out, f.reason.as_str());
    out.push('\n');
    assert(out@ =~= start + failure_csv_row(f@));
}

/// A VLSM plan as CSV.
#[verifier::rlimit(40)]
pub fn export_vlsm_csv(result: &VlsmResult) -> (s: String)
    ensures
        s@ == vlsm_csv(result@.allocated, result@.failed),
{
    let mut out = String::new();
    push_str(&mut out, "名称,需求主机数,块大小,网络地址,CIDR,掩码,首个可用IP,末个可用IP,广播地址,可用主机数\n");
    let ghost alloc = result@.allocated;
    let ghost fa = |e: EntryModel| vlsm_csv_row(e);
    let mut k: usize = 0;
    assert(alloc.take(0) =~= Seq::<EntryModel>::empty());
    while k < result.allocated.len()
        invariant
            k <= result.allocated@.len(),
            alloc == result@.allocated,
            fa == (|e: EntryModel| vlsm_csv_row(e)),
            out@ =~= vlsm_csv_header() + concat_map(alloc.take(k as int), fa),
        decreases result.allocated@.len() - k,
    {
        push_vlsm_csv_row(&mut out, &result.allocated[k]);
        proof {
            lemma_concat_map_step(alloc, k as int, fa);
        }
        k += 1;
    }
    assert(alloc.take(alloc.len() as int) =~= alloc);
    let ghost head = out@;
    if result.failed.len() > 0 {
        push_str(&mut out, "\n失败项:\n");
        push_str(&mut out, "名称,需求主机数,原因\n");
        let ghost fails = result@.failed;
        let ghost ff = |f: FailureModel| failure_csv_row(f);
        let ghost mid = out@;
        let mut j: usize = 0;
        assert(fails.take(0) =~= Seq::<FailureModel>::empty());
        while j < result.failed.len()
            invariant
                j <= result.failed@.len(),
                fails == result@.failed,
                ff == (|f: FailureModel| failure_csv_row(f)),
                out@ =~= mid + concat_map(fails.take(j as int), ff),
            decreases result.failed@.len() - j,
        {
            push_failure_csv_row(&mut out, &result.failed[j]);
            proof {
                lemma_concat_map_step(fails, j as int, ff);
            }
            j += 1;
        }
        assert(fails.take(fails.len() as int) =~= fails);
    }
    assert(out@ =~= vlsm_csv(result@.allocated, result@.failed));
    out
}

/// An allocated VLSM subnet as a Markdown row.
pub open spec fn vlsm_markdown_row(e: EntryModel) -> Seq<char> {
    "| "@ + e.name + " | "@ + dec(e.required_hosts as nat) + " | "@ + dec(e.allocated_block as nat)
        + " | "@ + dotted(e.network) + " | /"@ + dec(e.cidr as nat) + " | "@ + dotted(e.mask)
        + " | "@ + dotted(e.first_host) + " | "@ + dotted(e.last_host) + " | "@ + dotted(
        e.broadcast,
    ) + " | "@ + dec(e.usable as nat) + " |\n"@
}

/// A failed VLSM requirement as a Markdown row.
pub open spec fn failure_markdown_row(f: FailureModel) -> Seq<char> {
    "| "@ + f.name + " | "@ + dec(f.required_hosts as nat) + " | "@ + f.reason + " |\n"@
}

pub open spec fn vlsm_markdown_header() -> Seq<char> {
    "| 名称 | 需求主机数 | 块大小 | 网络地址 | CIDR | 掩码 | 首个可用IP | 末个可用IP | 广播地址 | 可用主机数 |\n"@
        + "|------|------------|--------|----------|------|------|------------|------------|----------|------------|\n"@
}

/// The VLSM Markdown: the table of allocations, then, where some failed, a
/// titled table of failures.
pub open spec fn vlsm_markdown(allocated: Seq<EntryModel>, failed: Seq<FailureModel>) -> Seq<char> {
    vlsm_markdown_header() + concat_map(allocated, |e: EntryModel| vlsm_markdown_row(e)) + if failed.len()
        > 0 {
        "\n**失败项:**\n\n"@ + "| 名称 | 需求主机数 | 原因 |\n"@ + "|------|------------|------|\n"@
            + concat_map(failed, |f: FailureModel| failure_markdown_row(f))
    } else {
        Seq::empty()
    }
}

fn push_vlsm_markdown_row(out: &mut String, e: &crate::vlsm::VlsmEntry)
    ensures
        final(out)@ == old(out)@ + vlsm_markdown_row(e@),
{
    let ghost start = out@;
    push_str(out, "| ");
    push_str(out, e.name.as_str());
    push_sep_dec(out, " | ", e.required_hosts as u64);
    push_sep_dec(out, " | ", e.allocated_block);
    push_sep_dotted(out, " | ", e.network);
    push_sep_dec(out, " | /", e.cidr as u64);
    let ghost p1 = out@;
    assert(p1 =~= start + ("| "@ + e.name@ + " | "@ + dec(e.required_hosts as nat) + " | "@ + dec(e.allocated_block as nat)
        + " | "@ + dotted(e.network) + " | /"@ + dec(e.cidr as nat)));
    push_sep_dotted(out, " | ", e.mask);
    push_sep_dotted(out, " | ", e.first_host);
    push_sep_dotted(out, " | ", e.last_host);
    push_sep_dotted(out, " | ", e.broadcast);
    push_sep_dec(out, " | ", e.usable);
    push_str(out, " |\n");
    assert(out@ =~= start + vlsm_markdown_row(e@));
}

fn push_failure_markdown_row(out: &mut String, f: &crate::vlsm::VlsmFailure)
    ensures
        final(out)@ == old(out)@ + failure_markdown_row(f@),
{
    let ghost start = out@;
    push_str(out, "| ");
    push_str(out, f.name.as_str());
    push_sep_dec(out, " | ", f.required_hosts as u64);
    push_str(out, " | ");
    push_str(out, f.reason.as_str());
    push_str(out, " |\n");
    assert(out@ =~= start + failure_markdown_row(f@));
}

/// A VLSM plan as Markdown.
#[verifier::rlimit(40)]
pub fn export_vlsm_markdown(result: &VlsmResult) -> (s: String)
    ensures
        s@ == vlsm_markdown(result@.allocated, result@.failed),
{
    let mut out = String::new();
    push_str(&mut out, "| 名称 | 需求主机数 | 块大小 | 网络地址 | CIDR | 掩码 | 首个可用IP | 末个可用IP | 广播地址 | 可用主机数 |\n");
    push_str(&mut out, "|------|------------|--------|----------|------|------|------------|------------|----------|------------|\n");
    let ghost alloc = result@.allocated;
    let ghost fa = |e: EntryModel| vlsm_markdown_row(e);
    let mut k: usize = 0;
    assert(alloc.take(0) =~= Seq::<EntryModel>::empty());
    while k < result.allocated.len()
        invariant
            k <= result.allocated@.len(),
            alloc == result@.allocated,
            fa == (|e: EntryModel| vlsm_markdown_row(e)),
            out@ =~= vlsm_markdown_header() + concat_map(alloc.take(k as int), fa),
        decreases result.allocated@.len() - k,
    {
        push_vlsm_markdown_row(&mut out, &result.allocated[k]);
        proof {
            lemma_concat_map_step(alloc, k as int, fa);
        }
        k += 1;
    }
    assert(alloc.take(alloc.len() as int) =~= alloc);
    if result.failed.len() > 0 {
        push_str(&mut out, "\n**失败项:**\n\n");
        push_str(&mut out, "| 名称 | 需求主机数 | 原因 |\n");
        push_str(&mut out, "|------|------------|------|\n");
        let ghost fails = result@.failed;
        let ghost ff = |f: FailureModel| failure_markdown_row(f);
        let ghost mid = out@;
        let mut j: usize = 0;
        assert(fails.take(0) =~= Seq::<FailureModel>::empty());
        while j < result.failed.len()
            invariant
                j <= result.failed@.len(),
                fails == result@.failed,
                ff == (|f: FailureModel| failure_markdown_row(f)),
                out@ =~= mid + concat_map(fails.take(j as int), ff),
            decreases result.failed@.len() - j,
        {
            push_failure_markdown_row(&mut out, &result.failed[j]);
            proof {
                lemma_concat_map_step(fails, j as int, ff);
            }
            j += 1;
        }
        assert(fails.take(fails.len() as int) =~= fails);
    }
    assert(out@ =~= vlsm_markdown(result@.allocated, result@.failed));
    out
}

/// A history entry as a CSV line: time, input, then the nine subnet fields.
pub open spec fn history_csv_row(e: HistoryEntryModel) -> Seq<char> {
    timestamp_text(e.timestamp) + seq![','] + e.input + seq![','] + csv_line(e.result) + seq!['\n']
}

pub open spec fn history_csv_header() -> Seq<char> {
    "时间戳,输入,CIDR,网络地址,广播地址,子网掩码,反掩码,IP总数,可用主机数,首个可用IP,末个可用IP\n"@
}

/// The history as CSV: a header line, then one line per entry.
#[verifier::rlimit(40)]
pub fn export_history_csv(entries: &[HistoryEntry]) -> (s: String)
    ensures
        s@ == history_csv_header() + concat_map(
            entries@.map_values(|e: HistoryEntry| e@),
            |e: HistoryEntryModel| history_csv_row(e),
        ),
{
    let mut out = String::new();
    push_str(&mut out, "时间戳,输入,CIDR,网络地址,广播地址,子网掩码,反掩码,IP总数,可用主机数,首个可用IP,末个可用IP\n");
    let ghost es = entries@.map_values(|e: HistoryEntry| e@);
    let ghost f = |e: HistoryEntryModel| history_csv_row(e);
    let mut k: usize = 0;
    assert(es.take(0) =~= Seq::<HistoryEntryModel>::empty());
    while k < entries.len()
        invariant
            k <= entries@.len(),
            es == entries@.map_values(|e: HistoryEntry| e@),
            f == (|e: HistoryEntryModel| history_csv_row(e)),
            out@ =~= history_csv_header() + concat_map(es.take(k as int), f),
        decreases entries@.len() - k,
    {
        let e = &entries[k];
        let ghost start = out@;
        let ts = e.timestamp.to_text();
        push_str(&mut out, ts.as_str());
        out.push(',');
        push_str(&mut out, e.input.as_str());
        out.push(',');
        push_csv_line(&mut out, &e.result);
        out.push('\n');
        proof {
            assert(out@ =~= start + history_csv_row(e@));
            lemma_concat_map_step(es, k as int, f);
        }
        k += 1;
    }
    assert(es.take(es.len() as int) =~= es);
    out
}

} // verus!
