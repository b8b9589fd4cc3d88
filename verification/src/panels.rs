//! What the four screens of the calculator decide: the texts they show, the
//! inputs they accept, and what each action does to their state.
use vstd::prelude::*;

use crate::aggregate::{aggregate_many, aggregate_model, can_aggregate, contains, contains_model, merge_model, overlaps, overlaps_model};
use crate::history::{
    contains_text, has_substring, inputs_of, lowercase, pairs_of, to_lower, with_added, with_input,
    with_inputs, with_pairs, HistoryEntryModel, HistoryStore,
};
use crate::ip::{binary_dotted, class_description, dotted, ipv4_model, parse_ipv4, push_dotted};
use crate::mask::{mask_model, parse_mask};
use crate::vlsm::{reqs_view, EntryModel, VlsmEntry};
use crate::subnet::{
    analyze, analyze_model, cidr_text, lemma_analyze_well_formed, push_cidr, subnet_error_text,
    SubnetError, SubnetFault, SubnetInfo,
};
use crate::text::{
    chars_of, dec, parse_usize, parse_usize_chars, push_dec, push_str, split, split_chars,
    string_of, trim, trim_chars,
};
use crate::subnet::mask_binary_grouped;

verus! {

// ---------------------------------------------------------------------------
// Screens
// ---------------------------------------------------------------------------

/// The screens of the calculator, in the order their tabs are shown.
#[derive(Debug, Clone, Copy, PartialEq, Eq, Structural)]
pub enum Tab {
    Basic,
    Vlsm,
    Convert,
    Check,
    History,
}

pub open spec fn tab_title(t: Tab) -> Seq<char> {
    match t {
        Tab::Basic => "基础计算"@,
        Tab::Vlsm => "VLSM 划分"@,
        Tab::Convert => "格式转换"@,
        Tab::Check => "包含与聚合"@,
        Tab::History => "历史记录"@,
    }
}

impl Tab {
    /// The title of the screen's tab.
    pub fn title(&self) -> (s: &'static str)
        ensures
            s@ == tab_title(*self),
    {
        match self {
            Tab::Basic => "基础计算",
            Tab::Vlsm => "VLSM 划分",
            Tab::Convert => "格式转换",
            Tab::Check => "包含与聚合",
            Tab::History => "历史记录",
        }
    }
}

/// The tabs in the order they are shown.
pub fn all_tabs() -> (ts: Vec<Tab>)
    ensures
        ts@ == seq![Tab::Basic, Tab::Vlsm, Tab::Convert, Tab::Check, Tab::History],
{
    let mut ts: Vec<Tab> = Vec::new();
    ts.push(Tab::Basic);
    ts.push(Tab::Vlsm);
    ts.push(Tab::Convert);
    ts.push(Tab::Check);
    ts.push(Tab::History);
    assert(ts@ =~= seq![Tab::Basic, Tab::Vlsm, Tab::Convert, Tab::Check, Tab::History]);
    ts
}

// ---------------------------------------------------------------------------
// Texts
// ---------------------------------------------------------------------------

/// `是` for yes, `否` for no.
pub open spec fn yes_no_text(b: bool) -> Seq<char> {
    if b {
        "是"@
    } else {
        "否"@
    }
}

/// `是` for yes, `否` for no.
pub fn yes_no(b: bool) -> (s: &'static str)
    ensures
        s@ == yes_no_text(b),
{
    if b {
        "是"
    } else {
        "否"
    }
}

/// Every field of an analysis, one `label: value` line each, as copied to
/// the clipboard.
pub open spec fn summary(info: SubnetInfo) -> Seq<char> {
    "网络地址: "@ + dotted(info.network) + "\n广播地址: "@ + dotted(info.broadcast)
        + "\n子网掩码: "@ + dotted(info.mask) + "\n反掩码: "@ + dotted(info.wildcard)
        + "\nCIDR 表示: "@ + cidr_text(info) + "\nIP 类别: "@ + class_description(info.ip_class)
        + "\n是否私有: "@ + yes_no_text(info.is_private) + "\nIP 总数: "@ + dec(
        info.total_ips as nat,
    ) + "\n可用主机数: "@ + dec(info.usable_ips as nat) + "\n首个可用 IP: "@ + dotted(
        info.first_host,
    ) + "\n末个可用 IP: "@ + dotted(info.last_host)
}

/// The summary of an analysis, as copied to the clipboard.
pub fn summary_text(info: &SubnetInfo) -> (s: String)
    ensures
        s@ == summary(*info),
{
    let mut out = String::new();
    push_str(&mut out, "网络地址: ");
    push_dotted(&mut out, info.network);
    push_str(&mut out, "\n广播地址: ");
    push_dotted(&mut out, info.broadcast);
    push_str(&mut out, "\n子网掩码: ");
    push_dotted(&mut out, info.mask);
    push_str(&mut out, "\n反掩码: ");
    push_dotted(&mut out, info.wildcard);
    push_str(&mut out, "\nCIDR 表示: ");
    push_cidr(&mut out, info);
    push_str(&mut out, "\nIP 类别: ");
    push_str(&mut out, info.ip_class.description());
    let ghost mid = out@;
    assert(mid =~= "网络地址: "@ + dotted(info.network) + "\n广播地址: "@ + dotted(info.broadcast)
        + "\n子网掩码: "@ + dotted(info.mask) + "\n反掩码: "@ + dotted(info.wildcard)
        + "\nCIDR 表示: "@ + cidr_text(*info) + "\nIP 类别: "@ + class_description(info.ip_class));
    push_str(&mut out, "\n是否私有: ");
    push_str(&mut out, yes_no(info.is_private));
    push_str(&mut out, "\nIP 总数: ");
    push_dec(&mut out, info.total_ips);
    push_str(&mut out, "\n可用主机数: ");
    push_dec(&mut out, info.usable_ips);
    push_str(&mut out, "\n首个可用 IP: ");
    push_dotted(&mut out, info.first_host);
    push_str(&mut out, "\n末个可用 IP: ");
    push_dotted(&mut out, info.last_host);
    assert(out@ =~= summary(*info));
    out
}

// ---------------------------------------------------------------------------
// Basic analysis, one input or many
// ---------------------------------------------------------------------------

/// The outcome of an analysis with its error taken by its view.
pub open spec fn outcome_view(r: Result<SubnetInfo, SubnetError>) -> Result<SubnetInfo, SubnetFault> {
    match r {
        Ok(info) => Ok(info),
        Err(e) => Err(e@),
    }
}

/// Analyses the input of the single-subnet screen: a blank input gives no
/// outcome and leaves the history alone; a subnet that analyses is recorded
/// in the history under the input text.
pub fn analyze_and_record(input: &str, history: &mut HistoryStore) -> (r: Option<
    Result<SubnetInfo, SubnetError>,
>)
    ensures
        final(history).path() == old(history).path(),
        r is None <==> trim(input@).len() == 0,
        r matches Some(o) ==> outcome_view(o) == analyze_model(input@),
        r matches Some(Ok(info)) ==> {
            &&& final(history)@.len() >= 1
            &&& final(history)@ == with_added(old(history)@, final(history)@[0])
            &&& final(history)@[0].input == input@
            &&& final(history)@[0].result == info
        },
        !(r matches Some(Ok(_))) ==> final(history)@ == old(history)@,
{
    let cs = chars_of(input);
    let t = trim_chars(&cs);
    if t.len() == 0 {
        return None;
    }
    let r = analyze(input);
    if let Ok(info) = r {
        history.add(input, info);
    }
    Some(r)
}

/// The non-blank lines of `pieces` (the text split at `\n`), each trimmed,
/// with its line number counted from 1.
pub open spec fn numbered_nonblank(pieces: Seq<Seq<char>>) -> Seq<(nat, Seq<char>)>
    decreases pieces.len(),
{
    if pieces.len() == 0 {
        Seq::empty()
    } else {
        let rest = numbered_nonblank(pieces.drop_last());
        let t = trim(pieces.last());
        if t.len() == 0 {
            rest
        } else {
            rest.push((pieces.len(), t))
        }
    }
}

/// The non-blank lines of a text, trimmed and numbered from 1. Splitting at
/// `\n` gives the lines of `str::lines` up to a final empty line and a `\r`
/// before each `\n`, and trimming removes both.
pub open spec fn nonblank_lines(s: Seq<char>) -> Seq<(nat, Seq<char>)> {
    numbered_nonblank(split(s, '\n'))
}

/// The non-blank lines of `text`, trimmed, with their line numbers from 1.
pub fn nonblank_lines_of(text: &str) -> (lines: Vec<(usize, String)>)
    ensures
        lines@.len() == nonblank_lines(text@).len(),
        forall|k: int|
            0 <= k < lines@.len() ==> (#[trigger] lines@[k]).0 == nonblank_lines(text@)[k].0
                && lines@[k].1@ == nonblank_lines(text@)[k].1,
{
    let cs = chars_of(text);
    let pieces = split_chars(&cs, '\n');
    let ghost ps = split(text@, '\n');
    let mut lines: Vec<(usize, String)> = Vec::new();
    let mut k: usize = 0;
    while k < pieces.len()
        invariant
            k <= pieces@.len(),
            pieces@.len() == ps.len(),
            forall|j: int| 0 <= j < pieces@.len() ==> (#[trigger] pieces@[j])@ == ps[j],
            lines@.len() == numbered_nonblank(ps.take(k as int)).len(),
            forall|j: int|
                0 <= j < lines@.len() ==> (#[trigger] lines@[j]).0 == numbered_nonblank(
                    ps.take(k as int),
                )[j].0 && lines@[j].1@ == numbered_nonblank(ps.take(k as int))[j].1,
        decreases pieces@.len() - k,
    {
        let t = trim_chars(&pieces[k]);
        proof {
            let q = ps.take(k + 1);
            assert(q.drop_last() =~= ps.take(k as int));
            assert(q.last() == ps[k as int]);
        }
        if t.len() > 0 {
            lines.push((k + 1, string_of(&t)));
        }
        k += 1;
    }
    assert(ps.take(ps.len() as int) =~= ps);
    lines
}

/// One line of a batch: its text and what its analysis gave.
pub struct BatchItem {
    pub input_text: String,
    pub result: Result<SubnetInfo, SubnetError>,
}

impl View for BatchItem {
    type V = (Seq<char>, Result<SubnetInfo, SubnetFault>);

    open spec fn view(&self) -> (Seq<char>, Result<SubnetInfo, SubnetFault>) {
        (self.input_text@, outcome_view(self.result))
    }
}

/// Each non-blank line of a batch with its analysis.
pub open spec fn batch_model(text: Seq<char>) -> Seq<(Seq<char>, Result<SubnetInfo, SubnetFault>)> {
    nonblank_lines(text).map_values(
        |l: (nat, Seq<char>)| (l.1, analyze_model(l.1)),
    )
}

/// The lines among `lines` that analyse, in order.
pub open spec fn analysed_lines(lines: Seq<(nat, Seq<char>)>) -> Seq<Seq<char>>
    decreases lines.len(),
{
    if lines.len() == 0 {
        Seq::empty()
    } else {
        let rest = analysed_lines(lines.drop_last());
        if analyze_model(lines.last().1) is Ok {
            rest.push(lines.last().1)
        } else {
            rest
        }
    }
}

/// The lines among `lines` that analyse, each with its analysis, in order.
pub open spec fn analysed_pairs(lines: Seq<(nat, Seq<char>)>) -> Seq<(Seq<char>, SubnetInfo)>
    decreases lines.len(),
{
    if lines.len() == 0 {
        Seq::empty()
    } else {
        let rest = analysed_pairs(lines.drop_last());
        match analyze_model(lines.last().1) {
            Ok(info) => rest.push((lines.last().1, info)),
            Err(_) => rest,
        }
    }
}

/// Analyses each non-blank line of `text` and records, in order, each line
/// that analyses in the history, together with its analysis.
pub fn batch_analyze(text: &str, history: &mut HistoryStore) -> (items: Vec<BatchItem>)
    ensures
        items@.map_values(|i: BatchItem| i@) == batch_model(text@),
        inputs_of(final(history)@) == with_inputs(
            inputs_of(old(history)@),
            analysed_lines(nonblank_lines(text@)),
        ),
        pairs_of(final(history)@) == with_pairs(
            pairs_of(old(history)@),
            analysed_pairs(nonblank_lines(text@)),
        ),
        final(history).path() == old(history).path(),
{
    let lines = nonblank_lines_of(text);
    let ghost ls = nonblank_lines(text@);
    let ghost start = inputs_of(history@);
    let ghost start_pairs = pairs_of(history@);
    let mut items: Vec<BatchItem> = Vec::new();
    let mut k: usize = 0;
    while k < lines.len()
        invariant
            k <= lines@.len(),
            lines@.len() == ls.len(),
            forall|j: int|
                0 <= j < lines@.len() ==> (#[trigger] lines@[j]).0 == ls[j].0 && lines@[j].1@
                    == ls[j].1,
            items@.map_values(|i: BatchItem| i@) == ls.take(k as int).map_values(
                |l: (nat, Seq<char>)| (l.1, analyze_model(l.1)),
            ),
            inputs_of(history@) == with_inputs(start, analysed_lines(ls.take(k as int))),
            pairs_of(history@) == with_pairs(start_pairs, analysed_pairs(ls.take(k as int))),
            history.path() == old(history).path(),
        decreases lines@.len() - k,
    {
        let line = &lines[k].1;
        let r = analyze(line.as_str());
        let ghost before = items@;
        proof {
            let q = ls.take(k + 1);
            assert(q.drop_last() =~= ls.take(k as int));
            assert(q.last() == ls[k as int]);
        }
        if let Ok(info) = r {
            history.add(line.as_str(), info);
            proof {
                let prev = analysed_lines(ls.take(k as int));
                let next = analysed_lines(ls.take(k + 1));
                assert(next == prev.push(line@));
                assert(next.drop_last() =~= prev);
                let prevp = analysed_pairs(ls.take(k as int));
                let nextp = analysed_pairs(ls.take(k + 1));
                assert(nextp == prevp.push((line@, info)));
                assert(nextp.drop_last() =~= prevp);
            }
        }
        let item = BatchItem { input_text: line.clone(), result: r };
        assert(item@ == (ls[k as int].1, analyze_model(ls[k as int].1)));
        items.push(item);
        proof {
            let g = |l: (nat, Seq<char>)| (l.1, analyze_model(l.1));
            assert(items@.map_values(|i: BatchItem| i@) =~= before.map_values(|i: BatchItem| i@).push(item@));
            assert(ls.take(k + 1).map_values(g) =~= ls.take(k as int).map_values(g).push(g(ls[k as int])));
            assert(items@.map_values(|i: BatchItem| i@) =~= ls.take(k + 1).map_values(
                |l: (nat, Seq<char>)| (l.1, analyze_model(l.1)),
            ));
        }
        k += 1;
    }
    assert(ls.take(ls.len() as int) =~= ls);
    items
}

/// The subnets of the lines of a batch that analysed, in order.
pub open spec fn batch_successes(items: Seq<(Seq<char>, Result<SubnetInfo, SubnetFault>)>) -> Seq<
    SubnetInfo,
>
    decreases items.len(),
{
    if items.len() == 0 {
        Seq::empty()
    } else {
        let rest = batch_successes(items.drop_last());
        match items.last().1 {
            Ok(info) => rest.push(info),
            Err(_) => rest,
        }
    }
}

/// The subnets of a batch that analysed, as exported.
pub fn successful_infos(items: &Vec<BatchItem>) -> (infos: Vec<SubnetInfo>)
    ensures
        infos@ == batch_successes(items@.map_values(|i: BatchItem| i@)),
{
    let ghost iv = items@.map_values(|i: BatchItem| i@);
    let mut infos: Vec<SubnetInfo> = Vec::new();
    let mut k: usize = 0;
    while k < items.len()
        invariant
            k <= items@.len(),
            iv == items@.map_values(|i: BatchItem| i@),
            infos@ == batch_successes(iv.take(k as int)),
        decreases items@.len() - k,
    {
        proof {
            let q = iv.take(k + 1);
            assert(q.drop_last() =~= iv.take(k as int));
            assert(q.last() == items@[k as int]@);
        }
        if let Ok(info) = &items[k].result {
            infos.push(*info);
        }
        k += 1;
    }
    assert(iv.take(iv.len() as int) =~= iv);
    infos
}

// ---------------------------------------------------------------------------
// Two subnets compared, many subnets summarised
// ---------------------------------------------------------------------------

/// Why two subnets do not merge into one supernet.
#[derive(Debug, Clone, Copy, PartialEq, Eq, Structural)]
pub enum MergeRefusal {
    PrefixDiffers,
    WholeSpace,
    SameNetwork,
    NoCommonSupernet,
}

pub open spec fn refusal_text(r: MergeRefusal) -> Seq<char> {
    match r {
        MergeRefusal::PrefixDiffers => "前缀长度不同"@,
        MergeRefusal::WholeSpace => "/0 不可再聚合"@,
        MergeRefusal::SameNetwork => "相同网段"@,
        MergeRefusal::NoCommonSupernet => "不在同一超网"@,
    }
}

/// The reason shown when two subnets do not merge: the first of a differing
/// prefix length, a /0, the same network, and no common supernet.
pub open spec fn refusal_of(a: SubnetInfo, b: SubnetInfo) -> MergeRefusal {
    if a.cidr != b.cidr {
        MergeRefusal::PrefixDiffers
    } else if a.cidr == 0 {
        MergeRefusal::WholeSpace
    } else if a.network == b.network {
        MergeRefusal::SameNetwork
    } else {
        MergeRefusal::NoCommonSupernet
    }
}

impl MergeRefusal {
    /// The reason in words.
    pub fn text(&self) -> (s: &'static str)
        ensures
            s@ == refusal_text(*self),
    {
        match self {
            MergeRefusal::PrefixDiffers => "前缀长度不同",
            MergeRefusal::WholeSpace => "/0 不可再聚合",
            MergeRefusal::SameNetwork => "相同网段",
            MergeRefusal::NoCommonSupernet => "不在同一超网",
        }
    }

    /// The answer to "can they merge?": `否（reason）`.
    pub fn answer(&self) -> (s: String)
        ensures
            s@ == "否（"@ + refusal_text(*self) + "）"@,
    {
        let mut out = String::new();
        push_str(&mut out, "否（");
        push_str(&mut out, self.text());
        push_str(&mut out, "）");
        out
    }
}

/// The supernet of two subnets, or why there is none.
pub fn merge_verdict(a: &SubnetInfo, b: &SubnetInfo) -> (r: Result<SubnetInfo, MergeRefusal>)
    requires
        a.cidr == b.cidr ==> a.cidr <= 33,
    ensures
        match r {
            Ok(m) => merge_model(*a, *b) == Some(m),
            Err(x) => merge_model(*a, *b) is None && x == refusal_of(*a, *b),
        },
{
    match can_aggregate(a, b) {
        Some(m) => Ok(m),
        None => {
            if a.cidr != b.cidr {
                Err(MergeRefusal::PrefixDiffers)
            } else if a.cidr == 0 {
                Err(MergeRefusal::WholeSpace)
            } else if a.network == b.network {
                Err(MergeRefusal::SameNetwork)
            } else {
                Err(MergeRefusal::NoCommonSupernet)
            }
        },
    }
}

/// How two subnets relate.
#[derive(Debug, Clone, Copy, PartialEq, Eq)]
pub struct PairReport {
    pub a_contains_b: bool,
    pub b_contains_a: bool,
    pub overlap: bool,
    pub merge: Result<SubnetInfo, MergeRefusal>,
}

/// How two subnets relate: containment each way, overlap, and the supernet
/// they merge into or why they do not.
pub open spec fn relation(a: SubnetInfo, b: SubnetInfo) -> PairReport {
    PairReport {
        a_contains_b: contains_model(a, b),
        b_contains_a: contains_model(b, a),
        overlap: overlaps_model(a, b),
        merge: match merge_model(a, b) {
            Some(m) => Ok(m),
            None => Err(refusal_of(a, b)),
        },
    }
}

/// Which of the two inputs did not analyse, and why.
#[derive(Debug, Clone, PartialEq, Eq)]
pub enum PairError {
    A(SubnetError),
    B(SubnetError),
}

pub enum PairFault {
    A(SubnetFault),
    B(SubnetFault),
}

impl View for PairError {
    type V = PairFault;

    open spec fn view(&self) -> PairFault {
        match self {
            PairError::A(e) => PairFault::A(e@),
            PairError::B(e) => PairFault::B(e@),
        }
    }
}

pub open spec fn pair_error_text(f: PairFault) -> Seq<char> {
    match f {
        PairFault::A(e) => "网段 A 错误: "@ + subnet_error_text(e),
        PairFault::B(e) => "网段 B 错误: "@ + subnet_error_text(e),
    }
}

impl PairError {
    /// The message shown for the input that failed.
    pub fn to_string(&self) -> (s: String)
        ensures
            s@ == pair_error_text(self@),
    {
        let mut out = String::new();
        match self {
            PairError::A(e) => {
                push_str(&mut out, "网段 A 错误: ");
                let m = e.to_string();
                push_str(&mut out, m.as_str());
            },
            PairError::B(e) => {
                push_str(&mut out, "网段 B 错误: ");
                let m = e.to_string();
                push_str(&mut out, m.as_str());
            },
        }
        out
    }
}

/// What the comparison screen gives for two inputs: their relation where
/// both analyse, else the error of the first that does not.
pub open spec fn pair_model(a: Seq<char>, b: Seq<char>) -> Result<PairReport, PairFault> {
    match (analyze_model(a), analyze_model(b)) {
        (Ok(x), Ok(y)) => Ok(relation(x, y)),
        (Err(e), _) => Err(PairFault::A(e)),
        (Ok(_), Err(e)) => Err(PairFault::B(e)),
    }
}

/// Compares the subnets given by two inputs.
pub fn pair_report(a_text: &str, b_text: &str) -> (r: Result<PairReport, PairError>)
    ensures
        match r {
            Ok(rep) => pair_model(a_text@, b_text@) == Ok::<PairReport, PairFault>(rep),
            Err(e) => pair_model(a_text@, b_text@) == Err::<PairReport, PairFault>(e@),
        },
{
    let a = analyze(a_text);
    let b = analyze(b_text);
    match (a, b) {
        (Ok(x), Ok(y)) => {
            proof {
                lemma_analyze_well_formed(a_text@);
            }
            let merge = merge_verdict(&x, &y);
            Ok(
                PairReport {
                    a_contains_b: contains(&x, &y),
                    b_contains_a: contains(&y, &x),
                    overlap: overlaps(&x, &y),
                    merge,
                },
            )
        },
        (Err(e), _) => Err(PairError::A(e)),
        (Ok(_), Err(e)) => Err(PairError::B(e)),
    }
}

/// `parts` with `sep` between each two.
pub open spec fn join_text(parts: Seq<Seq<char>>, sep: Seq<char>) -> Seq<char>
    decreases parts.len(),
{
    if parts.len() == 0 {
        Seq::empty()
    } else if parts.len() == 1 {
        parts[0]
    } else {
        join_text(parts.drop_last(), sep) + sep + parts.last()
    }
}

/// The message of a line that does not analyse: `第n行: error`.
pub open spec fn line_message(n: nat, e: SubnetFault) -> Seq<char> {
    "第"@ + dec(n) + "行: "@ + subnet_error_text(e)
}

/// The messages of the lines that do not analyse, in order.
pub open spec fn line_messages(lines: Seq<(nat, Seq<char>)>) -> Seq<Seq<char>>
    decreases lines.len(),
{
    if lines.len() == 0 {
        Seq::empty()
    } else {
        let rest = line_messages(lines.drop_last());
        match analyze_model(lines.last().1) {
            Ok(_) => rest,
            Err(e) => rest.push(line_message(lines.last().0, e)),
        }
    }
}

/// The subnets of the lines that analyse, in order.
pub open spec fn line_subnets(lines: Seq<(nat, Seq<char>)>) -> Seq<SubnetInfo>
    decreases lines.len(),
{
    if lines.len() == 0 {
        Seq::empty()
    } else {
        let rest = line_subnets(lines.drop_last());
        match analyze_model(lines.last().1) {
            Ok(info) => rest.push(info),
            Err(_) => rest,
        }
    }
}

/// What the summary screen gives for a text of one subnet per line: the
/// messages of the lines that do not analyse, joined by `; `; else
/// `无有效网段` where no line holds a subnet; else the aggregation of all.
pub open spec fn summary_model(text: Seq<char>) -> Result<Seq<SubnetInfo>, Seq<char>> {
    let ls = nonblank_lines(text);
    if line_messages(ls).len() > 0 {
        Err(join_text(line_messages(ls), "; "@))
    } else if line_subnets(ls).len() == 0 {
        Err("无有效网段"@)
    } else {
        Ok(aggregate_model(line_subnets(ls)))
    }
}

/// Joins `parts` with `; `.
fn join_messages(parts: &Vec<String>) -> (s: String)
    ensures
        s@ == join_text(parts@.map_values(|p: String| p@), "; "@),
{
    let ghost ps = parts@.map_values(|p: String| p@);
    let mut out = String::new();
    let mut k: usize = 0;
    while k < parts.len()
        invariant
            k <= parts@.len(),
            ps == parts@.map_values(|p: String| p@),
            out@ == join_text(ps.take(k as int), "; "@),
        decreases parts@.len() - k,
    {
        let ghost before = out@;
        if k > 0 {
            push_str(&mut out, "; ");
        }
        push_str(&mut out, parts[k].as_str());
        proof {
            let t = ps.take(k + 1);
            assert(t.drop_last() =~= ps.take(k as int));
            assert(t.last() == ps[k as int]);
            if k == 0 {
                assert(before =~= Seq::<char>::empty());
                assert(out@ =~= t[0]);
            }
        }
        k += 1;
    }
    assert(ps.take(ps.len() as int) =~= ps);
    out
}

/// Summarises the subnets of a text, one per line.
pub fn summarize_lines(text: &str) -> (r: Result<Vec<SubnetInfo>, String>)
    ensures
        match r {
            Ok(v) => summary_model(text@) == Ok::<Seq<SubnetInfo>, Seq<char>>(v@),
            Err(s) => summary_model(text@) == Err::<Seq<SubnetInfo>, Seq<char>>(s@),
        },
{
    let lines = nonblank_lines_of(text);
    let ghost ls = nonblank_lines(text@);
    let mut nets: Vec<SubnetInfo> = Vec::new();
    let mut errors: Vec<String> = Vec::new();
    let mut k: usize = 0;
    while k < lines.len()
        invariant
            k <= lines@.len(),
            lines@.len() == ls.len(),
            forall|j: int|
                0 <= j < lines@.len() ==> (#[trigger] lines@[j]).0 == ls[j].0 && lines@[j].1@
                    == ls[j].1,
            nets@ == line_subnets(ls.take(k as int)),
            errors@.map_values(|p: String| p@) == line_messages(ls.take(k as int)),
            forall|j: int| 0 <= j < nets@.len() ==> (#[trigger] nets@[j]).cidr <= 32,
        decreases lines@.len() - k,
    {
        let n = lines[k].0;
        let line = &lines[k].1;
        proof {
            let q = ls.take(k + 1);
            assert(q.drop_last() =~= ls.take(k as int));
            assert(q.last() == ls[k as int]);
            lemma_analyze_well_formed(line@);
        }
        match analyze(line.as_str()) {
            Ok(info) => {
                nets.push(info);
            },
            Err(e) => {
                let ghost before = errors@;
                let mut msg = String::new();
                push_str(&mut msg, "第");
                push_dec(&mut msg, n as u64);
                push_str(&mut msg, "行: ");
                let m = e.to_string();
                push_str(&mut msg, m.as_str());
                assert(msg@ =~= line_message(n as nat, e@));
                errors.push(msg);
                assert(errors@.map_values(|p: String| p@) =~= before.map_values(|p: String| p@).push(msg@));
            },
        }
        k += 1;
    }
    assert(ls.take(ls.len() as int) =~= ls);
    if errors.len() > 0 {
        return Err(join_messages(&errors));
    }
    if nets.len() == 0 {
        return Err("无有效网段".to_string());
    }
    proof {
        crate::aggregate::lemma_aggregate_safe(nets@);
    }
    Ok(aggregate_many(nets))
}

// ---------------------------------------------------------------------------
// Conversion screen
// ---------------------------------------------------------------------------

/// What the conversion screen reads its input as.
#[derive(Debug, Clone, Copy, PartialEq, Eq, Structural)]
pub enum ConvertTarget {
    Blank,
    Ip(u32),
    Mask(u8),
    Unknown,
}

/// The trimmed input read as an address if it is one, else as a mask (prefix
/// length or dotted mask), else as neither; a blank input is nothing.
pub open spec fn convert_model(s: Seq<char>) -> ConvertTarget {
    let t = trim(s);
    if t.len() == 0 {
        ConvertTarget::Blank
    } else {
        match ipv4_model(t) {
            Ok(v) => ConvertTarget::Ip(v),
            Err(_) => match mask_model(t) {
                Ok(c) => ConvertTarget::Mask(c),
                Err(_) => ConvertTarget::Unknown,
            },
        }
    }
}

/// Reads the input of the conversion screen.
pub fn convert_target(input: &str) -> (r: ConvertTarget)
    ensures
        r == convert_model(input@),
        r matches ConvertTarget::Mask(c) ==> c <= 32,
{
    let cs = chars_of(input);
    let t = trim_chars(&cs);
    if t.len() == 0 {
        return ConvertTarget::Blank;
    }
    let ts = string_of(&t);
    match parse_ipv4(ts.as_str()) {
        Ok(v) => ConvertTarget::Ip(v),
        Err(_) => match parse_mask(ts.as_str()) {
            Ok(c) => ConvertTarget::Mask(c),
            Err(_) => ConvertTarget::Unknown,
        },
    }
}

// ---------------------------------------------------------------------------
// VLSM screen
// ---------------------------------------------------------------------------

/// The rows (name, host count text) whose trimmed count reads as a number,
/// with that number; the other rows are left out.
pub open spec fn requirements_model(rows: Seq<(Seq<char>, Seq<char>)>) -> Seq<(Seq<char>, usize)>
    decreases rows.len(),
{
    if rows.len() == 0 {
        Seq::empty()
    } else {
        let rest = requirements_model(rows.drop_last());
        match parse_usize(trim(rows.last().1)) {
            Some(h) => rest.push((rows.last().0, h)),
            None => rest,
        }
    }
}

pub open spec fn rows_view(rows: Seq<(String, String)>) -> Seq<(Seq<char>, Seq<char>)> {
    rows.map_values(|r: (String, String)| (r.0@, r.1@))
}

/// The requirements of the VLSM screen's rows.
pub fn parse_requirements(rows: &Vec<(String, String)>) -> (reqs: Vec<(String, usize)>)
    ensures
        reqs_view(reqs@) == requirements_model(rows_view(rows@)),
{
    let ghost rv = rows_view(rows@);
    let mut reqs: Vec<(String, usize)> = Vec::new();
    let mut k: usize = 0;
    while k < rows.len()
        invariant
            k <= rows@.len(),
            rv == rows_view(rows@),
            reqs_view(reqs@) == requirements_model(rv.take(k as int)),
        decreases rows@.len() - k,
    {
        let cs = chars_of(rows[k].1.as_str());
        let t = trim_chars(&cs);
        let ghost before = reqs@;
        proof {
            let q = rv.take(k + 1);
            assert(q.drop_last() =~= rv.take(k as int));
            assert(q.last() == rv[k as int]);
        }
        if let Some(h) = parse_usize_chars(&t) {
            let name = rows[k].0.clone();
            reqs.push((name, h));
            assert(reqs_view(reqs@) =~= reqs_view(before).push((rows@[k as int].0@, h)));
        }
        k += 1;
    }
    assert(rv.take(rv.len() as int) =~= rv);
    reqs
}

/// Drops row `i`, except the last row left, or a row that is not there.
pub fn remove_requirement(rows: &mut Vec<(String, String)>, i: usize)
    ensures
        old(rows)@.len() > 1 && i < old(rows)@.len() ==> final(rows)@ == old(rows)@.remove(i as int),
        !(old(rows)@.len() > 1 && i < old(rows)@.len()) ==> final(rows)@ == old(rows)@,
{
    if rows.len() > 1 && i < rows.len() {
        rows.remove(i);
    }
}

/// Appends a new row `子网n` with 10 hosts, `n` the new number of rows.
pub fn add_requirement(rows: &mut Vec<(String, String)>)
    requires
        old(rows)@.len() < usize::MAX,
    ensures
        rows_view(final(rows)@) == rows_view(old(rows)@).push(
            ("子网"@ + dec(old(rows)@.len() + 1), "10"@),
        ),
{
    let ghost before = rows_view(rows@);
    let n = rows.len() + 1;
    let mut name = String::new();
    push_str(&mut name, "子网");
    push_dec(&mut name, n as u64);
    let hosts = "10".to_string();
    rows.push((name, hosts));
    assert(rows_view(rows@) =~= before.push(("子网"@ + dec(n as nat), "10"@)));
}

/// An allocated subnet as the copied row: name, hosts, network, prefix
/// length, mask, first and last host, broadcast, separated by commas.
pub open spec fn entry_row(e: EntryModel) -> Seq<char> {
    e.name + ","@ + dec(e.required_hosts as nat) + ","@ + dotted(e.network) + ","@ + dec(
        e.cidr as nat,
    ) + ","@ + dotted(e.mask) + ","@ + dotted(e.first_host) + ","@ + dotted(e.last_host) + ","@
        + dotted(e.broadcast)
}

/// The copied row of an allocated subnet.
pub fn entry_row_text(e: &VlsmEntry) -> (s: String)
    ensures
        s@ == entry_row(e@),
{
    let mut out = String::new();
    push_str(&mut out, e.name.as_str());
    push_str(&mut out, ",");
    push_dec(&mut out, e.required_hosts as u64);
    push_str(&mut out, ",");
    push_dotted(&mut out, e.network);
    push_str(&mut out, ",");
    push_dec(&mut out, e.cidr as u64);
    push_str(&mut out, ",");
    let ghost mid = out@;
    assert(mid =~= e@.name + ","@ + dec(e@.required_hosts as nat) + ","@ + dotted(e@.network) + ","@
        + dec(e@.cidr as nat) + ","@);
    push_dotted(&mut out, e.mask);
    push_str(&mut out, ",");
    push_dotted(&mut out, e.first_host);
    push_str(&mut out, ",");
    push_dotted(&mut out, e.last_host);
    push_str(&mut out, ",");
    push_dotted(&mut out, e.broadcast);
    assert(out@ =~= entry_row(e@));
    out
}

/// The usable range of an allocated subnet: `first ~ last`.
pub fn host_range_text(e: &VlsmEntry) -> (s: String)
    ensures
        s@ == dotted(e.first_host) + " ~ "@ + dotted(e.last_host),
{
    let mut out = String::new();
    push_dotted(&mut out, e.first_host);
    push_str(&mut out, " ~ ");
    push_dotted(&mut out, e.last_host);
    assert(out@ =~= dotted(e.first_host) + " ~ "@ + dotted(e.last_host));
    out
}

/// A prefix length as `/n`.
pub fn prefix_text(c: u8) -> (s: String)
    ensures
        s@ == "/"@ + dec(c as nat),
{
    let mut out = String::new();
    push_str(&mut out, "/");
    push_dec(&mut out, c as u64);
    out
}

// ---------------------------------------------------------------------------
// History screen
// ---------------------------------------------------------------------------

/// The number of usable hosts as the history shows it: `n 台主机`.
pub fn hosts_text(info: &SubnetInfo) -> (s: String)
    ensures
        s@ == dec(info.usable_ips as nat) + " 台主机"@,
{
    let mut out = String::new();
    push_dec(&mut out, info.usable_ips);
    push_str(&mut out, " 台主机");
    out
}

/// The positions of the entries whose lower-cased input holds `kw`, in order.
pub open spec fn matching_positions(entries: Seq<HistoryEntryModel>, kw: Seq<char>) -> Seq<usize>
    decreases entries.len(),
{
    if entries.len() == 0 {
        Seq::empty()
    } else {
        let rest = matching_positions(entries.drop_last(), kw);
        if has_substring(lowercase(entries.last().input), kw) {
            rest.push((entries.len() - 1) as usize)
        } else {
            rest
        }
    }
}

/// The positions the history screen lists for a search text: every entry
/// where the text is blank, else those whose input holds it, ignoring case.
pub open spec fn visible_model(entries: Seq<HistoryEntryModel>, keyword: Seq<char>) -> Seq<usize> {
    if trim(keyword).len() == 0 {
        Seq::new(entries.len(), |i: int| i as usize)
    } else {
        matching_positions(entries, lowercase(keyword))
    }
}

/// The positions of the history entries listed for `keyword`.
pub fn visible_positions(store: &HistoryStore, keyword: &str) -> (ps: Vec<usize>)
    ensures
        ps@ == visible_model(store@, keyword@),
{
    let entries = store.entries();
    let ghost es = store@;
    let kc = chars_of(keyword);
    let blank = trim_chars(&kc).len() == 0;
    let lowered = to_lower(keyword);
    let kw = chars_of(lowered.as_str());
    let mut ps: Vec<usize> = Vec::new();
    let mut i: usize = 0;
    while i < entries.len()
        invariant
            i <= entries@.len(),
            es == entries@.map_values(|e: crate::history::HistoryEntry| e@),
            blank == (trim(keyword@).len() == 0),
            kw@ == lowercase(keyword@),
            blank ==> ps@ == Seq::new(i as nat, |j: int| j as usize),
            !blank ==> ps@ == matching_positions(es.take(i as int), kw@),
        decreases entries@.len() - i,
    {
        let ghost before = ps@;
        proof {
            let q = es.take(i + 1);
            assert(q.drop_last() =~= es.take(i as int));
            assert(q.last() == entries@[i as int]@);
        }
        if blank {
            ps.push(i);
            assert(ps@ =~= Seq::new((i + 1) as nat, |j: int| j as usize));
        } else {
            let li = to_lower(entries[i].input.as_str());
            let lc = chars_of(li.as_str());
            if contains_text(&lc, &kw) {
                ps.push(i);
            }
        }
        i += 1;
    }
    assert(es.take(es.len() as int) =~= es);
    ps
}

/// The entries without the one at `i`, where there is one.
pub open spec fn removed_at(entries: Seq<HistoryEntryModel>, i: usize) -> Seq<HistoryEntryModel> {
    if i < entries.len() {
        entries.remove(i as int)
    } else {
        entries
    }
}

/// The entries after removing the positions `picked`, the last one first.
pub open spec fn removed_all(entries: Seq<HistoryEntryModel>, picked: Seq<usize>) -> Seq<
    HistoryEntryModel,
>
    decreases picked.len(),
{
    if picked.len() == 0 {
        entries
    } else {
        removed_at(removed_all(entries, picked.drop_first()), picked[0])
    }
}

/// Removes the entries at the positions `picked` (as listed, in increasing
/// order), starting from the last so that the earlier positions still hold.
pub fn remove_positions(store: &mut HistoryStore, picked: &Vec<usize>)
    ensures
        final(store)@ == removed_all(old(store)@, picked@),
        final(store).path() == old(store).path(),
{
    let ghost start = store@;
    let n = picked.len();
    let mut j: usize = n;
    assert(picked@.subrange(n as int, n as int) =~= Seq::<usize>::empty());
    while j > 0
        invariant
            j <= n == picked@.len(),
            store@ == removed_all(start, picked@.subrange(j as int, n as int)),
            store.path() == old(store).path(),
        decreases j,
    {
        j -= 1;
        store.remove(picked[j]);
        proof {
            let t = picked@.subrange(j as int, n as int);
            assert(t.drop_first() =~= picked@.subrange(j + 1, n as int));
            assert(t[0] == picked@[j as int]);
        }
    }
    assert(picked@.subrange(0, n as int) =~= picked@);
}

// ---------------------------------------------------------------------------
// Mask bits
// ---------------------------------------------------------------------------

/// The number of bits (characters other than `.`) in `s`.
pub open spec fn bit_count(s: Seq<char>) -> nat
    decreases s.len(),
{
    if s.len() == 0 {
        0
    } else {
        bit_count(s.drop_last()) + if s.last() == '.' {
            0nat
        } else {
            1nat
        }
    }
}

/// For each character of the grouped binary mask: whether it is one of the
/// first `cidr` bits, the network part.
pub open spec fn network_bits(info: SubnetInfo) -> Seq<bool> {
    let s = binary_dotted(info.mask);
    Seq::new(s.len(), |i: int| s[i] != '.' && bit_count(s.take(i)) < info.cidr)
}

/// Marks the network bits of the grouped binary mask.
pub fn network_bit_flags(info: &SubnetInfo) -> (flags: Vec<bool>)
    ensures
        flags@ == network_bits(*info),
{
    let text = mask_binary_grouped(info);
    let s = chars_of(text.as_str());
    let ghost g = binary_dotted(info.mask);
    let mut flags: Vec<bool> = Vec::new();
    let mut count: usize = 0;
    let mut i: usize = 0;
    while i < s.len()
        invariant
            s@ == g,
            i <= s@.len(),
            count == bit_count(g.take(i as int)),
            count <= i,
            flags@ == Seq::new(i as nat, |k: int| g[k] != '.' && bit_count(g.take(k)) < info.cidr),
        decreases s@.len() - i,
    {
        let c = s[i];
        let is_bit = c != '.';
        flags.push(is_bit && count < info.cidr as usize);
        proof {
            let q = g.take(i + 1);
            assert(q.drop_last() =~= g.take(i as int));
            assert(q.last() == c);
        }
        if is_bit {
            count += 1;
        }
        i += 1;
        assert(flags@ =~= Seq::new(i as nat, |k: int| g[k] != '.' && bit_count(g.take(k)) < info.cidr));
    }
    flags
}

} // verus!
