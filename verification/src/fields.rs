//! The named fields of the structured (JSON) exports: which fields each
//! record has, in which order, and how each value is written.
use vstd::prelude::*;

use crate::history::{HistoryEntry, HistoryEntryModel};
use crate::ip::{class_description, dotted, IpClass};
use crate::subnet::{cidr_representation, cidr_text, SubnetInfo};
use crate::text::{dec, push_dec, push_str};
use crate::vlsm::{EntryModel, FailureModel, VlsmEntry, VlsmFailure};

verus! {

/// The value of one field: a text, a whole number or a yes/no flag.
#[derive(Debug, Clone, PartialEq, Eq)]
pub enum FieldValue {
    Text(String),
    Number(u64),
    Flag(bool),
}

pub enum FieldModel {
    Text(Seq<char>),
    Number(nat),
    Flag(bool),
}

impl View for FieldValue {
    type V = FieldModel;

    open spec fn view(&self) -> FieldModel {
        match self {
            FieldValue::Text(s) => FieldModel::Text(s@),
            FieldValue::Number(n) => FieldModel::Number(*n as nat),
            FieldValue::Flag(b) => FieldModel::Flag(*b),
        }
    }
}

/// A record: named fields in order.
pub open spec fn record_view(r: Seq<(String, FieldValue)>) -> Seq<(Seq<char>, FieldModel)> {
    r.map_values(|f: (String, FieldValue)| (f.0@, f.1@))
}

fn text_field(name: &str, value: String) -> (f: (String, FieldValue))
    ensures
        f.0@ == name@,
        f.1@ == FieldModel::Text(value@),
{
    let mut n = String::new();
    push_str(&mut n, name);
    (n, FieldValue::Text(value))
}

fn number_field(name: &str, value: u64) -> (f: (String, FieldValue))
    ensures
        f.0@ == name@,
        f.1@ == FieldModel::Number(value as nat),
{
    let mut n = String::new();
    push_str(&mut n, name);
    (n, FieldValue::Number(value))
}

fn flag_field(name: &str, value: bool) -> (f: (String, FieldValue))
    ensures
        f.0@ == name@,
        f.1@ == FieldModel::Flag(value),
{
    let mut n = String::new();
    push_str(&mut n, name);
    (n, FieldValue::Flag(value))
}

fn text_of(s: &str) -> (t: String)
    ensures
        t@ == s@,
{
    let mut t = String::new();
    push_str(&mut t, s);
    t
}

/// The fields of a subnet with its addresses in dotted form, as the batch
/// and history exports write it.
pub open spec fn subnet_record(info: SubnetInfo) -> Seq<(Seq<char>, FieldModel)> {
    seq![
        ("network"@, FieldModel::Text(dotted(info.network))),
        ("broadcast"@, FieldModel::Text(dotted(info.broadcast))),
        ("mask"@, FieldModel::Text(dotted(info.mask))),
        ("wildcard"@, FieldModel::Text(dotted(info.wildcard))),
        ("cidr"@, FieldModel::Text(cidr_text(info))),
        ("total_ips"@, FieldModel::Number(info.total_ips as nat)),
        ("usable_ips"@, FieldModel::Number(info.usable_ips as nat)),
        ("first_host"@, FieldModel::Text(dotted(info.first_host))),
        ("last_host"@, FieldModel::Text(dotted(info.last_host))),
        ("ip_class"@, FieldModel::Text(class_description(info.ip_class))),
        ("is_private"@, FieldModel::Flag(info.is_private)),
    ]
}

/// Appends the fields of a subnet with dotted addresses.
fn push_subnet_fields(r: &mut Vec<(String, FieldValue)>, info: &SubnetInfo)
    ensures
        record_view(final(r)@) == record_view(old(r)@) + subnet_record(*info),
{
    let ghost start = record_view(r@);
    r.push(text_field("network", crate::ip::to_dotted(info.network)));
    r.push(text_field("broadcast", crate::ip::to_dotted(info.broadcast)));
    r.push(text_field("mask", crate::ip::to_dotted(info.mask)));
    r.push(text_field("wildcard", crate::ip::to_dotted(info.wildcard)));
    r.push(text_field("cidr", cidr_representation(info)));
    r.push(number_field("total_ips", info.total_ips));
    r.push(number_field("usable_ips", info.usable_ips));
    r.push(text_field("first_host", crate::ip::to_dotted(info.first_host)));
    r.push(text_field("last_host", crate::ip::to_dotted(info.last_host)));
    r.push(text_field("ip_class", text_of(info.ip_class.description())));
    r.push(flag_field("is_private", info.is_private));
    assert(record_view(r@) =~= start + subnet_record(*info));
}

/// The fields of a subnet with dotted addresses.
pub fn subnet_fields(info: &SubnetInfo) -> (r: Vec<(String, FieldValue)>)
    ensures
        record_view(r@) == subnet_record(*info),
{
    let mut r: Vec<(String, FieldValue)> = Vec::new();
    push_subnet_fields(&mut r, info);
    assert(record_view(Seq::<(String, FieldValue)>::empty()) + subnet_record(*info) =~= subnet_record(*info));
    r
}

/// The name of a class's variant, as the single-subnet export writes it.
pub open spec fn class_name(c: IpClass) -> Seq<char> {
    match c {
        IpClass::ClassA => "ClassA"@,
        IpClass::ClassB => "ClassB"@,
        IpClass::ClassC => "ClassC"@,
        IpClass::ClassD => "ClassD"@,
        IpClass::ClassE => "ClassE"@,
    }
}

fn class_name_text(c: IpClass) -> (s: &'static str)
    ensures
        s@ == class_name(c),
{
    match c {
        IpClass::ClassA => "ClassA",
        IpClass::ClassB => "ClassB",
        IpClass::ClassC => "ClassC",
        IpClass::ClassD => "ClassD",
        IpClass::ClassE => "ClassE",
    }
}

/// The fields of a subnet as raw numbers, as the single-subnet export writes it.
pub open spec fn raw_subnet_record(info: SubnetInfo) -> Seq<(Seq<char>, FieldModel)> {
    seq![
        ("network"@, FieldModel::Number(info.network as nat)),
        ("broadcast"@, FieldModel::Number(info.broadcast as nat)),
        ("mask"@, FieldModel::Number(info.mask as nat)),
        ("wildcard"@, FieldModel::Number(info.wildcard as nat)),
        ("cidr"@, FieldModel::Number(info.cidr as nat)),
        ("total_ips"@, FieldModel::Number(info.total_ips as nat)),
        ("usable_ips"@, FieldModel::Number(info.usable_ips as nat)),
        ("first_host"@, FieldModel::Number(info.first_host as nat)),
        ("last_host"@, FieldModel::Number(info.last_host as nat)),
        ("ip_class"@, FieldModel::Text(class_name(info.ip_class))),
        ("is_private"@, FieldModel::Flag(info.is_private)),
    ]
}

/// The fields of a subnet as raw numbers.
pub fn raw_subnet_fields(info: &SubnetInfo) -> (r: Vec<(String, FieldValue)>)
    ensures
        record_view(r@) == raw_subnet_record(*info),
{
    let mut r: Vec<(String, FieldValue)> = Vec::new();
    r.push(number_field("network", info.network as u64));
    r.push(number_field("broadcast", info.broadcast as u64));
    r.push(number_field("mask", info.mask as u64));
    r.push(number_field("wildcard", info.wildcard as u64));
    r.push(number_field("cidr", info.cidr as u64));
    r.push(number_field("total_ips", info.total_ips));
    r.push(number_field("usable_ips", info.usable_ips));
    r.push(number_field("first_host", info.first_host as u64));
    r.push(number_field("last_host", info.last_host as u64));
    r.push(text_field("ip_class", text_of(class_name_text(info.ip_class))));
    r.push(flag_field("is_private", info.is_private));
    assert(record_view(r@) =~= raw_subnet_record(*info));
    r
}

/// The fields of a history entry other than its time: its input, then
/// those of its analysis with dotted addresses.
pub open spec fn history_record(e: HistoryEntryModel) -> Seq<(Seq<char>, FieldModel)> {
    seq![("input"@, FieldModel::Text(e.input))] + subnet_record(e.result)
}

/// The fields of a history entry other than its time.
pub fn history_fields(e: &HistoryEntry) -> (r: Vec<(String, FieldValue)>)
    ensures
        record_view(r@) == history_record(e@),
{
    let mut r: Vec<(String, FieldValue)> = Vec::new();
    r.push(text_field("input", text_of(e.input.as_str())));
    assert(record_view(r@) =~= seq![("input"@, FieldModel::Text(e@.input))]);
    push_subnet_fields(&mut r, &e.result);
    r
}

/// The fields of an allocated VLSM subnet.
pub open spec fn vlsm_entry_record(e: EntryModel) -> Seq<(Seq<char>, FieldModel)> {
    seq![
        ("name"@, FieldModel::Text(e.name)),
        ("required_hosts"@, FieldModel::Number(e.required_hosts as nat)),
        ("block_size"@, FieldModel::Number(e.allocated_block as nat)),
        ("network"@, FieldModel::Text(dotted(e.network))),
        ("mask"@, FieldModel::Text(dotted(e.mask))),
        ("cidr"@, FieldModel::Text("/"@ + dec(e.cidr as nat))),
        ("first_host"@, FieldModel::Text(dotted(e.first_host))),
        ("last_host"@, FieldModel::Text(dotted(e.last_host))),
        ("broadcast"@, FieldModel::Text(dotted(e.broadcast))),
        ("usable"@, FieldModel::Number(e.usable as nat)),
    ]
}

/// The fields of an allocated VLSM subnet.
pub fn vlsm_entry_fields(e: &VlsmEntry) -> (r: Vec<(String, FieldValue)>)
    ensures
        record_view(r@) == vlsm_entry_record(e@),
{
    let mut r: Vec<(String, FieldValue)> = Vec::new();
    r.push(text_field("name", text_of(e.name.as_str())));
    r.push(number_field("required_hosts", e.required_hosts as u64));
    r.push(number_field("block_size", e.allocated_block));
    r.push(text_field("network", crate::ip::to_dotted(e.network)));
    r.push(text_field("mask", crate::ip::to_dotted(e.mask)));
    r.push(text_field("cidr", crate::panels::prefix_text(e.cidr)));
    r.push(text_field("first_host", crate::ip::to_dotted(e.first_host)));
    r.push(text_field("last_host", crate::ip::to_dotted(e.last_host)));
    r.push(text_field("broadcast", crate::ip::to_dotted(e.broadcast)));
    r.push(number_field("usable", e.usable));
    assert(record_view(r@) =~= vlsm_entry_record(e@));
    r
}

/// The fields of a failed VLSM requirement.
pub open spec fn vlsm_failure_record(f: FailureModel) -> Seq<(Seq<char>, FieldModel)> {
    seq![
        ("name"@, FieldModel::Text(f.name)),
        ("required_hosts"@, FieldModel::Number(f.required_hosts as nat)),
        ("reason"@, FieldModel::Text(f.reason)),
    ]
}

/// The fields of a failed VLSM requirement.
pub fn vlsm_failure_fields(f: &VlsmFailure) -> (r: Vec<(String, FieldValue)>)
    ensures
        record_view(r@) == vlsm_failure_record(f@),
{
    let mut r: Vec<(String, FieldValue)> = Vec::new();
    r.push(text_field("name", text_of(f.name.as_str())));
    r.push(number_field("required_hosts", f.required_hosts as u64));
    r.push(text_field("reason", text_of(f.reason.as_str())));
    assert(record_view(r@) =~= vlsm_failure_record(f@));
    r
}

/// The record `r` has a field named `name`, and every field so named holds `v`.
pub open spec fn has_field(r: Seq<(Seq<char>, FieldModel)>, name: Seq<char>, v: FieldModel) -> bool {
    &&& exists|k: int| 0 <= k < r.len() && (#[trigger] r[k]).0 == name
    &&& forall|k: int| 0 <= k < r.len() && (#[trigger] r[k]).0 == name ==> r[k].1 == v
}

/// Each field of the dotted record of a subnet holds the dotted text (or the
/// number, class name or flag) of the subnet's field of the same name.
pub proof fn lemma_subnet_record_fields(info: SubnetInfo)
    ensures
        has_field(subnet_record(info), "network"@, FieldModel::Text(dotted(info.network))),
        has_field(subnet_record(info), "broadcast"@, FieldModel::Text(dotted(info.broadcast))),
        has_field(subnet_record(info), "mask"@, FieldModel::Text(dotted(info.mask))),
        has_field(subnet_record(info), "wildcard"@, FieldModel::Text(dotted(info.wildcard))),
        has_field(subnet_record(info), "cidr"@, FieldModel::Text(cidr_text(info))),
        has_field(subnet_record(info), "total_ips"@, FieldModel::Number(info.total_ips as nat)),
        has_field(subnet_record(info), "usable_ips"@, FieldModel::Number(info.usable_ips as nat)),
        has_field(subnet_record(info), "first_host"@, FieldModel::Text(dotted(info.first_host))),
        has_field(subnet_record(info), "last_host"@, FieldModel::Text(dotted(info.last_host))),
        has_field(subnet_record(info), "ip_class"@, FieldModel::Text(class_description(info.ip_class))),
        has_field(subnet_record(info), "is_private"@, FieldModel::Flag(info.is_private)),
{
    reveal_strlit("network");
    reveal_strlit("broadcast");
    reveal_strlit("mask");
    reveal_strlit("wildcard");
    reveal_strlit("cidr");
    reveal_strlit("total_ips");
    reveal_strlit("usable_ips");
    reveal_strlit("first_host");
    reveal_strlit("last_host");
    reveal_strlit("ip_class");
    reveal_strlit("is_private");
    assert("broadcast"@[0] != "total_ips"@[0]);
    assert("broadcast"@[0] != "last_host"@[0]);
    assert("cidr"@[0] != "mask"@[0]);
    assert("first_host"@[0] != "usable_ips"@[0]);
    assert("first_host"@[0] != "is_private"@[0]);
    assert("last_host"@[0] != "total_ips"@[0]);
    assert("ip_class"@[0] != "wildcard"@[0]);
    assert("is_private"@[0] != "usable_ips"@[0]);
    let r = subnet_record(info);
    assert(r[0].0 == "network"@);
    assert(r[1].0 == "broadcast"@);
    assert(r[2].0 == "mask"@);
    assert(r[3].0 == "wildcard"@);
    assert(r[4].0 == "cidr"@);
    assert(r[5].0 == "total_ips"@);
    assert(r[6].0 == "usable_ips"@);
    assert(r[7].0 == "first_host"@);
    assert(r[8].0 == "last_host"@);
    assert(r[9].0 == "ip_class"@);
    assert(r[10].0 == "is_private"@);
    assert forall|k: int| 0 <= k < r.len() && (#[trigger] r[k]).0 == "network"@ implies r[k].1 == FieldModel::Text(dotted(info.network)) by {
        assert(k == 0 || k == 1 || k == 2 || k == 3 || k == 4 || k == 5 || k == 6 || k == 7 || k == 8 || k == 9 || k == 10);
    }
    assert forall|k: int| 0 <= k < r.len() && (#[trigger] r[k]).0 == "broadcast"@ implies r[k].1 == FieldModel::Text(dotted(info.broadcast)) by {
        assert(k == 0 || k == 1 || k == 2 || k == 3 || k == 4 || k == 5 || k == 6 || k == 7 || k == 8 || k == 9 || k == 10);
    }
    assert forall|k: int| 0 <= k < r.len() && (#[trigger] r[k]).0 == "mask"@ implies r[k].1 == FieldModel::Text(dotted(info.mask)) by {
        assert(k == 0 || k == 1 || k == 2 || k == 3 || k == 4 || k == 5 || k == 6 || k == 7 || k == 8 || k == 9 || k == 10);
    }
    assert forall|k: int| 0 <= k < r.len() && (#[trigger] r[k]).0 == "wildcard"@ implies r[k].1 == FieldModel::Text(dotted(info.wildcard)) by {
        assert(k == 0 || k == 1 || k == 2 || k == 3 || k == 4 || k == 5 || k == 6 || k == 7 || k == 8 || k == 9 || k == 10);
    }
    assert forall|k: int| 0 <= k < r.len() && (#[trigger] r[k]).0 == "cidr"@ implies r[k].1 == FieldModel::Text(cidr_text(info)) by {
        assert(k == 0 || k == 1 || k == 2 || k == 3 || k == 4 || k == 5 || k == 6 || k == 7 || k == 8 || k == 9 || k == 10);
    }
    assert forall|k: int| 0 <= k < r.len() && (#[trigger] r[k]).0 == "total_ips"@ implies r[k].1 == FieldModel::Number(info.total_ips as nat) by {
        assert(k == 0 || k == 1 || k == 2 || k == 3 || k == 4 || k == 5 || k == 6 || k == 7 || k == 8 || k == 9 || k == 10);
    }
    assert forall|k: int| 0 <= k < r.len() && (#[trigger] r[k]).0 == "usable_ips"@ implies r[k].1 == FieldModel::Number(info.usable_ips as nat) by {
        assert(k == 0 || k == 1 || k == 2 || k == 3 || k == 4 || k == 5 || k == 6 || k == 7 || k == 8 || k == 9 || k == 10);
    }
    assert forall|k: int| 0 <= k < r.len() && (#[trigger] r[k]).0 == "first_host"@ implies r[k].1 == FieldModel::Text(dotted(info.first_host)) by {
        assert(k == 0 || k == 1 || k == 2 || k == 3 || k == 4 || k == 5 || k == 6 || k == 7 || k == 8 || k == 9 || k == 10);
    }
    assert forall|k: int| 0 <= k < r.len() && (#[trigger] r[k]).0 == "last_host"@ implies r[k].1 == FieldModel::Text(dotted(info.last_host)) by {
        assert(k == 0 || k == 1 || k == 2 || k == 3 || k == 4 || k == 5 || k == 6 || k == 7 || k == 8 || k == 9 || k == 10);
    }
    assert forall|k: int| 0 <= k < r.len() && (#[trigger] r[k]).0 == "ip_class"@ implies r[k].1 == FieldModel::Text(class_description(info.ip_class)) by {
        assert(k == 0 || k == 1 || k == 2 || k == 3 || k == 4 || k == 5 || k == 6 || k == 7 || k == 8 || k == 9 || k == 10);
    }
    assert forall|k: int| 0 <= k < r.len() && (#[trigger] r[k]).0 == "is_private"@ implies r[k].1 == FieldModel::Flag(info.is_private) by {
        assert(k == 0 || k == 1 || k == 2 || k == 3 || k == 4 || k == 5 || k == 6 || k == 7 || k == 8 || k == 9 || k == 10);
    }
}

/// Each field of the raw record of a subnet holds the number (or the class's
/// variant name or the flag) of the subnet's field of the same name.
pub proof fn lemma_raw_subnet_record_fields(info: SubnetInfo)
    ensures
        has_field(raw_subnet_record(info), "network"@, FieldModel::Number(info.network as nat)),
        has_field(raw_subnet_record(info), "broadcast"@, FieldModel::Number(info.broadcast as nat)),
        has_field(raw_subnet_record(info), "mask"@, FieldModel::Number(info.mask as nat)),
        has_field(raw_subnet_record(info), "wildcard"@, FieldModel::Number(info.wildcard as nat)),
        has_field(raw_subnet_record(info), "cidr"@, FieldModel::Number(info.cidr as nat)),
        has_field(raw_subnet_record(info), "total_ips"@, FieldModel::Number(info.total_ips as nat)),
        has_field(raw_subnet_record(info), "usable_ips"@, FieldModel::Number(info.usable_ips as nat)),
        has_field(raw_subnet_record(info), "first_host"@, FieldModel::Number(info.first_host as nat)),
        has_field(raw_subnet_record(info), "last_host"@, FieldModel::Number(info.last_host as nat)),
        has_field(raw_subnet_record(info), "ip_class"@, FieldModel::Text(class_name(info.ip_class))),
        has_field(raw_subnet_record(info), "is_private"@, FieldModel::Flag(info.is_private)),
{
    reveal_strlit("network");
    reveal_strlit("broadcast");
    reveal_strlit("mask");
    reveal_strlit("wildcard");
    reveal_strlit("cidr");
    reveal_strlit("total_ips");
    reveal_strlit("usable_ips");
    reveal_strlit("first_host");
    reveal_strlit("last_host");
    reveal_strlit("ip_class");
    reveal_strlit("is_private");
    assert("broadcast"@[0] != "total_ips"@[0]);
    assert("broadcast"@[0] != "last_host"@[0]);
    assert("cidr"@[0] != "mask"@[0]);
    assert("first_host"@[0] != "usable_ips"@[0]);
    assert("first_host"@[0] != "is_private"@[0]);
    assert("last_host"@[0] != "total_ips"@[0]);
    assert("ip_class"@[0] != "wildcard"@[0]);
    assert("is_private"@[0] != "usable_ips"@[0]);
    let r = raw_subnet_record(info);
    assert(r[0].0 == "network"@);
    assert(r[1].0 == "broadcast"@);
    assert(r[2].0 == "mask"@);
    assert(r[3].0 == "wildcard"@);
    assert(r[4].0 == "cidr"@);
    assert(r[5].0 == "total_ips"@);
    assert(r[6].0 == "usable_ips"@);
    assert(r[7].0 == "first_host"@);
    assert(r[8].0 == "last_host"@);
    assert(r[9].0 == "ip_class"@);
    assert(r[10].0 == "is_private"@);
    assert forall|k: int| 0 <= k < r.len() && (#[trigger] r[k]).0 == "network"@ implies r[k].1 == FieldModel::Number(info.network as nat) by {
        assert(k == 0 || k == 1 || k == 2 || k == 3 || k == 4 || k == 5 || k == 6 || k == 7 || k == 8 || k == 9 || k == 10);
    }
    assert forall|k: int| 0 <= k < r.len() && (#[trigger] r[k]).0 == "broadcast"@ implies r[k].1 == FieldModel::Number(info.broadcast as nat) by {
        assert(k == 0 || k == 1 || k == 2 || k == 3 || k == 4 || k == 5 || k == 6 || k == 7 || k == 8 || k == 9 || k == 10);
    }
    assert forall|k: int| 0 <= k < r.len() && (#[trigger] r[k]).0 == "mask"@ implies r[k].1 == FieldModel::Number(info.mask as nat) by {
        assert(k == 0 || k == 1 || k == 2 || k == 3 || k == 4 || k == 5 || k == 6 || k == 7 || k == 8 || k == 9 || k == 10);
    }
    assert forall|k: int| 0 <= k < r.len() && (#[trigger] r[k]).0 == "wildcard"@ implies r[k].1 == FieldModel::Number(info.wildcard as nat) by {
        assert(k == 0 || k == 1 || k == 2 || k == 3 || k == 4 || k == 5 || k == 6 || k == 7 || k == 8 || k == 9 || k == 10);
    }
    assert forall|k: int| 0 <= k < r.len() && (#[trigger] r[k]).0 == "cidr"@ implies r[k].1 == FieldModel::Number(info.cidr as nat) by {
        assert(k == 0 || k == 1 || k == 2 || k == 3 || k == 4 || k == 5 || k == 6 || k == 7 || k == 8 || k == 9 || k == 10);
    }
    assert forall|k: int| 0 <= k < r.len() && (#[trigger] r[k]).0 == "total_ips"@ implies r[k].1 == FieldModel::Number(info.total_ips as nat) by {
        assert(k == 0 || k == 1 || k == 2 || k == 3 || k == 4 || k == 5 || k == 6 || k == 7 || k == 8 || k == 9 || k == 10);
    }
    assert forall|k: int| 0 <= k < r.len() && (#[trigger] r[k]).0 == "usable_ips"@ implies r[k].1 == FieldModel::Number(info.usable_ips as nat) by {
        assert(k == 0 || k == 1 || k == 2 || k == 3 || k == 4 || k == 5 || k == 6 || k == 7 || k == 8 || k == 9 || k == 10);
    }
    assert forall|k: int| 0 <= k < r.len() && (#[trigger] r[k]).0 == "first_host"@ implies r[k].1 == FieldModel::Number(info.first_host as nat) by {
        assert(k == 0 || k == 1 || k == 2 || k == 3 || k == 4 || k == 5 || k == 6 || k == 7 || k == 8 || k == 9 || k == 10);
    }
    assert forall|k: int| 0 <= k < r.len() && (#[trigger] r[k]).0 == "last_host"@ implies r[k].1 == FieldModel::Number(info.last_host as nat) by {
        assert(k == 0 || k == 1 || k == 2 || k == 3 || k == 4 || k == 5 || k == 6 || k == 7 || k == 8 || k == 9 || k == 10);
    }
    assert forall|k: int| 0 <= k < r.len() && (#[trigger] r[k]).0 == "ip_class"@ implies r[k].1 == FieldModel::Text(class_name(info.ip_class)) by {
        assert(k == 0 || k == 1 || k == 2 || k == 3 || k == 4 || k == 5 || k == 6 || k == 7 || k == 8 || k == 9 || k == 10);
    }
    assert forall|k: int| 0 <= k < r.len() && (#[trigger] r[k]).0 == "is_private"@ implies r[k].1 == FieldModel::Flag(info.is_private) by {
        assert(k == 0 || k == 1 || k == 2 || k == 3 || k == 4 || k == 5 || k == 6 || k == 7 || k == 8 || k == 9 || k == 10);
    }
}

/// Each field of the record of a history entry holds the entry's input or
/// the dotted text (or number, class name or flag) of its analysis's field
/// of the same name.
pub proof fn lemma_history_record_fields(e: HistoryEntryModel)
    ensures
        has_field(history_record(e), "input"@, FieldModel::Text(e.input)),
        has_field(history_record(e), "network"@, FieldModel::Text(dotted(e.result.network))),
        has_field(history_record(e), "broadcast"@, FieldModel::Text(dotted(e.result.broadcast))),
        has_field(history_record(e), "mask"@, FieldModel::Text(dotted(e.result.mask))),
        has_field(history_record(e), "wildcard"@, FieldModel::Text(dotted(e.result.wildcard))),
        has_field(history_record(e), "cidr"@, FieldModel::Text(cidr_text(e.result))),
        has_field(history_record(e), "total_ips"@, FieldModel::Number(e.result.total_ips as nat)),
        has_field(history_record(e), "usable_ips"@, FieldModel::Number(e.result.usable_ips as nat)),
        has_field(history_record(e), "first_host"@, FieldModel::Text(dotted(e.result.first_host))),
        has_field(history_record(e), "last_host"@, FieldModel::Text(dotted(e.result.last_host))),
        has_field(history_record(e), "ip_class"@, FieldModel::Text(class_description(e.result.ip_class))),
        has_field(history_record(e), "is_private"@, FieldModel::Flag(e.result.is_private)),
{
    reveal_strlit("input");
    reveal_strlit("network");
    reveal_strlit("broadcast");
    reveal_strlit("mask");
    reveal_strlit("wildcard");
    reveal_strlit("cidr");
    reveal_strlit("total_ips");
    reveal_strlit("usable_ips");
    reveal_strlit("first_host");
    reveal_strlit("last_host");
    reveal_strlit("ip_class");
    reveal_strlit("is_private");
    assert("broadcast"@[0] != "total_ips"@[0]);
    assert("broadcast"@[0] != "last_host"@[0]);
    assert("cidr"@[0] != "mask"@[0]);
    assert("first_host"@[0] != "usable_ips"@[0]);
    assert("first_host"@[0] != "is_private"@[0]);
    assert("last_host"@[0] != "total_ips"@[0]);
    assert("ip_class"@[0] != "wildcard"@[0]);
    assert("is_private"@[0] != "usable_ips"@[0]);
    let r = history_record(e);
    assert(r[0].0 == "input"@);
    assert(r[1].0 == "network"@);
    assert(r[2].0 == "broadcast"@);
    assert(r[3].0 == "mask"@);
    assert(r[4].0 == "wildcard"@);
    assert(r[5].0 == "cidr"@);
    assert(r[6].0 == "total_ips"@);
    assert(r[7].0 == "usable_ips"@);
    assert(r[8].0 == "first_host"@);
    assert(r[9].0 == "last_host"@);
    assert(r[10].0 == "ip_class"@);
    assert(r[11].0 == "is_private"@);
    assert forall|k: int| 0 <= k < r.len() && (#[trigger] r[k]).0 == "input"@ implies r[k].1 == FieldModel::Text(e.input) by {
        assert(k == 0 || k == 1 || k == 2 || k == 3 || k == 4 || k == 5 || k == 6 || k == 7 || k == 8 || k == 9 || k == 10 || k == 11);
    }
    assert forall|k: int| 0 <= k < r.len() && (#[trigger] r[k]).0 == "network"@ implies r[k].1 == FieldModel::Text(dotted(e.result.network)) by {
        assert(k == 0 || k == 1 || k == 2 || k == 3 || k == 4 || k == 5 || k == 6 || k == 7 || k == 8 || k == 9 || k == 10 || k == 11);
    }
    assert forall|k: int| 0 <= k < r.len() && (#[trigger] r[k]).0 == "broadcast"@ implies r[k].1 == FieldModel::Text(dotted(e.result.broadcast)) by {
        assert(k == 0 || k == 1 || k == 2 || k == 3 || k == 4 || k == 5 || k == 6 || k == 7 || k == 8 || k == 9 || k == 10 || k == 11);
    }
    assert forall|k: int| 0 <= k < r.len() && (#[trigger] r[k]).0 == "mask"@ implies r[k].1 == FieldModel::Text(dotted(e.result.mask)) by {
        assert(k == 0 || k == 1 || k == 2 || k == 3 || k == 4 || k == 5 || k == 6 || k == 7 || k == 8 || k == 9 || k == 10 || k == 11);
    }
    assert forall|k: int| 0 <= k < r.len() && (#[trigger] r[k]).0 == "wildcard"@ implies r[k].1 == FieldModel::Text(dotted(e.result.wildcard)) by {
        assert(k == 0 || k == 1 || k == 2 || k == 3 || k == 4 || k == 5 || k == 6 || k == 7 || k == 8 || k == 9 || k == 10 || k == 11);
    }
    assert forall|k: int| 0 <= k < r.len() && (#[trigger] r[k]).0 == "cidr"@ implies r[k].1 == FieldModel::Text(cidr_text(e.result)) by {
        assert(k == 0 || k == 1 || k == 2 || k == 3 || k == 4 || k == 5 || k == 6 || k == 7 || k == 8 || k == 9 || k == 10 || k == 11);
    }
    assert forall|k: int| 0 <= k < r.len() && (#[trigger] r[k]).0 == "total_ips"@ implies r[k].1 == FieldModel::Number(e.result.total_ips as nat) by {
        assert(k == 0 || k == 1 || k == 2 || k == 3 || k == 4 || k == 5 || k == 6 || k == 7 || k == 8 || k == 9 || k == 10 || k == 11);
    }
    assert forall|k: int| 0 <= k < r.len() && (#[trigger] r[k]).0 == "usable_ips"@ implies r[k].1 == FieldModel::Number(e.result.usable_ips as nat) by {
        assert(k == 0 || k == 1 || k == 2 || k == 3 || k == 4 || k == 5 || k == 6 || k == 7 || k == 8 || k == 9 || k == 10 || k == 11);
    }
    assert forall|k: int| 0 <= k < r.len() && (#[trigger] r[k]).0 == "first_host"@ implies r[k].1 == FieldModel::Text(dotted(e.result.first_host)) by {
        assert(k == 0 || k == 1 || k == 2 || k == 3 || k == 4 || k == 5 || k == 6 || k == 7 || k == 8 || k == 9 || k == 10 || k == 11);
    }
    assert forall|k: int| 0 <= k < r.len() && (#[trigger] r[k]).0 == "last_host"@ implies r[k].1 == FieldModel::Text(dotted(e.result.last_host)) by {
        assert(k == 0 || k == 1 || k == 2 || k == 3 || k == 4 || k == 5 || k == 6 || k == 7 || k == 8 || k == 9 || k == 10 || k == 11);
    }
    assert forall|k: int| 0 <= k < r.len() && (#[trigger] r[k]).0 == "ip_class"@ implies r[k].1 == FieldModel::Text(class_description(e.result.ip_class)) by {
        assert(k == 0 || k == 1 || k == 2 || k == 3 || k == 4 || k == 5 || k == 6 || k == 7 || k == 8 || k == 9 || k == 10 || k == 11);
    }
    assert forall|k: int| 0 <= k < r.len() && (#[trigger] r[k]).0 == "is_private"@ implies r[k].1 == FieldModel::Flag(e.result.is_private) by {
        assert(k == 0 || k == 1 || k == 2 || k == 3 || k == 4 || k == 5 || k == 6 || k == 7 || k == 8 || k == 9 || k == 10 || k == 11);
    }
}

/// Each field of the record of an allocated VLSM subnet holds the entry's
/// field of the same name (the block size under `block_size`).
pub proof fn lemma_vlsm_entry_record_fields(e: EntryModel)
    ensures
        has_field(vlsm_entry_record(e), "name"@, FieldModel::Text(e.name)),
        has_field(vlsm_entry_record(e), "required_hosts"@, FieldModel::Number(e.required_hosts as nat)),
        has_field(vlsm_entry_record(e), "block_size"@, FieldModel::Number(e.allocated_block as nat)),
        has_field(vlsm_entry_record(e), "network"@, FieldModel::Text(dotted(e.network))),
        has_field(vlsm_entry_record(e), "mask"@, FieldModel::Text(dotted(e.mask))),
        has_field(vlsm_entry_record(e), "cidr"@, FieldModel::Text("/"@ + dec(e.cidr as nat))),
        has_field(vlsm_entry_record(e), "first_host"@, FieldModel::Text(dotted(e.first_host))),
        has_field(vlsm_entry_record(e), "last_host"@, FieldModel::Text(dotted(e.last_host))),
        has_field(vlsm_entry_record(e), "broadcast"@, FieldModel::Text(dotted(e.broadcast))),
        has_field(vlsm_entry_record(e), "usable"@, FieldModel::Number(e.usable as nat)),
{
    reveal_strlit("name");
    reveal_strlit("required_hosts");
    reveal_strlit("block_size");
    reveal_strlit("network");
    reveal_strlit("mask");
    reveal_strlit("cidr");
    reveal_strlit("first_host");
    reveal_strlit("last_host");
    reveal_strlit("broadcast");
    reveal_strlit("usable");
    assert("block_size"@[0] != "first_host"@[0]);
    assert("mask"@[0] != "name"@[0]);
    assert("cidr"@[0] != "name"@[0]);
    assert("cidr"@[0] != "mask"@[0]);
    assert("broadcast"@[0] != "last_host"@[0]);
    let r = vlsm_entry_record(e);
    assert(r[0].0 == "name"@);
    assert(r[1].0 == "required_hosts"@);
    assert(r[2].0 == "block_size"@);
    assert(r[3].0 == "network"@);
    assert(r[4].0 == "mask"@);
    assert(r[5].0 == "cidr"@);
    assert(r[6].0 == "first_host"@);
    assert(r[7].0 == "last_host"@);
    assert(r[8].0 == "broadcast"@);
    assert(r[9].0 == "usable"@);
    assert forall|k: int| 0 <= k < r.len() && (#[trigger] r[k]).0 == "name"@ implies r[k].1 == FieldModel::Text(e.name) by {
        assert(k == 0 || k == 1 || k == 2 || k == 3 || k == 4 || k == 5 || k == 6 || k == 7 || k == 8 || k == 9);
    }
    assert forall|k: int| 0 <= k < r.len() && (#[trigger] r[k]).0 == "required_hosts"@ implies r[k].1 == FieldModel::Number(e.required_hosts as nat) by {
        assert(k == 0 || k == 1 || k == 2 || k == 3 || k == 4 || k == 5 || k == 6 || k == 7 || k == 8 || k == 9);
    }
    assert forall|k: int| 0 <= k < r.len() && (#[trigger] r[k]).0 == "block_size"@ implies r[k].1 == FieldModel::Number(e.allocated_block as nat) by {
        assert(k == 0 || k == 1 || k == 2 || k == 3 || k == 4 || k == 5 || k == 6 || k == 7 || k == 8 || k == 9);
    }
    assert forall|k: int| 0 <= k < r.len() && (#[trigger] r[k]).0 == "network"@ implies r[k].1 == FieldModel::Text(dotted(e.network)) by {
        assert(k == 0 || k == 1 || k == 2 || k == 3 || k == 4 || k == 5 || k == 6 || k == 7 || k == 8 || k == 9);
    }
    assert forall|k: int| 0 <= k < r.len() && (#[trigger] r[k]).0 == "mask"@ implies r[k].1 == FieldModel::Text(dotted(e.mask)) by {
        assert(k == 0 || k == 1 || k == 2 || k == 3 || k == 4 || k == 5 || k == 6 || k == 7 || k == 8 || k == 9);
    }
    assert forall|k: int| 0 <= k < r.len() && (#[trigger] r[k]).0 == "cidr"@ implies r[k].1 == FieldModel::Text("/"@ + dec(e.cidr as nat)) by {
        assert(k == 0 || k == 1 || k == 2 || k == 3 || k == 4 || k == 5 || k == 6 || k == 7 || k == 8 || k == 9);
    }
    assert forall|k: int| 0 <= k < r.len() && (#[trigger] r[k]).0 == "first_host"@ implies r[k].1 == FieldModel::Text(dotted(e.first_host)) by {
        assert(k == 0 || k == 1 || k == 2 || k == 3 || k == 4 || k == 5 || k == 6 || k == 7 || k == 8 || k == 9);
    }
    assert forall|k: int| 0 <= k < r.len() && (#[trigger] r[k]).0 == "last_host"@ implies r[k].1 == FieldModel::Text(dotted(e.last_host)) by {
        assert(k == 0 || k == 1 || k == 2 || k == 3 || k == 4 || k == 5 || k == 6 || k == 7 || k == 8 || k == 9);
    }
    assert forall|k: int| 0 <= k < r.len() && (#[trigger] r[k]).0 == "broadcast"@ implies r[k].1 == FieldModel::Text(dotted(e.broadcast)) by {
        assert(k == 0 || k == 1 || k == 2 || k == 3 || k == 4 || k == 5 || k == 6 || k == 7 || k == 8 || k == 9);
    }
    assert forall|k: int| 0 <= k < r.len() && (#[trigger] r[k]).0 == "usable"@ implies r[k].1 == FieldModel::Number(e.usable as nat) by {
        assert(k == 0 || k == 1 || k == 2 || k == 3 || k == 4 || k == 5 || k == 6 || k == 7 || k == 8 || k == 9);
    }
}

/// Each field of the record of a failed requirement holds the failure's
/// field of the same name.
pub proof fn lemma_vlsm_failure_record_fields(f: FailureModel)
    ensures
        has_field(vlsm_failure_record(f), "name"@, FieldModel::Text(f.name)),
        has_field(vlsm_failure_record(f), "required_hosts"@, FieldModel::Number(f.required_hosts as nat)),
        has_field(vlsm_failure_record(f), "reason"@, FieldModel::Text(f.reason)),
{
    reveal_strlit("name");
    reveal_strlit("required_hosts");
    reveal_strlit("reason");
    let r = vlsm_failure_record(f);
    assert(r[0].0 == "name"@);
    assert(r[1].0 == "required_hosts"@);
    assert(r[2].0 == "reason"@);
    assert forall|k: int| 0 <= k < r.len() && (#[trigger] r[k]).0 == "name"@ implies r[k].1 == FieldModel::Text(f.name) by {
        assert(k == 0 || k == 1 || k == 2);
    }
    assert forall|k: int| 0 <= k < r.len() && (#[trigger] r[k]).0 == "required_hosts"@ implies r[k].1 == FieldModel::Number(f.required_hosts as nat) by {
        assert(k == 0 || k == 1 || k == 2);
    }
    assert forall|k: int| 0 <= k < r.len() && (#[trigger] r[k]).0 == "reason"@ implies r[k].1 == FieldModel::Text(f.reason) by {
        assert(k == 0 || k == 1 || k == 2);
    }
}

} // verus!
