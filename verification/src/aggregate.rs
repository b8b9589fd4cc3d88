//! Relations between subnets (containment, overlap) and route aggregation.
use vstd::prelude::*;
use vstd::relations::{sorted_by, total_ordering};

use crate::mask::{cidr_mask, cidr_to_mask};
use crate::subnet::{subnet_from, subnet_of, SubnetInfo};

verus! {

/// `a` contains `b`: `b` is at least as long a prefix and its network lies in `a`.
pub open spec fn contains_model(a: SubnetInfo, b: SubnetInfo) -> bool {
    a.cidr <= b.cidr && (b.network & a.mask) == a.network
}

pub fn contains(a: &SubnetInfo, b: &SubnetInfo) -> (r: bool)
    ensures
        r == contains_model(*a, *b),
        a.well_formed() && b.well_formed() ==> (r <==> forall|x: u32| #[trigger] b.holds(x) ==> a.holds(x)),
{
    proof {
        if a.well_formed() && b.well_formed() {
            lemma_contains_exact(*a, *b);
        }
    }
    a.cidr <= b.cidr && (b.network & a.mask) == a.network
}

/// Whether `ip` lies in `net`.
pub fn ip_in_subnet(ip: u32, net: &SubnetInfo) -> (r: bool)
    ensures
        r == net.holds(ip),
{
    (ip & net.mask) == net.network
}

/// The address ranges `[network, broadcast]` of `a` and `b` meet.
pub open spec fn overlaps_model(a: SubnetInfo, b: SubnetInfo) -> bool {
    let start = if a.network >= b.network {
        a.network
    } else {
        b.network
    };
    let end = if a.broadcast <= b.broadcast {
        a.broadcast
    } else {
        b.broadcast
    };
    start <= end
}

pub fn overlaps(a: &SubnetInfo, b: &SubnetInfo) -> (r: bool)
    ensures
        r == overlaps_model(*a, *b),
{
    let start = if a.network >= b.network {
        a.network
    } else {
        b.network
    };
    let end = if a.broadcast <= b.broadcast {
        a.broadcast
    } else {
        b.broadcast
    };
    start <= end
}

/// The supernet that merges two sibling subnets: same prefix length `c > 0`,
/// different networks that agree on the first `c - 1` bits. It is the subnet
/// of prefix `c - 1` at their common network.
pub open spec fn merge_model(a: SubnetInfo, b: SubnetInfo) -> Option<SubnetInfo> {
    if a.cidr != b.cidr || a.cidr == 0 {
        None
    } else {
        let c = (a.cidr - 1) as u8;
        let m = cidr_mask(c);
        if (a.network & m) != (b.network & m) || a.network == b.network {
            None
        } else {
            Some(subnet_of(a.network & m, c))
        }
    }
}

/// The supernet of two sibling subnets, if they are siblings.
pub fn can_aggregate(a: &SubnetInfo, b: &SubnetInfo) -> (r: Option<SubnetInfo>)
    requires
        a.cidr == b.cidr ==> a.cidr <= 33,
    ensures
        r == merge_model(*a, *b),
{
    if a.cidr != b.cidr {
        return None;
    }
    if a.cidr == 0 {
        return None;
    }
    let new_cidr = a.cidr - 1;
    let new_mask = cidr_to_mask(new_cidr);
    if (a.network & new_mask) != (b.network & new_mask) {
        return None;
    }
    if a.network == b.network {
        return None;
    }
    let new_network = a.network & new_mask;
    Some(subnet_from(new_network, new_cidr))
}

/// Sort order for aggregation: by network, then prefix length, then position.
pub open spec fn agg_leq(nets: Seq<SubnetInfo>, i: usize, j: usize) -> bool {
    let a = nets[i as int];
    let b = nets[j as int];
    ||| a.network < b.network
    ||| a.network == b.network && a.cidr < b.cidr
    ||| a.network == b.network && a.cidr == b.cidr && i <= j
}

pub open spec fn agg_leq_fn(nets: Seq<SubnetInfo>) -> spec_fn(usize, usize) -> bool {
    |i: usize, j: usize| agg_leq(nets, i, j)
}

/// `nets` sorted by network, then prefix length; equal keys keep their order.
pub open spec fn sorted_nets(nets: Seq<SubnetInfo>) -> Seq<SubnetInfo> {
    Seq::new(nets.len(), |i: int| i as usize).sort_by(agg_leq_fn(nets)).map_values(
        |i: usize| nets[i as int],
    )
}

/// One left-to-right pass that merges each pair of neighbouring siblings;
/// also says whether anything merged.
pub open spec fn merge_pass(s: Seq<SubnetInfo>) -> (Seq<SubnetInfo>, bool)
    decreases s.len(),
{
    if s.len() < 2 {
        (s, false)
    } else {
        match merge_model(s[0], s[1]) {
            Some(c) => (seq![c] + merge_pass(s.skip(2)).0, true),
            None => {
                let r = merge_pass(s.drop_first());
                (seq![s[0]] + r.0, r.1)
            },
        }
    }
}

pub proof fn lemma_merge_pass_len(s: Seq<SubnetInfo>)
    ensures
        merge_pass(s).0.len() <= s.len(),
        merge_pass(s).1 ==> merge_pass(s).0.len() < s.len(),
    decreases s.len(),
{
    if s.len() >= 2 {
        lemma_merge_pass_len(s.skip(2));
        lemma_merge_pass_len(s.drop_first());
    }
}

/// Passes repeated until one merges nothing.
pub open spec fn aggregate_fix(s: Seq<SubnetInfo>) -> Seq<SubnetInfo>
    decreases s.len(),
{
    let r = merge_pass(s);
    if r.1 {
        proof {
            lemma_merge_pass_len(s);
        }
        aggregate_fix(r.0)
    } else {
        s
    }
}

/// What `aggregate_many` gives: the subnets sorted, then merged pass by pass.
pub open spec fn aggregate_model(nets: Seq<SubnetInfo>) -> Seq<SubnetInfo> {
    aggregate_fix(sorted_nets(nets))
}

/// A pass over `s` never asks whether two subnets of the same prefix length
/// above 33 merge (no supernet mask exists for them).
pub open spec fn pass_safe(s: Seq<SubnetInfo>) -> bool
    decreases s.len(),
{
    if s.len() < 2 {
        true
    } else {
        &&& (s[0].cidr == s[1].cidr ==> s[0].cidr <= 33)
        &&& match merge_model(s[0], s[1]) {
            Some(_) => pass_safe(s.skip(2)),
            None => pass_safe(s.drop_first()),
        }
    }
}

/// No pass of the aggregation of `s` asks about such a pair.
pub open spec fn fix_safe(s: Seq<SubnetInfo>) -> bool
    decreases s.len(),
{
    if !pass_safe(s) {
        false
    } else if merge_pass(s).1 {
        proof {
            lemma_merge_pass_len(s);
        }
        fix_safe(merge_pass(s).0)
    } else {
        true
    }
}

proof fn lemma_bounded_pass_safe(s: Seq<SubnetInfo>)
    requires
        forall|i: int| 0 <= i < s.len() ==> (#[trigger] s[i]).cidr <= 33,
    ensures
        pass_safe(s),
    decreases s.len(),
{
    if s.len() >= 2 {
        let t = s.skip(2);
        let u = s.drop_first();
        assert forall|i: int| 0 <= i < t.len() implies (#[trigger] t[i]).cidr <= 33 by {
            assert(t[i] == s[i + 2]);
        }
        assert forall|i: int| 0 <= i < u.len() implies (#[trigger] u[i]).cidr <= 33 by {
            assert(u[i] == s[i + 1]);
        }
        lemma_bounded_pass_safe(t);
        lemma_bounded_pass_safe(u);
        assert(s[0].cidr <= 33);
    }
}

proof fn lemma_bounded_fix_safe(s: Seq<SubnetInfo>)
    requires
        forall|i: int| 0 <= i < s.len() ==> (#[trigger] s[i]).cidr <= 33,
    ensures
        fix_safe(s),
    decreases s.len(),
{
    lemma_bounded_pass_safe(s);
    if merge_pass(s).1 {
        lemma_merge_pass_len(s);
        lemma_merge_pass_cidr(s);
        lemma_bounded_fix_safe(merge_pass(s).0);
    }
}

/// Subnets whose prefix lengths are at most 33 (every analysed subnet's
/// are) can always be aggregated.
pub proof fn lemma_aggregate_safe(nets: Seq<SubnetInfo>)
    requires
        nets.len() <= usize::MAX,
        forall|i: int| 0 <= i < nets.len() ==> (#[trigger] nets[i]).cidr <= 33,
    ensures
        fix_safe(sorted_nets(nets)),
{
    let ids = Seq::new(nets.len(), |i: int| i as usize);
    lemma_agg_leq_total(nets);
    ids.lemma_sort_by_ensures(agg_leq_fn(nets));
    ids.to_multiset_ensures();
    let o = ids.sort_by(agg_leq_fn(nets));
    o.to_multiset_ensures();
    let s = sorted_nets(nets);
    assert forall|i: int| 0 <= i < s.len() implies (#[trigger] s[i]).cidr <= 33 by {
        assert(o.contains(o[i]));
        assert(ids.contains(o[i]));
    }
    lemma_bounded_fix_safe(s);
}


pub proof fn lemma_agg_leq_total(nets: Seq<SubnetInfo>)
    ensures
        total_ordering(agg_leq_fn(nets)),
{
}

proof fn lemma_insert_sorted<A>(s: Seq<A>, pos: int, x: A, leq: spec_fn(A, A) -> bool)
    requires
        0 <= pos <= s.len(),
        total_ordering(leq),
        sorted_by(s, leq),
        forall|j: int| 0 <= j < pos ==> #[trigger] leq(s[j], x),
        forall|j: int| pos <= j < s.len() ==> #[trigger] leq(x, s[j]),
    ensures
        sorted_by(s.insert(pos, x), leq),
        s.insert(pos, x).to_multiset() == s.to_multiset().insert(x),
{
    broadcast use vstd::multiset::group_multiset_axioms;

    let t = s.insert(pos, x);
    s.insert_ensures(pos, x);
    assert forall|i: int, j: int| 0 <= i < j < t.len() implies #[trigger] leq(t[i], t[j]) by {
        if i < pos && j < pos {
            assert(leq(s[i], s[j]));
        } else if i > pos && j > pos {
            assert(t[i] == s[i - 1]);
            assert(t[j] == s[j - 1]);
            assert(leq(s[i - 1], s[j - 1]));
        } else if i == pos {
            assert(t[j] == s[j - 1]);
        } else if j == pos {
            assert(t[i] == s[i]);
        } else {
            assert(t[i] == s[i]);
            assert(t[j] == s[j - 1]);
            assert(leq(s[i], x));
            assert(leq(x, s[j - 1]));
        }
    }
    t.to_multiset_ensures();
    assert(t.remove(pos) =~= s);
    assert(t[pos] == x);
    assert(t.to_multiset().count(x) > 0);
    assert(t.to_multiset() =~= s.to_multiset().insert(x));
}

/// The positions of `nets` in aggregation order.
fn sort_positions(nets: &Vec<SubnetInfo>) -> (out: Vec<usize>)
    ensures
        out@ == Seq::new(nets@.len(), |i: int| i as usize).sort_by(agg_leq_fn(nets@)),
{
    let ghost ids = Seq::new(nets@.len(), |i: int| i as usize);
    let ghost leq = agg_leq_fn(nets@);
    proof {
        lemma_agg_leq_total(nets@);
    }
    let n = nets.len();
    let mut out: Vec<usize> = Vec::new();
    let mut k: usize = 0;
    assert(ids.take(0) =~= out@);
    while k < n
        invariant
            k <= n == nets@.len(),
            ids == Seq::new(nets@.len(), |i: int| i as usize),
            leq == agg_leq_fn(nets@),
            total_ordering(leq),
            sorted_by(out@, leq),
            out@.to_multiset() == ids.take(k as int).to_multiset(),
            forall|j: int| 0 <= j < out@.len() ==> (#[trigger] out@[j]) < k,
        decreases n - k,
    {
        let x = &nets[k];
        let mut pos: usize = 0;
        while pos < out.len() && (nets[out[pos]].network < x.network || (nets[out[pos]].network
            == x.network && nets[out[pos]].cidr <= x.cidr))
            invariant
                pos <= out@.len(),
                k < n == nets@.len(),
                *x == nets@[k as int],
                forall|j: int| 0 <= j < out@.len() ==> (#[trigger] out@[j]) < k,
                forall|j: int| 0 <= j < pos ==> #[trigger] leq(out@[j], k),
                leq == agg_leq_fn(nets@),
            decreases out@.len() - pos,
        {
            pos += 1;
        }
        proof {
            if pos < out@.len() {
                assert(leq(k, out@[pos as int]));
                assert forall|j: int| pos <= j < out@.len() implies #[trigger] leq(k, out@[j]) by {
                    if j > pos {
                        assert(leq(out@[pos as int], out@[j]));
                    }
                }
            }
            lemma_insert_sorted(out@, pos as int, k, leq);
            ids.take(k as int).to_multiset_ensures();
            assert(ids.take(k + 1) =~= ids.take(k as int).push(k));
        }
        let ghost before = out@;
        out.insert(pos, k);
        proof {
            before.insert_ensures(pos as int, k);
            assert forall|j: int| 0 <= j < out@.len() implies (#[trigger] out@[j]) < k + 1 by {
                if j < pos {
                    assert(out@[j] == before[j]);
                } else if j > pos {
                    assert(out@[j] == before[j - 1]);
                }
            }
        }
        k += 1;
    }
    proof {
        assert(ids.take(n as int) =~= ids);
        ids.lemma_sort_by_ensures(leq);
        vstd::seq_lib::lemma_sorted_unique(out@, ids.sort_by(leq), leq);
    }
    out
}

/// `nets` sorted by network, then prefix length (stably).
fn sort_nets(nets: &Vec<SubnetInfo>) -> (out: Vec<SubnetInfo>)
    ensures
        out@ == sorted_nets(nets@),
{
    let order = sort_positions(nets);
    let ghost ids = Seq::new(nets@.len(), |i: int| i as usize);
    proof {
        lemma_agg_leq_total(nets@);
        ids.lemma_sort_by_ensures(agg_leq_fn(nets@));
        ids.to_multiset_ensures();
        order@.to_multiset_ensures();
        assert forall|j: int| 0 <= j < order@.len() implies (#[trigger] order@[j]) < nets@.len() by {
            assert(order@.contains(order@[j]));
            assert(ids.contains(order@[j]));
        }
    }
    let mut out: Vec<SubnetInfo> = Vec::new();
    let mut j: usize = 0;
    while j < order.len()
        invariant
            j <= order@.len() == nets@.len(),
            forall|q: int| 0 <= q < order@.len() ==> (#[trigger] order@[q]) < nets@.len(),
            out@ == order@.take(j as int).map_values(|i: usize| nets@[i as int]),
        decreases order@.len() - j,
    {
        out.push(nets[order[j]]);
        assert(order@.take(j + 1).map_values(|i: usize| nets@[i as int]) =~= order@.take(
            j as int,
        ).map_values(|i: usize| nets@[i as int]).push(nets@[order@[j as int] as int]));
        j += 1;
    }
    assert(order@.take(order@.len() as int) =~= order@);
    out
}

/// One merging pass over `s`.
fn merge_pass_exec(s: &Vec<SubnetInfo>) -> (r: (Vec<SubnetInfo>, bool))
    requires
        pass_safe(s@),
    ensures
        r.0@ == merge_pass(s@).0,
        r.1 == merge_pass(s@).1,
{
    let n = s.len();
    let mut next: Vec<SubnetInfo> = Vec::new();
    let mut merged = false;
    let mut i: usize = 0;
    assert(s@.skip(0) =~= s@);
    while i < n
        invariant
            i <= n == s@.len(),
            pass_safe(s@.skip(i as int)),
            next@ + merge_pass(s@.skip(i as int)).0 == merge_pass(s@).0,
            (merged || merge_pass(s@.skip(i as int)).1) == merge_pass(s@).1,
        decreases n - i,
    {
        let ghost rest = s@.skip(i as int);
        if i + 1 < n {
            assert(rest[0] == s@[i as int] && rest[1] == s@[i + 1]);
            if let Some(agg) = can_aggregate(&s[i], &s[i + 1]) {
                proof {
                    assert(rest.skip(2) =~= s@.skip(i + 2));
                    assert(next@.push(agg) + merge_pass(s@.skip(i + 2)).0 =~= next@ + (seq![agg] + merge_pass(rest.skip(2)).0));
                }
                next.push(agg);
                merged = true;
                i += 2;
                continue;
            }
            proof {
                assert(rest[0] == s@[i as int] && rest[1] == s@[i + 1]);
                assert(rest.drop_first() =~= s@.skip(i + 1));
                assert(next@.push(s@[i as int]) + merge_pass(s@.skip(i + 1)).0 =~= next@ + (seq![rest[0]] + merge_pass(rest.drop_first()).0));
            }
        } else {
            proof {
                assert(rest =~= seq![s@[i as int]]);
                assert(s@.skip(i + 1) =~= Seq::<SubnetInfo>::empty());
                assert(next@.push(s@[i as int]) + merge_pass(s@.skip(i + 1)).0 =~= next@ + rest);
            }
        }
        next.push(s[i]);
        i += 1;
    }
    assert(s@.skip(n as int) =~= Seq::<SubnetInfo>::empty());
    assert(next@ + Seq::<SubnetInfo>::empty() =~= next@);
    (next, merged)
}

proof fn lemma_merge_pass_cidr(s: Seq<SubnetInfo>)
    requires
        forall|i: int| 0 <= i < s.len() ==> (#[trigger] s[i]).cidr <= 33,
    ensures
        forall|i: int| 0 <= i < merge_pass(s).0.len() ==> (#[trigger] merge_pass(s).0[i]).cidr <= 33,
    decreases s.len(),
{
    if s.len() >= 2 {
        let t = s.skip(2);
        let u = s.drop_first();
        assert forall|i: int| 0 <= i < t.len() implies (#[trigger] t[i]).cidr <= 33 by {
            assert(t[i] == s[i + 2]);
        }
        assert forall|i: int| 0 <= i < u.len() implies (#[trigger] u[i]).cidr <= 33 by {
            assert(u[i] == s[i + 1]);
        }
        lemma_merge_pass_cidr(t);
        lemma_merge_pass_cidr(u);
        let r = merge_pass(s).0;
        match merge_model(s[0], s[1]) {
            Some(c) => {
                assert forall|i: int| 0 <= i < r.len() implies (#[trigger] r[i]).cidr <= 33 by {
                    if i > 0 {
                        assert(r[i] == merge_pass(t).0[i - 1]);
                    }
                }
            },
            None => {
                assert forall|i: int| 0 <= i < r.len() implies (#[trigger] r[i]).cidr <= 33 by {
                    if i > 0 {
                        assert(r[i] == merge_pass(u).0[i - 1]);
                    }
                }
            },
        }
    }
}

/// Route aggregation: sorts the subnets by network and prefix length, then
/// merges neighbouring sibling subnets into their supernet, pass after pass,
/// until a pass merges nothing.
pub fn aggregate_many(nets: Vec<SubnetInfo>) -> (result: Vec<SubnetInfo>)
    requires
        fix_safe(sorted_nets(nets@)),
    ensures
        result@ == aggregate_model(nets@),
        all_well_formed(nets@) ==> networks_sorted(result@) && no_mergeable_neighbours(result@),
{
    proof {
        if all_well_formed(nets@) {
            assert(nets@.len() == nets.len());
            lemma_aggregate_settled(nets@);
        }
    }
    let mut result = sort_nets(&nets);
    loop
        invariant
            aggregate_fix(result@) == aggregate_model(nets@),
            fix_safe(result@),
            all_well_formed(nets@) ==> networks_sorted(aggregate_model(nets@))
                && no_mergeable_neighbours(aggregate_model(nets@)),
        decreases result@.len(),
    {
        let (next, merged) = merge_pass_exec(&result);
        if !merged {
            return result;
        }
        proof {
            lemma_merge_pass_len(result@);
        }
        result = next;
    }
}


// ---------------------------------------------------------------------------
// Laws
// ---------------------------------------------------------------------------

/// An address lies in a well-formed subnet exactly when it lies between the
/// network and the broadcast address.
pub proof fn lemma_holds_range(info: SubnetInfo, x: u32)
    requires
        info.well_formed(),
    ensures
        info.holds(x) <==> info.network <= x <= info.broadcast,
{
    crate::subnet::lemma_well_formed_bounds(info);
    let c = info.cidr;
    let n = info.network;
    let m = info.mask;
    let b = info.broadcast;
    assert(c <= 32 && m == cidr_mask(c) && n & m == n && b == n | !m ==> ((x & m == n) <==> (n
        <= x && x <= b))) by (bit_vector);
}

/// Every subnet contains itself.
pub proof fn lemma_contains_reflexive(a: SubnetInfo)
    requires
        a.well_formed(),
    ensures
        contains_model(a, a),
{
    crate::subnet::lemma_well_formed_bounds(a);
}

/// A larger prefix length gives a smaller block.
proof fn lemma_block_size_decreasing(ca: u8, cb: u8)
    requires
        ca <= 32,
        cb <= 32,
        ca > cb,
    ensures
        crate::subnet::block_size(ca) < crate::subnet::block_size(cb),
{
    assert(ca <= 32 && cb <= 32 && ca > cb ==> crate::subnet::block_size(ca)
        < crate::subnet::block_size(cb)) by (bit_vector);
}

/// Containment is complete: a well-formed subnet that holds every address
/// of another contains it.
pub proof fn lemma_contains_complete(a: SubnetInfo, b: SubnetInfo)
    requires
        a.well_formed(),
        b.well_formed(),
        forall|x: u32| #[trigger] b.holds(x) ==> a.holds(x),
    ensures
        contains_model(a, b),
{
    crate::subnet::lemma_well_formed_bounds(a);
    crate::subnet::lemma_well_formed_bounds(b);
    lemma_holds_range(b, b.network);
    lemma_holds_range(b, b.broadcast);
    assert(b.holds(b.network));
    assert(b.holds(b.broadcast));
    lemma_holds_range(a, b.network);
    lemma_holds_range(a, b.broadcast);
    if a.cidr > b.cidr {
        lemma_block_size_decreasing(a.cidr, b.cidr);
    }
}

/// Two aligned blocks of the same prefix length at different networks do
/// not meet: the lower one ends before the higher one starts.
proof fn lemma_same_length_apart(a: SubnetInfo, b: SubnetInfo)
    requires
        a.well_formed(),
        b.well_formed(),
        a.cidr == b.cidr,
        a.network < b.network,
    ensures
        a.broadcast < b.network,
{
    crate::subnet::lemma_well_formed_bounds(a);
    crate::subnet::lemma_well_formed_bounds(b);
    let c = a.cidr;
    let m = a.mask;
    let x = a.network;
    let y = b.network;
    assert(c <= 32 && m == cidr_mask(c) && x & m == x && y & m == y && x < y ==> (x | !m) < y)
        by (bit_vector);
}

/// The merge of two sibling blocks is complete: whenever the addresses of
/// two subnets of the same prefix length at different networks are exactly
/// those of one subnet, the two merge, and into that very block.
pub proof fn lemma_merge_complete(a: SubnetInfo, b: SubnetInfo, m: SubnetInfo)
    requires
        a.well_formed(),
        b.well_formed(),
        m.well_formed(),
        a.cidr == b.cidr,
        a.network != b.network,
        forall|x: u32| #[trigger] m.holds(x) <==> a.holds(x) || b.holds(x),
    ensures
        merge_model(a, b) matches Some(r) && crate::subnet::same_block(r, m),
{
    lemma_merge_symmetric(a, b);
    if a.network < b.network {
        lemma_merge_complete_ordered(a, b, m);
    } else {
        assert forall|x: u32| #[trigger] m.holds(x) <==> b.holds(x) || a.holds(x) by {}
        lemma_merge_complete_ordered(b, a, m);
    }
}

proof fn lemma_merge_complete_ordered(a: SubnetInfo, b: SubnetInfo, m: SubnetInfo)
    requires
        a.well_formed(),
        b.well_formed(),
        m.well_formed(),
        a.cidr == b.cidr,
        a.network < b.network,
        forall|x: u32| #[trigger] m.holds(x) <==> a.holds(x) || b.holds(x),
    ensures
        merge_model(a, b) matches Some(r) && crate::subnet::same_block(r, m),
{
    crate::subnet::lemma_well_formed_bounds(a);
    crate::subnet::lemma_well_formed_bounds(b);
    crate::subnet::lemma_well_formed_bounds(m);
    lemma_same_length_apart(a, b);
    // the union starts at a's network and ends at b's broadcast
    lemma_holds_range(a, a.network);
    lemma_holds_range(b, b.broadcast);
    assert(m.holds(a.network));
    assert(m.holds(b.broadcast));
    lemma_holds_range(m, a.network);
    lemma_holds_range(m, b.broadcast);
    lemma_holds_range(m, m.network);
    lemma_holds_range(m, m.broadcast);
    assert(m.holds(m.network));
    assert(m.holds(m.broadcast));
    lemma_holds_range(a, m.network);
    lemma_holds_range(b, m.network);
    lemma_holds_range(a, m.broadcast);
    lemma_holds_range(b, m.broadcast);
    assert(m.network == a.network);
    assert(m.broadcast == b.broadcast);
    // no gap between the two blocks
    let g = (a.broadcast + 1) as u32;
    lemma_holds_range(m, g);
    assert(m.holds(g));
    lemma_holds_range(a, g);
    lemma_holds_range(b, g);
    assert(b.network == a.broadcast + 1);
    // so the union is twice as large, one prefix bit shorter
    let c = a.cidr;
    let cm = m.cidr;
    assert(m.total_ips == 2 * a.total_ips);
    assert(m.total_ips == crate::subnet::block_size(cm));
    assert(a.total_ips == crate::subnet::block_size(c));
    assert(cm <= 32 && c <= 32 && (crate::subnet::block_size(cm) as int) == 2 * (
    crate::subnet::block_size(c) as int) ==> c >= 1 && cm + 1 == c) by (bit_vector);
    // both networks fall in the union's block
    lemma_holds_range(m, b.network);
    assert(m.holds(b.network));
    assert(a.network & m.mask == m.network);
    assert(b.network & m.mask == m.network);
    assert(m.mask == cidr_mask((c - 1) as u8));
    let r = subnet_of(m.network, m.cidr);
    assert(merge_model(a, b) == Some(r));
    assert(m.network & cidr_mask(m.cidr) == m.network);
}

/// `a` contains `b` exactly when every address of `b` lies in `a`.
pub proof fn lemma_contains_exact(a: SubnetInfo, b: SubnetInfo)
    requires
        a.well_formed(),
        b.well_formed(),
    ensures
        contains_model(a, b) <==> forall|x: u32| #[trigger] b.holds(x) ==> a.holds(x),
{
    if contains_model(a, b) {
        assert forall|x: u32| #[trigger] b.holds(x) implies a.holds(x) by {
            lemma_contains_subset(a, b, x);
        }
    }
    if forall|x: u32| #[trigger] b.holds(x) ==> a.holds(x) {
        lemma_contains_complete(a, b);
    }
}

/// Every address of a contained subnet lies in the containing one.
pub proof fn lemma_contains_subset(a: SubnetInfo, b: SubnetInfo, x: u32)
    requires
        a.well_formed(),
        b.well_formed(),
        contains_model(a, b),
        b.holds(x),
    ensures
        a.holds(x),
{
    crate::subnet::lemma_well_formed_bounds(a);
    crate::subnet::lemma_well_formed_bounds(b);
    let ca = a.cidr;
    let cb = b.cidr;
    let ma = a.mask;
    let mb = b.mask;
    assert(ca <= cb && cb <= 32 && ma == cidr_mask(ca) && mb == cidr_mask(cb) ==> ma & mb == ma)
        by (bit_vector);
    let na = a.network;
    let nb = b.network;
    assert(ma & mb == ma && x & mb == nb && nb & ma == na ==> x & ma == na) by (bit_vector);
}

/// Two subnets that contain each other have the same network and prefix.
pub proof fn lemma_contains_antisymmetric(a: SubnetInfo, b: SubnetInfo)
    requires
        a.well_formed(),
        b.well_formed(),
        contains_model(a, b),
        contains_model(b, a),
    ensures
        a.network == b.network,
        a.cidr == b.cidr,
        a.broadcast == b.broadcast,
{
    crate::subnet::lemma_well_formed_bounds(a);
    crate::subnet::lemma_well_formed_bounds(b);
    let na = a.network;
    let nb = b.network;
    let ma = a.mask;
    let mb = b.mask;
    assert(nb & ma == na && na & mb == nb && ma == mb && nb & mb == nb ==> na == nb) by (bit_vector);
}

/// Overlap does not depend on the order of its arguments.
pub proof fn lemma_overlaps_symmetric(a: SubnetInfo, b: SubnetInfo)
    ensures
        overlaps_model(a, b) == overlaps_model(b, a),
{
}

/// Two well-formed subnets overlap exactly when some address lies in both.
pub proof fn lemma_overlaps_shared(a: SubnetInfo, b: SubnetInfo)
    requires
        a.well_formed(),
        b.well_formed(),
    ensures
        overlaps_model(a, b) <==> exists|x: u32| a.holds(x) && b.holds(x),
{
    crate::subnet::lemma_well_formed_bounds(a);
    crate::subnet::lemma_well_formed_bounds(b);
    if overlaps_model(a, b) {
        let x = if a.network >= b.network {
            a.network
        } else {
            b.network
        };
        lemma_holds_range(a, x);
        lemma_holds_range(b, x);
    }
    if exists|x: u32| a.holds(x) && b.holds(x) {
        let x = choose|x: u32| a.holds(x) && b.holds(x);
        lemma_holds_range(a, x);
        lemma_holds_range(b, x);
    }
}

/// A subnet overlaps every subnet it contains.
pub proof fn lemma_contains_overlaps(a: SubnetInfo, b: SubnetInfo)
    requires
        a.well_formed(),
        b.well_formed(),
        contains_model(a, b),
    ensures
        overlaps_model(a, b),
{
    crate::subnet::lemma_well_formed_bounds(b);
    lemma_holds_range(b, b.network);
    lemma_contains_subset(a, b, b.network);
    lemma_overlaps_shared(a, b);
}

/// Merging two siblings does not depend on their order.
pub proof fn lemma_merge_symmetric(a: SubnetInfo, b: SubnetInfo)
    ensures
        merge_model(a, b) == merge_model(b, a),
{
}

/// The merged supernet is well formed, contains both siblings, and holds
/// exactly the addresses of the two.
pub proof fn lemma_merge_union(a: SubnetInfo, b: SubnetInfo)
    requires
        a.well_formed(),
        b.well_formed(),
        merge_model(a, b) is Some,
    ensures
        ({
            let m = merge_model(a, b)->Some_0;
            &&& m.well_formed()
            &&& contains_model(m, a)
            &&& contains_model(m, b)
            &&& forall|x: u32| m.holds(x) <==> a.holds(x) || b.holds(x)
        }),
{
    crate::subnet::lemma_well_formed_bounds(a);
    crate::subnet::lemma_well_formed_bounds(b);
    let c = a.cidr;
    let c1 = (c - 1) as u8;
    let m1 = cidr_mask(c1);
    let n = a.network & m1;
    crate::subnet::lemma_subnet_well_formed(n, c1);
    let s = subnet_of(n, c1);
    assert(s.network == n & m1);
    assert(1 <= c && c <= 32 && m1 == cidr_mask((c - 1) as u8) ==> (n & m1) & m1 == n & m1)
        by (bit_vector);
    let ma = a.mask;
    let na = a.network;
    let nb = b.network;
    assert(1 <= c && c <= 32 && ma == cidr_mask(c) && m1 == cidr_mask((c - 1) as u8) && na & ma
        == na && nb & ma == nb && na & m1 == nb & m1 && na != nb ==> forall|x: u32|
        #![auto]
        ((x & m1 == na & m1) <==> (x & ma == na || x & ma == nb))) by (bit_vector);
    assert(s.mask == m1);
    assert(s.network == na & m1) by {
        assert((na & m1) & m1 == na & m1) by (bit_vector);
    }
}


/// Some subnet of `s` holds `x`.
pub open spec fn covers(s: Seq<SubnetInfo>, x: u32) -> bool {
    exists|i: int| 0 <= i < s.len() && (#[trigger] s[i]).holds(x)
}

pub open spec fn all_well_formed(s: Seq<SubnetInfo>) -> bool {
    forall|i: int| 0 <= i < s.len() ==> (#[trigger] s[i]).well_formed()
}

proof fn lemma_covers_cons(h: SubnetInfo, s: Seq<SubnetInfo>, x: u32)
    ensures
        covers(seq![h] + s, x) == (h.holds(x) || covers(s, x)),
{
    let t = seq![h] + s;
    if covers(s, x) {
        let i = choose|i: int| 0 <= i < s.len() && (#[trigger] s[i]).holds(x);
        assert(t[i + 1] == s[i]);
    }
    if covers(t, x) {
        let i = choose|i: int| 0 <= i < t.len() && (#[trigger] t[i]).holds(x);
        if i > 0 {
            assert(t[i] == s[i - 1]);
        }
    }
    assert(t[0] == h);
}

proof fn lemma_all_wf_cons(h: SubnetInfo, s: Seq<SubnetInfo>)
    ensures
        all_well_formed(seq![h] + s) == (h.well_formed() && all_well_formed(s)),
{
    let t = seq![h] + s;
    if all_well_formed(t) {
        assert(t[0] == h);
        assert forall|i: int| 0 <= i < s.len() implies (#[trigger] s[i]).well_formed() by {
            assert(t[i + 1] == s[i]);
        }
    }
    if h.well_formed() && all_well_formed(s) {
        assert forall|i: int| 0 <= i < t.len() implies (#[trigger] t[i]).well_formed() by {
            if i > 0 {
                assert(t[i] == s[i - 1]);
            }
        }
    }
}

/// A merging pass keeps subnets well formed and covers the same addresses.
pub proof fn lemma_merge_pass_coverage(s: Seq<SubnetInfo>)
    requires
        all_well_formed(s),
    ensures
        all_well_formed(merge_pass(s).0),
        forall|x: u32| covers(merge_pass(s).0, x) == covers(s, x),
    decreases s.len(),
{
    if s.len() >= 2 {
        assert(s =~= seq![s[0]] + s.drop_first());
        assert(s.drop_first() =~= seq![s[1]] + s.skip(2));
        lemma_all_wf_cons(s[0], s.drop_first());
        lemma_all_wf_cons(s[1], s.skip(2));
        match merge_model(s[0], s[1]) {
            Some(c) => {
                lemma_merge_pass_coverage(s.skip(2));
                lemma_merge_union(s[0], s[1]);
                lemma_all_wf_cons(c, merge_pass(s.skip(2)).0);
                assert forall|x: u32| covers(merge_pass(s).0, x) == covers(s, x) by {
                    lemma_covers_cons(c, merge_pass(s.skip(2)).0, x);
                    lemma_covers_cons(s[0], s.drop_first(), x);
                    lemma_covers_cons(s[1], s.skip(2), x);
                }
            },
            None => {
                lemma_merge_pass_coverage(s.drop_first());
                lemma_all_wf_cons(s[0], merge_pass(s.drop_first()).0);
                assert forall|x: u32| covers(merge_pass(s).0, x) == covers(s, x) by {
                    lemma_covers_cons(s[0], merge_pass(s.drop_first()).0, x);
                    lemma_covers_cons(s[0], s.drop_first(), x);
                }
            },
        }
    }
}

proof fn lemma_fix_coverage(s: Seq<SubnetInfo>)
    requires
        all_well_formed(s),
    ensures
        all_well_formed(aggregate_fix(s)),
        forall|x: u32| covers(aggregate_fix(s), x) == covers(s, x),
    decreases s.len(),
{
    let r = merge_pass(s);
    if r.1 {
        lemma_merge_pass_len(s);
        lemma_merge_pass_coverage(s);
        lemma_fix_coverage(r.0);
    }
}

/// Sorting neither adds nor loses subnets.
proof fn lemma_sorted_nets_coverage(nets: Seq<SubnetInfo>)
    requires
        all_well_formed(nets),
        nets.len() <= usize::MAX,
    ensures
        all_well_formed(sorted_nets(nets)),
        forall|x: u32| covers(sorted_nets(nets), x) == covers(nets, x),
{
    let ids = Seq::new(nets.len(), |i: int| i as usize);
    lemma_agg_leq_total(nets);
    ids.lemma_sort_by_ensures(agg_leq_fn(nets));
    ids.to_multiset_ensures();
    let o = ids.sort_by(agg_leq_fn(nets));
    o.to_multiset_ensures();
    let s = sorted_nets(nets);
    assert forall|j: int| 0 <= j < o.len() implies (#[trigger] o[j]) < nets.len() by {
        assert(o.contains(o[j]));
        assert(ids.contains(o[j]));
    }
    assert forall|j: int| 0 <= j < s.len() implies (#[trigger] s[j]).well_formed() by {
        assert(o[j] < nets.len());
    }
    assert forall|x: u32| covers(s, x) == covers(nets, x) by {
        if covers(s, x) {
            let j = choose|j: int| 0 <= j < s.len() && (#[trigger] s[j]).holds(x);
            assert(o[j] < nets.len());
            assert(nets[o[j] as int].holds(x));
        }
        if covers(nets, x) {
            let i = choose|i: int| 0 <= i < nets.len() && (#[trigger] nets[i]).holds(x);
            assert(ids[i] == i as usize);
            assert(ids.contains(i as usize));
            assert(ids.to_multiset().count(i as usize) > 0);
            assert(o.to_multiset().count(i as usize) > 0);
            assert(o.contains(i as usize));
            let j = choose|j: int| 0 <= j < o.len() && o[j] == i as usize;
            assert(s[j] == nets[i]);
        }
    }
}

/// Aggregation keeps subnets well formed and covers exactly the addresses
/// that the given subnets cover.
pub proof fn lemma_aggregate_coverage(nets: Seq<SubnetInfo>)
    requires
        all_well_formed(nets),
        nets.len() <= usize::MAX,
    ensures
        all_well_formed(aggregate_model(nets)),
        forall|x: u32| covers(aggregate_model(nets), x) == covers(nets, x),
{
    lemma_sorted_nets_coverage(nets);
    lemma_fix_coverage(sorted_nets(nets));
}

/// The networks of `s` never decrease.
pub open spec fn networks_sorted(s: Seq<SubnetInfo>) -> bool {
    forall|i: int, j: int| 0 <= i < j < s.len() ==> (#[trigger] s[i]).network <= (#[trigger] s[j]).network
}

/// No two neighbours of `s` merge into a supernet.
pub open spec fn no_mergeable_neighbours(s: Seq<SubnetInfo>) -> bool {
    forall|i: int| 0 <= i < s.len() - 1 ==> merge_model(#[trigger] s[i], s[i + 1]) is None
}

/// Two siblings merge into the supernet at the network of the lower one.
proof fn lemma_merge_network(a: SubnetInfo, b: SubnetInfo)
    requires
        a.well_formed(),
        b.well_formed(),
        a.network <= b.network,
        merge_model(a, b) is Some,
    ensures
        merge_model(a, b)->Some_0.network == a.network,
{
    lemma_merge_union(a, b);
    let m = merge_model(a, b)->Some_0;
    lemma_holds_range(a, a.network);
    lemma_holds_range(m, a.network);
    lemma_holds_range(m, m.network);
    crate::subnet::lemma_well_formed_bounds(m);
    lemma_holds_range(a, m.network);
    lemma_holds_range(b, m.network);
}

proof fn lemma_merge_pass_sorted(s: Seq<SubnetInfo>)
    requires
        all_well_formed(s),
        networks_sorted(s),
    ensures
        networks_sorted(merge_pass(s).0),
        s.len() > 0 ==> merge_pass(s).0.len() > 0 && merge_pass(s).0[0].network == s[0].network,
    decreases s.len(),
{
    if s.len() >= 2 {
        let t = s.skip(2);
        let u = s.drop_first();
        assert forall|i: int| 0 <= i < t.len() implies (#[trigger] t[i]).well_formed() by {
            assert(t[i] == s[i + 2]);
        }
        assert forall|i: int, j: int| 0 <= i < j < t.len() implies (#[trigger] t[i]).network <= (
        #[trigger] t[j]).network by {
            assert(t[i] == s[i + 2] && t[j] == s[j + 2]);
        }
        assert forall|i: int| 0 <= i < u.len() implies (#[trigger] u[i]).well_formed() by {
            assert(u[i] == s[i + 1]);
        }
        assert forall|i: int, j: int| 0 <= i < j < u.len() implies (#[trigger] u[i]).network <= (
        #[trigger] u[j]).network by {
            assert(u[i] == s[i + 1] && u[j] == s[j + 1]);
        }
        assert(s[0].well_formed() && s[1].well_formed());
        assert(s[0].network <= s[1].network);
        match merge_model(s[0], s[1]) {
            Some(c) => {
                lemma_merge_pass_sorted(t);
                lemma_merge_network(s[0], s[1]);
                let r = merge_pass(t).0;
                let out = merge_pass(s).0;
                assert(out == seq![c] + r);
                if r.len() > 0 {
                    assert(s[0].network <= s[2].network);
                }
                assert forall|i: int, j: int| 0 <= i < j < out.len() implies (#[trigger] out[i]).network
                    <= (#[trigger] out[j]).network by {
                    assert(out[j] == r[j - 1]);
                    if i == 0 {
                        assert(r[0].network <= r[j - 1].network || j - 1 == 0);
                    } else {
                        assert(out[i] == r[i - 1]);
                    }
                }
            },
            None => {
                lemma_merge_pass_sorted(u);
                let r = merge_pass(u).0;
                let out = merge_pass(s).0;
                assert(out == seq![s[0]] + r);
                assert forall|i: int, j: int| 0 <= i < j < out.len() implies (#[trigger] out[i]).network
                    <= (#[trigger] out[j]).network by {
                    assert(out[j] == r[j - 1]);
                    if i == 0 {
                        assert(r[0].network <= r[j - 1].network || j - 1 == 0);
                    } else {
                        assert(out[i] == r[i - 1]);
                    }
                }
            },
        }
    }
}

proof fn lemma_pass_without_merge(s: Seq<SubnetInfo>)
    requires
        !merge_pass(s).1,
    ensures
        no_mergeable_neighbours(s),
    decreases s.len(),
{
    if s.len() >= 2 {
        let u = s.drop_first();
        lemma_pass_without_merge(u);
        assert forall|i: int| 0 <= i < s.len() - 1 implies merge_model(#[trigger] s[i], s[i + 1]) is None by {
            if i > 0 {
                assert(s[i] == u[i - 1] && s[i + 1] == u[i]);
            }
        }
    }
}

proof fn lemma_fix_settled(s: Seq<SubnetInfo>)
    requires
        all_well_formed(s),
        networks_sorted(s),
    ensures
        networks_sorted(aggregate_fix(s)),
        no_mergeable_neighbours(aggregate_fix(s)),
    decreases s.len(),
{
    let r = merge_pass(s);
    if r.1 {
        lemma_merge_pass_len(s);
        lemma_merge_pass_coverage(s);
        lemma_merge_pass_sorted(s);
        lemma_fix_settled(r.0);
    } else {
        lemma_pass_without_merge(s);
    }
}

proof fn lemma_sorted_nets_sorted(nets: Seq<SubnetInfo>)
    requires
        nets.len() <= usize::MAX,
    ensures
        networks_sorted(sorted_nets(nets)),
{
    let ids = Seq::new(nets.len(), |i: int| i as usize);
    lemma_agg_leq_total(nets);
    ids.lemma_sort_by_ensures(agg_leq_fn(nets));
    ids.to_multiset_ensures();
    let o = ids.sort_by(agg_leq_fn(nets));
    o.to_multiset_ensures();
    let s = sorted_nets(nets);
    assert forall|j: int| 0 <= j < o.len() implies (#[trigger] o[j]) < nets.len() by {
        assert(o.contains(o[j]));
        assert(ids.contains(o[j]));
    }
    assert forall|i: int, j: int| 0 <= i < j < s.len() implies (#[trigger] s[i]).network <= (
    #[trigger] s[j]).network by {
        assert(sorted_by(o, agg_leq_fn(nets)));
        assert(agg_leq_fn(nets)(o[i], o[j]));
        assert(s[i] == nets[o[i] as int] && s[j] == nets[o[j] as int]);
    }
}

/// Aggregation leaves its result in order of network, with no two
/// neighbours that still merge into a supernet.
pub proof fn lemma_aggregate_settled(nets: Seq<SubnetInfo>)
    requires
        all_well_formed(nets),
        nets.len() <= usize::MAX,
    ensures
        networks_sorted(aggregate_model(nets)),
        no_mergeable_neighbours(aggregate_model(nets)),
{
    lemma_sorted_nets_coverage(nets);
    lemma_sorted_nets_sorted(nets);
    lemma_fix_settled(sorted_nets(nets));
}

} // verus!
