//! Variable-length subnet masking: carving blocks for host requirements out
//! of a base network, largest block first.
use vstd::arithmetic::power2::{lemma2_to64, lemma_pow2_strictly_increases, pow2};
use vstd::bits::{lemma_u64_pow2_no_overflow, lemma_u64_shl_is_mul};
use vstd::prelude::*;
use vstd::relations::{sorted_by, total_ordering};

use crate::mask::{cidr_mask, cidr_to_mask};
use crate::subnet::{analyze, analyze_model, block_size, SubnetError, SubnetFault, SubnetInfo};

verus! {

/// Why a requirement got no block.
#[derive(Debug, Clone, Copy, PartialEq, Eq, Structural)]
pub enum FailKind {
    /// It asked for no host.
    ZeroHosts,
    /// Adding the network and broadcast addresses overflows.
    Overflow,
    /// Its block is larger than the whole base network.
    TooLarge,
    /// The blocks placed before it left no room.
    NoSpace,
}

/// Exponent `e` of the smallest power of two `2^e` that is at least `n`.
pub open spec fn ceil_log2(n: nat) -> nat
    decreases n,
{
    if n <= 1 {
        0
    } else {
        1 + ceil_log2(((n + 1) / 2) as nat)
    }
}

/// The block exponent of a requirement of `hosts` hosts in a base of `total`
/// addresses: the smallest power of two that holds the hosts plus network and
/// broadcast address, or why there is none.
pub open spec fn classify(hosts: usize, total: u64) -> Result<u32, FailKind> {
    if hosts == 0 {
        Err(FailKind::ZeroHosts)
    } else if hosts + 2 > usize::MAX {
        Err(FailKind::Overflow)
    } else if pow2(ceil_log2((hosts + 2) as nat)) > total {
        Err(FailKind::TooLarge)
    } else {
        Ok(ceil_log2((hosts + 2) as nat) as u32)
    }
}

/// The requirements that have a block, in input order, as (index, exponent).
pub open spec fn pending_items(hosts: Seq<usize>, total: u64) -> Seq<(usize, u32)>
    decreases hosts.len(),
{
    if hosts.len() == 0 {
        Seq::empty()
    } else {
        let rest = pending_items(hosts.drop_last(), total);
        match classify(hosts.last(), total) {
            Ok(e) => rest.push(((hosts.len() - 1) as usize, e)),
            Err(_) => rest,
        }
    }
}

/// Allocation order: larger blocks first, equal blocks in input order.
pub open spec fn alloc_leq(p: (usize, u32), q: (usize, u32)) -> bool {
    p.1 > q.1 || (p.1 == q.1 && p.0 <= q.0)
}

pub open spec fn alloc_leq_fn() -> spec_fn((usize, u32), (usize, u32)) -> bool {
    |p: (usize, u32), q: (usize, u32)| alloc_leq(p, q)
}

/// The pending requirements in allocation order.
pub open spec fn alloc_order(hosts: Seq<usize>, total: u64) -> Seq<(usize, u32)> {
    pending_items(hosts, total).sort_by(alloc_leq_fn())
}

pub proof fn lemma_alloc_leq_total()
    ensures
        total_ordering(alloc_leq_fn()),
{
    let f = alloc_leq_fn();
    assert forall|p: (usize, u32), q: (usize, u32)| #[trigger] f(p, q) && #[trigger] f(q, p) implies p
        == q by {
        assert(p.0 == q.0 && p.1 == q.1);
    }
}

/// Inserting `x` after the elements that come before it and before the ones
/// that come after it keeps a sequence in allocation order.
proof fn lemma_insert_sorted(s: Seq<(usize, u32)>, pos: int, x: (usize, u32))
    requires
        0 <= pos <= s.len(),
        sorted_by(s, alloc_leq_fn()),
        forall|j: int| 0 <= j < pos ==> (#[trigger] s[j]).1 >= x.1 && s[j].0 < x.0,
        forall|j: int| pos <= j < s.len() ==> (#[trigger] s[j]).1 < x.1,
    ensures
        sorted_by(s.insert(pos, x), alloc_leq_fn()),
        s.insert(pos, x).to_multiset() == s.to_multiset().insert(x),
{
    broadcast use vstd::seq_lib::group_to_multiset_ensures;
    broadcast use vstd::multiset::group_multiset_axioms;

    let t = s.insert(pos, x);
    s.insert_ensures(pos, x);
    let f = alloc_leq_fn();
    assert forall|i: int, j: int| 0 <= i < j < t.len() implies #[trigger] f(t[i], t[j]) by {
        let a = if i < pos {
            i
        } else {
            i - 1
        };
        let b = if j < pos {
            j
        } else {
            j - 1
        };
        if i < pos && j < pos {
            assert(f(s[a], s[b]));
        } else if i > pos && j > pos {
            assert(t[i] == s[a]);
            assert(t[j] == s[b]);
            assert(f(s[a], s[b]));
        } else if i == pos {
            assert(t[j] == s[b]);
        } else {
            assert(t[i] == s[a]);
        }
    }
    assert(t.remove(pos) =~= s);
    assert(t[pos] == x);
    assert(t.to_multiset().count(x) > 0);
    assert(t.to_multiset() =~= s.to_multiset().insert(x));
}

/// Sorts pending requirements (given in increasing index order) into allocation order.
fn sort_for_allocation(pend: &Vec<(usize, u32)>) -> (out: Vec<(usize, u32)>)
    requires
        forall|i: int, j: int| 0 <= i < j < pend@.len() ==> pend@[i].0 < pend@[j].0,
    ensures
        out@ == pend@.sort_by(alloc_leq_fn()),
{
    broadcast use vstd::seq_lib::group_to_multiset_ensures;

    let mut out: Vec<(usize, u32)> = Vec::new();
    let n = pend.len();
    let mut k: usize = 0;
    while k < n
        invariant
            k <= n == pend@.len(),
            forall|i: int, j: int| 0 <= i < j < pend@.len() ==> pend@[i].0 < pend@[j].0,
            sorted_by(out@, alloc_leq_fn()),
            out@.to_multiset() == pend@.take(k as int).to_multiset(),
            forall|j: int, m: int|
                0 <= j < out@.len() && k <= m < n ==> (#[trigger] out@[j]).0 < (
                #[trigger] pend@[m]).0,
        decreases n - k,
    {
        let x = pend[k];
        let mut pos: usize = 0;
        while pos < out.len() && out[pos].1 >= x.1
            invariant
                pos <= out@.len(),
                forall|j: int| 0 <= j < pos ==> (#[trigger] out@[j]).1 >= x.1,
            decreases out@.len() - pos,
        {
            pos += 1;
        }
        proof {
            assert forall|j: int| pos <= j < out@.len() implies (#[trigger] out@[j]).1 < x.1 by {
                let f = alloc_leq_fn();
                if pos < out@.len() && j > pos {
                    assert(f(out@[pos as int], out@[j]));
                }
            }
            assert forall|j: int| 0 <= j < pos implies (#[trigger] out@[j]).0 < x.0 by {
                assert(pend@[k as int] == x);
            }
            lemma_insert_sorted(out@, pos as int, x);
            assert(pend@.take(k + 1) =~= pend@.take(k as int).push(x));
        }
        let ghost before = out@;
        out.insert(pos, x);
        proof {
            let t = out@;
            before.insert_ensures(pos as int, x);
            pend@.take(k as int).to_multiset_ensures();
            assert(pend@.take(k as int).push(x).to_multiset() =~= pend@.take(k as int).to_multiset().insert(x));
            assert(t.to_multiset() =~= pend@.take(k + 1).to_multiset());
            assert forall|j: int, m: int| 0 <= j < t.len() && k + 1 <= m < n implies (#[trigger] t[j]).0
                < (#[trigger] pend@[m]).0 by {
                if j == pos {
                    assert(t[j] == pend@[k as int]);
                } else if j < pos {
                    assert(t[j] == before[j]);
                    assert(before[j].0 < pend@[m].0);
                } else {
                    assert(t[j] == before[j - 1]);
                    assert(before[j - 1].0 < pend@[m].0);
                }
            }
        }
        k += 1;
    }
    proof {
        assert(pend@.take(n as int) =~= pend@);
        lemma_alloc_leq_total();
        pend@.lemma_sort_by_ensures(alloc_leq_fn());
        vstd::seq_lib::lemma_sorted_unique(out@, pend@.sort_by(alloc_leq_fn()), alloc_leq_fn());
    }
    out
}

pub proof fn lemma_ceil_log2(n: nat)
    ensures
        pow2(ceil_log2(n)) >= n,
        forall|k: nat| #[trigger] pow2(k) >= n ==> k >= ceil_log2(n),
    decreases n,
{
    vstd::arithmetic::power2::lemma_pow2_unfold(1);
    vstd::arithmetic::power2::lemma_pow2_pos(0);
    if n <= 1 {
        assert(pow2(0) == 1) by {
            lemma2_to64();
        }
    } else {
        let h = ((n + 1) / 2) as nat;
        lemma_ceil_log2(h);
        vstd::arithmetic::power2::lemma_pow2_unfold(ceil_log2(n));
        assert forall|k: nat| #[trigger] pow2(k) >= n implies k >= ceil_log2(n) by {
            if k == 0 {
                lemma2_to64();
            } else {
                vstd::arithmetic::power2::lemma_pow2_unfold(k);
                assert(pow2((k - 1) as nat) >= h);
            }
        }
    }
}

fn classify_hosts(hosts: usize, total: u64) -> (r: Result<u32, FailKind>)
    requires
        total <= 0x1_0000_0000,
    ensures
        r == classify(hosts, total),
        r matches Ok(e) ==> e <= 32,
{
    if hosts == 0 {
        return Err(FailKind::ZeroHosts);
    }
    let needed = match hosts.checked_add(2) {
        Some(v) => v,
        None => {
            return Err(FailKind::Overflow);
        },
    };
    let need = needed as u64;
    proof {
        lemma_ceil_log2(needed as nat);
        lemma2_to64();
    }
    let mut k: u32 = 0;
    while k <= 32 && (1u64 << k) < need
        invariant
            k <= 33,
            need == needed,
            forall|j: nat| j < k ==> #[trigger] pow2(j) < need,
        decreases 33 - k,
    {
        proof {
            lemma_u64_pow2_no_overflow(k as nat);
            lemma_u64_shl_is_mul(1, k as u64);
        }
        k += 1;
    }
    let ghost c = ceil_log2(needed as nat);
    if k > 32 {
        proof {
            assert(pow2(32) < need);
            if c < 33 {
                assert(pow2(c) < need);
            }
            lemma_pow2_strictly_increases(32, c);
        }
        return Err(FailKind::TooLarge);
    }
    proof {
        lemma_u64_pow2_no_overflow(k as nat);
        lemma_u64_shl_is_mul(1, k as u64);
        assert(pow2(k as nat) >= need);
        if c < k {
            assert(pow2(c) < need);
        }
    }
    let block = 1u64 << k;
    if block > total {
        Err(FailKind::TooLarge)
    } else {
        Ok(k)
    }
}


/// The requirements that have a block: their indices increase, each is the
/// classification of its requirement, and every requirement with a block is there.
pub proof fn lemma_pending_items(hosts: Seq<usize>, total: u64)
    requires
        hosts.len() <= usize::MAX,
    ensures
        forall|j: int|
            0 <= j < pending_items(hosts, total).len() ==> {
                let x = #[trigger] pending_items(hosts, total)[j];
                &&& x.0 < hosts.len()
                &&& classify(hosts[x.0 as int], total) == Ok::<u32, FailKind>(x.1)
            },
        forall|a: int, b: int|
            0 <= a < b < pending_items(hosts, total).len() ==> (#[trigger] pending_items(
                hosts,
                total,
            )[a]).0 < (#[trigger] pending_items(hosts, total)[b]).0,
        forall|i: int|
            0 <= i < hosts.len() && (#[trigger] classify(hosts[i], total)) is Ok ==> pending_items(
                hosts,
                total,
            ).contains((i as usize, classify(hosts[i], total)->Ok_0)),
    decreases hosts.len(),
{
    if hosts.len() > 0 {
        let h = hosts.drop_last();
        lemma_pending_items(h, total);
        let r = pending_items(h, total);
        let p = pending_items(hosts, total);
        let last = (hosts.len() - 1) as usize;
        assert(hosts[last as int] == hosts.last());
        match classify(hosts.last(), total) {
            Ok(e) => {
                assert(p == r.push((last, e)));
            },
            Err(_) => {
                assert(p == r);
            },
        }
        assert forall|j: int| 0 <= j < p.len() implies {
            let x = #[trigger] p[j];
            &&& x.0 < hosts.len()
            &&& classify(hosts[x.0 as int], total) == Ok::<u32, FailKind>(x.1)
        } by {
            if j < r.len() {
                assert(p[j] == r[j]);
                assert(hosts[r[j].0 as int] == h[r[j].0 as int]);
            }
        }
        assert forall|a: int, b: int| 0 <= a < b < p.len() implies (#[trigger] p[a]).0 < (
        #[trigger] p[b]).0 by {
            if b < r.len() {
                assert(p[a] == r[a] && p[b] == r[b]);
            } else {
                assert(p[a] == r[a]);
                let y = r[a];
                assert(y.0 < h.len());
            }
        }
        assert forall|i: int| 0 <= i < hosts.len() && (#[trigger] classify(hosts[i], total)) is Ok implies p.contains(
            (i as usize, classify(hosts[i], total)->Ok_0),
        ) by {
            if i < h.len() {
                assert(hosts[i] == h[i]);
                let x = (i as usize, classify(hosts[i], total)->Ok_0);
                assert(r.contains(x));
                let q = choose|q: int| 0 <= q < r.len() && r[q] == x;
                assert(p[q] == x);
            } else {
                assert(p[p.len() - 1] == (i as usize, classify(hosts[i], total)->Ok_0));
            }
        }
    }
}

proof fn lemma_count_two<A>(s: Seq<A>, p: int, q: int)
    requires
        0 <= p < s.len(),
        0 <= q < s.len(),
        p != q,
        s[p] == s[q],
    ensures
        s.to_multiset().count(s[p]) >= 2,
{
    broadcast use vstd::multiset::group_multiset_axioms;

    s.to_multiset_ensures();
    let r = s.remove(q);
    r.to_multiset_ensures();
    let pp = if p < q {
        p
    } else {
        p - 1
    };
    assert(r[pp] == s[p]);
    assert(r.contains(s[p]));
    assert(r.to_multiset().count(s[p]) > 0);
}

proof fn lemma_count_two_rev<A>(s: Seq<A>, x: A)
    requires
        s.to_multiset().count(x) >= 2,
    ensures
        exists|p: int, q: int| 0 <= p < q < s.len() && s[p] == x && s[q] == x,
{
    broadcast use vstd::multiset::group_multiset_axioms;

    s.to_multiset_ensures();
    assert(s.contains(x));
    let p = choose|p: int| 0 <= p < s.len() && s[p] == x;
    let r = s.remove(p);
    r.to_multiset_ensures();
    assert(r.to_multiset().count(x) > 0);
    let k = choose|k: int| 0 <= k < r.len() && r[k] == x;
    if k < p {
        assert(s[k] == x);
    } else {
        assert(s[k + 1] == x);
    }
}

/// The allocation order holds exactly the pending requirements, each once.
pub proof fn lemma_alloc_order(hosts: Seq<usize>, total: u64)
    requires
        hosts.len() <= usize::MAX,
    ensures
        alloc_order(hosts, total).len() == pending_items(hosts, total).len(),
        forall|p: int|
            0 <= p < alloc_order(hosts, total).len() ==> pending_items(hosts, total).contains(
                #[trigger] alloc_order(hosts, total)[p],
            ),
        forall|x: (usize, u32)|
            #[trigger] pending_items(hosts, total).contains(x) ==> alloc_order(
                hosts,
                total,
            ).contains(x),
        forall|p: int, q: int|
            0 <= p < q < alloc_order(hosts, total).len() ==> (#[trigger] alloc_order(
                hosts,
                total,
            )[p]).0 != (#[trigger] alloc_order(hosts, total)[q]).0,
        sorted_by(alloc_order(hosts, total), alloc_leq_fn()),
{
    let pend = pending_items(hosts, total);
    let o = alloc_order(hosts, total);
    lemma_alloc_leq_total();
    pend.lemma_sort_by_ensures(alloc_leq_fn());
    pend.to_multiset_ensures();
    o.to_multiset_ensures();
    lemma_pending_items(hosts, total);
    assert forall|p: int| 0 <= p < o.len() implies pend.contains(#[trigger] o[p]) by {
        assert(o.contains(o[p]));
    }
    assert forall|x: (usize, u32)| #[trigger] pend.contains(x) implies o.contains(x) by {
        assert(pend.to_multiset().count(x) > 0);
    }
    assert forall|p: int, q: int| 0 <= p < q < o.len() implies (#[trigger] o[p]).0 != (
    #[trigger] o[q]).0 by {
        if o[p].0 == o[q].0 {
            assert(pend.contains(o[p]));
            assert(pend.contains(o[q]));
            let a = choose|a: int| 0 <= a < pend.len() && pend[a] == o[p];
            let b = choose|b: int| 0 <= b < pend.len() && pend[b] == o[q];
            if a != b {
                if a < b {
                    assert(pend[a].0 < pend[b].0);
                } else {
                    assert(pend[b].0 < pend[a].0);
                }
            }
            assert(o[p] == o[q]);
            lemma_count_two(o, p, q);
            lemma_count_two_rev(pend, o[p]);
            let (c, d) = choose|c: int, d: int| 0 <= c < d < pend.len() && pend[c] == o[p] && pend[d] == o[p];
            assert(pend[c].0 < pend[d].0);
        }
    }
}


/// Places the blocks of `order` one after another from address `start`; a
/// block that would end past `last` is skipped. Gives the offset of each
/// block (or `None` where skipped) and the next free address.
pub open spec fn place(order: Seq<(usize, u32)>, start: nat, last: nat) -> (Seq<Option<nat>>, nat)
    decreases order.len(),
{
    if order.len() == 0 {
        (Seq::empty(), start)
    } else {
        let prev = place(order.drop_last(), start, last);
        let b = pow2(order.last().1 as nat);
        if prev.1 + b - 1 <= last {
            (prev.0.push(Some(prev.1)), prev.1 + b)
        } else {
            (prev.0.push(None), prev.1)
        }
    }
}

/// What became of one requirement.
pub enum Outcome {
    /// A block of `2^exp` addresses starting at `offset`.
    Placed(nat, u32),
    Failed(FailKind),
}

pub open spec fn hosts_of(reqs: Seq<(Seq<char>, usize)>) -> Seq<usize> {
    reqs.map_values(|r: (Seq<char>, usize)| r.1)
}

/// What became of requirement `i`: its classification failure, or the
/// decision for it when the blocks are placed in allocation order.
pub open spec fn outcome(hosts: Seq<usize>, base: SubnetInfo, i: int) -> Outcome {
    match classify(hosts[i], base.total_ips) {
        Err(k) => Outcome::Failed(k),
        Ok(e) => {
            let order = alloc_order(hosts, base.total_ips);
            let p = choose|p: int| 0 <= p < order.len() && order[p].0 == i;
            match place(order, base.network as nat, base.broadcast as nat).0[p] {
                Some(off) => Outcome::Placed(off, e),
                None => Outcome::Failed(FailKind::NoSpace),
            }
        },
    }
}

/// One allocated subnet.
#[derive(Debug, Clone, PartialEq, Eq)]
pub struct VlsmEntry {
    pub name: String,
    pub required_hosts: usize,
    pub allocated_block: u64,
    pub network: u32,
    pub mask: u32,
    pub cidr: u8,
    pub first_host: u32,
    pub last_host: u32,
    pub broadcast: u32,
    pub usable: u64,
}

/// One requirement that got no block.
#[derive(Debug, Clone, PartialEq, Eq)]
pub struct VlsmFailure {
    pub name: String,
    pub required_hosts: usize,
    pub reason: String,
}

/// Allocated and failed requirements, each list in input order.
#[derive(Debug, Clone, PartialEq, Eq)]
pub struct VlsmResult {
    pub allocated: Vec<VlsmEntry>,
    pub failed: Vec<VlsmFailure>,
}

/// Why no allocation was made at all.
#[derive(Debug, Clone, PartialEq, Eq)]
pub enum VlsmError {
    SubnetError(SubnetError),
    NoRequirements,
}

pub struct EntryModel {
    pub name: Seq<char>,
    pub required_hosts: usize,
    pub allocated_block: u64,
    pub network: u32,
    pub mask: u32,
    pub cidr: u8,
    pub first_host: u32,
    pub last_host: u32,
    pub broadcast: u32,
    pub usable: u64,
}

pub struct FailureModel {
    pub name: Seq<char>,
    pub required_hosts: usize,
    pub reason: Seq<char>,
}

pub struct ResultModel {
    pub allocated: Seq<EntryModel>,
    pub failed: Seq<FailureModel>,
}

pub enum VlsmFault {
    SubnetError(SubnetFault),
    NoRequirements,
}

impl View for VlsmEntry {
    type V = EntryModel;

    open spec fn view(&self) -> EntryModel {
        EntryModel {
            name: self.name@,
            required_hosts: self.required_hosts,
            allocated_block: self.allocated_block,
            network: self.network,
            mask: self.mask,
            cidr: self.cidr,
            first_host: self.first_host,
            last_host: self.last_host,
            broadcast: self.broadcast,
            usable: self.usable,
        }
    }
}

impl View for VlsmFailure {
    type V = FailureModel;

    open spec fn view(&self) -> FailureModel {
        FailureModel { name: self.name@, required_hosts: self.required_hosts, reason: self.reason@ }
    }
}

impl View for VlsmResult {
    type V = ResultModel;

    open spec fn view(&self) -> ResultModel {
        ResultModel {
            allocated: self.allocated@.map_values(|e: VlsmEntry| e@),
            failed: self.failed@.map_values(|f: VlsmFailure| f@),
        }
    }
}

impl View for VlsmError {
    type V = VlsmFault;

    open spec fn view(&self) -> VlsmFault {
        match self {
            VlsmError::SubnetError(e) => VlsmFault::SubnetError(e@),
            VlsmError::NoRequirements => VlsmFault::NoRequirements,
        }
    }
}

/// The message shown for a VLSM error.
pub open spec fn vlsm_error_text(f: VlsmFault) -> Seq<char> {
    match f {
        VlsmFault::SubnetError(e) => "子网错误: "@ + crate::subnet::subnet_error_text(e),
        VlsmFault::NoRequirements => "需求列表为空"@,
    }
}

impl VlsmError {
    /// The message that describes the error.
    pub fn to_string(&self) -> (s: String)
        ensures
            s@ == vlsm_error_text(self@),
    {
        let mut out = String::new();
        match self {
            VlsmError::SubnetError(e) => {
                crate::text::push_str(&mut out, "子网错误: ");
                let m = e.to_string();
                crate::text::push_str(&mut out, m.as_str());
            },
            VlsmError::NoRequirements => {
                crate::text::push_str(&mut out, "需求列表为空");
            },
        }
        assert(out@ =~= vlsm_error_text(self@));
        out
    }
}

impl From<SubnetError> for VlsmError {
    fn from(e: SubnetError) -> (r: Self) {
        VlsmError::SubnetError(e)
    }
}

impl vstd::std_specs::convert::FromSpecImpl<SubnetError> for VlsmError {
    open spec fn obeys_from_spec() -> bool {
        true
    }

    open spec fn from_spec(e: SubnetError) -> Self {
        VlsmError::SubnetError(e)
    }
}

/// The subnet allocated to a requirement named `name` of `hosts` hosts: a
/// block of `2^e` addresses starting at `off`, prefix length `32 - e`.
pub open spec fn entry_model(name: Seq<char>, hosts: usize, off: nat, e: u32) -> EntryModel {
    let block = pow2(e as nat);
    let cidr = (32 - e) as u8;
    let network = off as u32;
    let broadcast = (off + block - 1) as u32;
    EntryModel {
        name,
        required_hosts: hosts,
        allocated_block: block as u64,
        network,
        mask: cidr_mask(cidr),
        cidr,
        first_host: if cidr == 31 || cidr == 32 {
            network
        } else {
            (network + 1) as u32
        },
        last_host: if cidr == 31 {
            broadcast
        } else if cidr == 32 {
            network
        } else {
            (broadcast - 1) as u32
        },
        broadcast,
        usable: if cidr == 31 {
            2
        } else if cidr == 32 {
            1
        } else {
            (block - 2) as u64
        },
    }
}

/// The reason text shown for each kind of failure.
pub open spec fn reason_text(k: FailKind) -> Seq<char> {
    match k {
        FailKind::ZeroHosts => "需求主机数必须 ≥ 1"@,
        FailKind::Overflow => "主机数计算溢出"@,
        FailKind::TooLarge => "块大小超过基础网段容量"@,
        FailKind::NoSpace => "地址空间不足"@,
    }
}

/// The allocations among the first `k` requirements, in input order.
pub open spec fn allocated_upto(reqs: Seq<(Seq<char>, usize)>, base: SubnetInfo, k: nat) -> Seq<
    EntryModel,
>
    decreases k,
{
    if k == 0 {
        Seq::empty()
    } else {
        let rest = allocated_upto(reqs, base, (k - 1) as nat);
        match outcome(hosts_of(reqs), base, k - 1) {
            Outcome::Placed(off, e) => rest.push(
                entry_model(reqs[k - 1].0, reqs[k - 1].1, off, e),
            ),
            Outcome::Failed(_) => rest,
        }
    }
}

/// The failures among the first `k` requirements, in input order.
pub open spec fn failed_upto(reqs: Seq<(Seq<char>, usize)>, base: SubnetInfo, k: nat) -> Seq<
    FailureModel,
>
    decreases k,
{
    if k == 0 {
        Seq::empty()
    } else {
        let rest = failed_upto(reqs, base, (k - 1) as nat);
        match outcome(hosts_of(reqs), base, k - 1) {
            Outcome::Placed(_, _) => rest,
            Outcome::Failed(kind) => rest.push(
                FailureModel {
                    name: reqs[k - 1].0,
                    required_hosts: reqs[k - 1].1,
                    reason: reason_text(kind),
                },
            ),
        }
    }
}

/// What `vlsm` gives: the base network must parse and the list must not be
/// empty; then every requirement is either allocated or failed.
pub open spec fn vlsm_model(base_input: Seq<char>, reqs: Seq<(Seq<char>, usize)>) -> Result<
    ResultModel,
    VlsmFault,
> {
    match analyze_model(base_input) {
        Err(e) => Err(VlsmFault::SubnetError(e)),
        Ok(base) => if reqs.len() == 0 {
            Err(VlsmFault::NoRequirements)
        } else {
            Ok(
                ResultModel {
                    allocated: allocated_upto(reqs, base, reqs.len()),
                    failed: failed_upto(reqs, base, reqs.len()),
                },
            )
        },
    }
}

pub open spec fn reqs_view(reqs: Seq<(String, usize)>) -> Seq<(Seq<char>, usize)> {
    reqs.map_values(|r: (String, usize)| (r.0@, r.1))
}

fn reason_string(k: FailKind) -> (s: String)
    ensures
        s@ == reason_text(k),
{
    let lit = match k {
        FailKind::ZeroHosts => "需求主机数必须 ≥ 1",
        FailKind::Overflow => "主机数计算溢出",
        FailKind::TooLarge => "块大小超过基础网段容量",
        FailKind::NoSpace => "地址空间不足",
    };
    lit.to_owned()
}

/// The entry for a block of `2^e` addresses at `off`.
fn make_entry(name: String, hosts: usize, off: u64, e: u32) -> (entry: VlsmEntry)
    requires
        e <= 32,
        off + pow2(e as nat) - 1 <= u32::MAX,
    ensures
        entry@ == entry_model(name@, hosts, off as nat, e),
{
    proof {
        lemma_u64_pow2_no_overflow(e as nat);
        lemma_u64_shl_is_mul(1, e as u64);
        vstd::arithmetic::power2::lemma_pow2_pos(e as nat);
    }
    let block: u64 = 1u64 << e;
    let cidr: u8 = (32 - e) as u8;
    let mask = cidr_to_mask(cidr);
    let network = off as u32;
    let broadcast = (off + block - 1) as u32;
    proof {
        if e >= 2 {
            lemma2_to64();
            lemma_pow2_strictly_increases(1, e as nat);
        }
    }
    let (usable, first_host, last_host) = if cidr == 31 {
        (2, network, broadcast)
    } else if cidr == 32 {
        (1, network, network)
    } else {
        (block - 2, network + 1, broadcast - 1)
    };
    VlsmEntry {
        name,
        required_hosts: hosts,
        allocated_block: block,
        network,
        mask,
        cidr,
        first_host,
        last_host,
        broadcast,
        usable,
    }
}


/// Placement keeps every placed block inside `[start, last]`, and a prefix
/// of the order is placed as it is placed within the whole order.
pub proof fn lemma_place(o: Seq<(usize, u32)>, start: nat, last: nat)
    requires
        start <= last + 1,
    ensures
        place(o, start, last).0.len() == o.len(),
        start <= place(o, start, last).1 <= last + 1,
        forall|p: int|
            0 <= p < o.len() ==> ((#[trigger] place(o, start, last).0[p]) matches Some(off) ==> start
                <= off && off + pow2(o[p].1 as nat) - 1 <= last && off + pow2(o[p].1 as nat) <= place(o, start, last).1),
        forall|k: int|
            0 <= k <= o.len() ==> #[trigger] place(o.take(k), start, last).0 == place(
                o,
                start,
                last,
            ).0.take(k),
    decreases o.len(),
{
    if o.len() > 0 {
        let r = o.drop_last();
        lemma_place(r, start, last);
        vstd::arithmetic::power2::lemma_pow2_pos(o.last().1 as nat);
        let prev = place(r, start, last);
        let cur = place(o, start, last);
        assert forall|p: int| 0 <= p < o.len() implies ((#[trigger] cur.0[p]) matches Some(off) ==> start
            <= off && off + pow2(o[p].1 as nat) - 1 <= last && off + pow2(o[p].1 as nat) <= cur.1) by {
            if p < r.len() {
                assert(cur.0[p] == prev.0[p]);
                assert(o[p] == r[p]);
            }
        }
        assert forall|k: int| 0 <= k <= o.len() implies #[trigger] place(o.take(k), start, last).0
            == cur.0.take(k) by {
            if k == o.len() {
                assert(o.take(k) =~= o);
                assert(cur.0.take(k) =~= cur.0);
            } else {
                assert(o.take(k) =~= r.take(k));
                assert(place(r.take(k), start, last).0 == prev.0.take(k));
                assert(cur.0.take(k) =~= prev.0.take(k));
            }
        }
    } else {
        assert forall|k: int| 0 <= k <= o.len() implies #[trigger] place(o.take(k), start, last).0
            == place(o, start, last).0.take(k) by {
            assert(o.take(k) =~= o);
        }
    }
}

/// A requirement's block is at most the base's size, so its exponent is at most 32.
proof fn lemma_classify_exp(hosts: usize, total: u64)
    requires
        total <= 0x1_0000_0000,
    ensures
        classify(hosts, total) matches Ok(e) ==> e <= 32,
{
    if let Ok(e) = classify(hosts, total) {
        lemma2_to64();
        let c = ceil_log2((hosts + 2) as nat);
        if c > 32 {
            lemma_pow2_strictly_increases(32, c);
        }
    }
}

/// What the allocation loop records per requirement.
enum Slot {
    Pending(u32),
    Placed(u64, u32),
    Failed(FailKind),
}

spec fn classified_slot(c: Result<u32, FailKind>) -> Slot {
    match c {
        Ok(e) => Slot::Pending(e),
        Err(k) => Slot::Failed(k),
    }
}

spec fn decided_slot(x: (usize, u32), d: Option<nat>) -> Slot {
    match d {
        Some(off) => Slot::Placed(off as u64, x.1),
        None => Slot::Failed(FailKind::NoSpace),
    }
}

spec fn slot_matches(s: Slot, o: Outcome) -> bool {
    match (s, o) {
        (Slot::Placed(off, e), Outcome::Placed(off2, e2)) => off == off2 && e == e2,
        (Slot::Failed(k), Outcome::Failed(k2)) => k == k2,
        _ => false,
    }
}

/// Allocates a block to each requirement of the list `requirements` (name,
/// number of hosts) inside the network `base_input`: largest blocks first,
/// equal blocks in input order, each block right after the previous one.
/// Requirements with no host, or whose block exceeds the base network or the
/// room left, are reported as failed.
pub fn vlsm(base_input: &str, requirements: Vec<(String, usize)>) -> (r: Result<
    VlsmResult,
    VlsmError,
>)
    ensures
        match r {
            Ok(res) => vlsm_model(base_input@, reqs_view(requirements@)) == Ok::<
                ResultModel,
                VlsmFault,
            >(res@),
            Err(e) => vlsm_model(base_input@, reqs_view(requirements@)) == Err::<
                ResultModel,
                VlsmFault,
            >(e@),
        },
{
    let base: SubnetInfo = match analyze(base_input) {
        Ok(b) => b,
        Err(e) => {
            return Err(VlsmError::SubnetError(e));
        },
    };
    if requirements.len() == 0 {
        return Err(VlsmError::NoRequirements);
    }
    let n = requirements.len();
    let ghost reqs = reqs_view(requirements@);
    let ghost hosts = hosts_of(reqs);
    let total = base.total_ips;
    proof {
        crate::subnet::lemma_analyze_well_formed(base_input@);
        crate::subnet::lemma_well_formed_bounds(base);
        assert(hosts.len() == n);
    }
    let mut slots: Vec<Slot> = Vec::new();
    let mut pend: Vec<(usize, u32)> = Vec::new();
    let mut i: usize = 0;
    while i < n
        invariant
            i <= n == requirements@.len() == hosts.len(),
            total == base.total_ips <= 0x1_0000_0000,
            hosts == hosts_of(reqs_view(requirements@)),
            slots@.len() == i,
            pend@ == pending_items(hosts.take(i as int), total),
            forall|j: int| 0 <= j < i ==> #[trigger] slots@[j] == classified_slot(classify(hosts[j], total)),
        decreases n - i,
    {
        let c = classify_hosts(requirements[i].1, total);
        proof {
            assert(hosts[i as int] == requirements@[i as int].1);
            let h = hosts.take(i + 1);
            assert(h.drop_last() =~= hosts.take(i as int));
            assert(h.last() == hosts[i as int]);
        }
        match c {
            Ok(e) => {
                slots.push(Slot::Pending(e));
                pend.push((i, e));
            },
            Err(k) => {
                slots.push(Slot::Failed(k));
            },
        }
        i += 1;
    }
    proof {
        assert(hosts.take(n as int) =~= hosts);
        lemma_pending_items(hosts, total);
        lemma_alloc_order(hosts, total);
    }
    let order = sort_for_allocation(&pend);
    let ghost o = order@;
    let start: u64 = base.network as u64;
    let last: u64 = base.broadcast as u64;
    proof {
        lemma_place(o, start as nat, last as nat);
    }
    let mut off: u64 = start;
    let mut k: usize = 0;
    while k < order.len()
        invariant
            o == order@,
            o == alloc_order(hosts, total),
            k <= o.len(),
            slots@.len() == n == hosts.len(),
            total == base.total_ips <= 0x1_0000_0000,
            start <= last <= u32::MAX,
            place(o.take(k as int), start as nat, last as nat).1 == off,
            start <= off <= last + 1,
            forall|p: int| 0 <= p < o.len() ==> (#[trigger] o[p]).0 < n,
            forall|p: int, q: int| 0 <= p < q < o.len() ==> (#[trigger] o[p]).0 != (#[trigger] o[q]).0,
            forall|p: int| 0 <= p < o.len() ==> classify(hosts[(#[trigger] o[p]).0 as int], total) == Ok::<u32, FailKind>(o[p].1),
            forall|p: int|
                0 <= p < k ==> #[trigger] slots@[o[p].0 as int] == decided_slot(
                    o[p],
                    place(o, start as nat, last as nat).0[p],
                ),
            forall|p: int| k <= p < o.len() ==> #[trigger] slots@[o[p].0 as int] == Slot::Pending(o[p].1),
            forall|j: int|
                0 <= j < n && (#[trigger] classify(hosts[j], total)) is Err ==> slots@[j] == Slot::Failed(
                    classify(hosts[j], total)->Err_0,
                ),
        decreases o.len() - k,
    {
        let x = order[k];
        proof {
            lemma_alloc_order(hosts, total);
            lemma_place(o, start as nat, last as nat);
            let pend_s = pending_items(hosts, total);
            assert(pend_s.contains(o[k as int]));
            lemma_classify_exp(hosts[x.0 as int], total);
            lemma_u64_pow2_no_overflow(x.1 as nat);
            lemma_u64_shl_is_mul(1, x.1 as u64);
            vstd::arithmetic::power2::lemma_pow2_pos(x.1 as nat);
            lemma2_to64();
            if x.1 < 32 {
                lemma_pow2_strictly_increases(x.1 as nat, 32);
            }
            assert(o.take(k + 1).drop_last() =~= o.take(k as int));
            assert(o.take(k + 1).last() == x);
            assert(place(o.take(k + 1), start as nat, last as nat).0 == place(o, start as nat, last as nat).0.take(k + 1));
            assert(place(o.take(k + 1), start as nat, last as nat).0[k as int] == place(o, start as nat, last as nat).0[k as int]);
        }
        let b: u64 = 1u64 << x.1;
        let ghost before = slots@;
        if off + b - 1 <= last {
            slots.set(x.0, Slot::Placed(off, x.1));
            off = off + b;
        } else {
            slots.set(x.0, Slot::Failed(FailKind::NoSpace));
        }
        proof {
            assert forall|p: int| 0 <= p < k + 1 implies #[trigger] slots@[o[p].0 as int] == decided_slot(
                o[p],
                place(o, start as nat, last as nat).0[p],
            ) by {
                if p < k {
                    assert(o[p].0 != o[k as int].0);
                    assert(slots@[o[p].0 as int] == before[o[p].0 as int]);
                }
            }
            assert forall|p: int| k + 1 <= p < o.len() implies #[trigger] slots@[o[p].0 as int] == Slot::Pending(o[p].1) by {
                assert(o[p].0 != o[k as int].0);
                assert(slots@[o[p].0 as int] == before[o[p].0 as int]);
            }
            assert forall|j: int| 0 <= j < n && (#[trigger] classify(hosts[j], total)) is Err implies slots@[j] == Slot::Failed(
                classify(hosts[j], total)->Err_0,
            ) by {
                assert(j != x.0);
            }
        }
        k += 1;
    }
    proof {
        assert(o.take(o.len() as int) =~= o);
        let pend_s = pending_items(hosts, total);
        assert forall|j: int| 0 <= j < n implies slot_matches(#[trigger] slots@[j], outcome(hosts, base, j)) && (slots@[j] matches Slot::Placed(off, e) ==> (off + pow2(e as nat) - 1 <= last && e <= 32)) by {
            let c = classify(hosts[j], total);
            lemma_classify_exp(hosts[j], total);
            match c {
                Err(kk) => {},
                Ok(e) => {
                    assert(pend_s.contains((j as usize, e)));
                    assert(o.contains((j as usize, e)));
                    let p = choose|p: int| 0 <= p < o.len() && o[p] == (j as usize, e);
                    let q = choose|q: int| 0 <= q < o.len() && o[q].0 == j;
                    assert(o[p].0 == j);
                    if p != q {
                        if p < q {
                            assert(o[p].0 != o[q].0);
                        } else {
                            assert(o[q].0 != o[p].0);
                        }
                    }
                    assert(slots@[o[p].0 as int] == slots@[j]);
                },
            }
        }
    }
    let mut allocated: Vec<VlsmEntry> = Vec::new();
    let mut failed: Vec<VlsmFailure> = Vec::new();
    let mut j: usize = 0;
    while j < n
        invariant
            j <= n == slots@.len() == requirements@.len(),
            reqs == reqs_view(requirements@),
            hosts == hosts_of(reqs),
            last == base.broadcast,
            forall|i: int| 0 <= i < n ==> slot_matches(#[trigger] slots@[i], outcome(hosts, base, i)) && (slots@[i] matches Slot::Placed(off, e) ==> (off + pow2(e as nat) - 1 <= last && e <= 32)),
            allocated@.map_values(|e: VlsmEntry| e@) == allocated_upto(reqs, base, j as nat),
            failed@.map_values(|f: VlsmFailure| f@) == failed_upto(reqs, base, j as nat),
        decreases n - j,
    {
        let ghost a0 = allocated@;
        let ghost f0 = failed@;
        let name = requirements[j].0.clone();
        let hosts_j = requirements[j].1;
        assert(reqs[j as int] == (requirements@[j as int].0@, requirements@[j as int].1));
        match slots[j] {
            Slot::Placed(o_off, e) => {
                allocated.push(make_entry(name, hosts_j, o_off, e));
                assert(allocated@.map_values(|e: VlsmEntry| e@) =~= a0.map_values(|e: VlsmEntry| e@).push(allocated@.last()@));
            },
            Slot::Failed(kind) => {
                failed.push(VlsmFailure { name, required_hosts: hosts_j, reason: reason_string(kind) });
                assert(failed@.map_values(|f: VlsmFailure| f@) =~= f0.map_values(|f: VlsmFailure| f@).push(failed@.last()@));
            },
            Slot::Pending(_) => {
                assert(false);
            },
        }
        j += 1;
    }
    Ok(VlsmResult { allocated, failed })
}


// ---------------------------------------------------------------------------
// Laws
// ---------------------------------------------------------------------------

/// Placed blocks come one after the other: an earlier placed block ends
/// before a later one starts.
proof fn lemma_place_ordered(o: Seq<(usize, u32)>, start: nat, last: nat, p: int, q: int)
    requires
        start <= last + 1,
        0 <= p < q < o.len(),
        place(o, start, last).0[p] is Some,
        place(o, start, last).0[q] is Some,
    ensures
        place(o, start, last).0[p]->Some_0 + pow2(o[p].1 as nat) <= place(o, start, last).0[q]->Some_0,
    decreases o.len(),
{
    let r = o.drop_last();
    lemma_place(r, start, last);
    lemma_place(o, start, last);
    let prev = place(r, start, last);
    let cur = place(o, start, last);
    assert(cur.0[p] == prev.0[p]);
    assert(o[p] == r[p]);
    if q == o.len() - 1 {
        assert(cur.0[q] == Some(prev.1));
    } else {
        assert(cur.0[q] == prev.0[q]);
        lemma_place_ordered(r, start, last, p, q);
    }
}

/// A multiple of `2^x` is a multiple of `2^y` for `y <= x`.
proof fn lemma_pow2_divides(a: nat, x: nat, y: nat)
    requires
        y <= x,
        a % pow2(x) == 0,
    ensures
        a % pow2(y) == 0,
{
    vstd::arithmetic::power2::lemma_pow2_adds(y, (x - y) as nat);
    vstd::arithmetic::power2::lemma_pow2_pos(y);
    vstd::arithmetic::power2::lemma_pow2_pos((x - y) as nat);
    assert(y + (x - y) as nat == x);
    vstd::arithmetic::div_mod::lemma_mod_mod(a as int, pow2(y) as int, pow2((x - y) as nat) as int);
}

/// Placing blocks largest first from an address aligned to the largest
/// possible block puts each block at a multiple of its own size.
proof fn lemma_place_aligned(o: Seq<(usize, u32)>, start: nat, last: nat, top: nat)
    requires
        start <= last + 1,
        sorted_by(o, alloc_leq_fn()),
        forall|p: int| 0 <= p < o.len() ==> (#[trigger] o[p]).1 <= top,
        start % pow2(top) == 0,
    ensures
        forall|p: int|
            0 <= p < o.len() ==> ((#[trigger] place(o, start, last).0[p]) matches Some(off) ==> off
                % pow2(o[p].1 as nat) == 0),
        o.len() > 0 ==> place(o, start, last).1 % pow2(o.last().1 as nat) == 0,
        o.len() == 0 ==> place(o, start, last).1 == start,
    decreases o.len(),
{
    if o.len() > 0 {
        let r = o.drop_last();
        assert(sorted_by(r, alloc_leq_fn())) by {
            assert forall|i: int, j: int| 0 <= i < j < r.len() implies #[trigger] alloc_leq_fn()(
                r[i],
                r[j],
            ) by {
                assert(r[i] == o[i] && r[j] == o[j]);
            }
        }
        assert forall|p: int| 0 <= p < r.len() implies (#[trigger] r[p]).1 <= top by {
            assert(r[p] == o[p]);
        }
        lemma_place_aligned(r, start, last, top);
        lemma_place(r, start, last);
        let prev = place(r, start, last);
        let cur = place(o, start, last);
        let e = o.last().1 as nat;
        let c = prev.1;
        assert(o.last() == o[o.len() - 1]);
        if r.len() == 0 {
            lemma_pow2_divides(start, top, e);
        } else {
            assert(r.last() == o[r.len() - 1]);
            assert(alloc_leq_fn()(o[r.len() - 1], o[o.len() - 1]));
            lemma_pow2_divides(c, r.last().1 as nat, e);
        }
        vstd::arithmetic::power2::lemma_pow2_pos(e);
        vstd::arithmetic::div_mod::lemma_mod_add_multiples_vanish(c as int, pow2(e) as int);
        assert forall|p: int| 0 <= p < o.len() implies ((#[trigger] cur.0[p]) matches Some(off) ==> off
            % pow2(o[p].1 as nat) == 0) by {
            if p < r.len() {
                assert(cur.0[p] == prev.0[p]);
                assert(o[p] == r[p]);
            }
        }
    }
}

/// A well-formed subnet's network is a multiple of its size, and its size is
/// `2^(32 - cidr)`.
proof fn lemma_base_aligned(base: SubnetInfo)
    requires
        base.well_formed(),
    ensures
        base.total_ips == pow2((32 - base.cidr) as nat),
        (base.network as nat) % pow2((32 - base.cidr) as nat) == 0,
{
    let c = base.cidr;
    let n = base.network;
    let m = base.mask;
    let k = (32 - c) as u64;
    crate::subnet::lemma_well_formed_bounds(base);
    crate::subnet::lemma_block_size(c);
    lemma_u64_pow2_no_overflow(k as nat);
    lemma_u64_shl_is_mul(1, k);
    assert(block_size(c) == 1u64 << k);
    assert(base.total_ips == pow2(k as nat));
    assert(pow2(k as nat) == (!m) as nat + 1);
    assert(n & m == n ==> (n as u64) & ((!m) as u64) == 0u64) by (bit_vector);
    vstd::bits::lemma_u64_low_bits_mask_is_mod(n as u64, k as nat);
    assert(vstd::bits::low_bits_mask(k as nat) == (!m) as nat);
    assert((n as u64) % (pow2(k as nat) as u64) == 0);
}

/// Where requirement `i` got a block: inside the base network, large enough
/// for its hosts plus network and broadcast address.
pub proof fn lemma_outcome_placed(hosts: Seq<usize>, base: SubnetInfo, i: int)
    requires
        base.well_formed(),
        hosts.len() <= usize::MAX,
        0 <= i < hosts.len(),
    ensures
        outcome(hosts, base, i) matches Outcome::Placed(off, e) ==> {
            &&& base.network <= off
            &&& off + pow2(e as nat) - 1 <= base.broadcast
            &&& 2 <= e <= 32
            &&& pow2(e as nat) >= hosts[i] + 2
            &&& off % pow2(e as nat) == 0
        },
{
    crate::subnet::lemma_well_formed_bounds(base);
    let total = base.total_ips;
    if let Outcome::Placed(off, e) = outcome(hosts, base, i) {
        lemma_classify_exp(hosts[i], total);
        let n = (hosts[i] + 2) as nat;
        lemma_ceil_log2(n);
        lemma2_to64();
        let c = ceil_log2(n);
        if c < 2 {
            if c == 1 {
                assert(pow2(1) == 2);
            } else {
                assert(pow2(0) == 1);
            }
        }
        let o = alloc_order(hosts, total);
        lemma_alloc_order(hosts, total);
        lemma_pending_items(hosts, total);
        let p = choose|p: int| 0 <= p < o.len() && o[p].0 == i;
        let x = (i as usize, e);
        assert(pending_items(hosts, total).contains(x));
        assert(o.contains(x));
        let pp = choose|pp: int| 0 <= pp < o.len() && o[pp] == x;
        if pp != p {
            if pp < p {
                assert(o[pp].0 != o[p].0);
            } else {
                assert(o[p].0 != o[pp].0);
            }
        }
        lemma_place(o, base.network as nat, base.broadcast as nat);
        let top = (32 - base.cidr) as nat;
        lemma_base_aligned(base);
        assert forall|q: int| 0 <= q < o.len() implies (#[trigger] o[q]).1 <= top by {
            assert(pending_items(hosts, total).contains(o[q]));
            let a = choose|a: int| 0 <= a < pending_items(hosts, total).len() && pending_items(hosts, total)[a] == o[q];
            assert(classify(hosts[o[q].0 as int], total) == Ok::<u32, FailKind>(o[q].1));
            lemma_classify_exp(hosts[o[q].0 as int], total);
            let cl = ceil_log2((hosts[o[q].0 as int] + 2) as nat);
            assert(pow2(cl) <= total);
            if cl > 32 {
                lemma2_to64();
                lemma_pow2_strictly_increases(32, cl);
            }
            assert(o[q].1 as nat == cl);
            if o[q].1 > top {
                lemma_pow2_strictly_increases(top, o[q].1 as nat);
            }
        }
        lemma_place_aligned(o, base.network as nat, base.broadcast as nat, top);
        assert(o[pp].1 == e);
    }
}

/// The blocks of two different requirements do not overlap.
pub proof fn lemma_outcome_disjoint(hosts: Seq<usize>, base: SubnetInfo, i: int, j: int)
    requires
        base.well_formed(),
        hosts.len() <= usize::MAX,
        0 <= i < hosts.len(),
        0 <= j < hosts.len(),
        i != j,
        outcome(hosts, base, i) is Placed,
        outcome(hosts, base, j) is Placed,
    ensures
        ({
            let (oi, ei) = (outcome(hosts, base, i)->Placed_0, outcome(hosts, base, i)->Placed_1);
            let (oj, ej) = (outcome(hosts, base, j)->Placed_0, outcome(hosts, base, j)->Placed_1);
            oi + pow2(ei as nat) <= oj || oj + pow2(ej as nat) <= oi
        }),
{
    crate::subnet::lemma_well_formed_bounds(base);
    let total = base.total_ips;
    let o = alloc_order(hosts, total);
    lemma_alloc_order(hosts, total);
    lemma_pending_items(hosts, total);
    let pi = choose|p: int| 0 <= p < o.len() && o[p].0 == i;
    let pj = choose|p: int| 0 <= p < o.len() && o[p].0 == j;
    let ei = classify(hosts[i], total)->Ok_0;
    let ej = classify(hosts[j], total)->Ok_0;
    assert(pending_items(hosts, total).contains((i as usize, ei)));
    assert(o.contains((i as usize, ei)));
    assert(pending_items(hosts, total).contains((j as usize, ej)));
    assert(o.contains((j as usize, ej)));
    assert(o[pi].1 == ei) by {
        let q = choose|q: int| 0 <= q < o.len() && o[q] == (i as usize, ei);
        if q != pi {
            if q < pi {
                assert(o[q].0 != o[pi].0);
            } else {
                assert(o[pi].0 != o[q].0);
            }
        }
    }
    assert(o[pj].1 == ej) by {
        let q = choose|q: int| 0 <= q < o.len() && o[q] == (j as usize, ej);
        if q != pj {
            if q < pj {
                assert(o[q].0 != o[pj].0);
            } else {
                assert(o[pj].0 != o[q].0);
            }
        }
    }
    if pi < pj {
        lemma_place_ordered(o, base.network as nat, base.broadcast as nat, pi, pj);
    } else {
        lemma_place_ordered(o, base.network as nat, base.broadcast as nat, pj, pi);
    }
}

/// The allocations among the first `k` requirements: every requirement is
/// either allocated or failed; each allocated block lies in the base network,
/// starts at a multiple of its size and leaves room for its hosts, which run
/// from the address after the network to the one before the broadcast; no
/// two allocated blocks overlap.
pub open spec fn allocation_sound(base: SubnetInfo, allocated: Seq<EntryModel>) -> bool {
    &&& forall|t: int|
        0 <= t < allocated.len() ==> {
            let a = #[trigger] allocated[t];
            &&& base.network <= a.network <= a.broadcast <= base.broadcast
            &&& a.usable >= a.required_hosts
            &&& a.broadcast - a.network + 1 == a.allocated_block
            &&& (a.network as nat) % (a.allocated_block as nat) == 0
            &&& a.cidr <= 30
            &&& a.first_host == a.network + 1
            &&& a.last_host + 1 == a.broadcast
            &&& a.usable == a.last_host - a.first_host + 1
        }
    &&& forall|t1: int, t2: int|
        0 <= t1 < t2 < allocated.len() ==> (#[trigger] allocated[t1]).broadcast < (
        #[trigger] allocated[t2]).network || allocated[t2].broadcast < allocated[t1].network
}

proof fn lemma_upto(reqs: Seq<(Seq<char>, usize)>, base: SubnetInfo, k: nat)
    requires
        base.well_formed(),
        reqs.len() <= usize::MAX,
        k <= reqs.len(),
    ensures
        allocated_upto(reqs, base, k).len() + failed_upto(reqs, base, k).len() == k,
        allocation_sound(base, allocated_upto(reqs, base, k)),
        forall|t: int|
            #![trigger allocated_upto(reqs, base, k)[t]]
            0 <= t < allocated_upto(reqs, base, k).len() ==> exists|i: int|
                0 <= i < k && #[trigger] outcome(hosts_of(reqs), base, i) is Placed && allocated_upto(
                    reqs,
                    base,
                    k,
                )[t] == entry_model(
                    reqs[i].0,
                    reqs[i].1,
                    outcome(hosts_of(reqs), base, i)->Placed_0,
                    outcome(hosts_of(reqs), base, i)->Placed_1,
                ),
    decreases k,
{
    let hosts = hosts_of(reqs);
    if k > 0 {
        lemma_upto(reqs, base, (k - 1) as nat);
        let prev = allocated_upto(reqs, base, (k - 1) as nat);
        let cur = allocated_upto(reqs, base, k);
        let i = k - 1;
        assert(hosts[i] == reqs[i].1);
        lemma_outcome_placed(hosts, base, i);
        if let Outcome::Placed(off, e) = outcome(hosts, base, i) {
            let en = entry_model(reqs[i].0, reqs[i].1, off, e);
            assert(cur == prev.push(en));
            lemma2_to64();
            vstd::arithmetic::power2::lemma_pow2_pos(e as nat);
            vstd::arithmetic::power2::lemma_pow2_strictly_increases(e as nat, 33);
            if e < 32 {
                vstd::arithmetic::power2::lemma_pow2_strictly_increases(e as nat, 32);
            }
            assert(en.allocated_block == pow2(e as nat));
            assert forall|t: int| #![trigger cur[t]] 0 <= t < cur.len() implies exists|j: int|
                0 <= j < k && #[trigger] outcome(hosts, base, j) is Placed && cur[t] == entry_model(
                    reqs[j].0,
                    reqs[j].1,
                    outcome(hosts, base, j)->Placed_0,
                    outcome(hosts, base, j)->Placed_1,
                ) by {
                if t < prev.len() {
                    assert(cur[t] == prev[t]);
                } else {
                    assert(cur[t] == en);
                    assert(outcome(hosts, base, i) is Placed);
                }
            }
            assert forall|t1: int, t2: int| 0 <= t1 < t2 < cur.len() implies (
            #[trigger] cur[t1]).broadcast < (#[trigger] cur[t2]).network || cur[t2].broadcast
                < cur[t1].network by {
                if t2 == prev.len() {
                    assert(cur[t1] == prev[t1]);
                    let j = choose|j: int|
                        0 <= j < k - 1 && #[trigger] outcome(hosts, base, j) is Placed && prev[t1]
                            == entry_model(
                            reqs[j].0,
                            reqs[j].1,
                            outcome(hosts, base, j)->Placed_0,
                            outcome(hosts, base, j)->Placed_1,
                        );
                    lemma_outcome_placed(hosts, base, j);
                    lemma_outcome_disjoint(hosts, base, j, i);
                    let ej = outcome(hosts, base, j)->Placed_1;
                    vstd::arithmetic::power2::lemma_pow2_pos(ej as nat);
                } else {
                    assert(cur[t1] == prev[t1]);
                    assert(cur[t2] == prev[t2]);
                }
            }
        } else {
            assert(cur == prev);
        }
    }
}

/// The allocation law of `vlsm`: every requirement ends up either allocated
/// or failed, each allocated block lies inside the base network, starts at a
/// multiple of its size and has room for its hosts, and no two allocated
/// blocks overlap.
pub proof fn lemma_vlsm_sound(base_input: Seq<char>, reqs: Seq<(Seq<char>, usize)>)
    requires
        reqs.len() <= usize::MAX,
    ensures
        vlsm_model(base_input, reqs) matches Ok(res) ==> {
            &&& res.allocated.len() + res.failed.len() == reqs.len()
            &&& allocation_sound(analyze_model(base_input)->Ok_0, res.allocated)
        },
{
    crate::subnet::lemma_analyze_well_formed(base_input);
    if let Ok(base) = analyze_model(base_input) {
        if reqs.len() > 0 {
            lemma_upto(reqs, base, reqs.len());
        }
    }
}

// ---------------------------------------------------------------------------
// What each requirement gets
// ---------------------------------------------------------------------------

/// The block a requirement gets is the smallest power of two holding its
/// hosts plus the network and broadcast addresses; it fails for no host,
/// for a count whose block cannot be computed, or for a block larger than
/// the whole base.
pub proof fn lemma_classify_exact(h: usize, total: u64)
    requires
        total <= 0x1_0000_0000,
    ensures
        (classify(h, total) == Err::<u32, FailKind>(FailKind::ZeroHosts)) <==> h == 0,
        (classify(h, total) == Err::<u32, FailKind>(FailKind::Overflow)) <==> (h >= 1 && h + 2
            > usize::MAX),
        classify(h, total) matches Ok(e) ==> {
            &&& h >= 1
            &&& pow2(e as nat) >= h + 2
            &&& pow2(e as nat) <= total
            &&& forall|k: nat| #[trigger] pow2(k) >= h + 2 ==> k >= e
        },
        classify(h, total) == Err::<u32, FailKind>(FailKind::TooLarge) ==> {
            &&& h >= 1
            &&& h + 2 <= usize::MAX
            &&& forall|k: nat| #[trigger] pow2(k) >= h + 2 ==> pow2(k) > total
        },
        classify(h, total) != Err::<u32, FailKind>(FailKind::NoSpace),
{
    if h >= 1 && h + 2 <= usize::MAX {
        let n = (h + 2) as nat;
        let c = ceil_log2(n);
        lemma_ceil_log2(n);
        lemma2_to64();
        if c > 64 {
            assert(pow2(64) >= n);
        }
        assert(c <= 64);
        assert((c as u32) as nat == c);
        assert forall|k: nat| #[trigger] pow2(k) >= h + 2 implies pow2(k) >= pow2(c) by {
            if k > c {
                lemma_pow2_strictly_increases(c, k);
            }
        }
    }
}

/// The space the requirements' blocks take together.
pub open spec fn space_needed(hosts: Seq<usize>, total: u64) -> nat
    decreases hosts.len(),
{
    if hosts.len() == 0 {
        0
    } else {
        space_needed(hosts.drop_last(), total) + match classify(hosts.last(), total) {
            Ok(e) => pow2(e as nat),
            Err(_) => 0,
        }
    }
}

/// The size of the blocks of `o` together.
spec fn blocks_sum(o: Seq<(usize, u32)>) -> nat
    decreases o.len(),
{
    if o.len() == 0 {
        0
    } else {
        blocks_sum(o.drop_last()) + pow2(o.last().1 as nat)
    }
}

spec fn add_block() -> spec_fn((usize, u32), nat) -> nat {
    |x: (usize, u32), acc: nat| acc + pow2(x.1 as nat)
}

proof fn lemma_blocks_sum_fold(o: Seq<(usize, u32)>, b: nat)
    ensures
        o.fold_right(add_block(), b) == blocks_sum(o) + b,
    decreases o.len(),
{
    if o.len() > 0 {
        lemma_blocks_sum_fold(o.drop_last(), b + pow2(o.last().1 as nat));
    }
}

proof fn lemma_pending_space(hosts: Seq<usize>, total: u64)
    ensures
        blocks_sum(pending_items(hosts, total)) == space_needed(hosts, total),
    decreases hosts.len(),
{
    if hosts.len() > 0 {
        lemma_pending_space(hosts.drop_last(), total);
        let rest = pending_items(hosts.drop_last(), total);
        if let Ok(e) = classify(hosts.last(), total) {
            let p = rest.push(((hosts.len() - 1) as usize, e));
            assert(p.drop_last() =~= rest);
        }
    }
}

/// Blocks placed one after another all fit when their sizes together do.
proof fn lemma_place_fits(o: Seq<(usize, u32)>, start: nat, last: nat)
    requires
        start + blocks_sum(o) <= last + 1,
    ensures
        place(o, start, last).1 == start + blocks_sum(o),
        forall|p: int| 0 <= p < o.len() ==> (#[trigger] place(o, start, last).0[p]) is Some,
    decreases o.len(),
{
    if o.len() > 0 {
        let r = o.drop_last();
        vstd::arithmetic::power2::lemma_pow2_pos(o.last().1 as nat);
        lemma_place_fits(r, start, last);
        lemma_place(r, start, last);
        let prev = place(r, start, last);
        let cur = place(o, start, last);
        assert forall|p: int| 0 <= p < o.len() implies (#[trigger] cur.0[p]) is Some by {
            if p < r.len() {
                assert(cur.0[p] == prev.0[p]);
            }
        }
    }
}

/// When the blocks of all the requirements fit in the base network together,
/// no requirement fails for want of space.
pub proof fn lemma_vlsm_fits(hosts: Seq<usize>, base: SubnetInfo, i: int)
    requires
        base.well_formed(),
        hosts.len() <= usize::MAX,
        0 <= i < hosts.len(),
        space_needed(hosts, base.total_ips) <= base.total_ips,
    ensures
        outcome(hosts, base, i) != Outcome::Failed(FailKind::NoSpace),
{
    crate::subnet::lemma_well_formed_bounds(base);
    let total = base.total_ips;
    if let Ok(e) = classify(hosts[i], total) {
        let pend = pending_items(hosts, total);
        let o = alloc_order(hosts, total);
        lemma_alloc_order(hosts, total);
        lemma_pending_items(hosts, total);
        lemma_alloc_leq_total();
        pend.lemma_sort_by_ensures(alloc_leq_fn());
        lemma_pending_space(hosts, total);
        vstd::seq_lib::lemma_fold_right_permutation(o, pend, add_block(), 0);
        lemma_blocks_sum_fold(o, 0);
        lemma_blocks_sum_fold(pend, 0);
        lemma_place_fits(o, base.network as nat, base.broadcast as nat);
        let x = (i as usize, e);
        assert(pend.contains(x));
        assert(o.contains(x));
        let p = choose|p: int| 0 <= p < o.len() && o[p].0 == i;
        assert(place(o, base.network as nat, base.broadcast as nat).0[p] is Some);
    }
}

proof fn lemma_failed_upto(reqs: Seq<(Seq<char>, usize)>, base: SubnetInfo, k: nat)
    requires
        k <= reqs.len(),
    ensures
        forall|t: int|
            #![trigger failed_upto(reqs, base, k)[t]]
            0 <= t < failed_upto(reqs, base, k).len() ==> exists|i: int|
                0 <= i < k && #[trigger] outcome(hosts_of(reqs), base, i) is Failed
                    && failed_upto(reqs, base, k)[t].reason == reason_text(
                    outcome(hosts_of(reqs), base, i)->Failed_0,
                ),
    decreases k,
{
    if k > 0 {
        lemma_failed_upto(reqs, base, (k - 1) as nat);
        let prev = failed_upto(reqs, base, (k - 1) as nat);
        let cur = failed_upto(reqs, base, k);
        let i = k - 1;
        assert forall|t: int| #![trigger cur[t]] 0 <= t < cur.len() implies exists|j: int|
            0 <= j < k && #[trigger] outcome(hosts_of(reqs), base, j) is Failed && cur[t].reason
                == reason_text(outcome(hosts_of(reqs), base, j)->Failed_0) by {
            if t < prev.len() {
                assert(cur[t] == prev[t]);
            } else {
                assert(outcome(hosts_of(reqs), base, i) is Failed);
            }
        }
    }
}

/// When the blocks of all the requirements fit in the base network
/// together, `vlsm` reports no failure for want of space.
pub proof fn lemma_vlsm_no_space_failure(base_input: Seq<char>, reqs: Seq<(Seq<char>, usize)>)
    requires
        reqs.len() <= usize::MAX,
    ensures
        vlsm_model(base_input, reqs) matches Ok(res) ==> (space_needed(
            hosts_of(reqs),
            analyze_model(base_input)->Ok_0.total_ips,
        ) <= analyze_model(base_input)->Ok_0.total_ips ==> forall|t: int|
            0 <= t < res.failed.len() ==> (#[trigger] res.failed[t]).reason != "地址空间不足"@),
{
    crate::subnet::lemma_analyze_well_formed(base_input);
    if let Ok(base) = analyze_model(base_input) {
        if reqs.len() > 0 && space_needed(hosts_of(reqs), base.total_ips) <= base.total_ips {
            let hosts = hosts_of(reqs);
            lemma_failed_upto(reqs, base, reqs.len());
            let f = failed_upto(reqs, base, reqs.len());
            reveal_strlit("地址空间不足");
            reveal_strlit("需求主机数必须 ≥ 1");
            reveal_strlit("主机数计算溢出");
            reveal_strlit("块大小超过基础网段容量");
            assert forall|t: int| 0 <= t < f.len() implies (#[trigger] f[t]).reason != "地址空间不足"@ by {
                let i = choose|i: int|
                    0 <= i < reqs.len() && #[trigger] outcome(hosts, base, i) is Failed && f[t].reason
                        == reason_text(outcome(hosts, base, i)->Failed_0);
                lemma_vlsm_fits(hosts, base, i);
                let kind = outcome(hosts, base, i)->Failed_0;
                assert(kind != FailKind::NoSpace);
                assert("需求主机数必须 ≥ 1"@.len() != "地址空间不足"@.len());
                assert("主机数计算溢出"@.len() != "地址空间不足"@.len());
                assert("块大小超过基础网段容量"@.len() != "地址空间不足"@.len());
            }
        }
    }
}

} // verus!
