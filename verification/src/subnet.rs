//! Analysis of one subnet given as `IP/prefix`, `IP mask` or a bare IP.
use vstd::prelude::*;

use crate::ip::{
    binary_dotted, class_of, dotted, ip_class, ipv4_model, is_private, parse_ipv4_chars,
    private_address, push_dotted, to_binary, IpClass, IpError, IpFault,
};
use crate::mask::{cidr_mask, cidr_to_mask, mask_model, parse_mask_chars, wildcard_mask, MaskError, MaskFault};
use crate::normalize::{normalize_chars, normalized};
use crate::text::{
    chars_of, dec, first_index_of, is_digit, is_ws, join, lemma_dec, lemma_first_index, lemma_split_concat,
    lemma_split_single, lemma_trim_id, push_dec, split, split_once, sub_vec, trim,
};
use crate::normalize::{is_blank, squeeze, trimmed_pieces, widen};
use crate::ip::{lemma_dotted_chars, lemma_parse_dotted};
use crate::mask::lemma_parse_prefix;

verus! {

/// Why a text does not describe a subnet.
#[derive(Debug, Clone, PartialEq, Eq)]
pub enum SubnetError {
    IpError(IpError),
    MaskError(MaskError),
    NoDefaultMask(IpClass),
    Empty,
}

/// The mathematical content of a `SubnetError`.
pub enum SubnetFault {
    IpError(IpFault),
    MaskError(MaskFault),
    NoDefaultMask(IpClass),
    Empty,
}

impl View for SubnetError {
    type V = SubnetFault;

    open spec fn view(&self) -> SubnetFault {
        match self {
            SubnetError::IpError(e) => SubnetFault::IpError(e@),
            SubnetError::MaskError(e) => SubnetFault::MaskError(e@),
            SubnetError::NoDefaultMask(c) => SubnetFault::NoDefaultMask(*c),
            SubnetError::Empty => SubnetFault::Empty,
        }
    }
}

/// The message shown for a subnet error.
pub open spec fn subnet_error_text(f: SubnetFault) -> Seq<char> {
    match f {
        SubnetFault::IpError(e) => crate::ip::ip_error_text(e),
        SubnetFault::MaskError(e) => crate::mask::mask_error_text(e),
        SubnetFault::NoDefaultMask(c) => crate::ip::class_description(c) + "无默认子网掩码"@,
        SubnetFault::Empty => "输入为空"@,
    }
}

impl SubnetError {
    /// The message that describes the error.
    pub fn to_string(&self) -> (s: String)
        ensures
            s@ == subnet_error_text(self@),
    {
        match self {
            SubnetError::IpError(e) => e.to_string(),
            SubnetError::MaskError(e) => e.to_string(),
            SubnetError::NoDefaultMask(c) => {
                let mut out = String::new();
                crate::text::push_str(&mut out, c.description());
                crate::text::push_str(&mut out, "无默认子网掩码");
                assert(out@ =~= subnet_error_text(self@));
                out
            },
            SubnetError::Empty => {
                let mut out = String::new();
                crate::text::push_str(&mut out, "输入为空");
                assert(out@ =~= subnet_error_text(self@));
                out
            },
        }
    }
}

impl From<IpError> for SubnetError {
    fn from(e: IpError) -> (r: Self) {
        SubnetError::IpError(e)
    }
}

impl vstd::std_specs::convert::FromSpecImpl<IpError> for SubnetError {
    open spec fn obeys_from_spec() -> bool {
        true
    }

    open spec fn from_spec(e: IpError) -> Self {
        SubnetError::IpError(e)
    }
}

impl From<MaskError> for SubnetError {
    fn from(e: MaskError) -> (r: Self) {
        SubnetError::MaskError(e)
    }
}

impl vstd::std_specs::convert::FromSpecImpl<MaskError> for SubnetError {
    open spec fn obeys_from_spec() -> bool {
        true
    }

    open spec fn from_spec(e: MaskError) -> Self {
        SubnetError::MaskError(e)
    }
}

/// Everything that the analysis of one subnet reports.
#[derive(Debug, Clone, Copy, PartialEq, Eq, Structural)]
pub struct SubnetInfo {
    pub network: u32,
    pub broadcast: u32,
    pub mask: u32,
    pub wildcard: u32,
    pub cidr: u8,
    pub total_ips: u64,
    pub usable_ips: u64,
    pub first_host: u32,
    pub last_host: u32,
    pub ip_class: IpClass,
    pub is_private: bool,
}

/// The number of addresses in a block of prefix length `c`: 2 to the power `32 - c`.
pub open spec fn block_size(c: u8) -> u64 {
    (1u64 << ((32 - c) as u64)) as u64
}

/// The subnet of prefix length `c` that holds `ip`. A /31 has both its
/// addresses usable (RFC 3021), a /32 its single address; a shorter prefix
/// leaves out the network and broadcast addresses. Class and privacy are
/// those of `ip`.
pub open spec fn subnet_of(ip: u32, c: u8) -> SubnetInfo {
    let mask = cidr_mask(c);
    let network = ip & mask;
    let wildcard = !mask;
    let broadcast = network | wildcard;
    let total = block_size(c);
    SubnetInfo {
        network,
        broadcast,
        mask,
        wildcard,
        cidr: c,
        total_ips: total,
        usable_ips: if c == 31 {
            2
        } else if c == 32 {
            1
        } else {
            (total - 2) as u64
        },
        first_host: if c == 31 || c == 32 {
            network
        } else {
            (network + 1) as u32
        },
        last_host: if c == 31 {
            broadcast
        } else if c == 32 {
            network
        } else {
            (broadcast - 1) as u32
        },
        ip_class: class_of(ip),
        is_private: private_address(ip),
    }
}

impl SubnetInfo {
    /// The numeric fields are those of the subnet of its own network and
    /// prefix length (class and privacy are free).
    pub open spec fn well_formed(self) -> bool {
        let s = subnet_of(self.network, self.cidr);
        &&& self.cidr <= 32
        &&& self.network & cidr_mask(self.cidr) == self.network
        &&& self.broadcast == s.broadcast
        &&& self.mask == s.mask
        &&& self.wildcard == s.wildcard
        &&& self.total_ips == s.total_ips
        &&& self.usable_ips == s.usable_ips
        &&& self.first_host == s.first_host
        &&& self.last_host == s.last_host
    }

    /// `ip` lies in this subnet.
    pub open spec fn holds(self, ip: u32) -> bool {
        ip & self.mask == self.network
    }
}

/// The default prefix length of a class, where it has one.
pub open spec fn default_prefix(c: IpClass) -> Option<u8> {
    match c {
        IpClass::ClassA => Some(8u8),
        IpClass::ClassB => Some(16u8),
        IpClass::ClassC => Some(24u8),
        _ => None,
    }
}

/// An address part and a mask part, parsed.
pub open spec fn pair_model(ip_part: Seq<char>, mask_part: Seq<char>) -> Result<SubnetInfo, SubnetFault> {
    match ipv4_model(ip_part) {
        Err(e) => Err(SubnetFault::IpError(e)),
        Ok(ip) => match mask_model(mask_part) {
            Err(e) => Err(SubnetFault::MaskError(e)),
            Ok(c) => Ok(subnet_of(ip, c)),
        },
    }
}

/// What `analyze` gives for the text `s`. After normalisation the text is
/// split at its first `/`, else at its first space, into address and mask;
/// a bare address takes the default prefix of its class (A, B, C).
pub open spec fn analyze_model(s: Seq<char>) -> Result<SubnetInfo, SubnetFault> {
    let n = normalized(s);
    if n.len() == 0 {
        Err(SubnetFault::Empty)
    } else {
        match split_once(n, '/') {
            Some((a, m)) => pair_model(a, m),
            None => match split_once(n, ' ') {
                Some((a, m)) => pair_model(a, m),
                None => match ipv4_model(n) {
                    Err(e) => Err(SubnetFault::IpError(e)),
                    Ok(ip) => match default_prefix(class_of(ip)) {
                        Some(c) => Ok(subnet_of(ip, c)),
                        None => Err(SubnetFault::NoDefaultMask(class_of(ip))),
                    },
                },
            },
        }
    }
}

pub(crate) proof fn lemma_block_size(c: u8)
    by (bit_vector)
    requires
        c <= 32,
    ensures
        c <= 30 ==> block_size(c) >= 4,
        block_size(c) >= 1,
        block_size(c) == (!cidr_mask(c)) as u64 + 1,
{
}

/// The fields of a subnet: the network lies below its broadcast address
/// (for prefixes up to 30 with room for a first and last host).
pub proof fn lemma_subnet_bounds(ip: u32, c: u8)
    requires
        c <= 32,
    ensures
        subnet_of(ip, c).network <= subnet_of(ip, c).broadcast,
        c <= 30 ==> subnet_of(ip, c).network + 3 <= subnet_of(ip, c).broadcast,
        subnet_of(ip, c).broadcast - subnet_of(ip, c).network + 1 == block_size(c),
{
    let m = cidr_mask(c);
    lemma_block_size(c);
    assert(c <= 32 ==> (ip & m) <= ((ip & m) | !m)) by (bit_vector)
        requires
            m == cidr_mask(c),
    ;
    assert(c <= 30 ==> (ip & m) + 3 <= ((ip & m) | !m)) by (bit_vector)
        requires
            m == cidr_mask(c),
    ;
    assert(c <= 32 ==> ((ip & m) | !m) - (ip & m) == !m) by (bit_vector)
        requires
            m == cidr_mask(c),
    ;
}

/// The subnet computed from `ip` is well formed and holds `ip`.
pub proof fn lemma_subnet_well_formed(ip: u32, c: u8)
    requires
        c <= 32,
    ensures
        subnet_of(ip, c).well_formed(),
        subnet_of(ip, c).holds(ip),
{
    let m = cidr_mask(c);
    assert((ip & m) & m == ip & m) by (bit_vector);
}

/// The numbers of a well-formed subnet: its block runs from the network to
/// the broadcast address and holds `total_ips` addresses, at most 2^32.
pub proof fn lemma_well_formed_bounds(info: SubnetInfo)
    requires
        info.well_formed(),
    ensures
        info.network <= info.broadcast,
        info.broadcast - info.network + 1 == info.total_ips,
        1 <= info.total_ips <= 0x1_0000_0000,
        info.mask == cidr_mask(info.cidr),
        info.broadcast == info.network | !info.mask,
{
    lemma_subnet_bounds(info.network, info.cidr);
    let c = info.cidr;
    assert(c <= 32 ==> block_size(c) <= 0x1_0000_0000u64) by (bit_vector);
}

/// The usable hosts of a well-formed subnet run from the first to the last
/// host, inside the block, and there are `usable_ips` of them.
pub proof fn lemma_hosts_range(info: SubnetInfo)
    requires
        info.well_formed(),
    ensures
        info.network <= info.first_host <= info.last_host <= info.broadcast,
        info.usable_ips == info.last_host - info.first_host + 1,
        info.usable_ips <= info.total_ips,
{
    lemma_well_formed_bounds(info);
    lemma_subnet_bounds(info.network, info.cidr);
    let c = info.cidr;
    assert(c == 31 ==> block_size(c) == 2) by (bit_vector);
    assert(c == 32 ==> block_size(c) == 1) by (bit_vector);
}

/// A successful analysis gives a well-formed subnet.
pub proof fn lemma_analyze_well_formed(s: Seq<char>)
    ensures
        analyze_model(s) matches Ok(info) ==> info.well_formed(),
{
    let n = normalized(s);
    if let Ok(info) = analyze_model(s) {
        let ip_mask = match split_once(n, '/') {
            Some((a, m)) => Some((a, m)),
            None => split_once(n, ' '),
        };
        match ip_mask {
            Some((a, m)) => {
                crate::mask::lemma_mask_model_bound(m);
                let ip = ipv4_model(a)->Ok_0;
                let c = mask_model(m)->Ok_0;
                lemma_subnet_well_formed(ip, c);
            },
            None => {
                let ip = ipv4_model(n)->Ok_0;
                let c = default_prefix(class_of(ip))->Some_0;
                lemma_subnet_well_formed(ip, c);
            },
        }
    }
}

/// An input with an address part and a mask part (split at the first `/`
/// of the normalised text, else at its first space): an address error is
/// reported first, then a mask error; otherwise the result is the subnet of
/// that prefix length holding the address, with the address's class and
/// privacy.
pub proof fn lemma_analyze_pair(s: Seq<char>, p: Seq<char>, q: Seq<char>)
    requires
        normalized(s).len() > 0,
        (split_once(normalized(s), '/') == Some((p, q))) || (split_once(normalized(s), '/') is None
            && split_once(normalized(s), ' ') == Some((p, q))),
    ensures
        ipv4_model(p) matches Err(e) ==> analyze_model(s) == Err::<SubnetInfo, SubnetFault>(
            SubnetFault::IpError(e),
        ),
        ipv4_model(p) is Ok ==> (mask_model(q) matches Err(e) ==> analyze_model(s) == Err::<
            SubnetInfo,
            SubnetFault,
        >(SubnetFault::MaskError(e))),
        ipv4_model(p) matches Ok(ip) ==> (mask_model(q) matches Ok(c) ==> {
            &&& analyze_model(s) matches Ok(info)
            &&& info.cidr == c
            &&& info.network == ip & cidr_mask(c)
            &&& info.ip_class == class_of(ip)
            &&& info.is_private == private_address(ip)
            &&& info.holds(ip)
        }),
{
    if let Ok(ip) = ipv4_model(p) {
        if let Ok(c) = mask_model(q) {
            crate::mask::lemma_mask_model_bound(q);
            lemma_subnet_well_formed(ip, c);
        }
    }
}

/// `a` and `b` describe the same block of addresses (class and privacy aside).
pub open spec fn same_block(a: SubnetInfo, b: SubnetInfo) -> bool {
    &&& a.network == b.network
    &&& a.broadcast == b.broadcast
    &&& a.mask == b.mask
    &&& a.wildcard == b.wildcard
    &&& a.cidr == b.cidr
    &&& a.total_ips == b.total_ips
    &&& a.usable_ips == b.usable_ips
    &&& a.first_host == b.first_host
    &&& a.last_host == b.last_host
}

proof fn lemma_squeeze_id(s: Seq<char>)
    requires
        forall|i: int| 0 <= i < s.len() ==> !is_blank(#[trigger] s[i]),
    ensures
        squeeze(s) == s,
    decreases s.len(),
{
    if s.len() > 0 {
        let p = s.drop_last();
        assert forall|i: int| 0 <= i < p.len() implies !is_blank(#[trigger] p[i]) by {
            assert(p[i] == s[i]);
        }
        lemma_squeeze_id(p);
        assert(!is_blank(s[s.len() - 1]));
        assert(p.push(s.last()) =~= s);
    }
}

/// Analysing the `network/prefix` text of a subnet gives back the subnet of
/// that network and prefix; for a well-formed subnet that is the same block.
pub proof fn lemma_analyze_cidr_text(info: SubnetInfo)
    requires
        info.cidr <= 32,
    ensures
        analyze_model(cidr_text(info)) == Ok::<SubnetInfo, SubnetFault>(
            subnet_of(info.network, info.cidr),
        ),
        info.well_formed() ==> same_block(subnet_of(info.network, info.cidr), info),
{
    let d = dotted(info.network);
    let p = dec(info.cidr as nat);
    let s = cidr_text(info);
    lemma_dotted_chars(info.network);
    lemma_dec(info.cidr as nat);
    assert forall|i: int| 0 <= i < s.len() implies is_digit(#[trigger] s[i]) || s[i] == '.' || s[i] == '/' by {
        if i < d.len() {
            assert(s[i] == d[i]);
        } else if i > d.len() {
            assert(s[i] == p[i - d.len() - 1]);
        }
    }
    // normalisation leaves the text alone
    assert(s.map_values(|c: char| widen(c)) =~= s);
    assert(s[0] == d[0]);
    assert(s.last() == p[p.len() - 1]);
    lemma_trim_id(s);
    lemma_squeeze_id(s);
    assert(!d.contains('/')) by {
        if d.contains('/') {
            let i = choose|i: int| 0 <= i < d.len() && d[i] == '/';
            assert(is_digit(d[i]) || d[i] == '.');
        }
    }
    assert(!p.contains('/')) by {
        if p.contains('/') {
            let i = choose|i: int| 0 <= i < p.len() && p[i] == '/';
            assert(is_digit(p[i]));
        }
    }
    lemma_split_single(d, '/');
    lemma_split_concat(d, p, '/');
    assert(split(s, '/') =~= seq![d, p]);
    lemma_trim_id(d);
    assert(d.last() == d[d.len() - 1]);
    lemma_trim_id(p);
    assert(trimmed_pieces(s) =~= seq![d, p]);
    assert(seq![d, p].drop_last() =~= seq![d]);
    assert(join(seq![d], '/') == d);
    assert(seq![d, p].last() == p);
    assert(join(seq![d, p], '/') == join(seq![d], '/').push('/') + p);
    assert(d.push('/') + p =~= s);
    assert(normalized(s) == s);
    // the first '/' separates address and prefix
    assert forall|j: int| 0 <= j < d.len() implies s[j] != '/' by {
        assert(s[j] == d[j]);
    }
    lemma_first_index(s, '/', d.len() as int);
    assert(s.take(d.len() as int) =~= d);
    assert(s.skip(d.len() as int + 1) =~= p);
    lemma_parse_dotted(info.network);
    lemma_parse_prefix(info.cidr);
}

/// Builds the subnet of prefix length `cidr` that holds `ip`.
pub fn subnet_from(ip: u32, cidr: u8) -> (info: SubnetInfo)
    requires
        cidr <= 32,
    ensures
        info == subnet_of(ip, cidr),
{
    let mask = cidr_to_mask(cidr);
    let network = ip & mask;
    let wildcard = wildcard_mask(mask);
    let broadcast = network | wildcard;
    let total_ips: u64 = 1u64 << (32 - cidr as u32) as u64;
    proof {
        lemma_subnet_bounds(ip, cidr);
    }
    let (usable_ips, first_host, last_host) = match cidr {
        31 => (2, network, broadcast),
        32 => (1, network, network),
        _ => (total_ips - 2, network + 1, broadcast - 1),
    };
    SubnetInfo {
        network,
        broadcast,
        mask,
        wildcard,
        cidr,
        total_ips,
        usable_ips,
        first_host,
        last_host,
        ip_class: ip_class(ip),
        is_private: is_private(ip),
    }
}

fn analyze_pair(ip_part: &Vec<char>, mask_part: &Vec<char>) -> (r: Result<SubnetInfo, SubnetError>)
    ensures
        match r {
            Ok(info) => pair_model(ip_part@, mask_part@) == Ok::<SubnetInfo, SubnetFault>(info),
            Err(e) => pair_model(ip_part@, mask_part@) == Err::<SubnetInfo, SubnetFault>(e@),
        },
{
    let ip = match parse_ipv4_chars(ip_part) {
        Ok(v) => v,
        Err(e) => {
            return Err(SubnetError::IpError(e));
        },
    };
    let cidr = match parse_mask_chars(mask_part) {
        Ok(c) => c,
        Err(e) => {
            return Err(SubnetError::MaskError(e));
        },
    };
    Ok(subnet_from(ip, cidr))
}

/// Splits `n` at its first `sep`, where it has one.
fn split_once_chars(n: &Vec<char>, sep: char) -> (r: Option<(Vec<char>, Vec<char>)>)
    ensures
        match r {
            Some((a, b)) => split_once(n@, sep) == Some((a@, b@)),
            None => split_once(n@, sep) is None,
        },
{
    let i = first_index_of(n, sep);
    if i < n.len() {
        Some((sub_vec(n, 0, i), sub_vec(n, i + 1, n.len())))
    } else {
        None
    }
}

/// Analyses a subnet given as `IP/prefix`, `IP/dotted-mask`, `IP mask` or a
/// bare IP of class A, B or C (which takes its class's default prefix).
pub fn analyze(input: &str) -> (r: Result<SubnetInfo, SubnetError>)
    ensures
        match r {
            Ok(info) => analyze_model(input@) == Ok::<SubnetInfo, SubnetFault>(info),
            Err(e) => analyze_model(input@) == Err::<SubnetInfo, SubnetFault>(e@),
        },
{
    let cs = chars_of(input);
    analyze_chars(&cs)
}

/// `analyze` on the characters `input`.
pub fn analyze_chars(input: &Vec<char>) -> (r: Result<SubnetInfo, SubnetError>)
    ensures
        match r {
            Ok(info) => analyze_model(input@) == Ok::<SubnetInfo, SubnetFault>(info),
            Err(e) => analyze_model(input@) == Err::<SubnetInfo, SubnetFault>(e@),
        },
{
    let n = normalize_chars(input);
    if n.len() == 0 {
        return Err(SubnetError::Empty);
    }
    if let Some((a, m)) = split_once_chars(&n, '/') {
        return analyze_pair(&a, &m);
    }
    if let Some((a, m)) = split_once_chars(&n, ' ') {
        return analyze_pair(&a, &m);
    }
    let ip = match parse_ipv4_chars(&n) {
        Ok(v) => v,
        Err(e) => {
            return Err(SubnetError::IpError(e));
        },
    };
    let cidr: u8 = match ip_class(ip) {
        IpClass::ClassA => 8,
        IpClass::ClassB => 16,
        IpClass::ClassC => 24,
        IpClass::ClassD | IpClass::ClassE => {
            return Err(SubnetError::NoDefaultMask(ip_class(ip)));
        },
    };
    Ok(subnet_from(ip, cidr))
}

/// `network/prefix` text of a subnet, e.g. `192.168.1.0/24`.
pub open spec fn cidr_text(info: SubnetInfo) -> Seq<char> {
    dotted(info.network) + seq!['/'] + dec(info.cidr as nat)
}

/// Appends `network/prefix` to `out`.
pub fn push_cidr(out: &mut String, info: &SubnetInfo)
    ensures
        final(out)@ == old(out)@ + cidr_text(*info),
{
    let ghost start = out@;
    push_dotted(out, info.network);
    out.push('/');
    push_dec(out, info.cidr as u64);
    assert(out@ =~= start + cidr_text(*info));
}

/// `network/prefix` text of a subnet.
pub fn cidr_representation(info: &SubnetInfo) -> (out: String)
    ensures
        out@ == cidr_text(*info),
{
    let mut out = String::new();
    push_cidr(&mut out, info);
    assert(Seq::<char>::empty() + cidr_text(*info) =~= cidr_text(*info));
    out
}

/// The mask of a subnet in binary, octets separated by `.`.
pub fn mask_binary_grouped(info: &SubnetInfo) -> (out: String)
    ensures
        out@ == binary_dotted(info.mask),
{
    to_binary(info.mask)
}

} // verus!
