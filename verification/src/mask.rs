//! Subnet masks: prefix lengths, contiguous masks, wildcard masks.
use vstd::prelude::*;

use crate::ip::{dotted, from_octets, hex_digits, octet, push_dotted, push_hex};
use crate::text::{push_dec, push_str, dec, is_digit, lemma_dec, lemma_dec_excludes, lemma_parse_dec, lemma_split_concat, lemma_split_single, lemma_trim_id, chars_of, contains_char, parse_u32, parse_u32_chars, split, split_chars, string_of, trim, trim_chars};

verus! {

/// Why a text is not a mask.
#[derive(Debug, Clone, PartialEq, Eq)]
pub enum MaskError {
    Empty,
    InvalidPrefixLength(u32),
    NotNumber(String),
    InvalidMask(u32),
    WrongSegmentCount(usize),
    SegmentOutOfRange { segment: String, value: u32 },
}

/// The mathematical content of a `MaskError`.
pub enum MaskFault {
    Empty,
    InvalidPrefixLength(u32),
    NotNumber(Seq<char>),
    InvalidMask(u32),
    WrongSegmentCount(nat),
    SegmentOutOfRange(Seq<char>, u32),
}

impl View for MaskError {
    type V = MaskFault;

    open spec fn view(&self) -> MaskFault {
        match self {
            MaskError::Empty => MaskFault::Empty,
            MaskError::InvalidPrefixLength(v) => MaskFault::InvalidPrefixLength(*v),
            MaskError::NotNumber(s) => MaskFault::NotNumber(s@),
            MaskError::InvalidMask(m) => MaskFault::InvalidMask(*m),
            MaskError::WrongSegmentCount(n) => MaskFault::WrongSegmentCount(*n as nat),
            MaskError::SegmentOutOfRange { segment, value } => MaskFault::SegmentOutOfRange(
                segment@,
                *value,
            ),
        }
    }
}

/// The message shown for a mask error.
pub open spec fn mask_error_text(f: MaskFault) -> Seq<char> {
    match f {
        MaskFault::Empty => "输入为空"@,
        MaskFault::InvalidPrefixLength(v) => "非法 CIDR 前缀长度: "@ + dec(v as nat)
            + "（应在 0-32 之间）"@,
        MaskFault::NotNumber(s) => "输入不是有效数字: "@ + s,
        MaskFault::InvalidMask(m) => "非法掩码值: 0x"@ + hex_digits(m as nat, 8),
        MaskFault::WrongSegmentCount(n) => "点分十进制段数错误: "@ + dec(n) + "（应为 4 段）"@,
        MaskFault::SegmentOutOfRange(s, v) => "段 "@ + s + " 的值 "@ + dec(v as nat)
            + " 超出范围（应在 0-255 之间）"@,
    }
}

impl MaskError {
    /// The message that describes the error.
    pub fn to_string(&self) -> (s: String)
        ensures
            s@ == mask_error_text(self@),
    {
        let mut out = String::new();
        match self {
            MaskError::Empty => push_str(&mut out, "输入为空"),
            MaskError::InvalidPrefixLength(v) => {
                push_str(&mut out, "非法 CIDR 前缀长度: ");
                push_dec(&mut out, *v as u64);
                push_str(&mut out, "（应在 0-32 之间）");
            },
            MaskError::NotNumber(s) => {
                push_str(&mut out, "输入不是有效数字: ");
                push_str(&mut out, s.as_str());
            },
            MaskError::InvalidMask(m) => {
                push_str(&mut out, "非法掩码值: 0x");
                push_hex(&mut out, *m, 8);
            },
            MaskError::WrongSegmentCount(n) => {
                push_str(&mut out, "点分十进制段数错误: ");
                push_dec(&mut out, *n as u64);
                push_str(&mut out, "（应为 4 段）");
            },
            MaskError::SegmentOutOfRange { segment, value } => {
                push_str(&mut out, "段 ");
                push_str(&mut out, segment.as_str());
                push_str(&mut out, " 的值 ");
                push_dec(&mut out, *value as u64);
                push_str(&mut out, " 超出范围（应在 0-255 之间）");
            },
        }
        assert(out@ =~= mask_error_text(self@));
        out
    }
}

/// The mask whose top `c` bits are set and the others clear (`c` at most 32).
pub open spec fn cidr_mask(c: u8) -> u32 {
    if c == 0 {
        0
    } else {
        (0xffff_ffffu32 << ((32 - c) as u32)) as u32
    }
}

/// `m` is a contiguous mask: some prefix length gives it.
pub open spec fn is_mask(m: u32) -> bool {
    exists|c: u8| c <= 32 && #[trigger] cidr_mask(c) == m
}

/// The prefix length of a contiguous mask.
pub open spec fn mask_len(m: u32) -> u8 {
    choose|c: u8| c <= 32 && #[trigger] cidr_mask(c) == m
}

proof fn lemma_mask_bits(c: u8)
    by (bit_vector)
    requires
        1 <= c <= 32,
    ensures
        cidr_mask(c) != 0,
        (cidr_mask(c) | (cidr_mask(c) - 1) as u32) == 0xffff_ffffu32,
{
}

proof fn lemma_bits_mask(m: u32)
    by (bit_vector)
    requires
        m != 0,
        (m | (m - 1) as u32) == 0xffff_ffffu32,
    ensures
        m == cidr_mask(1) || m == cidr_mask(2) || m == cidr_mask(3) || m == cidr_mask(4) || m
            == cidr_mask(5) || m == cidr_mask(6) || m == cidr_mask(7) || m == cidr_mask(8) || m
            == cidr_mask(9) || m == cidr_mask(10) || m == cidr_mask(11) || m == cidr_mask(12)
            || m == cidr_mask(13) || m == cidr_mask(14) || m == cidr_mask(15) || m == cidr_mask(
            16,
        ) || m == cidr_mask(17) || m == cidr_mask(18) || m == cidr_mask(19) || m == cidr_mask(20)
            || m == cidr_mask(21) || m == cidr_mask(22) || m == cidr_mask(23) || m == cidr_mask(
            24,
        ) || m == cidr_mask(25) || m == cidr_mask(26) || m == cidr_mask(27) || m == cidr_mask(28)
            || m == cidr_mask(29) || m == cidr_mask(30) || m == cidr_mask(31) || m == cidr_mask(
            32,
        ),
{
}

/// Distinct prefix lengths give distinct masks.
pub proof fn lemma_cidr_mask_injective(c1: u8, c2: u8)
    requires
        c1 <= 32,
        c2 <= 32,
        cidr_mask(c1) == cidr_mask(c2),
    ensures
        c1 == c2,
{
    assert(c1 <= 32 && c2 <= 32 && cidr_mask(c1) == cidr_mask(c2) ==> c1 == c2) by (bit_vector);
}

/// The prefix length of the mask of `c` is `c`.
pub proof fn lemma_mask_len(c: u8)
    requires
        c <= 32,
    ensures
        is_mask(cidr_mask(c)),
        mask_len(cidr_mask(c)) == c,
{
    let m = cidr_mask(c);
    assert(c <= 32 && cidr_mask(c) == m);
    let d = mask_len(m);
    lemma_cidr_mask_injective(c, d);
}

/// A parsed mask has a prefix length of at most 32.
pub proof fn lemma_mask_model_bound(s: Seq<char>)
    ensures
        mask_model(s) matches Ok(c) ==> c <= 32,
{
    if mask_model(s) is Ok && trim(s).contains('.') {
        let m = choose|m: u32| is_mask(m) && mask_model(s) == Ok::<u8, MaskFault>(mask_len(m));
        if is_mask(m) {
            let c = mask_len(m);
            assert(c <= 32);
        }
    }
}

/// Whether `m` is a contiguous mask: ones followed by zeros.
pub fn is_valid_mask(m: u32) -> (b: bool)
    ensures
        b == is_mask(m),
{
    let b = m == 0 || (m | (m - 1)) == 0xFFFFFFFF;
    proof {
        if b {
            if m == 0 {
                assert(cidr_mask(0) == m);
            } else {
                lemma_bits_mask(m);
            }
        } else {
            if is_mask(m) {
                let c = mask_len(m);
                if c > 0 {
                    lemma_mask_bits(c);
                }
            }
        }
    }
    b
}

/// The prefix length of `m`, or `None` where `m` is not contiguous.
pub fn mask_to_cidr(m: u32) -> (r: Option<u8>)
    ensures
        r is Some <==> is_mask(m),
        r matches Some(c) ==> c <= 32 && cidr_mask(c) == m && c == mask_len(m),
{
    if !is_valid_mask(m) {
        return None;
    }
    let mut c: u8 = 0;
    while c <= 32
        invariant
            c <= 33,
            is_mask(m),
            forall|k: u8| k < c ==> #[trigger] cidr_mask(k) != m,
        decreases 33 - c,
    {
        if cidr_to_mask(c) == m {
            proof {
                lemma_mask_len(c);
            }
            return Some(c);
        }
        c += 1;
    }
    proof {
        let k = mask_len(m);
        assert(cidr_mask(k) == m);
    }
    None
}

/// The mask of prefix length `cidr`.
pub fn cidr_to_mask(cidr: u8) -> (m: u32)
    requires
        cidr <= 32,
    ensures
        m == cidr_mask(cidr),
{
    if cidr == 0 {
        0
    } else {
        0xffff_ffffu32 << ((32 - cidr) as u32)
    }
}

/// The wildcard (inverse) mask of `m`.
pub fn wildcard_mask(m: u32) -> (w: u32)
    ensures
        w == !m,
{
    assert(!m & 0xffff_ffffu32 == !m) by (bit_vector);
    !m & 0xFFFFFFFF
}

/// Dotted-decimal text of a mask.
pub fn to_dotted(m: u32) -> (out: String)
    ensures
        out@ == dotted(m),
{
    let mut out = String::new();
    push_dotted(&mut out, m);
    assert(Seq::<char>::empty() + dotted(m) =~= dotted(m));
    out
}

/// Dotted-decimal text of the wildcard mask of `m`.
pub fn to_dotted_wildcard(m: u32) -> (out: String)
    ensures
        out@ == dotted(!m),
{
    to_dotted(wildcard_mask(m))
}

/// One octet of a dotted mask: a number (as `str::parse::<u32>` reads it) of at most 255.
pub open spec fn mask_octet_model(p: Seq<char>) -> Result<u32, MaskFault> {
    match parse_u32(p) {
        None => Err(MaskFault::NotNumber(p)),
        Some(v) => if v > 255 {
            Err(MaskFault::SegmentOutOfRange(p, v))
        } else {
            Ok(v)
        },
    }
}

/// What `parse_mask` gives for the text `s`: a dotted mask when the trimmed
/// text holds a `.`, a prefix length of at most 32 otherwise.
pub open spec fn mask_model(s: Seq<char>) -> Result<u8, MaskFault> {
    let t = trim(s);
    if t.len() == 0 {
        Err(MaskFault::Empty)
    } else if t.contains('.') {
        let parts = split(t, '.');
        if parts.len() != 4 {
            Err(MaskFault::WrongSegmentCount(parts.len()))
        } else {
            match mask_octet_model(parts[0]) {
                Err(e) => Err(e),
                Ok(a) => match mask_octet_model(parts[1]) {
                    Err(e) => Err(e),
                    Ok(b) => match mask_octet_model(parts[2]) {
                        Err(e) => Err(e),
                        Ok(c) => match mask_octet_model(parts[3]) {
                            Err(e) => Err(e),
                            Ok(d) => {
                                let m = from_octets(a, b, c, d);
                                if is_mask(m) {
                                    Ok(mask_len(m))
                                } else {
                                    Err(MaskFault::InvalidMask(m))
                                }
                            },
                        },
                    },
                },
            }
        }
    } else {
        match parse_u32(t) {
            None => Err(MaskFault::NotNumber(t)),
            Some(v) => if v > 32 {
                Err(MaskFault::InvalidPrefixLength(v))
            } else {
                Ok(v as u8)
            },
        }
    }
}

/// A prefix length written in decimal parses back to itself.
pub proof fn lemma_parse_prefix(c: u8)
    requires
        c <= 32,
    ensures
        mask_model(dec(c as nat)) == Ok::<u8, MaskFault>(c),
{
    let s = dec(c as nat);
    lemma_dec(c as nat);
    lemma_dec_excludes(c as nat, '.');
    lemma_parse_dec(c as u32);
    assert(is_digit(s[0]));
    assert(is_digit(s[s.len() - 1]));
    lemma_trim_id(s);
}

/// The dotted text of the mask of a prefix length parses back to that length.
pub proof fn lemma_parse_dotted_mask(c: u8)
    requires
        c <= 32,
    ensures
        mask_model(dotted(cidr_mask(c))) == Ok::<u8, MaskFault>(c),
{
    let x = cidr_mask(c);
    let a = octet(x, 3);
    let b = octet(x, 2);
    let cc = octet(x, 1);
    let d = octet(x, 0);
    assert(((x >> 24u32) & 0xffu32) <= 255 && ((x >> 16u32) & 0xffu32) <= 255 && ((x >> 8u32)
        & 0xffu32) <= 255 && ((x >> 0u32) & 0xffu32) <= 255) by (bit_vector);
    assert(((((x >> 24u32) & 0xffu32) << 24u32) | ((((x >> 16u32) & 0xffu32)) << 16u32) | ((((x
        >> 8u32) & 0xffu32)) << 8u32) | ((x >> 0u32) & 0xffu32)) == x) by (bit_vector);
    let (da, db, dc, dd) = (dec(a as nat), dec(b as nat), dec(cc as nat), dec(d as nat));
    lemma_dec(a as nat);
    lemma_dec(d as nat);
    lemma_dec_excludes(a as nat, '.');
    lemma_dec_excludes(b as nat, '.');
    lemma_dec_excludes(cc as nat, '.');
    lemma_dec_excludes(d as nat, '.');
    lemma_parse_dec(a);
    lemma_parse_dec(b);
    lemma_parse_dec(cc);
    lemma_parse_dec(d);
    let s = dotted(x);
    assert(s[0] == da[0]);
    assert(s.last() == dd.last());
    assert(is_digit(da[0]));
    assert(is_digit(dd[dd.len() - 1]));
    lemma_trim_id(s);
    lemma_split_single(da, '.');
    lemma_split_concat(da, db, '.');
    let s2 = da + seq!['.'] + db;
    lemma_split_concat(s2, dc, '.');
    let s3 = s2 + seq!['.'] + dc;
    lemma_split_concat(s3, dd, '.');
    assert(s == s3 + seq!['.'] + dd);
    assert(split(s, '.') =~= seq![da, db, dc, dd]);
    assert(s[da.len() as int] == '.');
    assert(s.contains('.'));
    lemma_mask_len(c);
}

fn mask_octet(p: &Vec<char>) -> (r: Result<u32, MaskError>)
    ensures
        match r {
            Ok(v) => mask_octet_model(p@) == Ok::<u32, MaskFault>(v) && v <= 255,
            Err(e) => mask_octet_model(p@) == Err::<u32, MaskFault>(e@),
        },
{
    match parse_u32_chars(p) {
        None => Err(MaskError::NotNumber(string_of(p))),
        Some(v) => if v > 255 {
            Err(MaskError::SegmentOutOfRange { segment: string_of(p), value: v })
        } else {
            Ok(v)
        },
    }
}

/// Parses a mask, given either as a prefix length (`24`) or dotted (`255.255.255.0`),
/// and returns its prefix length.
pub fn parse_mask(s: &str) -> (r: Result<u8, MaskError>)
    ensures
        match r {
            Ok(c) => mask_model(s@) == Ok::<u8, MaskFault>(c) && c <= 32,
            Err(e) => mask_model(s@) == Err::<u8, MaskFault>(e@),
        },
{
    let cs = chars_of(s);
    parse_mask_chars(&cs)
}

/// `parse_mask` on the characters `s`.
pub fn parse_mask_chars(s: &Vec<char>) -> (r: Result<u8, MaskError>)
    ensures
        match r {
            Ok(c) => mask_model(s@) == Ok::<u8, MaskFault>(c) && c <= 32,
            Err(e) => mask_model(s@) == Err::<u8, MaskFault>(e@),
        },
{
    let t = trim_chars(s);
    if t.len() == 0 {
        return Err(MaskError::Empty);
    }
    if contains_char(&t, '.') {
        let parts = split_chars(&t, '.');
        if parts.len() != 4 {
            return Err(MaskError::WrongSegmentCount(parts.len()));
        }
        let a = mask_octet(&parts[0])?;
        let b = mask_octet(&parts[1])?;
        let c = mask_octet(&parts[2])?;
        let d = mask_octet(&parts[3])?;
        let m: u32 = (a << 24) | (b << 16) | (c << 8) | d;
        if !is_valid_mask(m) {
            return Err(MaskError::InvalidMask(m));
        }
        match mask_to_cidr(m) {
            Some(len) => Ok(len),
            None => Err(MaskError::InvalidMask(m)),
        }
    } else {
        let v = match parse_u32_chars(&t) {
            Some(v) => v,
            None => {
                return Err(MaskError::NotNumber(string_of(&t)));
            },
        };
        if v > 32 {
            return Err(MaskError::InvalidPrefixLength(v));
        }
        Ok(v as u8)
    }
}

} // verus!
