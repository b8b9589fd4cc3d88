//! IPv4 addresses: parsing from dotted-decimal text, rendering in several
//! notations, class and private-range classification.
use vstd::prelude::*;

use crate::text::{
    push_str,
    all_digits, is_digit, is_ws, lemma_dec, lemma_dec_excludes, lemma_parse_dec, lemma_split_concat,
    lemma_split_single, lemma_trim_id,
    chars_of, dec, dec_string, digit_char, parse_u32, parse_u32_chars, push_dec, split, split_chars,
    string_of, trim, trim_chars,
};

verus! {

/// Why a text is not a dotted-decimal IPv4 address.
#[derive(Debug, Clone, PartialEq, Eq)]
pub enum IpError {
    Empty,
    WrongSegmentCount(usize),
    SegmentNotNumber(String),
    SegmentOutOfRange { segment: String, value: u32 },
    LeadingZero(String),
}

/// The mathematical content of an `IpError`.
pub enum IpFault {
    Empty,
    WrongSegmentCount(nat),
    SegmentNotNumber(Seq<char>),
    SegmentOutOfRange(Seq<char>, u32),
    LeadingZero(Seq<char>),
}

impl View for IpError {
    type V = IpFault;

    open spec fn view(&self) -> IpFault {
        match self {
            IpError::Empty => IpFault::Empty,
            IpError::WrongSegmentCount(n) => IpFault::WrongSegmentCount(*n as nat),
            IpError::SegmentNotNumber(s) => IpFault::SegmentNotNumber(s@),
            IpError::SegmentOutOfRange { segment, value } => IpFault::SegmentOutOfRange(
                segment@,
                *value,
            ),
            IpError::LeadingZero(s) => IpFault::LeadingZero(s@),
        }
    }
}

/// The message shown for an address error.
pub open spec fn ip_error_text(f: IpFault) -> Seq<char> {
    match f {
        IpFault::Empty => "输入为空"@,
        IpFault::WrongSegmentCount(n) => "IP 地址段数不为 4，实际段数为 "@ + dec(n),
        IpFault::SegmentNotNumber(s) => "段 \""@ + s + "\" 不是合法数字"@,
        IpFault::SegmentOutOfRange(s, v) => "段 \""@ + s + "\" 的值 "@ + dec(v as nat)
            + " 超出范围（0-255）"@,
        IpFault::LeadingZero(s) => "段 \""@ + s + "\" 存在前导零"@,
    }
}

impl IpError {
    /// The message that describes the error.
    pub fn to_string(&self) -> (s: String)
        ensures
            s@ == ip_error_text(self@),
    {
        let mut out = String::new();
        match self {
            IpError::Empty => push_str(&mut out, "输入为空"),
            IpError::WrongSegmentCount(n) => {
                push_str(&mut out, "IP 地址段数不为 4，实际段数为 ");
                push_dec(&mut out, *n as u64);
            },
            IpError::SegmentNotNumber(s) => {
                push_str(&mut out, "段 \"");
                push_str(&mut out, s.as_str());
                push_str(&mut out, "\" 不是合法数字");
            },
            IpError::SegmentOutOfRange { segment, value } => {
                push_str(&mut out, "段 \"");
                push_str(&mut out, segment.as_str());
                push_str(&mut out, "\" 的值 ");
                push_dec(&mut out, *value as u64);
                push_str(&mut out, " 超出范围（0-255）");
            },
            IpError::LeadingZero(s) => {
                push_str(&mut out, "段 \"");
                push_str(&mut out, s.as_str());
                push_str(&mut out, "\" 存在前导零");
            },
        }
        assert(out@ =~= ip_error_text(self@));
        out
    }
}

/// The value of one dotted-decimal segment: no leading zero, a decimal
/// number (as `str::parse::<u32>` reads it) of at most 255.
pub open spec fn segment_model(p: Seq<char>) -> Result<u32, IpFault> {
    if p.len() == 0 {
        Err(IpFault::SegmentNotNumber(p))
    } else if p.len() > 1 && p[0] == '0' {
        Err(IpFault::LeadingZero(p))
    } else {
        match parse_u32(p) {
            None => Err(IpFault::SegmentNotNumber(p)),
            Some(v) => if v > 255 {
                Err(IpFault::SegmentOutOfRange(p, v))
            } else {
                Ok(v)
            },
        }
    }
}

/// The address whose four octets, most significant first, are `a`, `b`, `c`, `d`.
pub open spec fn from_octets(a: u32, b: u32, c: u32, d: u32) -> u32 {
    ((a << 24u32) | (b << 16u32) | (c << 8u32) | d) as u32
}

/// What `parse_ipv4` gives for the text `s`: white space around the text is
/// ignored, the text is split at each `.`, there must be four segments, and
/// the first segment in error decides the error.
pub open spec fn ipv4_model(s: Seq<char>) -> Result<u32, IpFault> {
    let t = trim(s);
    if t.len() == 0 {
        Err(IpFault::Empty)
    } else {
        let parts = split(t, '.');
        if parts.len() != 4 {
            Err(IpFault::WrongSegmentCount(parts.len()))
        } else {
            match segment_model(parts[0]) {
                Err(e) => Err(e),
                Ok(a) => match segment_model(parts[1]) {
                    Err(e) => Err(e),
                    Ok(b) => match segment_model(parts[2]) {
                        Err(e) => Err(e),
                        Ok(c) => match segment_model(parts[3]) {
                            Err(e) => Err(e),
                            Ok(d) => Ok(from_octets(a, b, c, d)),
                        },
                    },
                },
            }
        }
    }
}

pub open spec fn octet(ip: u32, k: u32) -> u32 {
    (ip >> (8 * k) as u32) & 0xffu32
}

/// Dotted-decimal text of an address, e.g. `192.168.1.1`.
pub open spec fn dotted(ip: u32) -> Seq<char> {
    dec(octet(ip, 3) as nat) + seq!['.'] + dec(octet(ip, 2) as nat) + seq!['.'] + dec(
        octet(ip, 1) as nat,
    ) + seq!['.'] + dec(octet(ip, 0) as nat)
}

/// The last `n` binary digits of `v`, most significant first.
pub open spec fn bin_digits(v: nat, n: nat) -> Seq<char>
    decreases n,
{
    if n == 0 {
        Seq::empty()
    } else {
        bin_digits(v / 2, (n - 1) as nat).push(if v % 2 == 1 {
            '1'
        } else {
            '0'
        })
    }
}

/// Each octet as eight binary digits, separated by `.`.
pub open spec fn binary_dotted(ip: u32) -> Seq<char> {
    bin_digits(octet(ip, 3) as nat, 8) + seq!['.'] + bin_digits(octet(ip, 2) as nat, 8) + seq![
        '.',
    ] + bin_digits(octet(ip, 1) as nat, 8) + seq!['.'] + bin_digits(octet(ip, 0) as nat, 8)
}

pub open spec fn hex_char(d: nat) -> char {
    if d < 10 {
        digit_char(d)
    } else {
        ('A' as int + (d - 10)) as char
    }
}

/// The last `n` upper-case hexadecimal digits of `v`, most significant first.
pub open spec fn hex_digits(v: nat, n: nat) -> Seq<char>
    decreases n,
{
    if n == 0 {
        Seq::empty()
    } else {
        hex_digits(v / 16, (n - 1) as nat).push(hex_char(v % 16))
    }
}

/// A decimal segment of at most 255 reads back as its value.
proof fn lemma_segment_dec(v: u32)
    requires
        v <= 255,
    ensures
        segment_model(dec(v as nat)) == Ok::<u32, IpFault>(v),
{
    lemma_dec(v as nat);
    lemma_parse_dec(v);
}

/// Parsing the dotted-decimal text of an address gives the address back.
pub proof fn lemma_parse_dotted(x: u32)
    ensures
        ipv4_model(dotted(x)) == Ok::<u32, IpFault>(x),
{
    let a = octet(x, 3);
    let b = octet(x, 2);
    let c = octet(x, 1);
    let d = octet(x, 0);
    assert(((x >> 24u32) & 0xffu32) <= 255 && ((x >> 16u32) & 0xffu32) <= 255 && ((x >> 8u32)
        & 0xffu32) <= 255 && ((x >> 0u32) & 0xffu32) <= 255) by (bit_vector);
    assert(((((x >> 24u32) & 0xffu32) << 24u32) | ((((x >> 16u32) & 0xffu32)) << 16u32) | ((((x
        >> 8u32) & 0xffu32)) << 8u32) | ((x >> 0u32) & 0xffu32)) == x) by (bit_vector);
    let (da, db, dc, dd) = (dec(a as nat), dec(b as nat), dec(c as nat), dec(d as nat));
    lemma_dec(a as nat);
    lemma_dec(d as nat);
    lemma_dec_excludes(a as nat, '.');
    lemma_dec_excludes(b as nat, '.');
    lemma_dec_excludes(c as nat, '.');
    lemma_dec_excludes(d as nat, '.');
    let s = dotted(x);
    assert(s[0] == da[0]);
    assert(s.last() == dd.last());
    assert(is_digit(da[0]));
    assert(is_digit(dd[dd.len() - 1]));
    lemma_trim_id(s);
    lemma_split_single(da, '.');
    lemma_split_concat(da, db, '.');
    let s2 = da + seq!['.'] + db;
    lemma_split_concat(s2, dc, '.');
    let s3 = s2 + seq!['.'] + dc;
    lemma_split_concat(s3, dd, '.');
    assert(s == s3 + seq!['.'] + dd);
    assert(split(s, '.') =~= seq![da, db, dc, dd]);
    lemma_segment_dec(a);
    lemma_segment_dec(b);
    lemma_segment_dec(c);
    lemma_segment_dec(d);
}

/// Dotted-decimal text is digits and dots, with a digit at each end.
pub proof fn lemma_dotted_chars(x: u32)
    ensures
        dotted(x).len() > 0,
        is_digit(dotted(x)[0]),
        is_digit(dotted(x).last()),
        forall|i: int| 0 <= i < dotted(x).len() ==> is_digit(#[trigger] dotted(x)[i]) || dotted(x)[i] == '.',
{
    let (da, db, dc, dd) = (dec(octet(x, 3) as nat), dec(octet(x, 2) as nat), dec(octet(x, 1) as nat), dec(octet(x, 0) as nat));
    lemma_dec(octet(x, 3) as nat);
    lemma_dec(octet(x, 2) as nat);
    lemma_dec(octet(x, 1) as nat);
    lemma_dec(octet(x, 0) as nat);
    let s = dotted(x);
    assert(s[0] == da[0]);
    assert(s.last() == dd[dd.len() - 1]);
    assert forall|i: int| 0 <= i < s.len() implies is_digit(#[trigger] s[i]) || s[i] == '.' by {
        let l1 = da.len() as int;
        let l2 = l1 + 1 + db.len();
        let l3 = l2 + 1 + dc.len();
        if i < l1 {
            assert(s[i] == da[i]);
        } else if i == l1 {
        } else if i < l2 {
            assert(s[i] == db[i - l1 - 1]);
        } else if i == l2 {
        } else if i < l3 {
            assert(s[i] == dc[i - l2 - 1]);
        } else if i == l3 {
        } else {
            assert(s[i] == dd[i - l3 - 1]);
        }
    }
}

/// Parses a dotted-decimal IPv4 address.
pub fn parse_ipv4(s: &str) -> (r: Result<u32, IpError>)
    ensures
        match r {
            Ok(v) => ipv4_model(s@) == Ok::<u32, IpFault>(v),
            Err(e) => ipv4_model(s@) == Err::<u32, IpFault>(e@),
        },
{
    let cs = chars_of(s);
    parse_ipv4_chars(&cs)
}

fn segment(p: &Vec<char>) -> (r: Result<u32, IpError>)
    ensures
        match r {
            Ok(v) => segment_model(p@) == Ok::<u32, IpFault>(v) && v <= 255,
            Err(e) => segment_model(p@) == Err::<u32, IpFault>(e@),
        },
{
    if p.len() == 0 {
        return Err(IpError::SegmentNotNumber(string_of(p)));
    }
    if p.len() > 1 && p[0] == '0' {
        return Err(IpError::LeadingZero(string_of(p)));
    }
    match parse_u32_chars(p) {
        None => Err(IpError::SegmentNotNumber(string_of(p))),
        Some(v) => if v > 255 {
            Err(IpError::SegmentOutOfRange { segment: string_of(p), value: v })
        } else {
            Ok(v)
        },
    }
}

/// `parse_ipv4` on the characters `s`.
pub fn parse_ipv4_chars(s: &Vec<char>) -> (r: Result<u32, IpError>)
    ensures
        match r {
            Ok(v) => ipv4_model(s@) == Ok::<u32, IpFault>(v),
            Err(e) => ipv4_model(s@) == Err::<u32, IpFault>(e@),
        },
{
    let t = trim_chars(s);
    if t.len() == 0 {
        return Err(IpError::Empty);
    }
    let parts = split_chars(&t, '.');
    if parts.len() != 4 {
        return Err(IpError::WrongSegmentCount(parts.len()));
    }
    let a = segment(&parts[0])?;
    let b = segment(&parts[1])?;
    let c = segment(&parts[2])?;
    let d = segment(&parts[3])?;
    Ok((a << 24) | (b << 16) | (c << 8) | d)
}

/// Whether `s` is a dotted-decimal IPv4 address.
pub fn is_valid_ipv4(s: &str) -> (b: bool)
    ensures
        b == (ipv4_model(s@) is Ok),
{
    parse_ipv4(s).is_ok()
}

/// Appends the dotted-decimal text of `ip` to `out`.
pub fn push_dotted(out: &mut String, ip: u32)
    ensures
        final(out)@ == old(out)@ + dotted(ip),
{
    let ghost start = out@;
    push_dec(out, ((ip >> 24) & 0xFF) as u64);
    out.push('.');
    push_dec(out, ((ip >> 16) & 0xFF) as u64);
    out.push('.');
    push_dec(out, ((ip >> 8) & 0xFF) as u64);
    out.push('.');
    push_dec(out, (ip & 0xFF) as u64);
    proof {
        assert(ip & 0xffu32 == (ip >> 0u32) & 0xffu32) by (bit_vector);
        assert(out@ =~= start + dotted(ip));
    }
}

/// Dotted-decimal text of `ip`.
pub fn to_dotted(ip: u32) -> (out: String)
    ensures
        out@ == dotted(ip),
{
    let mut out = String::new();
    push_dotted(&mut out, ip);
    assert(Seq::<char>::empty() + dotted(ip) =~= dotted(ip));
    out
}

fn push_bin(out: &mut String, v: u32, n: u32)
    ensures
        final(out)@ == old(out)@ + bin_digits(v as nat, n as nat),
    decreases n,
{
    let ghost start = out@;
    if n > 0 {
        push_bin(out, v / 2, n - 1);
        out.push(
            if v % 2 == 1 {
                '1'
            } else {
                '0'
            },
        );
        assert(out@ =~= start + bin_digits(v as nat, n as nat));
    } else {
        assert(out@ =~= start + bin_digits(v as nat, n as nat));
    }
}

/// Each octet of `ip` as eight binary digits, separated by `.`.
pub fn to_binary(ip: u32) -> (out: String)
    ensures
        out@ == binary_dotted(ip),
        out@.len() == 35,
        binary_value(out@.subrange(0, 8)) == (ip >> 24u32) & 0xff,
        binary_value(out@.subrange(9, 17)) == (ip >> 16u32) & 0xff,
        binary_value(out@.subrange(18, 26)) == (ip >> 8u32) & 0xff,
        binary_value(out@.subrange(27, 35)) == ip & 0xff,
{
    proof {
        lemma_binary_groups(ip);
    }
    let mut out = String::new();
    push_bin(&mut out, (ip >> 24) & 0xFF, 8);
    out.push('.');
    push_bin(&mut out, (ip >> 16) & 0xFF, 8);
    out.push('.');
    push_bin(&mut out, (ip >> 8) & 0xFF, 8);
    out.push('.');
    push_bin(&mut out, ip & 0xFF, 8);
    proof {
        assert(ip & 0xffu32 == (ip >> 0u32) & 0xffu32) by (bit_vector);
        assert(out@ =~= binary_dotted(ip));
    }
    out
}

/// Appends the last `n` upper-case hexadecimal digits of `v` to `out`.
pub fn push_hex(out: &mut String, v: u32, n: u32)
    ensures
        final(out)@ == old(out)@ + hex_digits(v as nat, n as nat),
    decreases n,
{
    let ghost start = out@;
    if n > 0 {
        push_hex(out, v / 16, n - 1);
        let d = (v % 16) as u8;
        let c = if d < 10 {
            (48u8 + d) as char
        } else {
            (55u8 + d) as char
        };
        out.push(c);
        assert(out@ =~= start + hex_digits(v as nat, n as nat));
    } else {
        assert(out@ =~= start + hex_digits(v as nat, n as nat));
    }
}

/// Eight upper-case hexadecimal digits of `ip`.
pub fn to_hex(ip: u32) -> (out: String)
    ensures
        out@ == hex_digits(ip as nat, 8),
        out@.len() == 8,
        hex_value(out@) == ip,
{
    proof {
        lemma_hex_text(ip);
    }
    let mut out = String::new();
    push_hex(&mut out, ip, 8);
    assert(Seq::<char>::empty() + hex_digits(ip as nat, 8) =~= hex_digits(ip as nat, 8));
    out
}

/// The decimal digits of `ip` as one integer.
pub fn to_integer(ip: u32) -> (out: String)
    ensures
        out@ == dec(ip as nat),
{
    dec_string(ip as u64)
}

/// The classful category of an address, by its first octet.
#[derive(Debug, Clone, Copy, PartialEq, Eq, Structural)]
pub enum IpClass {
    ClassA,
    ClassB,
    ClassC,
    ClassD,
    ClassE,
}

impl IpClass {
    /// The Chinese name of the class, as the interface shows it.
    pub fn description(&self) -> (d: &'static str)
        ensures
            d@ == class_description(*self),
    {
        match self {
            IpClass::ClassA => "A类地址",
            IpClass::ClassB => "B类地址",
            IpClass::ClassC => "C类地址",
            IpClass::ClassD => "组播地址",
            IpClass::ClassE => "保留地址",
        }
    }
}

pub open spec fn class_description(c: IpClass) -> Seq<char> {
    match c {
        IpClass::ClassA => "A类地址"@,
        IpClass::ClassB => "B类地址"@,
        IpClass::ClassC => "C类地址"@,
        IpClass::ClassD => "组播地址"@,
        IpClass::ClassE => "保留地址"@,
    }
}

/// The class of an address: A for a first octet up to 127, B up to 191,
/// C up to 223, D (multicast) up to 239, E (reserved) above.
pub open spec fn class_of(ip: u32) -> IpClass {
    let first = octet(ip, 3);
    if first <= 127 {
        IpClass::ClassA
    } else if first <= 191 {
        IpClass::ClassB
    } else if first <= 223 {
        IpClass::ClassC
    } else if first <= 239 {
        IpClass::ClassD
    } else {
        IpClass::ClassE
    }
}

pub fn ip_class(ip: u32) -> (c: IpClass)
    ensures
        c == class_of(ip),
        (c == IpClass::ClassA) <==> ip <= 0x7FFF_FFFF,
        (c == IpClass::ClassB) <==> 0x8000_0000 <= ip <= 0xBFFF_FFFF,
        (c == IpClass::ClassC) <==> 0xC000_0000 <= ip <= 0xDFFF_FFFF,
        (c == IpClass::ClassD) <==> 0xE000_0000 <= ip <= 0xEFFF_FFFF,
        (c == IpClass::ClassE) <==> 0xF000_0000 <= ip,
{
    proof {
        lemma_class_ranges(ip);
    }
    let w = (ip >> 24) & 0xFF;
    assert((ip >> 24u32) & 0xffu32 <= 0xff) by (bit_vector);
    let first = w as u8;
    if first <= 127 {
        IpClass::ClassA
    } else if first <= 191 {
        IpClass::ClassB
    } else if first <= 223 {
        IpClass::ClassC
    } else if first <= 239 {
        IpClass::ClassD
    } else {
        IpClass::ClassE
    }
}

/// The private ranges: 10.0.0.0/8, 172.16.0.0/12 and 192.168.0.0/16.
pub open spec fn private_address(ip: u32) -> bool {
    ||| octet(ip, 3) == 10
    ||| octet(ip, 3) == 172 && 16 <= octet(ip, 2) <= 31
    ||| octet(ip, 3) == 192 && octet(ip, 2) == 168
}

/// The private ranges of RFC 1918 as address intervals: an address is
/// private exactly when it lies in 10.0.0.0/8, 172.16.0.0/12 or
/// 192.168.0.0/16.
pub proof fn lemma_private_ranges(ip: u32)
    ensures
        private_address(ip) <==> (0x0A00_0000 <= ip <= 0x0AFF_FFFF || 0xAC10_0000 <= ip
            <= 0xAC1F_FFFF || 0xC0A8_0000 <= ip <= 0xC0A8_FFFF),
{
    assert(((ip >> 24u32) & 0xffu32) == 10 <==> (0x0A00_0000 <= ip <= 0x0AFF_FFFF)) by (bit_vector);
    assert((((ip >> 24u32) & 0xffu32) == 172 && 16 <= ((ip >> 16u32) & 0xffu32) <= 31) <==> (0xAC10_0000
        <= ip <= 0xAC1F_FFFF)) by (bit_vector);
    assert((((ip >> 24u32) & 0xffu32) == 192 && ((ip >> 16u32) & 0xffu32) == 168) <==> (0xC0A8_0000
        <= ip <= 0xC0A8_FFFF)) by (bit_vector);
}

/// The classes as address intervals: A below 128.0.0.0, B below
/// 192.0.0.0, C below 224.0.0.0, D (multicast) below 240.0.0.0, E above.
pub proof fn lemma_class_ranges(ip: u32)
    ensures
        (class_of(ip) == IpClass::ClassA) <==> ip <= 0x7FFF_FFFF,
        (class_of(ip) == IpClass::ClassB) <==> 0x8000_0000 <= ip <= 0xBFFF_FFFF,
        (class_of(ip) == IpClass::ClassC) <==> 0xC000_0000 <= ip <= 0xDFFF_FFFF,
        (class_of(ip) == IpClass::ClassD) <==> 0xE000_0000 <= ip <= 0xEFFF_FFFF,
        (class_of(ip) == IpClass::ClassE) <==> 0xF000_0000 <= ip,
{
    let f = octet(ip, 3);
    assert(f == (ip >> 24u32) & 0xffu32);
    assert((ip >> 24u32) & 0xffu32 <= 127 <==> ip <= 0x7FFF_FFFF) by (bit_vector);
    assert((ip >> 24u32) & 0xffu32 <= 191 <==> ip <= 0xBFFF_FFFF) by (bit_vector);
    assert((ip >> 24u32) & 0xffu32 <= 223 <==> ip <= 0xDFFF_FFFF) by (bit_vector);
    assert((ip >> 24u32) & 0xffu32 <= 239 <==> ip <= 0xEFFF_FFFF) by (bit_vector);
}

/// Loopback as an interval: 127.0.0.0 to 127.255.255.255.
pub proof fn lemma_loopback_range(ip: u32)
    ensures
        (octet(ip, 3) == 127) <==> 0x7F00_0000 <= ip <= 0x7FFF_FFFF,
{
    assert(((ip >> 24u32) & 0xffu32) == 127 <==> (0x7F00_0000 <= ip <= 0x7FFF_FFFF)) by (bit_vector);
}

pub fn is_private(ip: u32) -> (b: bool)
    ensures
        b == private_address(ip),
        b <==> (0x0A00_0000 <= ip <= 0x0AFF_FFFF || 0xAC10_0000 <= ip <= 0xAC1F_FFFF || 0xC0A8_0000
            <= ip <= 0xC0A8_FFFF),
{
    proof {
        lemma_private_ranges(ip);
    }
    let first = (ip >> 24) & 0xFF;
    let second = (ip >> 16) & 0xFF;
    if first == 10 {
        return true;
    }
    if first == 172 && 16 <= second && second <= 31 {
        return true;
    }
    if first == 192 && second == 168 {
        return true;
    }
    false
}

/// Whether the address lies in 127.0.0.0/8.
pub fn is_loopback(ip: u32) -> (b: bool)
    ensures
        b == (octet(ip, 3) == 127),
        b <==> 0x7F00_0000 <= ip <= 0x7FFF_FFFF,
{
    proof {
        lemma_loopback_range(ip);
    }
    let first = (ip >> 24) & 0xFF;
    first == 127
}

/// Whether the address is 255.255.255.255.
pub fn is_broadcast(ip: u32) -> (b: bool)
    ensures
        b == (ip == 0xFFFF_FFFFu32),
{
    ip == 0xFFFFFFFF
}

// ---------------------------------------------------------------------------
// Reading the binary and hexadecimal texts back
// ---------------------------------------------------------------------------

/// The number written by a string of binary digits, most significant first.
pub open spec fn binary_value(s: Seq<char>) -> nat
    decreases s.len(),
{
    if s.len() == 0 {
        0
    } else {
        2 * binary_value(s.drop_last()) + if s.last() == '1' {
            1nat
        } else {
            0nat
        }
    }
}

/// `n` binary digits of `v` read back as `v` modulo `2^n`.
pub proof fn lemma_bin_digits_value(v: nat, n: nat)
    ensures
        bin_digits(v, n).len() == n,
        forall|i: int| 0 <= i < n ==> #[trigger] bin_digits(v, n)[i] == '0' || bin_digits(v, n)[i] == '1',
        binary_value(bin_digits(v, n)) == v % vstd::arithmetic::power2::pow2(n),
    decreases n,
{
    vstd::arithmetic::power2::lemma_pow2_pos(n);
    if n > 0 {
        let m = (n - 1) as nat;
        lemma_bin_digits_value(v / 2, m);
        let s = bin_digits(v, n);
        assert(s.drop_last() =~= bin_digits(v / 2, m));
        assert forall|i: int| 0 <= i < n implies #[trigger] s[i] == '0' || s[i] == '1' by {
            if i < m {
                assert(s[i] == bin_digits(v / 2, m)[i]);
            }
        }
        vstd::arithmetic::power2::lemma_pow2_unfold(n);
        vstd::arithmetic::power2::lemma_pow2_pos(m);
        let p = vstd::arithmetic::power2::pow2(m);
        vstd::arithmetic::div_mod::lemma_mod_breakdown(v as int, 2, p as int);
        assert(vstd::arithmetic::power2::pow2(n) == 2 * p);
        assert(s.last() == (if v % 2 == 1 { '1' } else { '0' }));
        assert((if s.last() == '1' { 1nat } else { 0nat }) == v % 2);
        assert(binary_value(s) == 2 * binary_value(s.drop_last()) + (if s.last() == '1' { 1nat } else { 0nat }));
        assert(binary_value(s.drop_last()) == (v / 2) % p);
        assert(v % (2 * p) == 2 * ((v / 2) % p) + v % 2);
    } else {
        vstd::arithmetic::power2::lemma2_to64();
        assert(v % 1 == 0);
    }
}

/// The binary text of an address: four groups of eight binary digits
/// separated by dots, the groups reading back, in order, as the four octets
/// from the most significant.
pub proof fn lemma_binary_groups(ip: u32)
    ensures
        binary_dotted(ip).len() == 35,
        binary_dotted(ip)[8] == '.' && binary_dotted(ip)[17] == '.' && binary_dotted(ip)[26] == '.',
        binary_value(binary_dotted(ip).subrange(0, 8)) == (ip >> 24u32) & 0xff,
        binary_value(binary_dotted(ip).subrange(9, 17)) == (ip >> 16u32) & 0xff,
        binary_value(binary_dotted(ip).subrange(18, 26)) == (ip >> 8u32) & 0xff,
        binary_value(binary_dotted(ip).subrange(27, 35)) == ip & 0xff,
{
    let b = binary_dotted(ip);
    let g3 = bin_digits(octet(ip, 3) as nat, 8);
    let g2 = bin_digits(octet(ip, 2) as nat, 8);
    let g1 = bin_digits(octet(ip, 1) as nat, 8);
    let g0 = bin_digits(octet(ip, 0) as nat, 8);
    lemma_bin_digits_value(octet(ip, 3) as nat, 8);
    lemma_bin_digits_value(octet(ip, 2) as nat, 8);
    lemma_bin_digits_value(octet(ip, 1) as nat, 8);
    lemma_bin_digits_value(octet(ip, 0) as nat, 8);
    vstd::arithmetic::power2::lemma2_to64();
    assert(b.subrange(0, 8) =~= g3);
    assert(b.subrange(9, 17) =~= g2);
    assert(b.subrange(18, 26) =~= g1);
    assert(b.subrange(27, 35) =~= g0);
    assert(ip & 0xffu32 == (ip >> 0u32) & 0xffu32) by (bit_vector);
    assert((ip >> 24u32) & 0xffu32 < 256 && (ip >> 16u32) & 0xffu32 < 256 && (ip >> 8u32) & 0xffu32
        < 256 && ip & 0xffu32 < 256) by (bit_vector);
}

/// The value of one upper-case hexadecimal digit.
pub open spec fn hex_digit_value(c: char) -> nat {
    if '0' <= c <= '9' {
        (c as nat - '0' as nat) as nat
    } else {
        (c as nat - 'A' as nat + 10) as nat
    }
}

/// `c` is one of `0`-`9`, `A`-`F`.
pub open spec fn is_hex_digit(c: char) -> bool {
    ('0' <= c <= '9') || ('A' <= c <= 'F')
}

/// The number written by a string of hexadecimal digits, most significant first.
pub open spec fn hex_value(s: Seq<char>) -> nat
    decreases s.len(),
{
    if s.len() == 0 {
        0
    } else {
        16 * hex_value(s.drop_last()) + hex_digit_value(s.last())
    }
}

/// `n` hexadecimal digits of `v` read back as `v` modulo `16^n`.
pub proof fn lemma_hex_digits_value(v: nat, n: nat)
    ensures
        hex_digits(v, n).len() == n,
        forall|i: int| 0 <= i < n ==> is_hex_digit(#[trigger] hex_digits(v, n)[i]),
        hex_value(hex_digits(v, n)) == v % vstd::arithmetic::power2::pow2(4 * n),
    decreases n,
{
    vstd::arithmetic::power2::lemma2_to64();
    if n > 0 {
        let m = (n - 1) as nat;
        lemma_hex_digits_value(v / 16, m);
        let s = hex_digits(v, n);
        assert(s.drop_last() =~= hex_digits(v / 16, m));
        let d = v % 16;
        assert(s.last() == hex_char(d));
        assert(is_hex_digit(hex_char(d)) && hex_digit_value(hex_char(d)) == d) by {
            if d < 10 {
                assert(hex_char(d) == crate::text::digit_char(d));
            }
        }
        assert forall|i: int| 0 <= i < n implies is_hex_digit(#[trigger] s[i]) by {
            if i < m {
                assert(s[i] == hex_digits(v / 16, m)[i]);
            }
        }
        let p = vstd::arithmetic::power2::pow2(4 * m);
        vstd::arithmetic::power2::lemma_pow2_adds(4, 4 * m);
        assert(4 + 4 * m == 4 * n);
        vstd::arithmetic::power2::lemma_pow2_pos(4 * m);
        vstd::arithmetic::div_mod::lemma_mod_breakdown(v as int, 16, p as int);
        assert(vstd::arithmetic::power2::pow2(4 * n) == 16 * p);
        assert(hex_value(s) == 16 * hex_value(s.drop_last()) + hex_digit_value(s.last()));
        assert(v % (16 * p) == 16 * ((v / 16) % p) + v % 16);
    } else {
        assert(v % 1 == 0);
    }
}

/// The hexadecimal text of an address is eight upper-case hexadecimal digits
/// that read back as the address.
pub proof fn lemma_hex_text(ip: u32)
    ensures
        hex_digits(ip as nat, 8).len() == 8,
        forall|i: int| 0 <= i < 8 ==> is_hex_digit(#[trigger] hex_digits(ip as nat, 8)[i]),
        hex_value(hex_digits(ip as nat, 8)) == ip,
{
    lemma_hex_digits_value(ip as nat, 8);
    vstd::arithmetic::power2::lemma2_to64();
    assert(vstd::arithmetic::power2::pow2(32) == 0x1_0000_0000);
    assert(4 * 8nat == 32);
    assert(vstd::arithmetic::power2::pow2(4 * 8nat) == 0x1_0000_0000);
    assert((ip as nat) % 0x1_0000_0000 == ip as nat);
}

} // verus!
