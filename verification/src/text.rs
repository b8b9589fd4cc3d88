//! Characters, decimal numbers, and the small string operations that the
//! parsers and renderers of this crate are built from.
use vstd::prelude::*;
use vstd::string::StringExecFns;

verus! {

// ---------------------------------------------------------------------------
// Specifications
// ---------------------------------------------------------------------------

/// Unicode `White_Space`, the set that `char::is_whitespace` and `str::trim` use.
pub open spec fn is_ws(c: char) -> bool {
    ||| '\u{9}' <= c <= '\u{d}'
    ||| c == ' '
    ||| c == '\u{85}'
    ||| c == '\u{a0}'
    ||| c == '\u{1680}'
    ||| '\u{2000}' <= c <= '\u{200a}'
    ||| c == '\u{2028}'
    ||| c == '\u{2029}'
    ||| c == '\u{202f}'
    ||| c == '\u{205f}'
    ||| c == '\u{3000}'
}

/// `s` without its leading white space.
pub open spec fn trim_start(s: Seq<char>) -> Seq<char>
    decreases s.len(),
{
    if s.len() > 0 && is_ws(s[0]) {
        trim_start(s.drop_first())
    } else {
        s
    }
}

/// `s` without its trailing white space.
pub open spec fn trim_end(s: Seq<char>) -> Seq<char>
    decreases s.len(),
{
    if s.len() > 0 && is_ws(s.last()) {
        trim_end(s.drop_last())
    } else {
        s
    }
}

/// `s` without leading and trailing white space.
pub open spec fn trim(s: Seq<char>) -> Seq<char> {
    trim_end(trim_start(s))
}

/// Index of the first `c` in `s`, or `s.len()` when there is none.
pub open spec fn first_index(s: Seq<char>, c: char) -> nat
    decreases s.len(),
{
    if s.len() == 0 {
        0
    } else if s[0] == c {
        0
    } else {
        1 + first_index(s.drop_first(), c)
    }
}

/// Index of the last `c` in `s`, or `-1` when there is none.
pub open spec fn last_index(s: Seq<char>, c: char) -> int
    decreases s.len(),
{
    if s.len() == 0 {
        -1
    } else if s.last() == c {
        s.len() - 1
    } else {
        last_index(s.drop_last(), c)
    }
}

/// The pieces of `s` between occurrences of `sep` (as `str::split` gives them):
/// never empty, and one more piece than there are separators.
pub open spec fn split(s: Seq<char>, sep: char) -> Seq<Seq<char>>
    decreases s.len(),
{
    let i = last_index(s, sep);
    if i < 0 {
        seq![s]
    } else {
        proof {
            lemma_last_index_range(s, sep);
        }
        split(s.take(i), sep).push(s.skip(i + 1))
    }
}

/// `s` split at its first `sep` (as `str::split_once` gives it).
pub open spec fn split_once(s: Seq<char>, sep: char) -> Option<(Seq<char>, Seq<char>)> {
    let i = first_index(s, sep);
    if i < s.len() {
        Some((s.take(i as int), s.skip(i as int + 1)))
    } else {
        None
    }
}

/// The pieces joined with `sep` between them (as `[&str]::join` gives it).
pub open spec fn join(parts: Seq<Seq<char>>, sep: char) -> Seq<char>
    decreases parts.len(),
{
    if parts.len() == 0 {
        Seq::empty()
    } else if parts.len() == 1 {
        parts[0]
    } else {
        join(parts.drop_last(), sep).push(sep) + parts.last()
    }
}

pub open spec fn is_digit(c: char) -> bool {
    '0' <= c <= '9'
}

pub open spec fn digit_value(c: char) -> nat {
    (c as int - '0' as int) as nat
}

pub open spec fn digit_char(d: nat) -> char {
    ('0' as int + d) as char
}

pub open spec fn all_digits(s: Seq<char>) -> bool {
    forall|i: int| 0 <= i < s.len() ==> is_digit(#[trigger] s[i])
}

/// The number that a string of decimal digits denotes.
pub open spec fn digits_value(s: Seq<char>) -> nat
    decreases s.len(),
{
    if s.len() == 0 {
        0
    } else {
        digits_value(s.drop_last()) * 10 + digit_value(s.last())
    }
}

/// What `str::parse::<u32>` accepts: an optional `+`, then one or more
/// decimal digits whose value fits in a `u32`.
pub open spec fn parse_u32(s: Seq<char>) -> Option<u32> {
    let digits = if s.len() > 0 && s[0] == '+' {
        s.drop_first()
    } else {
        s
    };
    if digits.len() == 0 || !all_digits(digits) || digits_value(digits) > u32::MAX {
        None
    } else {
        Some(digits_value(digits) as u32)
    }
}

/// What `str::parse::<usize>` accepts.
pub open spec fn parse_usize(s: Seq<char>) -> Option<usize> {
    let digits = if s.len() > 0 && s[0] == '+' {
        s.drop_first()
    } else {
        s
    };
    if digits.len() == 0 || !all_digits(digits) || digits_value(digits) > usize::MAX {
        None
    } else {
        Some(digits_value(digits) as usize)
    }
}

/// The decimal digits of `n`, without leading zeros (as `{}` prints an integer).
pub open spec fn dec(n: nat) -> Seq<char>
    decreases n,
{
    if n < 10 {
        seq![digit_char(n)]
    } else {
        dec(n / 10).push(digit_char(n % 10))
    }
}

// ---------------------------------------------------------------------------
// Lemmas
// ---------------------------------------------------------------------------

pub proof fn lemma_first_index(s: Seq<char>, c: char, i: int)
    requires
        0 <= i <= s.len(),
        forall|j: int| 0 <= j < i ==> s[j] != c,
        i == s.len() || s[i] == c,
    ensures
        first_index(s, c) == i,
    decreases s.len(),
{
    if s.len() > 0 && i > 0 {
        lemma_first_index(s.drop_first(), c, i - 1);
    }
}

pub proof fn lemma_first_index_bounds(s: Seq<char>, c: char)
    ensures
        first_index(s, c) <= s.len(),
        forall|j: int| 0 <= j < first_index(s, c) ==> s[j] != c,
        first_index(s, c) < s.len() ==> s[first_index(s, c) as int] == c,
    decreases s.len(),
{
    if s.len() > 0 && s[0] != c {
        lemma_first_index_bounds(s.drop_first(), c);
        assert forall|j: int| 0 <= j < first_index(s, c) implies s[j] != c by {
            if j > 0 {
                assert(s[j] == s.drop_first()[j - 1]);
            }
        }
    }
}

pub proof fn lemma_last_index_none(s: Seq<char>, c: char)
    requires
        forall|j: int| 0 <= j < s.len() ==> s[j] != c,
    ensures
        last_index(s, c) == -1,
    decreases s.len(),
{
    if s.len() > 0 {
        lemma_last_index_none(s.drop_last(), c);
    }
}

/// Appending a character that is not the separator extends the last piece.
pub proof fn lemma_split_push_other(s: Seq<char>, sep: char, x: char)
    requires
        x != sep,
    ensures
        split(s.push(x), sep) == split(s, sep).update(
            split(s, sep).len() - 1,
            split(s, sep).last().push(x),
        ),
        split(s, sep).len() >= 1,
    decreases s.len(),
{
    let t = s.push(x);
    assert(t.drop_last() =~= s);
    let i = last_index(s, sep);
    assert(last_index(t, sep) == i);
    if i >= 0 {
        lemma_last_index_range(s, sep);
        assert(t.take(i) =~= s.take(i));
        assert(t.skip(i + 1) =~= s.skip(i + 1).push(x));
        lemma_split_len(s.take(i), sep);
    }
}

pub proof fn lemma_split_len(s: Seq<char>, sep: char)
    ensures
        split(s, sep).len() >= 1,
    decreases s.len(),
{
    let i = last_index(s, sep);
    if i >= 0 {
        lemma_last_index_range(s, sep);
        lemma_split_len(s.take(i), sep);
    }
}

pub proof fn lemma_last_index_range(s: Seq<char>, c: char)
    ensures
        -1 <= last_index(s, c) < s.len(),
        last_index(s, c) >= 0 ==> s[last_index(s, c)] == c,
        forall|j: int| last_index(s, c) < j < s.len() ==> s[j] != c,
    decreases s.len(),
{
    if s.len() > 0 && s.last() != c {
        lemma_last_index_range(s.drop_last(), c);
        assert forall|j: int| last_index(s, c) < j < s.len() implies s[j] != c by {
            if j < s.len() - 1 {
                assert(s[j] == s.drop_last()[j]);
            }
        }
    }
}

/// Appending the separator starts a new, empty piece.
pub proof fn lemma_split_push_sep(s: Seq<char>, sep: char)
    ensures
        split(s.push(sep), sep) == split(s, sep).push(Seq::<char>::empty()),
{
    let t = s.push(sep);
    assert(t.take(s.len() as int) =~= s);
    assert(t.skip(s.len() as int + 1) =~= Seq::<char>::empty());
}

pub proof fn lemma_split_empty(sep: char)
    ensures
        split(Seq::<char>::empty(), sep) == seq![Seq::<char>::empty()],
{
}

pub proof fn lemma_digits_value_push(s: Seq<char>, c: char)
    ensures
        digits_value(s.push(c)) == digits_value(s) * 10 + digit_value(c),
{
    assert(s.push(c).drop_last() =~= s);
}


/// The decimal text of `n`: at least one digit, all digits, no leading zero,
/// and it denotes `n`.
pub proof fn lemma_dec(n: nat)
    ensures
        dec(n).len() >= 1,
        all_digits(dec(n)),
        digits_value(dec(n)) == n,
        n >= 10 ==> dec(n)[0] != '0',
        n < 10 ==> dec(n).len() == 1,
    decreases n,
{
    if n >= 10 {
        lemma_dec(n / 10);
        let p = dec(n / 10);
        let d = digit_char(n % 10);
        assert(dec(n) == p.push(d));
        assert(p.push(d).drop_last() =~= p);
        lemma_digits_value_push(p, d);
        assert(digit_value(d) == n % 10);
        assert(n == (n / 10) * 10 + n % 10);
        assert forall|i: int| 0 <= i < dec(n).len() implies is_digit(#[trigger] dec(n)[i]) by {
            if i < p.len() {
                assert(dec(n)[i] == p[i]);
            }
        }
        assert(dec(n)[0] == p[0]);
    } else {
        let d = digit_char(n);
        assert(Seq::<char>::empty().push(d) =~= seq![d]);
        lemma_digits_value_push(Seq::<char>::empty(), d);
    }
}

/// `str::parse::<u32>` reads back the decimal text of a `u32`.
pub proof fn lemma_parse_dec(n: u32)
    ensures
        parse_u32(dec(n as nat)) == Some(n),
{
    lemma_dec(n as nat);
    assert(is_digit(dec(n as nat)[0]));
}

/// A decimal text holds no character but digits.
pub proof fn lemma_dec_excludes(n: nat, c: char)
    requires
        !is_digit(c),
    ensures
        !dec(n).contains(c),
{
    lemma_dec(n);
}

/// Text with no white space at either end is its own trim.
pub proof fn lemma_trim_id(s: Seq<char>)
    requires
        s.len() > 0 ==> !is_ws(s[0]) && !is_ws(s.last()),
    ensures
        trim(s) == s,
{
}

/// Splitting text without the separator gives the text itself.
pub proof fn lemma_split_single(t: Seq<char>, sep: char)
    requires
        !t.contains(sep),
    ensures
        split(t, sep) == seq![t],
{
    lemma_last_index_none(t, sep);
}

/// Splitting `s`, a separator, then `t` without the separator: the pieces of
/// `s`, then `t`.
pub proof fn lemma_split_concat(s: Seq<char>, t: Seq<char>, sep: char)
    requires
        !t.contains(sep),
    ensures
        split(s + seq![sep] + t, sep) == split(s, sep).push(t),
    decreases t.len(),
{
    let u = s + seq![sep] + t;
    if t.len() == 0 {
        assert(u =~= s.push(sep));
        assert(t =~= Seq::<char>::empty());
        lemma_split_push_sep(s, sep);
    } else {
        assert(u.drop_last() =~= s + seq![sep] + t.drop_last());
        assert(u.last() == t.last());
        assert(t.last() != sep) by {
            assert(t.contains(t.last()) ==> t.last() != sep);
            assert(t[t.len() - 1] == t.last());
        }
        assert(!t.drop_last().contains(sep)) by {
            if t.drop_last().contains(sep) {
                let i = choose|i: int| 0 <= i < t.drop_last().len() && t.drop_last()[i] == sep;
                assert(t[i] == sep);
            }
        }
        lemma_split_concat(s, t.drop_last(), sep);
        let q = s + seq![sep] + t.drop_last();
        assert(q.push(t.last()) =~= u);
        lemma_split_push_other(q, sep, t.last());
        assert(t.drop_last().push(t.last()) =~= t);
        lemma_split_len(s, sep);
        assert(split(q, sep).len() - 1 == split(s, sep).len());
        assert(split(q, sep).last() == t.drop_last());
        assert(split(s, sep).push(t.drop_last()).update(
            split(s, sep).len() as int,
            t,
        ) =~= split(s, sep).push(t));
    }
}

/// Joining the pieces of a split gives the text back.
pub proof fn lemma_join_split(s: Seq<char>, sep: char)
    ensures
        join(split(s, sep), sep) == s,
    decreases s.len(),
{
    let i = last_index(s, sep);
    lemma_last_index_range(s, sep);
    if i < 0 {
        assert(split(s, sep) == seq![s]);
    } else {
        lemma_join_split(s.take(i), sep);
        lemma_split_len(s.take(i), sep);
        let parts = split(s.take(i), sep);
        let all = parts.push(s.skip(i + 1));
        assert(all.drop_last() =~= parts);
        assert(s =~= s.take(i).push(sep) + s.skip(i + 1));
    }
}

// ---------------------------------------------------------------------------
// Executable operations
// ---------------------------------------------------------------------------

pub fn is_ws_char(c: char) -> (b: bool)
    ensures
        b == is_ws(c),
{
    ('\u{9}' <= c && c <= '\u{d}') || c == ' ' || c == '\u{85}' || c == '\u{a0}' || c
        == '\u{1680}' || ('\u{2000}' <= c && c <= '\u{200a}') || c == '\u{2028}' || c
        == '\u{2029}' || c == '\u{202f}' || c == '\u{205f}' || c == '\u{3000}'
}

/// The characters of `s`, in order, as a vector.
pub fn chars_of(s: &str) -> (out: Vec<char>)
    ensures
        out@ == s@,
{
    let mut out: Vec<char> = Vec::new();
    for c in it: s.chars()
        invariant
            out@ == it.seq().take(it.index() as int),
    {
        out.push(c);
    }
    out
}

pub assume_specification[ String::push ](s: &mut String, ch: char)
    ensures
        final(s)@ == old(s)@.push(ch),
;

/// Appends the characters of `cs` to `out`.
pub fn push_chars(out: &mut String, cs: &[char])
    ensures
        final(out)@ == old(out)@ + cs@,
{
    let ghost start = out@;
    for i in 0..cs.len()
        invariant
            out@ == start + cs@.take(i as int),
    {
        out.push(cs[i]);
        assert(cs@.take(i + 1) =~= cs@.take(i as int).push(cs@[i as int]));
    }
    assert(cs@.take(cs@.len() as int) =~= cs@);
}

/// Appends the characters of `s` to `out`.
pub fn push_str(out: &mut String, s: &str)
    ensures
        final(out)@ == old(out)@ + s@,
{
    out.append(s);
}

/// The string made of the characters of `cs`.
pub fn string_of(cs: &[char]) -> (out: String)
    ensures
        out@ == cs@,
{
    let mut out = String::new();
    push_chars(&mut out, cs);
    assert(Seq::<char>::empty() + cs@ =~= cs@);
    out
}

/// The characters `v[from..to]` as a new vector.
pub fn sub_vec(v: &[char], from: usize, to: usize) -> (out: Vec<char>)
    requires
        from <= to <= v@.len(),
    ensures
        out@ == v@.subrange(from as int, to as int),
{
    let mut out: Vec<char> = Vec::new();
    let mut i = from;
    while i < to
        invariant
            from <= i <= to <= v@.len(),
            out@ == v@.subrange(from as int, i as int),
        decreases to - i,
    {
        out.push(v[i]);
        assert(v@.subrange(from as int, i + 1) =~= v@.subrange(from as int, i as int).push(
            v@[i as int],
        ));
        i += 1;
    }
    out
}

proof fn lemma_trim_start_skip(s: Seq<char>, i: int)
    requires
        0 <= i <= s.len(),
        forall|j: int| 0 <= j < i ==> is_ws(s[j]),
    ensures
        trim_start(s) == trim_start(s.skip(i)),
    decreases i,
{
    if i > 0 {
        assert(is_ws(s[0]));
        assert(s.skip(i) =~= s.drop_first().skip(i - 1));
        assert forall|j: int| 0 <= j < i - 1 implies is_ws(s.drop_first()[j]) by {
            assert(s.drop_first()[j] == s[j + 1]);
        }
        lemma_trim_start_skip(s.drop_first(), i - 1);
    } else {
        assert(s.skip(0) =~= s);
    }
}

proof fn lemma_trim_end_take(s: Seq<char>, j: int)
    requires
        0 <= j <= s.len(),
        forall|k: int| j <= k < s.len() ==> is_ws(s[k]),
    ensures
        trim_end(s) == trim_end(s.take(j)),
    decreases s.len() - j,
{
    if j < s.len() {
        assert(s.drop_last().take(j) =~= s.take(j));
        lemma_trim_end_take(s.drop_last(), j);
    } else {
        assert(s.take(j) =~= s);
    }
}

/// `s` without leading and trailing white space.
pub fn trim_chars(s: &[char]) -> (out: Vec<char>)
    ensures
        out@ == trim(s@),
{
    let n = s.len();
    let mut i: usize = 0;
    while i < n && is_ws_char(s[i])
        invariant
            i <= n == s@.len(),
            forall|j: int| 0 <= j < i ==> is_ws(s@[j]),
        decreases n - i,
    {
        i += 1;
    }
    proof {
        lemma_trim_start_skip(s@, i as int);
    }
    let mut j: usize = n;
    while j > i && is_ws_char(s[j - 1])
        invariant
            i <= j <= n == s@.len(),
            forall|k: int| j <= k < n ==> is_ws(s@[k]),
        decreases j,
    {
        j -= 1;
    }
    let ghost t = s@.skip(i as int);
    proof {
        assert(i == n || !is_ws(s@[i as int]));
        assert(trim_start(t) == t);
        lemma_trim_end_take(t, j - i);
        assert(t.take(j - i) =~= s@.subrange(i as int, j as int));
        let u = s@.subrange(i as int, j as int);
        assert(u.len() == 0 || !is_ws(u.last()));
    }
    sub_vec(s, i, j)
}

/// Index of the first `c` in `s`, or `s.len()`.
pub fn first_index_of(s: &[char], c: char) -> (i: usize)
    ensures
        i == first_index(s@, c),
        i <= s@.len(),
{
    let mut i: usize = 0;
    while i < s.len() && s[i] != c
        invariant
            i <= s@.len(),
            forall|j: int| 0 <= j < i ==> s@[j] != c,
        decreases s@.len() - i,
    {
        i += 1;
    }
    proof {
        lemma_first_index(s@, c, i as int);
    }
    i
}

/// Whether `c` occurs in `s`.
pub fn contains_char(s: &[char], c: char) -> (b: bool)
    ensures
        b == s@.contains(c),
{
    let i = first_index_of(s, c);
    proof {
        lemma_first_index_bounds(s@, c);
        if !(i < s@.len()) {
            assert forall|j: int| 0 <= j < s@.len() implies s@[j] != c by {}
        }
    }
    i < s.len()
}

/// The pieces of `s` between occurrences of `sep`.
pub fn split_chars(s: &[char], sep: char) -> (parts: Vec<Vec<char>>)
    ensures
        parts@.len() == split(s@, sep).len(),
        forall|k: int| 0 <= k < parts@.len() ==> (#[trigger] parts@[k])@ == split(s@, sep)[k],
{
    let mut parts: Vec<Vec<char>> = Vec::new();
    let mut cur: Vec<char> = Vec::new();
    let n = s.len();
    let mut i: usize = 0;
    proof {
        lemma_split_empty(sep);
        assert(s@.take(0) =~= Seq::<char>::empty());
    }
    while i < n
        invariant
            i <= n == s@.len(),
            parts@.len() + 1 == split(s@.take(i as int), sep).len(),
            forall|k: int|
                0 <= k < parts@.len() ==> (#[trigger] parts@[k])@ == split(
                    s@.take(i as int),
                    sep,
                )[k],
            cur@ == split(s@.take(i as int), sep).last(),
        decreases n - i,
    {
        let c = s[i];
        let ghost p = s@.take(i as int);
        assert(s@.take(i + 1) =~= p.push(c));
        if c == sep {
            proof {
                lemma_split_push_sep(p, sep);
            }
            parts.push(cur);
            cur = Vec::new();
        } else {
            proof {
                lemma_split_push_other(p, sep, c);
            }
            cur.push(c);
        }
        i += 1;
    }
    assert(s@.take(n as int) =~= s@);
    parts.push(cur);
    parts
}

proof fn lemma_clamp_step(v: nat, d: nat, cap: nat)
    requires
        cap >= 1,
    ensures
        (if v * 10 + d > cap { cap } else { v * 10 + d }) == ({
            let w = if v > cap { cap } else { v };
            if w * 10 + d > cap { cap } else { w * 10 + d }
        }),
{
    if v > cap {
        assert(v * 10 + d > cap) by (nonlinear_arith)
            requires
                v > cap,
                cap >= 1,
        ;
        assert(cap * 10 + d > cap) by (nonlinear_arith)
            requires
                cap >= 1,
        ;
    }
}

/// Reads `s[from..]` as decimal digits: whether they are all digits, and their
/// value, or `cap` where the value exceeds `cap`.
fn digits_clamped(s: &[char], from: usize, cap: u128) -> (r: (bool, u128))
    requires
        from <= s@.len(),
        1 <= cap <= u64::MAX as u128 + 1,
    ensures
        r.0 == all_digits(s@.skip(from as int)),
        r.0 ==> r.1 == (if digits_value(s@.skip(from as int)) > cap {
            cap as nat
        } else {
            digits_value(s@.skip(from as int))
        }),
{
    let n = s.len();
    let mut i = from;
    let mut acc: u128 = 0;
    while i < n
        invariant
            from <= i <= n == s@.len(),
            1 <= cap <= u64::MAX as u128 + 1,
            all_digits(s@.subrange(from as int, i as int)),
            acc <= cap,
            acc == (if digits_value(s@.subrange(from as int, i as int)) > cap {
                cap as nat
            } else {
                digits_value(s@.subrange(from as int, i as int))
            }),
        decreases n - i,
    {
        let c = s[i];
        let ghost p = s@.subrange(from as int, i as int);
        assert(s@.subrange(from as int, i + 1) =~= p.push(c));
        if !('0' <= c && c <= '9') {
            assert(s@.skip(from as int)[i - from] == c);
            return (false, 0);
        }
        let d = (c as u32 - '0' as u32) as u128;
        proof {
            lemma_digits_value_push(p, c);
            lemma_clamp_step(digits_value(p), d as nat, cap as nat);
        }
        let next = acc * 10 + d;
        acc = if next > cap {
            cap
        } else {
            next
        };
        i += 1;
    }
    assert(s@.subrange(from as int, n as int) =~= s@.skip(from as int));
    (true, acc)
}

/// `str::parse::<u32>` on the characters `s`.
pub fn parse_u32_chars(s: &[char]) -> (r: Option<u32>)
    ensures
        r == parse_u32(s@),
{
    let from: usize = if s.len() > 0 && s[0] == '+' {
        1
    } else {
        0
    };
    assert(from == 1 ==> s@.skip(1) =~= s@.drop_first());
    assert(from == 0 ==> s@.skip(0) =~= s@);
    if from == s.len() {
        return None;
    }
    let (ok, v) = digits_clamped(s, from, u32::MAX as u128 + 1);
    if !ok || v > u32::MAX as u128 {
        None
    } else {
        Some(v as u32)
    }
}

/// `str::parse::<usize>` on the characters `s`.
pub fn parse_usize_chars(s: &[char]) -> (r: Option<usize>)
    ensures
        r == parse_usize(s@),
{
    let from: usize = if s.len() > 0 && s[0] == '+' {
        1
    } else {
        0
    };
    assert(from == 1 ==> s@.skip(1) =~= s@.drop_first());
    assert(from == 0 ==> s@.skip(0) =~= s@);
    if from == s.len() {
        return None;
    }
    let (ok, v) = digits_clamped(s, from, usize::MAX as u128 + 1);
    if !ok || v > usize::MAX as u128 {
        None
    } else {
        Some(v as usize)
    }
}

/// Appends the decimal digits of `n` to `out`.
pub fn push_dec(out: &mut String, n: u64)
    ensures
        final(out)@ == old(out)@ + dec(n as nat),
    decreases n,
{
    let ghost start = out@;
    if n >= 10 {
        push_dec(out, n / 10);
    }
    let d = (n % 10) as u8;
    out.push((48u8 + d) as char);
    proof {
        if n >= 10 {
            assert(start + dec(n as nat) =~= start + dec((n / 10) as nat) + seq![digit_char((n % 10) as nat)]);
        } else {
            assert(start + dec(n as nat) =~= start.push(digit_char(n as nat)));
        }
    }
}

/// The decimal digits of `n`.
pub fn dec_string(n: u64) -> (out: String)
    ensures
        out@ == dec(n as nat),
{
    let mut out = String::new();
    push_dec(&mut out, n);
    assert(Seq::<char>::empty() + dec(n as nat) =~= dec(n as nat));
    out
}

} // verus!
