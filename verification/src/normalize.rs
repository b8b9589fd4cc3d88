//! Clean-up of user input: full-width characters to ASCII, blank runs
//! squeezed, white space around `/` removed.
use vstd::prelude::*;

use crate::text::{
    chars_of, is_ws, join, lemma_join_split, lemma_last_index_range, lemma_trim_id, last_index, split,
    split_chars, string_of, trim, trim_chars, trim_end, trim_start,
};

verus! {

/// Full-width digits and Latin letters, the full-width `.` and `/`, and the
/// ideographic space, mapped to their ASCII counterparts; other characters kept.
pub open spec fn widen(c: char) -> char {
    let code = c as u32;
    if (0xFF10 <= code <= 0xFF19) || (0xFF21 <= code <= 0xFF3A) || (0xFF41 <= code <= 0xFF5A) {
        (code - 0xFEE0) as char
    } else if code == 0xFF0E {
        '.'
    } else if code == 0xFF0F {
        '/'
    } else if code == 0x3000 {
        ' '
    } else {
        c
    }
}

pub open spec fn is_blank(c: char) -> bool {
    c == ' ' || c == '\t'
}

/// `s` with every run of spaces and tabs replaced by one space.
pub open spec fn squeeze(s: Seq<char>) -> Seq<char>
    decreases s.len(),
{
    if s.len() == 0 {
        Seq::empty()
    } else {
        let p = s.drop_last();
        let c = s.last();
        if is_blank(c) {
            if p.len() > 0 && is_blank(p.last()) {
                squeeze(p)
            } else {
                squeeze(p).push(' ')
            }
        } else {
            squeeze(p).push(c)
        }
    }
}

/// The pieces of `s` between `/`, each trimmed.
pub open spec fn trimmed_pieces(s: Seq<char>) -> Seq<Seq<char>> {
    split(s, '/').map_values(|p: Seq<char>| trim(p))
}

/// What `normalize_input` gives for `s`.
pub open spec fn normalized(s: Seq<char>) -> Seq<char> {
    join(trimmed_pieces(squeeze(trim(s.map_values(|c: char| widen(c))))), '/')
}

fn widen_char(c: char) -> (w: char)
    ensures
        w == widen(c),
{
    let code = c as u32;
    if (0xFF10 <= code && code <= 0xFF19) || (0xFF21 <= code && code <= 0xFF3A) || (0xFF41
        <= code && code <= 0xFF5A) {
        ((code - 0xFEE0) as u8) as char
    } else if code == 0xFF0E {
        '.'
    } else if code == 0xFF0F {
        '/'
    } else if code == 0x3000 {
        ' '
    } else {
        c
    }
}

fn squeeze_chars(s: &Vec<char>) -> (out: Vec<char>)
    ensures
        out@ == squeeze(s@),
{
    let mut out: Vec<char> = Vec::new();
    let mut prev_space = false;
    let mut i: usize = 0;
    while i < s.len()
        invariant
            i <= s@.len(),
            out@ == squeeze(s@.take(i as int)),
            prev_space == (i > 0 && is_blank(s@[i - 1])),
        decreases s@.len() - i,
    {
        let c = s[i];
        let ghost p = s@.take(i as int);
        proof {
            let q = s@.take(i + 1);
            assert(q.drop_last() =~= p);
            assert(q.last() == c);
            assert(i > 0 ==> p.last() == s@[i - 1]);
        }
        if c == ' ' || c == '\t' {
            if !prev_space {
                out.push(' ');
            }
            prev_space = true;
        } else {
            out.push(c);
            prev_space = false;
        }
        i += 1;
    }
    assert(s@.take(s@.len() as int) =~= s@);
    out
}

fn join_chars(parts: &Vec<Vec<char>>, sep: char) -> (out: Vec<char>)
    ensures
        out@ == join(parts@.map_values(|v: Vec<char>| v@), sep),
{
    let ghost views = parts@.map_values(|v: Vec<char>| v@);
    let mut out: Vec<char> = Vec::new();
    let mut k: usize = 0;
    while k < parts.len()
        invariant
            k <= parts@.len(),
            views == parts@.map_values(|v: Vec<char>| v@),
            out@ == join(views.take(k as int), sep),
        decreases parts@.len() - k,
    {
        let ghost before = out@;
        if k > 0 {
            out.push(sep);
        }
        let part = &parts[k];
        let mut j: usize = 0;
        while j < part.len()
            invariant
                j <= part@.len(),
                k > 0 ==> out@ == before.push(sep) + part@.take(j as int),
                k == 0 ==> out@ == before + part@.take(j as int),
            decreases part@.len() - j,
        {
            out.push(part[j]);
            assert(part@.take(j + 1) =~= part@.take(j as int).push(part@[j as int]));
            j += 1;
        }
        proof {
            assert(part@.take(part@.len() as int) =~= part@);
            let t = views.take(k + 1);
            assert(t.drop_last() =~= views.take(k as int));
            assert(t.last() == part@);
            if k == 0 {
                assert(views.take(0) =~= Seq::<Seq<char>>::empty());
                assert(before =~= Seq::<char>::empty());
                assert(out@ =~= part@);
            }
        }
        k += 1;
    }
    assert(views.take(parts@.len() as int) =~= views);
    out
}

/// `normalize_input` on the characters `s`.
pub fn normalize_chars(s: &Vec<char>) -> (out: Vec<char>)
    ensures
        out@ == normalized(s@),
{
    let mut wide: Vec<char> = Vec::new();
    let mut i: usize = 0;
    while i < s.len()
        invariant
            i <= s@.len(),
            wide@ == s@.take(i as int).map_values(|c: char| widen(c)),
        decreases s@.len() - i,
    {
        wide.push(widen_char(s[i]));
        assert(s@.take(i + 1).map_values(|c: char| widen(c)) =~= s@.take(i as int).map_values(
            |c: char| widen(c),
        ).push(widen(s@[i as int])));
        i += 1;
    }
    assert(s@.take(s@.len() as int) =~= s@);
    let trimmed = trim_chars(&wide);
    let squeezed = squeeze_chars(&trimmed);
    let pieces = split_chars(&squeezed, '/');
    let mut cleaned: Vec<Vec<char>> = Vec::new();
    let mut k: usize = 0;
    while k < pieces.len()
        invariant
            k <= pieces@.len(),
            pieces@.len() == split(squeezed@, '/').len(),
            forall|j: int| 0 <= j < pieces@.len() ==> (#[trigger] pieces@[j])@ == split(squeezed@, '/')[j],
            cleaned@.len() == k,
            forall|j: int| 0 <= j < k ==> (#[trigger] cleaned@[j])@ == trim(split(squeezed@, '/')[j]),
        decreases pieces@.len() - k,
    {
        cleaned.push(trim_chars(&pieces[k]));
        k += 1;
    }
    let out = join_chars(&cleaned, '/');
    assert(cleaned@.map_values(|v: Vec<char>| v@) =~= trimmed_pieces(squeezed@));
    out
}

/// Converts full-width characters to ASCII, trims, squeezes runs of spaces and
/// tabs to one space, and removes white space around each `/`.
pub fn normalize_input(s: &str) -> (out: String)
    ensures
        out@ == normalized(s@),
{
    let cs = chars_of(s);
    let n = normalize_chars(&cs);
    string_of(&n)
}

// ---------------------------------------------------------------------------
// Normalising twice changes nothing
// ---------------------------------------------------------------------------

/// A character that normalisation leaves as it is and that is not a tab.
pub open spec fn settled(c: char) -> bool {
    widen(c) == c && c != '\t'
}

pub open spec fn all_settled(s: Seq<char>) -> bool {
    forall|i: int| 0 <= i < s.len() ==> settled(#[trigger] s[i])
}

pub open spec fn no_double_space(s: Seq<char>) -> bool {
    forall|i: int| 0 <= i < s.len() - 1 ==> !(#[trigger] s[i] == ' ' && s[i + 1] == ' ')
}

/// White space stands only inside the text, away from each `/`.
pub open spec fn ws_inside(s: Seq<char>) -> bool {
    forall|j: int|
        0 <= j < s.len() && is_ws(#[trigger] s[j]) ==> 0 < j < s.len() - 1 && s[j - 1] != '/'
            && s[j + 1] != '/'
}

/// A text as normalisation leaves it.
pub open spec fn tidy(s: Seq<char>) -> bool {
    all_settled(s) && no_double_space(s) && ws_inside(s)
}

proof fn lemma_widen_idem(c: char)
    ensures
        widen(widen(c)) == widen(c),
{
    let code = c as u32;
    if (0xFF10 <= code <= 0xFF19) || (0xFF21 <= code <= 0xFF3A) || (0xFF41 <= code <= 0xFF5A) {
        let d = (code - 0xFEE0) as char;
        assert(d as u32 == code - 0xFEE0);
    }
}

proof fn lemma_trim_start_shape(p: Seq<char>) -> (a: int)
    ensures
        0 <= a <= p.len(),
        trim_start(p) == p.skip(a),
        trim_start(p).len() > 0 ==> !is_ws(trim_start(p)[0]),
    decreases p.len(),
{
    if p.len() > 0 && is_ws(p[0]) {
        let a = lemma_trim_start_shape(p.drop_first());
        assert(p.drop_first().skip(a) =~= p.skip(a + 1));
        a + 1
    } else {
        assert(p.skip(0) =~= p);
        0
    }
}

proof fn lemma_trim_end_shape(p: Seq<char>) -> (b: int)
    ensures
        0 <= b <= p.len(),
        trim_end(p) == p.take(b),
        trim_end(p).len() > 0 ==> !is_ws(trim_end(p).last()),
    decreases p.len(),
{
    if p.len() > 0 && is_ws(p.last()) {
        let b = lemma_trim_end_shape(p.drop_last());
        assert(p.drop_last().take(b) =~= p.take(b));
        b
    } else {
        assert(p.take(p.len() as int) =~= p);
        p.len() as int
    }
}

/// `trim(p)` is a run of `p` with no white space at either end.
proof fn lemma_trim_shape(p: Seq<char>) -> (ab: (int, int))
    ensures
        0 <= ab.0 <= ab.1 <= p.len(),
        trim(p) == p.subrange(ab.0, ab.1),
        trim(p).len() > 0 ==> !is_ws(trim(p)[0]) && !is_ws(trim(p).last()),
{
    let a = lemma_trim_start_shape(p);
    let t = trim_start(p);
    let b = lemma_trim_end_shape(t);
    assert(t.take(b) =~= p.subrange(a, a + b));
    if trim(p).len() > 0 {
        assert(trim(p)[0] == t[0]);
    }
    (a, a + b)
}

proof fn lemma_run_tidy(p: Seq<char>, a: int, b: int)
    requires
        0 <= a <= b <= p.len(),
        all_settled(p),
        no_double_space(p),
    ensures
        all_settled(p.subrange(a, b)),
        no_double_space(p.subrange(a, b)),
        !p.contains('/') ==> !p.subrange(a, b).contains('/'),
{
    let r = p.subrange(a, b);
    assert forall|i: int| 0 <= i < r.len() implies settled(#[trigger] r[i]) by {
        assert(r[i] == p[a + i]);
    }
    assert forall|i: int| 0 <= i < r.len() - 1 implies !(#[trigger] r[i] == ' ' && r[i + 1] == ' ') by {
        assert(r[i] == p[a + i] && r[i + 1] == p[a + i + 1]);
    }
    if !p.contains('/') && r.contains('/') {
        let i = choose|i: int| 0 <= i < r.len() && r[i] == '/';
        assert(p[a + i] == '/');
    }
}

proof fn lemma_squeeze_tidy(s: Seq<char>)
    requires
        forall|i: int| 0 <= i < s.len() ==> widen(#[trigger] s[i]) == s[i],
    ensures
        all_settled(squeeze(s)),
        no_double_space(squeeze(s)),
        s.len() > 0 ==> squeeze(s).len() > 0 && (squeeze(s).last() == ' ' <==> is_blank(s.last())),
    decreases s.len(),
{
    if s.len() > 0 {
        let p = s.drop_last();
        let c = s.last();
        assert forall|i: int| 0 <= i < p.len() implies widen(#[trigger] p[i]) == p[i] by {
            assert(p[i] == s[i]);
        }
        assert(widen(s[s.len() - 1]) == s[s.len() - 1]);
        lemma_squeeze_tidy(p);
        let q = squeeze(p);
        if is_blank(c) {
            if p.len() > 0 && is_blank(p.last()) {
            } else {
                let r = q.push(' ');
                assert forall|i: int| 0 <= i < r.len() implies settled(#[trigger] r[i]) by {
                    if i < q.len() {
                        assert(r[i] == q[i]);
                    }
                }
                assert forall|i: int| 0 <= i < r.len() - 1 implies !(#[trigger] r[i] == ' ' && r[i + 1] == ' ') by {
                    assert(r[i] == q[i]);
                    if i + 1 < q.len() {
                        assert(r[i + 1] == q[i + 1]);
                    }
                }
            }
        } else {
            let r = q.push(c);
            assert forall|i: int| 0 <= i < r.len() implies settled(#[trigger] r[i]) by {
                if i < q.len() {
                    assert(r[i] == q[i]);
                }
            }
            assert forall|i: int| 0 <= i < r.len() - 1 implies !(#[trigger] r[i] == ' ' && r[i + 1] == ' ') by {
                assert(r[i] == q[i]);
                if i + 1 < q.len() {
                    assert(r[i + 1] == q[i + 1]);
                }
            }
        }
    }
}

proof fn lemma_split_tidy(s: Seq<char>)
    requires
        all_settled(s),
        no_double_space(s),
    ensures
        forall|k: int|
            0 <= k < split(s, '/').len() ==> all_settled(#[trigger] split(s, '/')[k]) && no_double_space(
                split(s, '/')[k],
            ) && !split(s, '/')[k].contains('/'),
    decreases s.len(),
{
    let i = last_index(s, '/');
    lemma_last_index_range(s, '/');
    if i < 0 {
        assert(split(s, '/') == seq![s]);
        if s.contains('/') {
            let j = choose|j: int| 0 <= j < s.len() && s[j] == '/';
        }
    } else {
        lemma_run_tidy(s, 0, i);
        assert(s.subrange(0, i) =~= s.take(i));
        lemma_split_tidy(s.take(i));
        lemma_run_tidy(s, i + 1, s.len() as int);
        let t = s.skip(i + 1);
        assert(s.subrange(i + 1, s.len() as int) =~= t);
        if t.contains('/') {
            let j = choose|j: int| 0 <= j < t.len() && t[j] == '/';
            assert(s[i + 1 + j] == '/');
        }
        let ps = split(s, '/');
        assert(ps == split(s.take(i), '/').push(t));
        assert forall|k: int| 0 <= k < ps.len() implies all_settled(#[trigger] ps[k]) && no_double_space(ps[k])
            && !ps[k].contains('/') by {
            if k < ps.len() - 1 {
                assert(ps[k] == split(s.take(i), '/')[k]);
            }
        }
    }
}

/// A piece as normalisation leaves it: settled, no double space, no `/`,
/// no white space at either end.
pub open spec fn tidy_piece(t: Seq<char>) -> bool {
    &&& all_settled(t)
    &&& no_double_space(t)
    &&& !t.contains('/')
    &&& t.len() > 0 ==> !is_ws(t[0]) && !is_ws(t.last())
}

proof fn lemma_join_tidy(ts: Seq<Seq<char>>)
    requires
        ts.len() > 0,
        forall|k: int| 0 <= k < ts.len() ==> tidy_piece(#[trigger] ts[k]),
    ensures
        tidy(join(ts, '/')),
    decreases ts.len(),
{
    if ts.len() == 1 {
        let t = ts[0];
        assert(tidy_piece(ts[0]));
        assert forall|j: int| 0 <= j < t.len() && is_ws(#[trigger] t[j]) implies 0 < j < t.len() - 1 && t[j - 1]
            != '/' && t[j + 1] != '/' by {
            assert(t.last() == t[t.len() - 1]);
            if t[j - 1] == '/' {
                assert(t.contains('/'));
            }
            if t[j + 1] == '/' {
                assert(t.contains('/'));
            }
        }
    } else {
        let xs = ts.drop_last();
        assert forall|k: int| 0 <= k < xs.len() implies tidy_piece(#[trigger] xs[k]) by {
            assert(xs[k] == ts[k]);
        }
        lemma_join_tidy(xs);
        let x = join(xs, '/');
        let y = ts.last();
        assert(tidy_piece(ts[ts.len() - 1]));
        let n = join(ts, '/');
        assert(n == x.push('/') + y);
        let m = x.len() as int;
        assert forall|i: int| 0 <= i < n.len() implies settled(#[trigger] n[i]) by {
            if i < m {
                assert(n[i] == x[i]);
            } else if i > m {
                assert(n[i] == y[i - m - 1]);
            }
        }
        assert forall|i: int| 0 <= i < n.len() - 1 implies !(#[trigger] n[i] == ' ' && n[i + 1] == ' ') by {
            if i < m - 1 {
                assert(n[i] == x[i] && n[i + 1] == x[i + 1]);
            } else if i > m {
                assert(n[i] == y[i - m - 1] && n[i + 1] == y[i - m]);
            }
        }
        assert forall|j: int| 0 <= j < n.len() && is_ws(#[trigger] n[j]) implies 0 < j < n.len() - 1 && n[j - 1]
            != '/' && n[j + 1] != '/' by {
            if j < m {
                assert(n[j] == x[j]);
                assert(is_ws(x[j]));
                assert(n[j - 1] == x[j - 1]);
                assert(n[j + 1] == x[j + 1]);
            } else if j > m {
                let k = j - m - 1;
                assert(n[j] == y[k]);
                assert(y.len() > 0);
                assert(!is_ws(y[0]) && !is_ws(y.last()));
                assert(y.last() == y[y.len() - 1]);
                assert(0 < k < y.len() - 1);
                assert(n[j - 1] == y[k - 1]);
                assert(n[j + 1] == y[k + 1]);
                if y[k - 1] == '/' || y[k + 1] == '/' {
                    assert(y.contains('/'));
                }
            }
        }
    }
}

proof fn lemma_squeeze_fixed(s: Seq<char>)
    requires
        all_settled(s),
        no_double_space(s),
    ensures
        squeeze(s) == s,
    decreases s.len(),
{
    if s.len() > 0 {
        let p = s.drop_last();
        assert forall|i: int| 0 <= i < p.len() implies settled(#[trigger] p[i]) by {
            assert(p[i] == s[i]);
        }
        assert forall|i: int| 0 <= i < p.len() - 1 implies !(#[trigger] p[i] == ' ' && p[i + 1] == ' ') by {
            assert(p[i] == s[i] && p[i + 1] == s[i + 1]);
        }
        lemma_squeeze_fixed(p);
        assert(settled(s[s.len() - 1]));
        if p.len() > 0 {
            assert(p.last() == s[s.len() - 2]);
            assert(settled(s[s.len() - 2]));
        }
        assert(p.push(s.last()) =~= s);
    }
}

proof fn lemma_split_trim_fixed(s: Seq<char>)
    requires
        ws_inside(s),
    ensures
        forall|k: int| 0 <= k < split(s, '/').len() ==> trim(#[trigger] split(s, '/')[k]) == split(s, '/')[k],
    decreases s.len(),
{
    let i = last_index(s, '/');
    lemma_last_index_range(s, '/');
    if i < 0 {
        assert(split(s, '/') == seq![s]);
        if s.len() > 0 {
            assert(!is_ws(s[0]));
            assert(s.last() == s[s.len() - 1]);
            assert(!is_ws(s[s.len() - 1]));
        }
        lemma_trim_id(s);
    } else {
        let h = s.take(i);
        assert forall|j: int| 0 <= j < h.len() && is_ws(#[trigger] h[j]) implies 0 < j < h.len() - 1 && h[j - 1]
            != '/' && h[j + 1] != '/' by {
            assert(h[j] == s[j]);
            assert(is_ws(s[j]));
            assert(s[j + 1] != '/');
            assert(h[j - 1] == s[j - 1]);
            if j + 1 < h.len() {
                assert(h[j + 1] == s[j + 1]);
            }
        }
        lemma_split_trim_fixed(h);
        let t = s.skip(i + 1);
        if t.len() > 0 {
            assert(t[0] == s[i + 1]);
            if is_ws(s[i + 1]) {
                assert(s[i + 1 - 1] != '/');
            }
            assert(t.last() == s[s.len() - 1]);
            assert(!is_ws(s[s.len() - 1]));
        }
        lemma_trim_id(t);
        let ps = split(s, '/');
        assert(ps == split(h, '/').push(t));
        assert forall|k: int| 0 <= k < ps.len() implies trim(#[trigger] ps[k]) == ps[k] by {
            if k < ps.len() - 1 {
                assert(ps[k] == split(h, '/')[k]);
            }
        }
    }
}

/// A text as normalisation leaves it normalises to itself.
proof fn lemma_tidy_fixed(n: Seq<char>)
    requires
        tidy(n),
    ensures
        normalized(n) == n,
{
    assert(n.map_values(|c: char| widen(c)) =~= n) by {
        assert forall|i: int| 0 <= i < n.len() implies widen(n[i]) == n[i] by {
            assert(settled(n[i]));
        }
    }
    if n.len() > 0 {
        assert(!is_ws(n[0]));
        assert(n.last() == n[n.len() - 1]);
        assert(!is_ws(n[n.len() - 1]));
    }
    lemma_trim_id(n);
    lemma_squeeze_fixed(n);
    lemma_split_trim_fixed(n);
    assert(trimmed_pieces(n) =~= split(n, '/'));
    lemma_join_split(n, '/');
}

/// One of the full-width characters that normalisation replaces: digits,
/// Latin letters, `.`, `/`, and the ideographic space.
pub open spec fn is_full_width(c: char) -> bool {
    let code = c as u32;
    ||| 0xFF10 <= code <= 0xFF19
    ||| 0xFF21 <= code <= 0xFF3A
    ||| 0xFF41 <= code <= 0xFF5A
    ||| code == 0xFF0E
    ||| code == 0xFF0F
    ||| code == 0x3000
}

proof fn lemma_settled_not_full_width(c: char)
    requires
        widen(c) == c,
    ensures
        !is_full_width(c),
{
    let code = c as u32;
    if (0xFF10 <= code <= 0xFF19) || (0xFF21 <= code <= 0xFF3A) || (0xFF41 <= code <= 0xFF5A) {
        let d = (code - 0xFEE0) as char;
        assert(d as u32 == code - 0xFEE0);
    }
}

/// The shape of a normalised text: no white space at either end or beside a
/// `/`, no tab, no two spaces in a row, and no full-width character.
pub proof fn lemma_normalized_shape(s: Seq<char>)
    ensures
        ({
            let n = normalized(s);
            &&& n.len() > 0 ==> !is_ws(n[0]) && !is_ws(n.last())
            &&& forall|j: int|
                0 <= j < n.len() && is_ws(#[trigger] n[j]) ==> n[j - 1] != '/' && n[j + 1] != '/'
            &&& forall|i: int| 0 <= i < n.len() ==> #[trigger] n[i] != '\t'
            &&& forall|i: int| 0 <= i < n.len() - 1 ==> !(#[trigger] n[i] == ' ' && n[i + 1] == ' ')
            &&& forall|i: int| 0 <= i < n.len() ==> !is_full_width(#[trigger] n[i])
        }),
{
    lemma_normalized_tidy(s);
    let n = normalized(s);
    if n.len() > 0 {
        assert(n.last() == n[n.len() - 1]);
        if is_ws(n[0]) {
            assert(0 < 0int);
        }
        if is_ws(n[n.len() - 1]) {
            assert(n.len() - 1 < n.len() - 1);
        }
    }
    assert forall|i: int| 0 <= i < n.len() implies #[trigger] n[i] != '\t' by {
        assert(settled(n[i]));
    }
    assert forall|i: int| 0 <= i < n.len() implies !is_full_width(#[trigger] n[i]) by {
        assert(settled(n[i]));
        lemma_settled_not_full_width(n[i]);
    }
}

/// Normalising a normalised text changes nothing.
pub proof fn lemma_normalize_idempotent(s: Seq<char>)
    ensures
        normalized(normalized(s)) == normalized(s),
{
    lemma_normalized_tidy(s);
    lemma_tidy_fixed(normalized(s));
}

/// What normalisation gives is tidy.
proof fn lemma_normalized_tidy(s: Seq<char>)
    ensures
        tidy(normalized(s)),
{
    let w = s.map_values(|c: char| widen(c));
    assert forall|i: int| 0 <= i < w.len() implies widen(#[trigger] w[i]) == w[i] by {
        lemma_widen_idem(s[i]);
    }
    let (a, b) = lemma_trim_shape(w);
    let t = trim(w);
    assert forall|i: int| 0 <= i < t.len() implies widen(#[trigger] t[i]) == t[i] by {
        assert(t[i] == w[a + i]);
    }
    lemma_squeeze_tidy(t);
    let q = squeeze(t);
    lemma_split_tidy(q);
    let ps = split(q, '/');
    let ts = trimmed_pieces(q);
    crate::text::lemma_split_len(q, '/');
    assert forall|k: int| 0 <= k < ts.len() implies tidy_piece(#[trigger] ts[k]) by {
        let p = ps[k];
        assert(all_settled(ps[k]) && no_double_space(ps[k]) && !ps[k].contains('/'));
        let (c, d) = lemma_trim_shape(p);
        lemma_run_tidy(p, c, d);
        assert(ts[k] == trim(p));
    }
    lemma_join_tidy(ts);
}

/// The full-width form of an ASCII digit, Latin letter, `.`, `/` or space;
/// other characters are kept.
pub open spec fn full_width(c: char) -> char {
    if ('0' <= c <= '9') || ('A' <= c <= 'Z') || ('a' <= c <= 'z') {
        (c as u32 + 0xFEE0) as char
    } else if c == '.' {
        '\u{FF0E}'
    } else if c == '/' {
        '\u{FF0F}'
    } else if c == ' ' {
        '\u{3000}'
    } else {
        c
    }
}

proof fn lemma_widen_full_width(c: char)
    ensures
        widen(full_width(c)) == widen(c),
{
    if ('0' <= c <= '9') || ('A' <= c <= 'Z') || ('a' <= c <= 'z') {
        let f = (c as u32 + 0xFEE0) as char;
        assert(f as u32 == c as u32 + 0xFEE0);
        assert(((f as u32 - 0xFEE0) as char) == c);
    }
}

/// Writing digits, letters, dots, slashes and spaces in full width changes
/// nothing after normalisation: a text normalises as its full-width form does.
pub proof fn lemma_normalize_full_width(s: Seq<char>)
    ensures
        normalized(s.map_values(|c: char| full_width(c))) == normalized(s),
{
    let f = s.map_values(|c: char| full_width(c));
    assert forall|i: int| 0 <= i < s.len() implies widen(#[trigger] f[i]) == widen(s[i]) by {
        lemma_widen_full_width(s[i]);
    }
    assert(f.map_values(|c: char| widen(c)) =~= s.map_values(|c: char| widen(c)));
}

} // verus!
