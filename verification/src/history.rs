//! The history of analysed inputs: newest first, one entry per input text.
use vstd::prelude::*;

use crate::subnet::SubnetInfo;
use crate::text::chars_of;

verus! {

/// An instant as seconds and nanoseconds since the Unix epoch, with the
/// offset from UTC (in seconds) of the zone it was recorded in.
#[derive(Debug, Clone, Copy, PartialEq, Eq, Structural)]
pub struct Timestamp {
    pub secs: i64,
    pub nanos: u32,
    pub offset_secs: i32,
}

/// The text `YYYY-MM-DD hh:mm:ss` of an instant in the zone of the given
/// offset, as chrono formats it, or `None` where chrono cannot represent it.
pub uninterp spec fn local_time_text(secs: i64, nanos: u32, offset_secs: i32) -> Option<Seq<char>>;

/// The current time in the local zone.
///
/// Calls `chrono::Local::now` and reads its seconds, nanoseconds and UTC
/// offset. The instant itself depends on the clock and is not claimed.
/// Claimed: the nanoseconds are below 2 000 000 000 (chrono's `NaiveTime`
/// keeps its fraction below that; a leap second goes above 999 999 999), and
/// the offset lies strictly between minus and plus one day (the bounds that
/// `FixedOffset::east_opt` enforces for every offset chrono builds).
#[verifier::external_body]
fn local_now() -> (t: Timestamp)
    ensures
        t.nanos < 2_000_000_000,
        -86_400 < t.offset_secs < 86_400,
{
    let now = chrono::Local::now();
    Timestamp {
        secs: now.timestamp(),
        nanos: now.timestamp_subsec_nanos(),
        offset_secs: now.offset().local_minus_utc(),
    }
}

/// Formats an instant as `%Y-%m-%d %H:%M:%S` in the zone of `offset_secs`.
///
/// Calls `chrono::FixedOffset::east_opt`, `chrono::DateTime::from_timestamp`,
/// `DateTime::with_timezone` and `DateTime::format`. Claimed: the result is
/// the named text `local_time_text` of the arguments; `east_opt` refuses an
/// offset of a day or more, so such an offset gives `None`.
#[verifier::external_body]
fn format_local_time(secs: i64, nanos: u32, offset_secs: i32) -> (r: Option<String>)
    ensures
        match r {
            Some(s) => local_time_text(secs, nanos, offset_secs) == Some(s@),
            None => local_time_text(secs, nanos, offset_secs) is None,
        },
        offset_secs <= -86_400 || offset_secs >= 86_400 ==> r is None,
{
    let zone = chrono::FixedOffset::east_opt(offset_secs)?;
    let utc = chrono::DateTime::from_timestamp(secs, nanos)?;
    Some(utc.with_timezone(&zone).format("%Y-%m-%d %H:%M:%S").to_string())
}

/// The text of a timestamp as the history shows it, empty where it has none.
pub open spec fn timestamp_text(t: Timestamp) -> Seq<char> {
    match local_time_text(t.secs, t.nanos, t.offset_secs) {
        Some(s) => s,
        None => Seq::empty(),
    }
}

impl Timestamp {
    /// The current time: a sub-second part below two seconds (a leap second
    /// runs past one) and a zone offset of less than a day either way.
    pub fn now() -> (t: Timestamp)
        ensures
            t.nanos < 2_000_000_000,
            -86_400 < t.offset_secs < 86_400,
    {
        local_now()
    }

    /// `YYYY-MM-DD hh:mm:ss` in the zone the timestamp was recorded in.
    pub fn to_text(&self) -> (s: String)
        ensures
            s@ == timestamp_text(*self),
    {
        match format_local_time(self.secs, self.nanos, self.offset_secs) {
            Some(s) => s,
            None => String::new(),
        }
    }
}

/// The lower-case form of a text, as `str::to_lowercase` gives it.
pub uninterp spec fn lowercase(s: Seq<char>) -> Seq<char>;

/// Calls `str::to_lowercase`. Claimed: the result is the named text
/// `lowercase` of the argument (Unicode lower-casing depends on the text alone).
#[verifier::external_body]
pub(crate) fn to_lower(s: &str) -> (r: String)
    ensures
        r@ == lowercase(s@),
{
    s.to_lowercase()
}

/// `t` occurs in `s` as a run of consecutive characters.
pub open spec fn has_substring(s: Seq<char>, t: Seq<char>) -> bool {
    exists|i: int| 0 <= i <= s.len() - t.len() && #[trigger] s.subrange(i, i + t.len()) == t
}

fn occurs_at(s: &Vec<char>, t: &Vec<char>, i: usize) -> (b: bool)
    requires
        i + t@.len() <= s@.len(),
    ensures
        b == (s@.subrange(i as int, i + t@.len()) == t@),
{
    let mut j: usize = 0;
    assert(s@.len() == s.len());
    while j < t.len()
        invariant
            s@.len() <= usize::MAX,
            i + t@.len() <= s@.len(),
            j <= t@.len(),
            forall|k: int| 0 <= k < j ==> s@[i + k] == t@[k],
        decreases t@.len() - j,
    {
        if s[i + j] != t[j] {
            assert(s@.subrange(i as int, i + t@.len())[j as int] != t@[j as int]);
            return false;
        }
        j += 1;
    }
    assert(s@.subrange(i as int, i + t@.len()) =~= t@);
    true
}

/// Whether `t` occurs in `s`.
pub fn contains_text(s: &Vec<char>, t: &Vec<char>) -> (b: bool)
    ensures
        b == has_substring(s@, t@),
{
    if t.len() > s.len() {
        return false;
    }
    let last = s.len() - t.len();
    let mut i: usize = 0;
    loop
        invariant
            t@.len() <= s@.len(),
            last == s@.len() - t@.len(),
            i <= last,
            forall|k: int| 0 <= k < i ==> #[trigger] s@.subrange(k, k + t@.len()) != t@,
        decreases last - i,
    {
        if occurs_at(s, t, i) {
            return true;
        }
        if i == last {
            return false;
        }
        i += 1;
    }
}

/// One analysed input.
#[derive(Debug, Clone)]
pub struct HistoryEntry {
    pub timestamp: Timestamp,
    pub input: String,
    pub result: SubnetInfo,
}

pub struct HistoryEntryModel {
    pub timestamp: Timestamp,
    pub input: Seq<char>,
    pub result: SubnetInfo,
}

impl View for HistoryEntry {
    type V = HistoryEntryModel;

    open spec fn view(&self) -> HistoryEntryModel {
        HistoryEntryModel { timestamp: self.timestamp, input: self.input@, result: self.result }
    }
}

/// Index of the first entry with the given input, or the number of entries.
pub open spec fn input_position(entries: Seq<HistoryEntryModel>, input: Seq<char>) -> nat
    decreases entries.len(),
{
    if entries.len() == 0 {
        0
    } else if entries[0].input == input {
        0
    } else {
        1 + input_position(entries.drop_first(), input)
    }
}

/// The entries after `entry` is added: the first entry with the same input
/// is dropped, and `entry` goes in front.
pub open spec fn with_added(entries: Seq<HistoryEntryModel>, entry: HistoryEntryModel) -> Seq<
    HistoryEntryModel,
> {
    let pos = input_position(entries, entry.input);
    let rest = if pos < entries.len() {
        entries.remove(pos as int)
    } else {
        entries
    };
    seq![entry] + rest
}

/// The entries whose lower-cased input holds the lower-cased keyword, in order.
pub open spec fn matching(entries: Seq<HistoryEntryModel>, keyword: Seq<char>) -> Seq<HistoryEntryModel>
    decreases entries.len(),
{
    if entries.len() == 0 {
        Seq::empty()
    } else {
        let rest = matching(entries.drop_last(), keyword);
        if has_substring(lowercase(entries.last().input), lowercase(keyword)) {
            rest.push(entries.last())
        } else {
            rest
        }
    }
}

/// The analysed inputs, newest first, and the file they are kept in.
pub struct HistoryStore {
    entries: Vec<HistoryEntry>,
    storage_path: String,
}

impl View for HistoryStore {
    type V = Seq<HistoryEntryModel>;

    closed spec fn view(&self) -> Seq<HistoryEntryModel> {
        self.entries@.map_values(|e: HistoryEntry| e@)
    }
}

impl HistoryStore {
    pub closed spec fn path(&self) -> Seq<char> {
        self.storage_path@
    }

    /// An empty history kept in the file `storage_path`.
    pub fn new(storage_path: String) -> (s: Self)
        ensures
            s@ == Seq::<HistoryEntryModel>::empty(),
            s.path() == storage_path@,
    {
        let s = HistoryStore { entries: Vec::new(), storage_path };
        assert(s@ =~= Seq::<HistoryEntryModel>::empty());
        s
    }

    /// The file the history is kept in.
    pub fn storage_path(&self) -> (p: &str)
        ensures
            p@ == self.path(),
    {
        self.storage_path.as_str()
    }

    /// Records `input` with its analysis, stamped with the current time.
    pub fn add(&mut self, input: &str, result: SubnetInfo)
        ensures
            final(self).path() == old(self).path(),
            final(self)@.len() >= 1,
            final(self)@ == with_added(old(self)@, final(self)@[0]),
            final(self)@[0].input == input@,
            final(self)@[0].result == result,
            inputs_of(final(self)@) == with_input(inputs_of(old(self)@), input@),
            pairs_of(final(self)@) == with_pair(pairs_of(old(self)@), (input@, result)),
            final(self)@[0].timestamp.nanos < 2_000_000_000,
            -86_400 < final(self)@[0].timestamp.offset_secs < 86_400,
    {
        let entry = HistoryEntry { timestamp: Timestamp::now(), input: input.to_owned(), result };
        let ghost e = entry@;
        self.add_entry(entry);
        proof {
            lemma_inputs_with_added(old(self)@, e);
            lemma_pairs_with_added(old(self)@, e);
        }
    }

    /// Puts `entry` in front, dropping the first older entry with the same input.
    pub fn add_entry(&mut self, entry: HistoryEntry)
        ensures
            final(self)@ == with_added(old(self)@, entry@),
            final(self).path() == old(self).path(),
    {
        let ghost before = self@;
        let ghost e = entry@;
        let n = self.entries.len();
        let mut i: usize = 0;
        while i < n && !(self.entries[i].input == entry.input)
            invariant
                n == self.entries@.len(),
                i <= n,
                before == self.entries@.map_values(|e: HistoryEntry| e@),
                forall|k: int| 0 <= k < i ==> before[k].input != e.input,
                e == entry@,
            decreases n - i,
        {
            i += 1;
        }
        proof {
            lemma_input_position(before, e.input, i as int);
        }
        if i < n {
            self.entries.remove(i);
            assert(self.entries@.map_values(|e: HistoryEntry| e@) =~= before.remove(i as int));
        }
        self.entries.insert(0, entry);
        assert(self.entries@.map_values(|e: HistoryEntry| e@) =~= with_added(before, e));
    }

    /// Drops the entry at `index`; an index past the end changes nothing.
    pub fn remove(&mut self, index: usize)
        ensures
            index < old(self)@.len() ==> final(self)@ == old(self)@.remove(index as int),
            index >= old(self)@.len() ==> final(self)@ == old(self)@,
            final(self).path() == old(self).path(),
    {
        let ghost before = self@;
        if index < self.entries.len() {
            self.entries.remove(index);
            assert(self.entries@.map_values(|e: HistoryEntry| e@) =~= before.remove(index as int));
        }
    }

    /// Drops every entry.
    pub fn clear(&mut self)
        ensures
            final(self)@ == Seq::<HistoryEntryModel>::empty(),
            final(self).path() == old(self).path(),
    {
        self.entries.clear();
        assert(self.entries@.map_values(|e: HistoryEntry| e@) =~= Seq::<HistoryEntryModel>::empty());
    }

    /// All entries, newest first.
    pub fn entries(&self) -> (es: &[HistoryEntry])
        ensures
            es@.map_values(|e: HistoryEntry| e@) == self@,
    {
        self.entries.as_slice()
    }

    /// The entries whose input holds `keyword`, ignoring case, in order.
    pub fn search(&self, keyword: &str) -> (found: Vec<&HistoryEntry>)
        ensures
            found@.map_values(|e: &HistoryEntry| e@) == matching(self@, keyword@),
    {
        let lowered = to_lower(keyword);
        let kw = chars_of(lowered.as_str());
        let ghost all = self@;
        let mut found: Vec<&HistoryEntry> = Vec::new();
        let mut i: usize = 0;
        while i < self.entries.len()
            invariant
                i <= self.entries@.len(),
                all == self.entries@.map_values(|e: HistoryEntry| e@),
                kw@ == lowercase(keyword@),
                found@.map_values(|e: &HistoryEntry| e@) == matching(all.take(i as int), keyword@),
            decreases self.entries@.len() - i,
        {
            let e = &self.entries[i];
            let li = to_lower(e.input.as_str());
            let lc = chars_of(li.as_str());
            let ghost before = found@;
            if contains_text(&lc, &kw) {
                found.push(e);
                assert(found@.map_values(|e: &HistoryEntry| e@) =~= before.map_values(|e: &HistoryEntry| e@).push(e@));
            }
            assert(all.take(i + 1).drop_last() =~= all.take(i as int));
            assert(all.take(i + 1).last() == e@);
            i += 1;
        }
        assert(all.take(self.entries@.len() as int) =~= all);
        found
    }

    /// Replaces the entries by those read back from storage, if any were.
    pub fn load(&mut self, stored: Option<Vec<HistoryEntry>>)
        ensures
            match stored {
                Some(v) => final(self)@ == v@.map_values(|e: HistoryEntry| e@),
                None => final(self)@ == old(self)@,
            },
            final(self).path() == old(self).path(),
    {
        if let Some(v) = stored {
            self.entries = v;
        }
    }
}

/// The inputs of the entries, in order.
pub open spec fn inputs_of(entries: Seq<HistoryEntryModel>) -> Seq<Seq<char>> {
    entries.map_values(|e: HistoryEntryModel| e.input)
}

/// Index of the first occurrence of `x` in `s`, or the length of `s`.
pub open spec fn first_position(s: Seq<Seq<char>>, x: Seq<char>) -> nat
    decreases s.len(),
{
    if s.len() == 0 {
        0
    } else if s[0] == x {
        0
    } else {
        1 + first_position(s.drop_first(), x)
    }
}

/// The inputs after `x` is recorded: its first earlier occurrence is dropped
/// and `x` goes in front.
pub open spec fn with_input(inputs: Seq<Seq<char>>, x: Seq<char>) -> Seq<Seq<char>> {
    let p = first_position(inputs, x);
    seq![x] + if p < inputs.len() {
        inputs.remove(p as int)
    } else {
        inputs
    }
}

/// The inputs after each of `xs` is recorded, in order.
pub open spec fn with_inputs(inputs: Seq<Seq<char>>, xs: Seq<Seq<char>>) -> Seq<Seq<char>>
    decreases xs.len(),
{
    if xs.len() == 0 {
        inputs
    } else {
        with_input(with_inputs(inputs, xs.drop_last()), xs.last())
    }
}

proof fn lemma_first_position(entries: Seq<HistoryEntryModel>, x: Seq<char>)
    ensures
        first_position(inputs_of(entries), x) == input_position(entries, x),
    decreases entries.len(),
{
    if entries.len() > 0 {
        assert(inputs_of(entries).drop_first() =~= inputs_of(entries.drop_first()));
        lemma_first_position(entries.drop_first(), x);
    }
}

/// Adding an entry records its input: the inputs of the new history are
/// those of the old one with the input recorded.
pub proof fn lemma_inputs_with_added(entries: Seq<HistoryEntryModel>, e: HistoryEntryModel)
    ensures
        inputs_of(with_added(entries, e)) == with_input(inputs_of(entries), e.input),
{
    lemma_first_position(entries, e.input);
    let p = input_position(entries, e.input);
    if p < entries.len() {
        assert(inputs_of(entries.remove(p as int)) =~= inputs_of(entries).remove(p as int));
    }
    assert(inputs_of(with_added(entries, e)) =~= with_input(inputs_of(entries), e.input));
}

/// The inputs of the entries with their analyses, in order.
pub open spec fn pairs_of(entries: Seq<HistoryEntryModel>) -> Seq<(Seq<char>, SubnetInfo)> {
    entries.map_values(|e: HistoryEntryModel| (e.input, e.result))
}

/// Index of the first pair with input `x` in `ps`, or the length of `ps`.
pub open spec fn pair_position(ps: Seq<(Seq<char>, SubnetInfo)>, x: Seq<char>) -> nat
    decreases ps.len(),
{
    if ps.len() == 0 {
        0
    } else if ps[0].0 == x {
        0
    } else {
        1 + pair_position(ps.drop_first(), x)
    }
}

/// The pairs after `p` is recorded: the first earlier pair with the same
/// input is dropped and `p` goes in front.
pub open spec fn with_pair(ps: Seq<(Seq<char>, SubnetInfo)>, p: (Seq<char>, SubnetInfo)) -> Seq<
    (Seq<char>, SubnetInfo),
> {
    let k = pair_position(ps, p.0);
    seq![p] + if k < ps.len() {
        ps.remove(k as int)
    } else {
        ps
    }
}

/// The pairs after each of `qs` is recorded, in order.
pub open spec fn with_pairs(ps: Seq<(Seq<char>, SubnetInfo)>, qs: Seq<(Seq<char>, SubnetInfo)>) -> Seq<
    (Seq<char>, SubnetInfo),
>
    decreases qs.len(),
{
    if qs.len() == 0 {
        ps
    } else {
        with_pair(with_pairs(ps, qs.drop_last()), qs.last())
    }
}

proof fn lemma_pair_position(entries: Seq<HistoryEntryModel>, x: Seq<char>)
    ensures
        pair_position(pairs_of(entries), x) == input_position(entries, x),
    decreases entries.len(),
{
    if entries.len() > 0 {
        assert(pairs_of(entries).drop_first() =~= pairs_of(entries.drop_first()));
        lemma_pair_position(entries.drop_first(), x);
    }
}

/// Adding an entry records its input with its analysis.
pub proof fn lemma_pairs_with_added(entries: Seq<HistoryEntryModel>, e: HistoryEntryModel)
    ensures
        pairs_of(with_added(entries, e)) == with_pair(pairs_of(entries), (e.input, e.result)),
{
    lemma_pair_position(entries, e.input);
    let p = input_position(entries, e.input);
    if p < entries.len() {
        assert(pairs_of(entries.remove(p as int)) =~= pairs_of(entries).remove(p as int));
    }
    assert(pairs_of(with_added(entries, e)) =~= with_pair(pairs_of(entries), (e.input, e.result)));
}

/// No two entries share an input.
pub open spec fn distinct_inputs(entries: Seq<HistoryEntryModel>) -> bool {
    forall|i: int, j: int|
        0 <= i < j < entries.len() ==> #[trigger] entries[i].input != #[trigger] entries[j].input
}

proof fn lemma_input_position_props(entries: Seq<HistoryEntryModel>, input: Seq<char>)
    ensures
        input_position(entries, input) <= entries.len(),
        forall|k: int| 0 <= k < input_position(entries, input) ==> #[trigger] entries[k].input != input,
        input_position(entries, input) < entries.len() ==> entries[input_position(entries, input) as int].input == input,
    decreases entries.len(),
{
    if entries.len() > 0 && entries[0].input != input {
        let rest = entries.drop_first();
        lemma_input_position_props(rest, input);
        assert forall|k: int| 0 <= k < input_position(entries, input) implies #[trigger] entries[k].input != input by {
            if k > 0 {
                assert(entries[k] == rest[k - 1]);
            }
        }
    }
}

/// Adding an entry keeps the inputs of a history free of repeats, and the
/// added entry is the newest one.
pub proof fn lemma_add_keeps_inputs_distinct(entries: Seq<HistoryEntryModel>, entry: HistoryEntryModel)
    requires
        distinct_inputs(entries),
    ensures
        distinct_inputs(with_added(entries, entry)),
        with_added(entries, entry)[0] == entry,
        with_added(entries, entry).len() == entries.len() + 1 - (if input_position(entries, entry.input) < entries.len() { 1int } else { 0int }),
{
    lemma_input_position_props(entries, entry.input);
    let pos = input_position(entries, entry.input);
    let rest = if pos < entries.len() { entries.remove(pos as int) } else { entries };
    let out = with_added(entries, entry);
    assert(out == seq![entry] + rest);
    assert forall|k: int| 0 <= k < rest.len() implies #[trigger] rest[k].input != entry.input by {
        if pos < entries.len() {
            if k < pos {
                assert(rest[k] == entries[k]);
            } else {
                assert(rest[k] == entries[k + 1]);
                assert(entries[pos as int].input != entries[k + 1].input);
            }
        }
    }
    assert forall|i: int, j: int| 0 <= i < j < out.len() implies #[trigger] out[i].input != #[trigger] out[j].input by {
        if i == 0 {
            assert(out[j] == rest[j - 1]);
        } else {
            assert(out[i] == rest[i - 1]);
            assert(out[j] == rest[j - 1]);
            if pos < entries.len() {
                let a = if i - 1 < pos { i - 1 } else { i };
                let b = if j - 1 < pos { j - 1 } else { j };
                assert(rest[i - 1] == entries[a]);
                assert(rest[j - 1] == entries[b]);
                assert(entries[a].input != entries[b].input);
            }
        }
    }
}

proof fn lemma_input_position(entries: Seq<HistoryEntryModel>, input: Seq<char>, i: int)
    requires
        0 <= i <= entries.len(),
        forall|k: int| 0 <= k < i ==> entries[k].input != input,
        i == entries.len() || entries[i].input == input,
    ensures
        input_position(entries, input) == i,
    decreases entries.len(),
{
    if entries.len() > 0 && i > 0 {
        lemma_input_position(entries.drop_first(), input, i - 1);
    }
}

} // verus!
