//! Correcting the times of recorded verses by an alignment of their transcript.

use vstd::prelude::*;

use crate::alignment_v2::{AlignError, AlignmentReport};
use crate::chars;
use crate::json::Json;
use crate::reports;
use crate::scalar;
use crate::scalar::Scalar;
use crate::sorting;
use crate::sorting::Keyed;
use crate::spans::AyahSegment;
use crate::transcripts;
use crate::transcripts::{NumberFault, TimestampError, Transcript, TranscriptError, TranscriptFault};
use crate::tree;
use crate::tree::Tree;

verus! {

// ---------------------------------------------------------------------------
// Lists of numbers as texts

/// A number with its sign.
pub open spec fn signed_decimal(i: int) -> Seq<char> {
    if i < 0 {
        seq!['-'] + chars::decimal((-i) as nat)
    } else {
        chars::decimal(i as nat)
    }
}

pub open spec fn decimals(list: Seq<i64>) -> Seq<Seq<char>> {
    list.map_values(|i: i64| signed_decimal(i as int))
}

/// A list in brackets, its items separated by commas.
pub open spec fn in_brackets(items: Seq<Seq<char>>) -> Seq<char> {
    seq!['['] + chars::joined(items, seq![',']) + seq![']']
}

pub open spec fn bracketed(lists: Seq<Seq<i64>>) -> Seq<Seq<char>> {
    lists.map_values(|l: Seq<i64>| in_brackets(decimals(l)))
}

/// Lists of numbers without white space, such as `[[0,120],[1,480]]`.
pub open spec fn lists_text(lists: Seq<Seq<i64>>) -> Seq<char> {
    in_brackets(bracketed(lists))
}

pub open spec fn list_views(lists: Seq<Vec<i64>>) -> Seq<Seq<i64>> {
    lists.map_values(|l: Vec<i64>| l@)
}

pub open spec fn lists_in(lists: Option<Vec<Vec<i64>>>) -> Option<Seq<Seq<i64>>> {
    match lists {
        Some(l) => Some(list_views(l@)),
        None => None,
    }
}

pub open spec fn text_in(t: Option<String>) -> Option<Seq<char>> {
    match t {
        Some(s) => Some(s@),
        None => None,
    }
}

/// What a text holds as lists of numbers.
pub uninterp spec fn json_lists(s: Seq<char>) -> Option<Seq<Seq<i64>>>;

/// A text that was written from lists is read as those lists.
pub open spec fn reads_back(s: Seq<char>, lists: Option<Seq<Seq<i64>>>) -> bool {
    forall|l: Seq<Seq<i64>>| s == #[trigger] lists_text(l) ==> lists == Some(l)
}

/// Reads lists of numbers with `serde_json::from_str`. Its result has a name; what
/// `write_lists` wrote is read as it was.
#[verifier::external_body]
pub(crate) fn read_lists(s: &str) -> (r: Option<Vec<Vec<i64>>>)
    ensures
        lists_in(r) == json_lists(s@),
        reads_back(s@, lists_in(r)),
{
    serde_json::from_str::<Vec<Vec<i64>>>(s).ok()
}

/// Writes lists of numbers with `serde_json::to_string`, which writes them without
/// white space. Writing numbers to a text does not fail.
#[verifier::external_body]
pub(crate) fn write_lists(lists: &Vec<Vec<i64>>) -> (r: Option<String>)
    ensures
        text_in(r) == Some(lists_text(list_views(lists@))),
{
    serde_json::to_string(lists).ok()
}

/// Lists whose first one is a pair, with another second number in it.
pub open spec fn with_first_ms(lists: Seq<Seq<i64>>, start_ms: i64) -> Seq<Seq<i64>> {
    lists.update(0, lists[0].update(1, start_ms))
}

pub open spec fn has_first_pair(lists: Seq<Seq<i64>>) -> bool {
    lists.len() > 0 && lists[0].len() == 2
}

/// The text with another first time; the text itself where it holds no pairs.
pub open spec fn first_ms_set(seg_json: Seq<char>, start_ms: i64) -> Seq<char> {
    match json_lists(seg_json) {
        Some(l) => if has_first_pair(l) {
            lists_text(with_first_ms(l, start_ms))
        } else {
            seg_json
        },
        None => seg_json,
    }
}

/// Sets the first of the word times of a verse.
pub fn set_segments_first_ms(seg_json: &str, start_ms: i64) -> (r: String)
    ensures
        r@ == first_ms_set(seg_json@, start_ms),
        reads_back(seg_json@, json_lists(seg_json@)),
{
    let mut lists = match read_lists(seg_json) {
        Some(l) => l,
        None => return seg_json.to_owned(),
    };
    if lists.len() == 0 || lists[0].len() != 2 {
        return seg_json.to_owned();
    }
    let ghost before = list_views(lists@);
    let mut first: Vec<i64> = Vec::new();
    first.push(lists[0][0]);
    first.push(start_ms);
    assert(first@ =~= before[0].update(1, start_ms));
    lists.set(0, first);
    assert(list_views(lists@) =~= with_first_ms(before, start_ms));
    match write_lists(&lists) {
        Some(s) => s,
        None => seg_json.to_owned(),
    }
}

// ---------------------------------------------------------------------------
// Figures

/// The middle of the numbers in order, or the mean of the two in the middle.
pub open spec fn median_of<S: Scalar>(xs: Seq<S>) -> Option<S> {
    let s = transcripts::sorted_times(xs);
    let mid = xs.len() as int / 2;
    if xs.len() == 0 {
        None
    } else if xs.len() % 2 == 1 {
        Some(s[mid])
    } else {
        Some(s[mid - 1].plus_spec(s[mid]).over_spec(S::whole_spec(2)))
    }
}

pub fn median<S: Scalar>(xs: &[S]) -> (r: Option<S>)
    ensures
        r == median_of(xs@),
{
    if xs.len() == 0 {
        return None;
    }
    proof {
        transcripts::law_sorted_times(xs@);
    }
    let s = transcripts::sort_times(xs);
    let mid: usize = s.len() / 2;
    if s.len() % 2 == 1 {
        Some(s[mid])
    } else {
        Some(s[mid - 1].plus(s[mid]).over(S::whole(2)))
    }
}

/// The place that nine tenths of the numbers do not exceed.
pub open spec fn p90_place<S: Scalar>(n: int) -> int {
    let k = S::milli_spec(900).times_spec(S::whole_spec((n - 1) as nat)).round_i64_spec();
    if k < 0 {
        0
    } else if k > n - 1 {
        n - 1
    } else {
        k as int
    }
}

pub open spec fn p90_of<S: Scalar>(xs: Seq<S>) -> Option<S> {
    if xs.len() == 0 {
        None
    } else {
        Some(transcripts::sorted_times(xs)[p90_place::<S>(xs.len() as int)])
    }
}

pub fn p90<S: Scalar>(xs: &[S]) -> (r: Option<S>)
    ensures
        r == p90_of(xs@),
{
    if xs.len() == 0 {
        return None;
    }
    proof {
        transcripts::law_sorted_times(xs@);
    }
    let s = transcripts::sort_times(xs);
    let n: usize = s.len();
    let k: i64 = S::milli(900).times(S::whole((n - 1) as u64)).round_i64();
    let place: usize = if k < 0 {
        0
    } else if k as u64 > (n - 1) as u64 {
        n - 1
    } else {
        k as usize
    };
    Some(s[place])
}

/// The sum of the first `n` numbers, added up in their order.
pub open spec fn sum_of<S: Scalar>(xs: Seq<S>, n: nat) -> S
    decreases n,
{
    if n == 0 {
        S::whole_spec(0)
    } else {
        sum_of(xs, (n - 1) as nat).plus_spec(xs[n - 1])
    }
}

pub open spec fn mean_of<S: Scalar>(xs: Seq<S>) -> Option<S> {
    if xs.len() == 0 {
        None
    } else {
        Some(sum_of(xs, xs.len()).over_spec(S::whole_spec(xs.len())))
    }
}

pub fn mean<S: Scalar>(xs: &[S]) -> (r: Option<S>)
    ensures
        r == mean_of(xs@),
{
    if xs.len() == 0 {
        return None;
    }
    let mut sum: S = S::whole(0);
    let mut i: usize = 0;
    while i < xs.len()
        invariant
            i <= xs@.len(),
            sum == sum_of(xs@, i as nat),
        decreases xs@.len() - i,
    {
        sum = sum.plus(xs[i]);
        i = i + 1;
    }
    Some(sum.over(S::whole(xs.len() as u64)))
}

/// The greatest of the first `n` numbers, at least zero.
pub open spec fn most_of<S: Scalar>(xs: Seq<S>, n: nat) -> S
    decreases n,
{
    if n == 0 {
        S::whole_spec(0)
    } else {
        scalar::max_spec(most_of(xs, (n - 1) as nat), xs[n - 1])
    }
}

pub fn most<S: Scalar>(xs: &[S]) -> (r: S)
    ensures
        r == most_of(xs@, xs@.len()),
{
    let mut m: S = S::whole(0);
    let mut i: usize = 0;
    while i < xs.len()
        invariant
            i <= xs@.len(),
            m == most_of(xs@, i as nat),
        decreases xs@.len() - i,
    {
        m = scalar::max_of(m, xs[i]);
        i = i + 1;
    }
    m
}

// ---------------------------------------------------------------------------
// New times

/// A time in milliseconds as it is sorted.
#[derive(Clone, Copy, Debug, PartialEq, Eq, Structural)]
pub struct MsKey {
    pub ms: i64,
}

impl Keyed for MsKey {
    open spec fn key(self) -> (int, int) {
        (self.ms as int, 0)
    }

    fn before(&self, other: &Self) -> (r: bool) {
        self.ms < other.ms
    }
}

/// Seconds in milliseconds.
pub open spec fn ms_of<S: Scalar>(t: S) -> i64 {
    t.times_spec(S::whole_spec(1000)).round_i64_spec()
}

fn to_ms<S: Scalar>(t: S) -> (r: i64)
    ensures
        r == ms_of(t),
{
    t.times(S::whole(1000)).round_i64()
}

/// The new time of a verse: its number, when it starts, and when its words do, as
/// a text.
pub struct Row {
    pub ayah: i64,
    pub start_ms: i64,
    pub segments: String,
}

/// The new time of a verse.
pub struct NewTime {
    pub ayah: int,
    pub start_ms: i64,
    pub segments: Seq<char>,
}

impl View for Row {
    type V = NewTime;

    open spec fn view(&self) -> NewTime {
        NewTime { ayah: self.ayah as int, start_ms: self.start_ms, segments: self.segments@ }
    }
}

pub open spec fn new_times(rows: Seq<Row>) -> Seq<NewTime> {
    rows.map_values(|r: Row| r@)
}

/// When a verse ends: as it says, or when the next one starts; without end where
/// neither is known.
pub open spec fn end_of<S>(segs: Seq<AyahSegment<S>>, i: int) -> Option<S> {
    if segs[i].end_s is Some {
        segs[i].end_s
    } else if i + 1 < segs.len() {
        segs[i + 1].start_s
    } else {
        None
    }
}

/// Where the words that start before `end` stop, from place `i` on.
pub open spec fn words_until<S: Scalar>(starts: Seq<S>, i: nat, end: Option<S>) -> nat
    decreases starts.len() - i,
{
    if i < starts.len() && (end matches Some(e) ==> starts[i as int].rank() < e.rank()) {
        words_until(starts, i + 1, end)
    } else {
        i
    }
}

/// The starts from place `i` to place `j` that are not before `cursor`.
pub open spec fn word_times<S: Scalar>(starts: Seq<S>, i: nat, j: nat, cursor: S) -> Seq<MsKey>
    decreases j - i,
{
    if j <= i {
        Seq::empty()
    } else {
        let before = word_times(starts, i, (j - 1) as nat, cursor);
        if cursor.rank() <= starts[j - 1].rank() {
            before.push(MsKey { ms: ms_of(starts[j - 1]) })
        } else {
            before
        }
    }
}

pub open spec fn time_or_zero<S: Scalar>(t: Option<S>) -> S {
    match t {
        Some(x) => x,
        None => S::whole_spec(0),
    }
}

/// The times of a verse's words, in order; its own start where it has no words.
pub open spec fn verse_times<S: Scalar>(times: Seq<MsKey>, start_s: Option<S>) -> Seq<MsKey> {
    if times.len() == 0 {
        seq![MsKey { ms: ms_of(time_or_zero(start_s)) }]
    } else {
        sorting::sorted(times)
    }
}

/// Pairs of place and time.
pub open spec fn numbered(times: Seq<MsKey>) -> Seq<Seq<i64>> {
    Seq::new(times.len(), |j: int| seq![j as i64, times[j].ms])
}

/// Where the work stands.
pub struct Retiming<S> {
    pub rows: Seq<NewTime>,
    pub word: nat,
    pub cursor: S,
    pub prev: Option<i64>,
}

pub open spec fn not_before(t: i64, prev: Option<i64>) -> i64 {
    match prev {
        Some(p) => if t < p {
            p
        } else {
            t
        },
        None => t,
    }
}

/// The work after one more verse: its words are those that start before it ends
/// and not before the last one ended. No verse starts before the one in front of
/// it.
pub open spec fn verse_retimed<S: Scalar>(
    st: Retiming<S>,
    segs: Seq<AyahSegment<S>>,
    i: int,
    starts: Seq<S>,
) -> Retiming<S> {
    if segs[i].ayah_num == 0 {
        st
    } else {
        let end = end_of(segs, i);
        let upto = words_until(starts, st.word, end);
        let times = verse_times(word_times(starts, st.word, upto, st.cursor), segs[i].start_s);
        let start_ms = not_before(times[0].ms, st.prev);
        Retiming {
            rows: st.rows.push(
                NewTime {
                    ayah: segs[i].ayah_num as int,
                    start_ms,
                    segments: lists_text(with_first_ms(numbered(times), start_ms)),
                },
            ),
            word: upto,
            cursor: if end matches Some(e) && e.finite_spec() {
                end->0
            } else {
                st.cursor
            },
            prev: Some(start_ms),
        }
    }
}

/// The work after the first `n` verses.
pub open spec fn retimed<S: Scalar>(segs: Seq<AyahSegment<S>>, starts: Seq<S>, n: nat) -> Retiming<S>
    decreases n,
{
    if n == 0 {
        Retiming { rows: Seq::empty(), word: 0, cursor: S::whole_spec(0), prev: None }
    } else {
        verse_retimed(retimed(segs, starts, (n - 1) as nat), segs, n - 1, starts)
    }
}

proof fn lemma_words_until<S: Scalar>(starts: Seq<S>, i: nat, end: Option<S>)
    requires
        i <= starts.len(),
    ensures
        i <= words_until(starts, i, end) <= starts.len(),
    decreases starts.len() - i,
{
    if i < starts.len() && (end matches Some(e) ==> starts[i as int].rank() < e.rank()) {
        lemma_words_until(starts, i + 1, end);
    }
}

fn pair_up(times: &[MsKey]) -> (r: Vec<Vec<i64>>)
    requires
        times@.len() <= i64::MAX,
    ensures
        list_views(r@) == numbered(times@),
{
    let mut out: Vec<Vec<i64>> = Vec::new();
    let mut j: usize = 0;
    while j < times.len()
        invariant
            times@.len() <= i64::MAX,
            j <= times@.len(),
            list_views(out@) == numbered(times@).take(j as int),
        decreases times@.len() - j,
    {
        let ghost before = list_views(out@);
        let mut pair: Vec<i64> = Vec::new();
        pair.push(j as i64);
        pair.push(times[j].ms);
        assert(pair@ =~= numbered(times@)[j as int]);
        out.push(pair);
        proof {
            assert(list_views(out@) =~= before.push(pair@));
            assert(numbered(times@).take(j as int + 1) =~= numbered(times@).take(j as int).push(
                numbered(times@)[j as int],
            ));
        }
        j = j + 1;
    }
    assert(list_views(out@) =~= numbered(times@));
    out
}

/// The text of a verse's word times with its start in front.
fn write_times(times: &[MsKey], start_ms: i64) -> (r: String)
    requires
        0 < times@.len() <= i64::MAX,
    ensures
        r@ == lists_text(with_first_ms(numbered(times@), start_ms)),
{
    let pairs = pair_up(times);
    let ghost lists = numbered(times@);
    match write_lists(&pairs) {
        Some(json) => {
            let r = set_segments_first_ms(json.as_str(), start_ms);
            proof {
                assert(json@ == lists_text(lists));
                assert(json_lists(json@) == Some(lists));
                assert(lists[0].len() == 2);
            }
            r
        },
        None => String::new(),
    }
}

fn find_end<S: Scalar>(segs: &[AyahSegment<S>], i: usize) -> (r: Option<S>)
    requires
        i < segs@.len(),
    ensures
        r == end_of(segs@, i as int),
{
    if segs[i].end_s.is_some() {
        return segs[i].end_s;
    }
    if i < segs.len() - 1 {
        segs[i + 1].start_s
    } else {
        None
    }
}

fn starts_before<S: Scalar>(t: S, end: Option<S>) -> (r: bool)
    ensures
        r == (end matches Some(e) ==> t.rank() < e.rank()),
{
    match end {
        Some(e) => t.below(e),
        None => true,
    }
}

/// The times of the words of one verse, and where they stop.
fn take_words<S: Scalar>(starts: &[S], from: usize, end: Option<S>, cursor: S) -> (r: (Vec<MsKey>, usize))
    requires
        from <= starts@.len(),
    ensures
        r.1 == words_until(starts@, from as nat, end),
        r.1 <= starts@.len(),
        r.0@ == word_times(starts@, from as nat, r.1 as nat, cursor),
        r.0@.len() <= starts@.len(),
{
    let mut out: Vec<MsKey> = Vec::new();
    let mut i: usize = from;
    proof {
        lemma_words_until(starts@, from as nat, end);
    }
    while i < starts.len() && starts_before(starts[i], end)
        invariant
            from <= i <= starts@.len(),
            words_until(starts@, from as nat, end) == words_until(starts@, i as nat, end),
            out@ == word_times(starts@, from as nat, i as nat, cursor),
            out@.len() <= i - from,
        ensures
            from <= i <= starts@.len(),
            words_until(starts@, from as nat, end) == i,
            out@ == word_times(starts@, from as nat, i as nat, cursor),
            out@.len() <= i - from,
        decreases starts@.len() - i,
    {
        let t: S = starts[i];
        if !t.below(cursor) {
            out.push(MsKey { ms: to_ms(t) });
        }
        i = i + 1;
    }
    (out, i)
}

/// The new times of verses, given when the words of the transcript start.
pub fn build_rows<S: Scalar>(segs: &[AyahSegment<S>], starts: &[S]) -> (r: Vec<Row>)
    requires
        starts@.len() <= i64::MAX,
    ensures
        new_times(r@) == retimed(segs@, starts@, segs@.len()).rows,
{
    let mut rows: Vec<Row> = Vec::new();
    let mut word: usize = 0;
    let mut cursor: S = S::whole(0);
    let mut prev: Option<i64> = None;
    let mut i: usize = 0;
    assert(new_times(rows@) =~= Seq::<NewTime>::empty());
    while i < segs.len()
        invariant
            i <= segs@.len(),
            starts@.len() <= i64::MAX,
            word <= starts@.len(),
            retimed(segs@, starts@, i as nat) == (Retiming {
                rows: new_times(rows@),
                word: word as nat,
                cursor,
                prev,
            }),
        decreases segs@.len() - i,
    {
        let ghost st = retimed(segs@, starts@, i as nat);
        if segs[i].ayah_num != 0 {
            let end: Option<S> = find_end(segs, i);
            let (taken, upto) = take_words(starts, word, end, cursor);
            let times: Vec<MsKey> = if taken.len() == 0 {
                let own: S = match segs[i].start_s {
                    Some(t) => t,
                    None => S::whole(0),
                };
                let mut one: Vec<MsKey> = Vec::new();
                one.push(MsKey { ms: to_ms(own) });
                assert(one@ =~= verse_times(taken@, segs@[i as int].start_s));
                one
            } else {
                proof {
                    sorting::lemma_sorted_len(taken@);
                }
                sorting::sort(&taken)
            };
            let first: i64 = times[0].ms;
            let start_ms: i64 = match prev {
                Some(p) => if first < p {
                    p
                } else {
                    first
                },
                None => first,
            };
            let row = Row { ayah: segs[i].ayah_num as i64, start_ms, segments: write_times(&times, start_ms) };
            let ghost before = new_times(rows@);
            rows.push(row);
            assert(new_times(rows@) =~= before.push(row@));
            word = upto;
            match end {
                Some(e) => if e.is_finite() {
                    cursor = e;
                },
                None => {},
            }
            prev = Some(start_ms);
        }
        i = i + 1;
    }
    rows
}

/// No verse starts before the one in front of it.
pub proof fn law_new_times_do_not_go_back<S: Scalar>(segs: Seq<AyahSegment<S>>, starts: Seq<S>, n: nat)
    ensures
        forall|i: int, j: int|
            0 <= i < j < retimed(segs, starts, n).rows.len() ==> (#[trigger] retimed(segs, starts, n).rows[i]).start_ms
                <= (#[trigger] retimed(segs, starts, n).rows[j]).start_ms,
        retimed(segs, starts, n).rows.len() > 0 ==> retimed(segs, starts, n).prev == Some(
            retimed(segs, starts, n).rows.last().start_ms,
        ),
        retimed(segs, starts, n).rows.len() == 0 ==> retimed(segs, starts, n).prev is None,
    decreases n,
{
    if n > 0 {
        law_new_times_do_not_go_back(segs, starts, (n - 1) as nat);
        let before = retimed(segs, starts, (n - 1) as nat).rows;
        let now = retimed(segs, starts, n).rows;
        assert forall|i: int, j: int| 0 <= i < j < now.len() implies (#[trigger] now[i]).start_ms <= (
        #[trigger] now[j]).start_ms by {
            if j == before.len() {
                assert(now[i] == before[i]);
                if i < before.len() - 1 {
                    assert(before[i].start_ms <= before[before.len() - 1].start_ms);
                }
            } else {
                assert(now[i] == before[i] && now[j] == before[j]);
            }
        }
    }
}

// ---------------------------------------------------------------------------
// Recorded times

/// The recorded time of a verse.
#[derive(Clone, Copy, Debug, PartialEq, Eq, Structural)]
pub struct OldTime {
    pub ayah: i64,
    pub start_ms: i64,
}

/// The verses stand in order, each once.
pub open spec fn is_table(entries: Seq<OldTime>) -> bool {
    forall|i: int, j: int| 0 <= i < j < entries.len() ==> (#[trigger] entries[i]).ayah < (#[trigger] entries[j]).ayah
}

/// The recorded time of verse `ayah`.
pub open spec fn time_for(entries: Seq<OldTime>, ayah: int) -> Option<i64>
    decreases entries.len(),
{
    if entries.len() == 0 {
        None
    } else if entries.last().ayah == ayah {
        Some(entries.last().start_ms)
    } else {
        time_for(entries.drop_last(), ayah)
    }
}

/// With another time for a verse, at its place.
pub open spec fn with_time(entries: Seq<OldTime>, x: OldTime) -> Seq<OldTime>
    decreases entries.len(),
{
    if entries.len() == 0 {
        seq![x]
    } else if entries.last().ayah == x.ayah {
        entries.drop_last().push(x)
    } else if entries.last().ayah < x.ayah {
        entries.push(x)
    } else {
        with_time(entries.drop_last(), x).push(entries.last())
    }
}

/// The table of recorded times; of two for one verse the later one counts.
pub open spec fn table_of(times: Seq<OldTime>) -> Seq<OldTime>
    decreases times.len(),
{
    if times.len() == 0 {
        Seq::empty()
    } else {
        with_time(table_of(times.drop_last()), times.last())
    }
}

proof fn lemma_with_time(entries: Seq<OldTime>, x: OldTime)
    requires
        is_table(entries),
    ensures
        is_table(with_time(entries, x)),
        with_time(entries, x).len() > 0,
        entries.len() == 0 || entries.last().ayah <= x.ayah ==> with_time(entries, x).last().ayah == x.ayah,
        entries.len() > 0 && x.ayah < entries.last().ayah ==> with_time(entries, x).last() == entries.last(),
        forall|a: int|
            #[trigger] time_for(with_time(entries, x), a) == (if a == x.ayah {
                Some(x.start_ms)
            } else {
                time_for(entries, a)
            }),
    decreases entries.len(),
{
    let w = with_time(entries, x);
    if entries.len() == 0 {
        assert(w.drop_last() =~= entries);
        assert forall|a: int| #[trigger] time_for(w, a) == (if a == x.ayah {
            Some(x.start_ms)
        } else {
            time_for(entries, a)
        }) by {
            assert(time_for(w.drop_last(), a) is None);
        }
    } else {
        let d = entries.drop_last();
        let l = entries.last();
        assert forall|i: int, j: int| 0 <= i < j < d.len() implies (#[trigger] d[i]).ayah < (#[trigger] d[j]).ayah by {
            assert(entries[i].ayah < entries[j].ayah);
        }
        assert forall|i: int| 0 <= i < d.len() implies (#[trigger] d[i]).ayah < l.ayah by {
            assert(entries[i].ayah < entries[entries.len() - 1].ayah);
        }
        if l.ayah == x.ayah {
            assert(w.drop_last() =~= d);
            lemma_absent(d, x.ayah as int);
        } else if l.ayah < x.ayah {
            assert(w.drop_last() =~= entries);
            assert forall|i: int, j: int| 0 <= i < j < w.len() implies (#[trigger] w[i]).ayah < (
            #[trigger] w[j]).ayah by {
                if j == entries.len() && i < entries.len() - 1 {
                    assert(entries[i] == d[i]);
                }
            }
        } else {
            lemma_with_time(d, x);
            let v = with_time(d, x);
            assert(w.drop_last() =~= v);
            assert(v.last().ayah < l.ayah) by {
                if d.len() > 0 {
                    assert(d.last() == d[d.len() - 1]);
                }
            }
            assert forall|i: int, j: int| 0 <= i < j < w.len() implies (#[trigger] w[i]).ayah < (
            #[trigger] w[j]).ayah by {
                if j == v.len() {
                    assert(w[i] == v[i]);
                    if i < v.len() - 1 {
                        assert(v[i].ayah < v[v.len() - 1].ayah);
                    }
                } else {
                    assert(w[i] == v[i] && w[j] == v[j]);
                }
            }
            assert forall|a: int| #[trigger] time_for(w, a) == (if a == x.ayah {
                Some(x.start_ms)
            } else {
                time_for(entries, a)
            }) by {
                assert(time_for(v, a) == (if a == x.ayah {
                    Some(x.start_ms)
                } else {
                    time_for(d, a)
                }));
            }
        }
    }
}

proof fn lemma_absent(entries: Seq<OldTime>, ayah: int)
    requires
        forall|i: int| 0 <= i < entries.len() ==> (#[trigger] entries[i]).ayah < ayah,
    ensures
        time_for(entries, ayah) is None,
    decreases entries.len(),
{
    if entries.len() > 0 {
        assert(entries.last() == entries[entries.len() - 1]);
        assert forall|i: int| 0 <= i < entries.drop_last().len() implies (#[trigger] entries.drop_last()[i]).ayah
            < ayah by {
            assert(entries.drop_last()[i] == entries[i]);
        }
        lemma_absent(entries.drop_last(), ayah);
    }
}

/// The table is in order, and holds for each verse the time that was given last.
pub proof fn law_table_holds_the_last_times(times: Seq<OldTime>)
    ensures
        is_table(table_of(times)),
        forall|a: int| #[trigger] time_for(table_of(times), a) == time_for(times, a),
    decreases times.len(),
{
    if times.len() > 0 {
        law_table_holds_the_last_times(times.drop_last());
        lemma_with_time(table_of(times.drop_last()), times.last());
    }
}

fn enter_time(entries: &mut Vec<OldTime>, x: OldTime)
    ensures
        final(entries)@ == with_time(old(entries)@, x),
{
    let ghost all = entries@;
    let mut pos: usize = entries.len();
    proof {
        assert(all.take(pos as int) =~= all);
        assert(with_time(all.take(pos as int), x) + all.skip(pos as int) =~= with_time(all, x));
    }
    while pos > 0 && entries[pos - 1].ayah > x.ayah
        invariant
            pos <= entries@.len(),
            entries@ == all,
            with_time(all, x) == with_time(all.take(pos as int), x) + all.skip(pos as int),
        decreases pos,
    {
        proof {
            let t = all.take(pos as int);
            assert(t.drop_last() =~= all.take(pos - 1));
            assert(t.last() == all[pos - 1]);
            assert(with_time(t, x) + all.skip(pos as int) =~= with_time(all.take(pos - 1), x) + all.skip(pos - 1));
        }
        pos = pos - 1;
    }
    let ghost t = all.take(pos as int);
    if pos > 0 && entries[pos - 1].ayah == x.ayah {
        assert(t.last() == all[pos - 1]);
        entries.set(pos - 1, x);
        assert(entries@ =~= t.drop_last().push(x) + all.skip(pos as int));
    } else {
        proof {
            if pos > 0 {
                assert(t.last() == all[pos - 1]);
            }
            assert(with_time(t, x) =~= t.push(x));
        }
        entries.insert(pos, x);
        assert(entries@ =~= t.push(x) + all.skip(pos as int));
    }
}

/// The table of recorded times.
pub fn build_table(times: &[OldTime]) -> (r: Vec<OldTime>)
    ensures
        r@ == table_of(times@),
{
    let mut out: Vec<OldTime> = Vec::new();
    let mut i: usize = 0;
    while i < times.len()
        invariant
            i <= times@.len(),
            out@ == table_of(times@.take(i as int)),
        decreases times@.len() - i,
    {
        assert(times@.take(i as int + 1).drop_last() =~= times@.take(i as int));
        enter_time(&mut out, times[i]);
        i = i + 1;
    }
    assert(times@.take(i as int) =~= times@);
    out
}

fn find_time(entries: &[OldTime], ayah: i64) -> (r: Option<i64>)
    ensures
        r == time_for(entries@, ayah as int),
{
    let mut k: usize = entries.len();
    assert(entries@.take(k as int) =~= entries@);
    while k > 0
        invariant
            k <= entries@.len(),
            time_for(entries@, ayah as int) == time_for(entries@.take(k as int), ayah as int),
        decreases k,
    {
        proof {
            assert(entries@.take(k as int).last() == entries@[k - 1]);
            assert(entries@.take(k as int).drop_last() =~= entries@.take(k - 1));
        }
        if entries[k - 1].ayah == ayah {
            return Some(entries[k - 1].start_ms);
        }
        k = k - 1;
    }
    None
}

// ---------------------------------------------------------------------------
// Updates of some verses only

/// The last new time of verse `ayah`.
pub open spec fn row_for(rows: Seq<NewTime>, ayah: int) -> Option<NewTime>
    decreases rows.len(),
{
    if rows.len() == 0 {
        None
    } else if rows.last().ayah == ayah {
        Some(rows.last())
    } else {
        row_for(rows.drop_last(), ayah)
    }
}

fn find_row(rows: &[Row], ayah: i64) -> (r: Option<usize>)
    ensures
        match r {
            None => row_for(new_times(rows@), ayah as int) is None,
            Some(k) => k < rows@.len() && row_for(new_times(rows@), ayah as int) == Some(rows@[k as int]@),
        },
{
    let ghost all = new_times(rows@);
    let mut k: usize = rows.len();
    assert(all.take(k as int) =~= all);
    while k > 0
        invariant
            k <= rows@.len(),
            all == new_times(rows@),
            row_for(all, ayah as int) == row_for(all.take(k as int), ayah as int),
        decreases k,
    {
        proof {
            assert(all.take(k as int).last() == rows@[k - 1]@);
            assert(all.take(k as int).drop_last() =~= all.take(k - 1));
        }
        if rows[k - 1].ayah == ayah {
            return Some(k - 1);
        }
        k = k - 1;
    }
    None
}

/// Where the adjustment stands: the adjusted times, the time of the last verse,
/// and whether the verses that keep their times still fit.
pub struct Adjusting {
    pub rows: Seq<NewTime>,
    pub last: Option<i64>,
    pub fits: bool,
}

/// One more verse. A new time is moved up to that of the verse in front; a time
/// that is kept must not lie before it.
pub open spec fn verse_adjusted(st: Adjusting, x: OldTime, rows: Seq<NewTime>) -> Adjusting {
    match row_for(rows, x.ayah as int) {
        Some(p) => {
            let t = not_before(p.start_ms, st.last);
            Adjusting {
                rows: st.rows.push(
                    NewTime { ayah: x.ayah as int, start_ms: t, segments: first_ms_set(p.segments, t) },
                ),
                last: Some(t),
                fits: st.fits,
            }
        },
        None => Adjusting {
            rows: st.rows,
            last: Some(x.start_ms),
            fits: st.fits && (st.last matches Some(prev) ==> prev <= x.start_ms),
        },
    }
}

pub open spec fn adjusted(old: Seq<OldTime>, rows: Seq<NewTime>, n: nat) -> Adjusting
    decreases n,
{
    if n == 0 {
        Adjusting { rows: Seq::empty(), last: None, fits: true }
    } else {
        verse_adjusted(adjusted(old, rows, (n - 1) as nat), old[n - 1], rows)
    }
}

/// Fits new times between the times that are kept; none where that cannot be.
pub fn adjust_rows(old: &[OldTime], rows: &[Row]) -> (r: Option<Vec<Row>>)
    ensures
        ({
            let a = adjusted(old@, new_times(rows@), old@.len());
            match r {
                None => !a.fits,
                Some(v) => a.fits && new_times(v@) == a.rows,
            }
        }),
{
    let mut out: Vec<Row> = Vec::new();
    let mut last: Option<i64> = None;
    let mut fits: bool = true;
    let mut i: usize = 0;
    assert(new_times(out@) =~= Seq::<NewTime>::empty());
    while i < old.len()
        invariant
            i <= old@.len(),
            adjusted(old@, new_times(rows@), i as nat) == (Adjusting { rows: new_times(out@), last, fits }),
        decreases old@.len() - i,
    {
        let x: OldTime = old[i];
        match find_row(rows, x.ayah) {
            Some(k) => {
                let p: i64 = rows[k].start_ms;
                let t: i64 = match last {
                    Some(prev) => if p < prev {
                        prev
                    } else {
                        p
                    },
                    None => p,
                };
                let row = Row {
                    ayah: x.ayah,
                    start_ms: t,
                    segments: set_segments_first_ms(rows[k].segments.as_str(), t),
                };
                let ghost before = new_times(out@);
                out.push(row);
                assert(new_times(out@) =~= before.push(row@));
                last = Some(t);
            },
            None => {
                match last {
                    Some(prev) => if x.start_ms < prev {
                        fits = false;
                    },
                    None => {},
                }
                last = Some(x.start_ms);
            },
        }
        i = i + 1;
    }
    if fits {
        Some(out)
    } else {
        None
    }
}

/// The time of the `k`-th recorded verse after an update.
pub open spec fn time_after(old: Seq<OldTime>, rows: Seq<NewTime>, k: int) -> i64 {
    adjusted(old, rows, (k + 1) as nat).last->0
}

/// An update that fits leaves all verses in order: none starts before the one in
/// front of it.
pub proof fn law_adjusted_times_do_not_go_back(old: Seq<OldTime>, rows: Seq<NewTime>, n: nat)
    requires
        n <= old.len(),
        adjusted(old, rows, n).fits,
    ensures
        forall|i: int, j: int| 0 <= i < j < n ==> #[trigger] time_after(old, rows, i) <= #[trigger] time_after(old, rows, j),
    decreases n,
{
    if n > 0 {
        law_adjusted_times_do_not_go_back(old, rows, (n - 1) as nat);
        assert forall|i: int, j: int| 0 <= i < j < n implies #[trigger] time_after(old, rows, i)
            <= #[trigger] time_after(old, rows, j) by {
            if j == n - 1 {
                assert(time_after(old, rows, n - 2) <= time_after(old, rows, n - 1)) by {
                    let st = adjusted(old, rows, (n - 1) as nat);
                    assert(st.last is Some);
                }
            }
        }
    }
}

// ---------------------------------------------------------------------------
// One chapter

/// When an update is made.
pub struct RetimeLimits<S> {
    pub threshold_ms: i64,
    pub min_confidence: S,
    pub max_missing_ayahs: usize,
    pub force: bool,
}

/// Why a chapter was updated or not.
#[derive(Clone, Debug, PartialEq, Eq)]
pub enum Reason {
    Skipped,
    MissingTranscript,
    /// There is a file, but no text can be read from it.
    UnreadableTranscript,
    BadTranscript(TranscriptError),
    AlignmentError(AlignError),
    NotConfined,
    MissingSegments,
    NoRows,
    /// The verses that are recorded, and those of the alignment.
    CountMismatch { db: usize, align: usize },
    Order,
    Updated,
    LowConfidence,
    BelowThreshold,
}

/// What is reported of a chapter.
pub struct SurahReport<S> {
    pub surah: i64,
    pub ok: bool,
    pub updated: bool,
    pub reason: Reason,
    pub confidence: Option<S>,
    pub ayahs: usize,
    pub mae_ms: Option<S>,
    pub median_abs_ms: Option<S>,
    pub p90_abs_ms: Option<S>,
    pub max_abs_ms: Option<S>,
}

impl<S: Scalar> SurahReport<S> {
    /// A report without figures.
    pub open spec fn bare(surah: i64, ok: bool, reason: Reason, confidence: Option<S>, ayahs: usize) -> Self {
        SurahReport {
            surah,
            ok,
            updated: false,
            reason,
            confidence,
            ayahs,
            mae_ms: None,
            median_abs_ms: None,
            p90_abs_ms: None,
            max_abs_ms: None,
        }
    }

    pub fn without_figures(surah: i64, ok: bool, reason: Reason, confidence: Option<S>, ayahs: usize) -> (r: Self)
        ensures
            r == Self::bare(surah, ok, reason, confidence, ayahs),
    {
        SurahReport {
            surah,
            ok,
            updated: false,
            reason,
            confidence,
            ayahs,
            mae_ms: None,
            median_abs_ms: None,
            p90_abs_ms: None,
            max_abs_ms: None,
        }
    }
}

/// The chapter numbers among the parts of a list.
pub open spec fn numbers_in(parts: Seq<Seq<char>>) -> Seq<int>
    decreases parts.len(),
{
    if parts.len() == 0 {
        Seq::empty()
    } else {
        let before = numbers_in(parts.drop_last());
        match transcripts::spelled_i64(chars::trimmed(parts.last())) {
            Some(i) => before.push(i),
            None => before,
        }
    }
}

/// The chapters of a list that is separated by commas; what is no number is left
/// out.
pub fn parse_skip_surahs(raw: &str) -> (r: Vec<i64>)
    ensures
        r@.map_values(|i: i64| i as int) == numbers_in(chars::split_on(raw@, ',')),
{
    let parts = chars::split(raw, ',');
    let ghost all = chars::views(parts@);
    let mut out: Vec<i64> = Vec::new();
    let mut i: usize = 0;
    assert(out@.map_values(|i: i64| i as int) =~= numbers_in(all.take(0)));
    while i < parts.len()
        invariant
            i <= parts@.len(),
            all == chars::views(parts@),
            out@.map_values(|i: i64| i as int) == numbers_in(all.take(i as int)),
        decreases parts@.len() - i,
    {
        let ghost before = out@;
        proof {
            assert(all.take(i as int + 1).drop_last() =~= all.take(i as int));
            assert(all.take(i as int + 1).last() == parts@[i as int]@);
        }
        match transcripts::parse_i64(chars::trim(parts[i].as_str()).as_str()) {
            Some(n) => {
                out.push(n);
                assert(out@.map_values(|i: i64| i as int) =~= before.map_values(|i: i64| i as int).push(n as int));
            },
            None => {},
        }
        i = i + 1;
    }
    assert(all.take(i as int) =~= all);
    out
}

/// The transcript of a chapter, or the report that there is nothing to align: the
/// chapter is to be left out, it has no transcript, or its transcript cannot be
/// read. `raw` is the text of the transcript, if there is a file that holds text.
pub fn open_surah<S: Scalar>(surah: i64, skip_surahs: &[i64], is_file: bool, raw: Option<&str>) -> (r: Result<
    Transcript<S>,
    SurahReport<S>,
>)
    ensures
        match r {
            Ok(t) => !skip_surahs@.contains(surah) && is_file && raw is Some && transcripts::is_transcript(
                (raw->0)@,
                Ok(t),
            ),
            Err(report) => if skip_surahs@.contains(surah) {
                report == SurahReport::<S>::bare(surah, true, Reason::Skipped, None, 0)
            } else if !is_file {
                report == SurahReport::<S>::bare(surah, false, Reason::MissingTranscript, None, 0)
            } else if raw is None {
                report == SurahReport::<S>::bare(surah, false, Reason::UnreadableTranscript, None, 0)
            } else {
                &&& report.reason matches Reason::BadTranscript(e)
                &&& transcripts::is_transcript::<S>((raw->0)@, Err(e))
                &&& report == SurahReport::<S>::bare(surah, false, report.reason, None, 0)
            },
        },
{
    let mut i: usize = 0;
    while i < skip_surahs.len()
        invariant
            i <= skip_surahs@.len(),
            forall|k: int| 0 <= k < i ==> skip_surahs@[k] != surah,
        decreases skip_surahs@.len() - i,
    {
        if skip_surahs[i] == surah {
            return Err(SurahReport::without_figures(surah, true, Reason::Skipped, None, 0));
        }
        i = i + 1;
    }
    if !is_file {
        return Err(SurahReport::without_figures(surah, false, Reason::MissingTranscript, None, 0));
    }
    match raw {
        None => Err(SurahReport::without_figures(surah, false, Reason::UnreadableTranscript, None, 0)),
        Some(text) => match transcripts::parse_transcript_txt(text) {
            Ok(t) => Ok(t),
            Err(e) => Err(SurahReport::without_figures(surah, false, Reason::BadTranscript(e), None, 0)),
        },
    }
}

/// By how much new times differ from the recorded ones, where both are known.
pub open spec fn differences<S: Scalar>(rows: Seq<NewTime>, old: Seq<OldTime>) -> Seq<S>
    decreases rows.len(),
{
    if rows.len() == 0 {
        Seq::empty()
    } else {
        let before = differences::<S>(rows.drop_last(), old);
        match time_for(old, rows.last().ayah) {
            Some(t) => before.push(S::whole_spec(distance(rows.last().start_ms as int, t as int))),
            None => before,
        }
    }
}

pub open spec fn distance(a: int, b: int) -> nat {
    if a < b {
        (b - a) as nat
    } else {
        (a - b) as nat
    }
}

fn find_differences<S: Scalar>(rows: &[Row], old: &[OldTime]) -> (r: Vec<S>)
    ensures
        r@ == differences::<S>(new_times(rows@), old@),
{
    let ghost all = new_times(rows@);
    let mut out: Vec<S> = Vec::new();
    let mut i: usize = 0;
    while i < rows.len()
        invariant
            i <= rows@.len(),
            all == new_times(rows@),
            out@ == differences::<S>(all.take(i as int), old@),
        decreases rows@.len() - i,
    {
        proof {
            assert(all.take(i as int + 1).drop_last() =~= all.take(i as int));
            assert(all.take(i as int + 1).last() == rows@[i as int]@);
        }
        match find_time(old, rows[i].ayah) {
            Some(t) => {
                let a: i128 = rows[i].start_ms as i128;
                let b: i128 = t as i128;
                let d: u64 = if a < b {
                    (b - a) as u64
                } else {
                    (a - b) as u64
                };
                out.push(S::whole(d));
            },
            None => {},
        }
        i = i + 1;
    }
    assert(all.take(i as int) =~= all);
    out
}

/// The report on new times for a chapter, and whether they are to be recorded.
pub open spec fn judged<S: Scalar>(
    surah: i64,
    conf: S,
    rows: Seq<NewTime>,
    old: Seq<OldTime>,
    limits: RetimeLimits<S>,
) -> SurahReport<S> {
    let d = differences::<S>(rows, old);
    let max_abs = most_of(d, d.len());
    let updated = limits.force || (limits.min_confidence.rank() <= conf.rank() && transcripts::signed::<S>(
        limits.threshold_ms as int,
    ).rank() <= max_abs.rank());
    SurahReport {
        surah,
        ok: true,
        updated,
        reason: if updated {
            Reason::Updated
        } else if conf.rank() < limits.min_confidence.rank() {
            Reason::LowConfidence
        } else {
            Reason::BelowThreshold
        },
        confidence: Some(conf),
        ayahs: rows.len() as usize,
        mae_ms: mean_of(d),
        median_abs_ms: median_of(d),
        p90_abs_ms: p90_of(d),
        max_abs_ms: Some(max_abs),
    }
}

fn judge_rows<S: Scalar>(surah: i64, conf: S, rows: &[Row], old: &[OldTime], limits: &RetimeLimits<S>) -> (r: SurahReport<
    S,
>)
    ensures
        r == judged(surah, conf, new_times(rows@), old@, *limits),
{
    let d: Vec<S> = find_differences(rows, old);
    let max_abs: S = most(&d);
    let threshold: S = transcripts::from_i64(limits.threshold_ms);
    let updated: bool = limits.force || (!conf.below(limits.min_confidence) && !max_abs.below(threshold));
    SurahReport {
        surah,
        ok: true,
        updated,
        reason: if updated {
            Reason::Updated
        } else if conf.below(limits.min_confidence) {
            Reason::LowConfidence
        } else {
            Reason::BelowThreshold
        },
        confidence: Some(conf),
        ayahs: rows.len(),
        mae_ms: mean(&d),
        median_abs_ms: median(&d),
        p90_abs_ms: p90(&d),
        max_abs_ms: Some(max_abs),
    }
}

/// The report on a chapter that its alignment already rules out, whatever is recorded:
/// there is none, it does not lie within the chapter, or it gives no verses.
pub open spec fn rejection<S: Scalar>(
    surah: i64,
    outcome: Option<Result<AlignmentReport<S>, AlignError>>,
) -> Option<SurahReport<S>> {
    match outcome {
        None => Some(SurahReport::bare(surah, false, Reason::NotConfined, Some(S::whole_spec(0)), 0)),
        Some(Err(e)) => Some(SurahReport::bare(surah, false, Reason::AlignmentError(e), None, 0)),
        Some(Ok(t)) => if t.start.surah != surah || t.end.surah != surah {
            Some(SurahReport::bare(surah, false, Reason::NotConfined, Some(t.confidence), 0))
        } else if t.segments@.len() == 0 {
            Some(SurahReport::bare(surah, false, Reason::MissingSegments, Some(t.confidence), 0))
        } else {
            None
        },
    }
}

/// Whether the alignment of a chapter already rules out an update.
pub fn reject_outcome<S: Scalar>(surah: i64, outcome: Option<&Result<AlignmentReport<S>, AlignError>>) -> (r: Option<
    SurahReport<S>,
>)
    ensures
        r == rejection(
            surah,
            match outcome {
                None => None,
                Some(x) => Some(*x),
            },
        ),
{
    match outcome {
        None => Some(SurahReport::without_figures(surah, false, Reason::NotConfined, Some(S::whole(0)), 0)),
        Some(Err(e)) => Some(SurahReport::without_figures(surah, false, Reason::AlignmentError(*e), None, 0)),
        Some(Ok(t)) => {
            let conf: Option<S> = Some(t.confidence);
            if t.start.surah as i64 != surah || t.end.surah as i64 != surah {
                Some(SurahReport::without_figures(surah, false, Reason::NotConfined, conf, 0))
            } else if t.segments.len() == 0 {
                Some(SurahReport::without_figures(surah, false, Reason::MissingSegments, conf, 0))
            } else {
                None
            }
        },
    }
}

/// The report on a chapter, and the times that are to be recorded, if any.
pub open spec fn is_surah_verdict<S: Scalar>(
    surah: i64,
    outcome: Option<Result<AlignmentReport<S>, AlignError>>,
    old: Seq<OldTime>,
    starts: Seq<S>,
    limits: RetimeLimits<S>,
    report: SurahReport<S>,
    rows: Seq<NewTime>,
) -> bool {
    match rejection(surah, outcome) {
        Some(x) => report == x && rows.len() == 0,
        None => {
            let t = outcome->0->Ok_0;
            let conf = Some(t.confidence);
            let new = retimed(t.segments@, starts, t.segments@.len()).rows;
            let fit = adjusted(old, new, old.len());
            let kept = if new.len() == old.len() {
                new
            } else {
                fit.rows
            };
            if old.len() == 0 {
                report == SurahReport::<S>::bare(surah, false, Reason::NoRows, conf, 0) && rows.len() == 0
            } else if new.len() > old.len() || old.len() - new.len() > limits.max_missing_ayahs {
                report == SurahReport::<S>::bare(
                    surah,
                    false,
                    Reason::CountMismatch { db: old.len() as usize, align: new.len() as usize },
                    conf,
                    old.len() as usize,
                ) && rows.len() == 0
            } else if new.len() != old.len() && !fit.fits {
                report == SurahReport::<S>::bare(surah, false, Reason::Order, conf, old.len() as usize) && rows.len()
                    == 0
            } else {
                report == judged(surah, t.confidence, kept, old, limits) && rows == (if report.updated {
                    kept
                } else {
                    Seq::empty()
                })
            }
        },
    }
}

/// Decides on a chapter: the alignment must lie within it, give no more verses
/// than are recorded and miss no more than may be missed, and keep the verses in
/// order. New times are recorded if they differ enough and are trusted enough.
pub fn judge_surah<S: Scalar>(
    surah: i64,
    outcome: Option<&Result<AlignmentReport<S>, AlignError>>,
    old: &[OldTime],
    starts: &[S],
    limits: &RetimeLimits<S>,
) -> (r: (SurahReport<S>, Vec<Row>))
    requires
        starts@.len() <= i64::MAX,
    ensures
        is_surah_verdict(
            surah,
            match outcome {
                None => None,
                Some(x) => Some(*x),
            },
            old@,
            starts@,
            *limits,
            r.0,
            new_times(r.1@),
        ),
{
    let none: Vec<Row> = Vec::new();
    assert(new_times(none@) =~= Seq::<NewTime>::empty());
    match reject_outcome(surah, outcome) {
        Some(report) => return (report, none),
        None => {},
    }
    let t = match outcome {
        Some(Ok(t)) => t,
        _ => return (SurahReport::without_figures(surah, false, Reason::NoRows, None, 0), none),
    };
    let conf: Option<S> = Some(t.confidence);
    if old.len() == 0 {
        return (SurahReport::without_figures(surah, false, Reason::NoRows, conf, 0), none);
    }
    let new = build_rows(&t.segments, starts);
    assert(new_times(new@).len() == new@.len());
    if new.len() > old.len() || old.len() - new.len() > limits.max_missing_ayahs {
        let reason = Reason::CountMismatch { db: old.len(), align: new.len() };
        return (SurahReport::without_figures(surah, false, reason, conf, old.len()), none);
    }
    let kept = if new.len() != old.len() {
        match adjust_rows(old, &new) {
            Some(v) => v,
            None => return (SurahReport::without_figures(surah, false, Reason::Order, conf, old.len()), none),
        }
    } else {
        new
    };
    let report = judge_rows(surah, t.confidence, &kept, old, limits);
    if report.updated {
        (report, kept)
    } else {
        (report, none)
    }
}

proof fn lemma_time_for(old: Seq<OldTime>, ayah: int)
    ensures
        time_for(old, ayah) matches Some(t) ==> exists|j: int|
            0 <= j < old.len() && (#[trigger] old[j]).ayah == ayah && old[j].start_ms == t,
        time_for(old, ayah) is None ==> forall|j: int| 0 <= j < old.len() ==> (#[trigger] old[j]).ayah != ayah,
        is_table(old) ==> forall|j: int|
            0 <= j < old.len() && (#[trigger] old[j]).ayah == ayah ==> time_for(old, ayah) == Some(old[j].start_ms),
    decreases old.len(),
{
    if old.len() > 0 {
        let d = old.drop_last();
        let n = old.len() - 1;
        lemma_time_for(d, ayah);
        assert(old[n] == old.last());
        if old.last().ayah != ayah {
            if time_for(d, ayah) is Some {
                let j = choose|j: int|
                    0 <= j < d.len() && (#[trigger] d[j]).ayah == ayah && d[j].start_ms == time_for(d, ayah)->0;
                assert(old[j] == d[j]);
            } else {
                assert forall|j: int| 0 <= j < old.len() implies (#[trigger] old[j]).ayah != ayah by {
                    if j < n {
                        assert(d[j] == old[j]);
                    }
                }
            }
        }
        if is_table(old) {
            assert forall|i: int, j: int| 0 <= i < j < d.len() implies (#[trigger] d[i]).ayah < (#[trigger] d[j]).ayah by {
                assert(old[i].ayah < old[j].ayah);
            }
            assert forall|j: int| 0 <= j < old.len() && (#[trigger] old[j]).ayah == ayah implies time_for(old, ayah)
                == Some(old[j].start_ms) by {
                if j < n {
                    assert(old[j].ayah < old[n].ayah);
                    assert(d[j] == old[j]);
                }
            }
        }
    }
}

/// Verse `k` of the new times and verse `j` of the recorded ones are the same, and start
/// `ms` or more apart.
pub open spec fn is_off(rows: Seq<NewTime>, old: Seq<OldTime>, k: int, j: int, ms: int) -> bool {
    &&& 0 <= k < rows.len() && 0 <= j < old.len()
    &&& rows[k].ayah == old[j].ayah
    &&& rows[k].start_ms - old[j].start_ms >= ms || old[j].start_ms - rows[k].start_ms >= ms
}

proof fn lemma_most_off<S: Scalar>(rows: Seq<NewTime>, old: Seq<OldTime>, ms: int)
    requires
        scalar::counts_are_ordered::<S>(),
        is_table(old),
        0 < ms <= 1_000_000_000_000,
    ensures
        ({
            let d = differences::<S>(rows, old);
            S::whole_spec(ms as nat).rank() <= most_of(d, d.len()).rank() <==> exists|k: int, j: int| #[trigger]
                is_off(rows, old, k, j, ms)
        }),
    decreases rows.len(),
{
    let d = differences::<S>(rows, old);
    let need = S::whole_spec(ms as nat).rank();
    assert(S::whole_spec(0).rank() < need);
    if rows.len() > 0 {
        let before = rows.drop_last();
        let e = differences::<S>(before, old);
        let n = rows.len() - 1;
        let x = rows.last();
        lemma_most_off::<S>(before, old, ms);
        lemma_time_for(old, x.ayah);
        lemma_most_of_part(d, e, e.len());
        assert forall|k: int, j: int| #[trigger] is_off(before, old, k, j, ms) implies is_off(rows, old, k, j, ms) by {
            assert(before[k] == rows[k]);
        }
        assert forall|k: int, j: int| k < n && #[trigger] is_off(rows, old, k, j, ms) implies is_off(
            before,
            old,
            k,
            j,
            ms,
        ) by {
            assert(before[k] == rows[k]);
        }
        match time_for(old, x.ayah) {
            Some(t) => {
                let far = distance(x.start_ms as int, t as int);
                assert(d[d.len() - 1] == S::whole_spec(far));
                assert(far >= ms ==> need <= S::whole_spec(far).rank());
                assert(far < ms ==> S::whole_spec(far).rank() < need);
                let w = choose|j: int| 0 <= j < old.len() && (#[trigger] old[j]).ayah == x.ayah && old[j].start_ms == t;
                assert(far >= ms ==> is_off(rows, old, n, w, ms));
                assert forall|j: int| #[trigger] is_off(rows, old, n, j, ms) implies far >= ms by {
                    assert(old[j].ayah == x.ayah);
                }
            },
            None => {
                assert forall|j: int| !(#[trigger] is_off(rows, old, n, j, ms)) by {
                    if 0 <= j < old.len() {
                        assert(old[j].ayah != x.ayah);
                    }
                }
            },
        }
    }
}

proof fn lemma_most_of_part<S: Scalar>(d: Seq<S>, e: Seq<S>, n: nat)
    requires
        n <= e.len() <= d.len(),
        forall|i: int| 0 <= i < e.len() ==> d[i] == #[trigger] e[i],
    ensures
        most_of(d, n) == most_of(e, n),
    decreases n,
{
    if n > 0 {
        lemma_most_of_part(d, e, (n - 1) as nat);
    }
}

/// The new times of a chapter: as the alignment gives them where it gives all verses,
/// else fitted between those that keep their times.
pub open spec fn proposed<S: Scalar>(t: AlignmentReport<S>, old: Seq<OldTime>, starts: Seq<S>) -> Seq<NewTime> {
    let new = retimed(t.segments@, starts, t.segments@.len()).rows;
    if new.len() == old.len() {
        new
    } else {
        adjusted(old, new, old.len()).rows
    }
}

/// Without force, a trusted chapter is updated exactly if some verse's new start and its
/// recorded one lie the threshold or more apart. Then all new times are recorded; else
/// none are.
pub proof fn law_updated_if_a_verse_is_off<S: Scalar>(
    surah: i64,
    t: AlignmentReport<S>,
    old: Seq<OldTime>,
    starts: Seq<S>,
    limits: RetimeLimits<S>,
    report: SurahReport<S>,
    rows: Seq<NewTime>,
)
    requires
        is_surah_verdict(surah, Some(Ok(t)), old, starts, limits, report, rows),
        report.ok,
        scalar::counts_are_ordered::<S>(),
        is_table(old),
        0 < limits.threshold_ms <= 1_000_000_000_000,
        !limits.force,
        limits.min_confidence.rank() <= t.confidence.rank(),
    ensures
        report.updated <==> exists|k: int, j: int| #[trigger]
            is_off(proposed(t, old, starts), old, k, j, limits.threshold_ms as int),
        report.updated ==> rows == proposed(t, old, starts) && report.reason == Reason::Updated,
        !report.updated ==> rows.len() == 0 && report.reason == Reason::BelowThreshold,
{
    lemma_most_off::<S>(proposed(t, old, starts), old, limits.threshold_ms as int);
}

/// A chapter is looked at no further if its alignment failed, leaves the chapter or has
/// no verses, if nothing is recorded of it, if it gives more verses than are recorded or
/// misses more than may be missed, or if verses that keep their times would come out of
/// order. Nothing is recorded then.
pub proof fn law_unfit_chapters_are_left_alone<S: Scalar>(
    surah: i64,
    outcome: Option<Result<AlignmentReport<S>, AlignError>>,
    old: Seq<OldTime>,
    starts: Seq<S>,
    limits: RetimeLimits<S>,
    report: SurahReport<S>,
    rows: Seq<NewTime>,
)
    requires
        is_surah_verdict(surah, outcome, old, starts, limits, report, rows),
    ensures
        report.surah == surah,
        !report.ok ==> !report.updated && rows.len() == 0,
        report.ok <==> (outcome matches Some(Ok(t)) && t.start.surah == surah && t.end.surah == surah
            && t.segments@.len() > 0 && old.len() > 0 && {
            let new = retimed(t.segments@, starts, t.segments@.len()).rows;
            &&& new.len() <= old.len() && old.len() - new.len() <= limits.max_missing_ayahs
            &&& new.len() == old.len() || adjusted(old, new, old.len()).fits
        }),
        report.ok && !limits.force && outcome->0->Ok_0.confidence.rank() < limits.min_confidence.rank()
            ==> !report.updated && rows.len() == 0 && report.reason == Reason::LowConfidence,
        report.ok && limits.force ==> report.updated && report.reason == Reason::Updated && rows == proposed(
            outcome->0->Ok_0,
            old,
            starts,
        ),
        report.ok ==> report.confidence == Some(outcome->0->Ok_0.confidence),
{
}

proof fn lemma_most<S: Scalar>(d: Seq<S>, n: nat)
    requires
        n <= d.len(),
    ensures
        S::whole_spec(0).rank() <= most_of(d, n).rank(),
        forall|i: int| 0 <= i < n ==> (#[trigger] d[i]).rank() <= most_of(d, n).rank(),
        most_of(d, n) == S::whole_spec(0) || exists|i: int| 0 <= i < n && most_of(d, n) == #[trigger] d[i],
    decreases n,
{
    if n > 0 {
        lemma_most(d, (n - 1) as nat);
        if most_of(d, n) != d[n - 1] && most_of(d, n) != S::whole_spec(0) {
            let i = choose|i: int| 0 <= i < n - 1 && most_of(d, (n - 1) as nat) == #[trigger] d[i];
            assert(most_of(d, n) == d[i]);
        }
    }
}

/// The greatest difference that is reported is the difference of some verse, or zero, and
/// no difference is greater. Half of the differences are no greater than their median,
/// and half no smaller.
pub proof fn law_figures_describe_the_differences<S: Scalar>(d: Seq<S>)
    requires
        d.len() > 0,
    ensures
        forall|i: int| 0 <= i < d.len() ==> (#[trigger] d[i]).rank() <= most_of(d, d.len()).rank(),
        most_of(d, d.len()) == S::whole_spec(0) || d.contains(most_of(d, d.len())),
        ({
            let s = transcripts::sorted_times(d);
            let mid = d.len() as int / 2;
            &&& median_of(d) is Some && p90_of(d) is Some && mean_of(d) is Some
            &&& d.len() % 2 == 1 ==> {
                &&& median_of(d)->0 == s[mid]
                &&& s.len() - mid == mid + 1
            }
            &&& d.len() == 2 ==> median_of(d)->0 == s[0].plus_spec(s[1]).over_spec(S::whole_spec(2))
            &&& d.len() == 1 ==> median_of(d)->0 == d[0] && p90_of(d)->0 == d[0]
        }),
{
    broadcast use vstd::seq_lib::group_to_multiset_ensures;

    lemma_most(d, d.len());
    transcripts::law_sorted_times(d);
    if d.len() == 1 {
        let s = transcripts::sorted_times(d);
        assert(s.contains(s[0]));
        assert(s.to_multiset().count(s[0]) > 0);
        assert(d.to_multiset().count(s[0]) > 0);
        assert(d.contains(s[0]));
    }
}

// ---------------------------------------------------------------------------
// The report as a document

/// What is wrong with a number.
pub open spec fn number_fault_text(f: NumberFault) -> Seq<char> {
    match f {
        NumberFault::Empty => "cannot parse integer from empty string"@,
        NumberFault::Digit => "invalid digit found in string"@,
        NumberFault::TooLarge => "number too large to fit in target type"@,
        NumberFault::TooSmall => "number too small to fit in target type"@,
    }
}

fn name_number_fault(f: NumberFault) -> (r: &'static str)
    ensures
        r@ == number_fault_text(f),
{
    match f {
        NumberFault::Empty => "cannot parse integer from empty string",
        NumberFault::Digit => "invalid digit found in string",
        NumberFault::TooLarge => "number too large to fit in target type",
        NumberFault::TooSmall => "number too small to fit in target type",
    }
}

/// What is wrong with a transcript: with the line or the timestamp, in quotes, but for a
/// number.
pub open spec fn transcript_error_text(e: (TranscriptFault, Seq<char>)) -> Seq<char> {
    match e.0 {
        TranscriptFault::Header => "bad segment header: "@ + chars::debug_form(e.1),
        TranscriptFault::Time(TimestampError::Shape) => "invalid timestamp: "@ + chars::debug_form(e.1),
        TranscriptFault::Time(TimestampError::Millis) => "invalid ms in timestamp: "@ + chars::debug_form(e.1),
        TranscriptFault::Time(TimestampError::Number(f)) => number_fault_text(f),
    }
}

pub fn write_transcript_error(e: &TranscriptError) -> (r: String)
    ensures
        r@ == transcript_error_text(e@),
{
    let mut out = match e.fault {
        TranscriptFault::Header => "bad segment header: ".to_owned(),
        TranscriptFault::Time(TimestampError::Shape) => "invalid timestamp: ".to_owned(),
        TranscriptFault::Time(TimestampError::Millis) => "invalid ms in timestamp: ".to_owned(),
        TranscriptFault::Time(TimestampError::Number(f)) => return name_number_fault(f).to_owned(),
    };
    out.append(chars::write_debug(e.text.as_str()).as_str());
    out
}

/// Why a chapter was updated or not, in words; `path` is where its transcript was
/// looked for, and `mode` names the mode for correcting times.
pub open spec fn reason_text(r: Reason, path: Seq<char>, mode: Seq<char>) -> Seq<char> {
    match r {
        Reason::Skipped => "skipped"@,
        Reason::MissingTranscript => "missing transcript: "@ + path,
        Reason::UnreadableTranscript => "transcript parse failed: read transcript "@ + path,
        Reason::BadTranscript(e) => "transcript parse failed: "@ + transcript_error_text(e@),
        Reason::AlignmentError(e) => "alignment error: \""@ + reports::error_text(e, mode) + "\""@,
        Reason::NotConfined => "aligned range not confined to surah"@,
        Reason::MissingSegments => "missing alignment.segments"@,
        Reason::NoRows => "no db rows for surah"@,
        Reason::CountMismatch { db, align } => "ayah count mismatch (db="@ + chars::decimal(db as nat) + " align="@
            + chars::decimal(align as nat) + ")"@,
        Reason::Order => "partial update would break monotonicity"@,
        Reason::Updated => "updated"@,
        Reason::LowConfidence => "low_confidence"@,
        Reason::BelowThreshold => "below_threshold"@,
    }
}

pub fn write_reason(r: &Reason, path: &str, mode: &str) -> (t: String)
    ensures
        t@ == reason_text(*r, path@, mode@),
{
    match r {
        Reason::Skipped => "skipped".to_owned(),
        Reason::MissingTranscript => {
            let mut out = "missing transcript: ".to_owned();
            out.append(path);
            out
        },
        Reason::UnreadableTranscript => {
            let mut out = "transcript parse failed: read transcript ".to_owned();
            out.append(path);
            out
        },
        Reason::BadTranscript(e) => {
            let mut out = "transcript parse failed: ".to_owned();
            out.append(write_transcript_error(e).as_str());
            out
        },
        Reason::AlignmentError(e) => {
            let mut out = "alignment error: \"".to_owned();
            out.append(reports::write_error(*e, mode).as_str());
            out.append("\"");
            out
        },
        Reason::NotConfined => "aligned range not confined to surah".to_owned(),
        Reason::MissingSegments => "missing alignment.segments".to_owned(),
        Reason::NoRows => "no db rows for surah".to_owned(),
        Reason::CountMismatch { db, align } => {
            let mut out = "ayah count mismatch (db=".to_owned();
            chars::push_decimal(&mut out, *db as u64);
            out.append(" align=");
            chars::push_decimal(&mut out, *align as u64);
            out.append(")");
            out
        },
        Reason::Order => "partial update would break monotonicity".to_owned(),
        Reason::Updated => "updated".to_owned(),
        Reason::LowConfidence => "low_confidence".to_owned(),
        Reason::BelowThreshold => "below_threshold".to_owned(),
    }
}

/// What is reported of a chapter.
pub open spec fn surah_tree<S: Scalar>(x: SurahReport<S>, path: Seq<char>, mode: Seq<char>) -> Tree<S> {
    Tree::Object(
        seq![
            ("surah"@, tree::int_tree(x.surah)),
            ("ok"@, Tree::Bool(x.ok)),
            ("updated"@, Tree::Bool(x.updated)),
            ("reason"@, Tree::Text(reason_text(x.reason, path, mode))),
            ("confidence"@, tree::opt_real_tree(x.confidence)),
            ("ayahs"@, tree::count_tree(x.ayahs as u64)),
            ("mae_ms"@, tree::opt_real_tree(x.mae_ms)),
            ("median_abs_ms"@, tree::opt_real_tree(x.median_abs_ms)),
            ("p90_abs_ms"@, tree::opt_real_tree(x.p90_abs_ms)),
            ("max_abs_ms"@, tree::opt_real_tree(x.max_abs_ms)),
        ],
    )
}

pub fn surah_value<S: Scalar>(x: &SurahReport<S>, path: &str, mode: &str) -> (r: Json<S>)
    ensures
        tree::tree_of(r) == surah_tree(*x, path@, mode@),
{
    let mut e: Vec<(String, Json<S>)> = Vec::new();
    tree::put(&mut e, "surah", tree::int_value(x.surah));
    tree::put(&mut e, "ok", Json::Bool(x.ok));
    tree::put(&mut e, "updated", Json::Bool(x.updated));
    tree::put(&mut e, "reason", tree::text(write_reason(&x.reason, path, mode).as_str()));
    tree::put(&mut e, "confidence", tree::opt_real(x.confidence));
    tree::put(&mut e, "ayahs", tree::count(x.ayahs as u64));
    tree::put(&mut e, "mae_ms", tree::opt_real(x.mae_ms));
    tree::put(&mut e, "median_abs_ms", tree::opt_real(x.median_abs_ms));
    tree::put(&mut e, "p90_abs_ms", tree::opt_real(x.p90_abs_ms));
    tree::put(&mut e, "max_abs_ms", tree::opt_real(x.max_abs_ms));
    assert(tree::entries_of(e@) =~= surah_tree(*x, path@, mode@)->Object_0);
    Json::Object(e)
}

/// The numbers of the verses that were recited, in their order.
pub open spec fn verse_numbers<S>(segs: Seq<AyahSegment<S>>, n: nat) -> Seq<int>
    decreases n,
{
    if n == 0 {
        Seq::empty()
    } else if segs[n - 1].ayah_num == 0 {
        verse_numbers(segs, (n - 1) as nat)
    } else {
        verse_numbers(segs, (n - 1) as nat).push(segs[n - 1].ayah_num as int)
    }
}

/// Each verse that was recited gets one row, in the order of the recitation; what is no
/// verse gets none.
pub proof fn law_each_verse_gets_a_row<S: Scalar>(segs: Seq<AyahSegment<S>>, starts: Seq<S>, n: nat)
    ensures
        retimed(segs, starts, n).rows.map_values(|r: NewTime| r.ayah) == verse_numbers(segs, n),
    decreases n,
{
    let f = |r: NewTime| r.ayah;
    if n > 0 {
        law_each_verse_gets_a_row(segs, starts, (n - 1) as nat);
        let before = retimed(segs, starts, (n - 1) as nat).rows;
        let after = retimed(segs, starts, n).rows;
        if segs[n - 1].ayah_num != 0 {
            assert(after.map_values(f) =~= before.map_values(f).push(segs[n - 1].ayah_num as int));
        }
    } else {
        assert(retimed(segs, starts, n).rows.map_values(f) =~= Seq::empty());
    }
}

/// The words of a verse are those from where the verse before it stopped up to its end.
pub proof fn law_words_of_a_verse_end_with_it<S: Scalar>(starts: Seq<S>, i: nat, end: Option<S>)
    requires
        i <= starts.len(),
    ensures
        ({
            let j = words_until(starts, i, end);
            &&& i <= j <= starts.len()
            &&& forall|k: int| i <= k < j ==> (end matches Some(e) ==> (#[trigger] starts[k]).rank() < e.rank())
            &&& j < starts.len() ==> (end matches Some(e) && e.rank() <= starts[j as int].rank())
        }),
    decreases starts.len() - i,
{
    if i < starts.len() && (end matches Some(e) ==> starts[i as int].rank() < e.rank()) {
        law_words_of_a_verse_end_with_it(starts, i + 1, end);
    }
}

spec fn is_timed_at<S: Scalar>(starts: Seq<S>, i: nat, j: nat, cursor: S, k: int, ms: i64) -> bool {
    i <= k < j && cursor.rank() <= starts[k].rank() && ms_of(starts[k]) == ms
}

proof fn lemma_word_times<S: Scalar>(starts: Seq<S>, i: nat, j: nat, cursor: S, k: int)
    requires
        i <= k < j <= starts.len(),
        cursor.rank() <= starts[k].rank(),
    ensures
        word_times(starts, i, j, cursor).contains(MsKey { ms: ms_of(starts[k]) }),
    decreases j,
{
    let key = MsKey { ms: ms_of(starts[k]) };
    let all = word_times(starts, i, j, cursor);
    if k < j - 1 {
        lemma_word_times(starts, i, (j - 1) as nat, cursor, k);
        let before = word_times(starts, i, (j - 1) as nat, cursor);
        let m = choose|m: int| 0 <= m < before.len() && before[m] == key;
        assert(all[m] == before[m]);
    } else {
        assert(all[all.len() - 1] == key);
    }
}

proof fn lemma_timed_word<S: Scalar>(starts: Seq<S>, i: nat, j: nat, cursor: S, m: int) -> (k: int)
    requires
        i <= j <= starts.len(),
        0 <= m < word_times(starts, i, j, cursor).len(),
    ensures
        is_timed_at(starts, i, j, cursor, k, word_times(starts, i, j, cursor)[m].ms),
    decreases j,
{
    let before = word_times(starts, i, (j - 1) as nat, cursor);
    if m < before.len() {
        lemma_timed_word(starts, i, (j - 1) as nat, cursor, m)
    } else {
        j - 1
    }
}

/// A verse starts with the earliest of its words, or where it was heard to start if it
/// has none; but never before the verse in front of it.
pub proof fn law_verses_start_with_their_words<S: Scalar>(
    st: Retiming<S>,
    segs: Seq<AyahSegment<S>>,
    i: int,
    starts: Seq<S>,
    k: int,
)
    requires
        0 <= i < segs.len(),
        segs[i].ayah_num != 0,
        st.word <= starts.len(),
    ensures
        ({
            let after = verse_retimed(st, segs, i, starts);
            let row = after.rows.last();
            let own = |k: int| st.word <= k < after.word && st.cursor.rank() <= starts[k].rank();
            &&& after.rows.drop_last() == st.rows
            &&& row.ayah == segs[i].ayah_num
            &&& after.prev == Some(row.start_ms)
            &&& st.prev matches Some(p) ==> p <= row.start_ms
            &&& own(k) && (st.prev matches Some(p) ==> p <= ms_of(starts[k])) ==> row.start_ms <= ms_of(starts[k])
            &&& Some(row.start_ms) == st.prev || row.start_ms == ms_of(time_or_zero(segs[i].start_s)) || exists|j: int|
                #[trigger] own(j) && row.start_ms == ms_of(starts[j])
            &&& (forall|j: int| !#[trigger] own(j)) && st.prev is None ==> row.start_ms == ms_of(
                time_or_zero(segs[i].start_s),
            )
            &&& (exists|j: int| #[trigger] own(j)) ==> Some(row.start_ms) == st.prev || exists|j: int| #[trigger]
                own(j) && row.start_ms == ms_of(starts[j])
        }),
{
    let after = verse_retimed(st, segs, i, starts);
    let row = after.rows.last();
    let end = end_of(segs, i);
    let upto = words_until(starts, st.word, end);
    law_words_of_a_verse_end_with_it(starts, st.word, end);
    let found = word_times(starts, st.word, upto, st.cursor);
    let times = verse_times(found, segs[i].start_s);
    let own = |k: int| st.word <= k < after.word && st.cursor.rank() <= starts[k].rank();
    assert(after.rows.drop_last() =~= st.rows);
    if found.len() > 0 {
        sorting::law_sorting_keeps_items(found);
        sorting::law_sorted_is_in_order(found);
        sorting::lemma_sorted_len(found);
        lemma_same_items(times, found);
        assert(times.contains(times[0]));
        let m = choose|m: int| 0 <= m < found.len() && found[m] == times[0];
        let j = lemma_timed_word(starts, st.word, upto, st.cursor, m);
        assert(own(j));
        if own(k) {
            let key = MsKey { ms: ms_of(starts[k]) };
            lemma_word_times(starts, st.word, upto, st.cursor, k);
            assert(found.contains(key));
            assert(times.contains(key));
            let q = choose|q: int| 0 <= q < times.len() && times[q] == key;
            if q > 0 {
                assert(!sorting::key_before(times[q].key(), times[0].key()));
            }
        }
    } else {
        assert forall|j: int| !#[trigger] own(j) by {
            if own(j) {
                lemma_word_times(starts, st.word, upto, st.cursor, j);
                assert(found.contains(MsKey { ms: ms_of(starts[j]) }));
            }
        }
    }
}

proof fn lemma_same_items(a: Seq<MsKey>, b: Seq<MsKey>)
    requires
        a.to_multiset() == b.to_multiset(),
    ensures
        forall|x: MsKey| #[trigger] a.contains(x) <==> b.contains(x),
{
    broadcast use vstd::seq_lib::group_to_multiset_ensures;

    assert forall|x: MsKey| #[trigger] a.contains(x) <==> b.contains(x) by {
        assert(a.contains(x) <==> a.to_multiset().count(x) > 0);
        assert(b.contains(x) <==> b.to_multiset().count(x) > 0);
    }
}

/// A verse ends where it is said to, or with the start of the next, and the words of the
/// next are looked for from there.
pub proof fn law_verses_follow_one_another<S: Scalar>(st: Retiming<S>, segs: Seq<AyahSegment<S>>, i: int, starts: Seq<S>)
    requires
        0 <= i < segs.len(),
        st.word <= starts.len(),
    ensures
        ({
            let after = verse_retimed(st, segs, i, starts);
            let end = if segs[i].end_s is Some {
                segs[i].end_s
            } else if i + 1 < segs.len() {
                segs[i + 1].start_s
            } else {
                None
            };
            &&& segs[i].ayah_num == 0 ==> after == st
            &&& segs[i].ayah_num != 0 ==> {
                &&& st.word <= after.word <= starts.len()
                &&& forall|k: int|
                    st.word <= k < after.word ==> (end matches Some(e) ==> (#[trigger] starts[k]).rank() < e.rank())
                &&& after.word < starts.len() ==> (end matches Some(e) && e.rank() <= starts[after.word as int].rank())
                &&& end is Some && end->0.finite_spec() ==> after.cursor == end->0
                &&& end is None ==> after.cursor == st.cursor
            }
        }),
{
    law_words_of_a_verse_end_with_it(starts, st.word, end_of(segs, i));
}

proof fn lemma_row_for(rows: Seq<NewTime>, ayah: int)
    ensures
        row_for(rows, ayah) matches Some(p) ==> p.ayah == ayah && rows.contains(p),
        row_for(rows, ayah) is None ==> forall|i: int| 0 <= i < rows.len() ==> (#[trigger] rows[i]).ayah != ayah,
    decreases rows.len(),
{
    if rows.len() > 0 {
        let d = rows.drop_last();
        lemma_row_for(d, ayah);
        if rows.last().ayah == ayah {
            assert(rows[rows.len() - 1] == rows.last());
        } else {
            match row_for(d, ayah) {
                Some(p) => {
                    let i = choose|i: int| 0 <= i < d.len() && d[i] == p;
                    assert(rows[i] == p);
                },
                None => {
                    assert forall|i: int| 0 <= i < rows.len() implies (#[trigger] rows[i]).ayah != ayah by {
                        if i < d.len() {
                            assert(d[i] == rows[i]);
                        }
                    }
                },
            }
        }
    }
}

/// A verse with a new time gets it, or the time of the verse before it where it would
/// come before that. One without a new time keeps its own, which must not come before.
pub proof fn law_missing_verses_keep_their_time(st: Adjusting, x: OldTime, rows: Seq<NewTime>)
    ensures
        ({
            let after = verse_adjusted(st, x, rows);
            let is_new = exists|i: int| 0 <= i < rows.len() && (#[trigger] rows[i]).ayah == x.ayah;
            &&& is_new ==> {
                &&& after.rows.drop_last() == st.rows
                &&& after.rows.last().ayah == x.ayah
                &&& after.last == Some(after.rows.last().start_ms)
                &&& after.fits == st.fits
                &&& st.last matches Some(t) ==> t <= after.rows.last().start_ms
                &&& st.last != Some(after.rows.last().start_ms) ==> exists|i: int|
                    0 <= i < rows.len() && (#[trigger] rows[i]).ayah == x.ayah && rows[i].start_ms
                        == after.rows.last().start_ms
            }
            &&& !is_new ==> {
                &&& after.rows == st.rows
                &&& after.last == Some(x.start_ms)
                &&& after.fits <==> st.fits && (st.last matches Some(t) ==> t <= x.start_ms)
            }
        }),
{
    lemma_row_for(rows, x.ayah as int);
    let after = verse_adjusted(st, x, rows);
    match row_for(rows, x.ayah as int) {
        Some(p) => {
            let i = choose|i: int| 0 <= i < rows.len() && rows[i] == p;
            assert(rows[i].ayah == x.ayah);
            assert(after.rows.drop_last() =~= st.rows);
        },
        None => {},
    }
}

/// Sums add up, piece by piece.
pub proof fn law_sums_add_up(a: Seq<scalar::Thousandths>, b: Seq<scalar::Thousandths>)
    requires
        a.len() + b.len() <= 1_000_000,
        forall|i: int| 0 <= i < a.len() ==> 0 <= (#[trigger] a[i]).count <= 1_000_000_000_000,
        forall|i: int| 0 <= i < b.len() ==> 0 <= (#[trigger] b[i]).count <= 1_000_000_000_000,
    ensures
        sum_of(a + b, (a.len() + b.len()) as nat).count == sum_of(a, a.len()).count + sum_of(b, b.len()).count,
        a.len() == 1 ==> sum_of(a, 1) == a[0],
{
    lemma_sum_bounded(a, a.len());
    lemma_sum_bounded(b, b.len());
    lemma_sums(a, b, b.len());
    if a.len() == 1 {
        reveal_with_fuel(sum_of, 2);
    }
}

proof fn lemma_sum_bounded(a: Seq<scalar::Thousandths>, n: nat)
    requires
        n <= a.len() <= 1_000_000,
        forall|i: int| 0 <= i < a.len() ==> 0 <= (#[trigger] a[i]).count <= 1_000_000_000_000,
    ensures
        0 <= sum_of(a, n).count <= n * 1_000_000_000_000,
        n > 0 ==> sum_of(a, n).count == sum_of(a, (n - 1) as nat).count + a[n - 1].count,
    decreases n,
{
    if n > 0 {
        lemma_sum_bounded(a, (n - 1) as nat);
        assert(0 <= a[n - 1].count <= 1_000_000_000_000);
    }
}

proof fn lemma_sums(a: Seq<scalar::Thousandths>, b: Seq<scalar::Thousandths>, n: nat)
    requires
        n <= b.len(),
        a.len() + b.len() <= 1_000_000,
        forall|i: int| 0 <= i < a.len() ==> 0 <= (#[trigger] a[i]).count <= 1_000_000_000_000,
        forall|i: int| 0 <= i < b.len() ==> 0 <= (#[trigger] b[i]).count <= 1_000_000_000_000,
    ensures
        sum_of(a + b, (a.len() + n) as nat).count == sum_of(a, a.len()).count + sum_of(b, n).count,
    decreases n,
{
    let all = a + b;
    assert forall|i: int| 0 <= i < all.len() implies 0 <= (#[trigger] all[i]).count <= 1_000_000_000_000 by {
        if i < a.len() {
            assert(all[i] == a[i]);
        } else {
            assert(all[i] == b[i - a.len()]);
        }
    }
    if n > 0 {
        lemma_sums(a, b, (n - 1) as nat);
        lemma_sum_bounded(all, (a.len() + n) as nat);
        lemma_sum_bounded(b, n);
        assert(all[a.len() + n - 1] == b[n - 1]);
    } else {
        lemma_same_sum(all, a, a.len());
    }
}

proof fn lemma_same_sum(a: Seq<scalar::Thousandths>, b: Seq<scalar::Thousandths>, n: nat)
    requires
        n <= a.len(),
        n <= b.len(),
        forall|i: int| 0 <= i < n ==> a[i] == #[trigger] b[i],
    ensures
        sum_of(a, n) == sum_of(b, n),
    decreases n,
{
    if n > 0 {
        lemma_same_sum(a, b, (n - 1) as nat);
        assert(a[n - 1] == b[n - 1]);
    }
}

/// The mean is the sum shared out, rounded down.
pub proof fn law_mean_shares_the_sum(d: Seq<scalar::Thousandths>)
    requires
        0 < d.len() <= 1_000_000,
        forall|i: int| 0 <= i < d.len() ==> 0 <= (#[trigger] d[i]).count <= 1_000_000_000_000,
    ensures
        mean_of(d) matches Some(m) && m.count * d.len() <= sum_of(d, d.len()).count < (m.count + 1) * d.len(),
{
    lemma_sum_bounded(d, d.len());
    let n = d.len() as int;
    let sum = sum_of(d, d.len()).count as int;
    let m = (sum * 1000) / (n * 1000);
    vstd::arithmetic::div_mod::lemma_div_multiples_vanish_quotient(1000, sum, n);
    assert(sum * 1000 == 1000 * sum && n * 1000 == 1000 * n);
    assert(m == sum / n);
    vstd::arithmetic::div_mod::lemma_fundamental_div_mod(sum, n);
    assert(m * n <= sum < (m + 1) * n) by (nonlinear_arith)
        requires
            sum == n * (sum / n) + sum % n,
            0 <= sum % n < n,
            m == sum / n,
    ;
    assert(0 <= m <= sum) by (nonlinear_arith)
        requires
            m * n <= sum < (m + 1) * n,
            n >= 1,
            sum >= 0,
    ;
    assert(scalar::Thousandths::whole_spec(d.len()).count == n * 1000);
    assert(mean_of(d)->0.count == m);
}

/// Nine tenths of the others are no greater than the ninth decile, to the nearest place.
pub proof fn law_ninth_decile_lies_nine_tenths_up(d: Seq<scalar::Thousandths>)
    requires
        0 < d.len() <= 1_000_000,
    ensures
        ({
            let k = (9 * (d.len() - 1) + 5) / 10;
            &&& 0 <= k < d.len()
            &&& p90_of(d) == Some(transcripts::sorted_times(d)[k])
        }),
{
    let n = d.len() - 1;
    assert(900 * (n * 1000) / 1000 == 900 * n);
    assert(p90_place::<scalar::Thousandths>(d.len() as int) == (900 * n + 500) / 1000);
    assert((900 * n + 500) / 1000 == (9 * n + 5) / 10);
}

/// The median of an even number of values lies halfway between the middle two.
pub proof fn law_median_of_an_even_number<S: Scalar>(d: Seq<S>)
    requires
        d.len() > 0,
        d.len() % 2 == 0,
    ensures
        ({
            let s = transcripts::sorted_times(d);
            let upper = d.len() as int / 2;
            &&& upper == d.len() - upper
            &&& median_of(d) == Some(s[upper - 1].plus_spec(s[upper]).over_spec(S::whole_spec(2)))
        }),
{
}

/// A whole number is written so that it is read back.
pub proof fn law_written_numbers_are_read_back(i: i64)
    ensures
        transcripts::spelled_i64(signed_decimal(i as int)) == Some(i as int),
{
    if i < 0 {
        let n = (-(i as int)) as nat;
        let t = signed_decimal(i as int);
        chars::law_decimal_spells_the_number(n);
        lemma_decimal_digits(n);
        assert(t.skip(1) =~= chars::decimal(n));
    } else {
        chars::law_decimal_spells_the_number(i as nat);
        lemma_decimal_digits(i as nat);
    }
}

proof fn lemma_decimal_digits(n: nat)
    ensures
        chars::decimal(n).len() > 0,
        '0' <= chars::decimal(n)[0] <= '9',
    decreases n,
{
    if n >= 10 {
        lemma_decimal_digits(n / 10);
    }
}

/// Of a list of pairs only the first time changes.
pub proof fn law_only_the_first_time_changes(lists: Seq<Seq<i64>>, start_ms: i64)
    requires
        lists.len() > 0,
        lists[0].len() == 2,
    ensures
        with_first_ms(lists, start_ms).len() == lists.len(),
        with_first_ms(lists, start_ms)[0] == seq![lists[0][0], start_ms],
        forall|i: int| 1 <= i < lists.len() ==> #[trigger] with_first_ms(lists, start_ms)[i] == lists[i],
{
    assert(with_first_ms(lists, start_ms)[0] =~= seq![lists[0][0], start_ms]);
}

/// Why a chapter was left alone.
pub proof fn law_rejections_tell_the_reason<S: Scalar>(surah: i64, t: AlignmentReport<S>, e: AlignError)
    ensures
        rejection::<S>(surah, None) matches Some(r) && r.reason == Reason::NotConfined && !r.ok,
        rejection::<S>(surah, Some(Err(e))) matches Some(r) && r.reason == Reason::AlignmentError(e) && !r.ok,
        rejection(surah, Some(Ok(t))) is None <==> t.start.surah == surah && t.end.surah == surah && t.segments@.len() > 0,
        t.start.surah != surah || t.end.surah != surah ==> (rejection(surah, Some(Ok(t))) matches Some(r) && r.reason
            == Reason::NotConfined && !r.ok),
        t.start.surah == surah && t.end.surah == surah && t.segments@.len() == 0 ==> (rejection(
            surah,
            Some(Ok(t)),
        ) matches Some(r) && r.reason == Reason::MissingSegments && !r.ok),
{
}

/// The chapters to skip are read one by one; what is no number is passed over.
pub proof fn law_skipped_chapters_are_read(parts: Seq<Seq<char>>, i: i64, part: Seq<char>)
    ensures
        numbers_in(Seq::<Seq<char>>::empty()).len() == 0,
        chars::trimmed(part) == signed_decimal(i as int) ==> numbers_in(parts.push(part)) == numbers_in(parts).push(
            i as int,
        ),
        transcripts::spelled_i64(chars::trimmed(part)) is None ==> numbers_in(parts.push(part)) == numbers_in(parts),
{
    law_written_numbers_are_read_back(i);
    assert(parts.push(part).drop_last() =~= parts);
}

} // verus!
