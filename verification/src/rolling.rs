//! The words of the last seconds of a stream.

use vstd::prelude::*;

use crate::chars;
use crate::json::Json;
use crate::scalar;
use crate::scalar::Scalar;
use crate::sorting;
use crate::sorting::Keyed;
use crate::text;
use crate::timed;

verus! {

/// A word with its times.
pub struct TimedWord<S> {
    pub start_s: S,
    pub end_s: S,
    pub word: String,
}

/// What a [`TimedWord`] holds.
pub struct Spoken<S> {
    pub start_s: S,
    pub end_s: S,
    pub word: Seq<char>,
}

impl<S: Scalar> View for TimedWord<S> {
    type V = Spoken<S>;

    open spec fn view(&self) -> Spoken<S> {
        Spoken { start_s: self.start_s, end_s: self.end_s, word: self.word@ }
    }
}

/// What the words of a list hold.
pub open spec fn spoken<S: Scalar>(v: Seq<TimedWord<S>>) -> Seq<Spoken<S>> {
    v.map_values(|w: TimedWord<S>| w@)
}

pub fn copy_word<S: Scalar>(w: &TimedWord<S>) -> (r: TimedWord<S>)
    ensures
        r@ == w@,
{
    TimedWord { start_s: w.start_s, end_s: w.end_s, word: w.word.clone() }
}

// ---------------------------------------------------------------------------
// Times of a slice in the time of the stream

/// The number behind the first of `entries` with the name `key`, `offset` later;
/// everything else as it is.
pub open spec fn shifted_entry<S: Scalar>(
    entries: Seq<(String, Json<S>)>,
    key: Seq<char>,
    offset: S,
) -> Seq<(String, Json<S>)>
    decreases entries.len(),
{
    if entries.len() == 0 {
        entries
    } else if entries[0].0@ == key {
        match entries[0].1.real_spec() {
            None => entries,
            Some(x) => entries.update(
                0,
                (
                    entries[0].0,
                    Json::Number { unsigned: None, signed: None, value: x.plus_spec(offset) },
                ),
            ),
        }
    } else {
        seq![entries[0]] + shifted_entry(entries.skip(1), key, offset)
    }
}

/// Start and end among `entries`, `offset` later.
pub open spec fn shifted_entries<S: Scalar>(entries: Seq<(String, Json<S>)>, offset: S) -> Seq<(String, Json<S>)> {
    shifted_entry(shifted_entry(entries, "start_s"@, offset), "end_s"@, offset)
}

/// `r` is a word of a word list, `offset` later.
pub open spec fn is_shifted_word<S: Scalar>(w: Json<S>, offset: S, r: Json<S>) -> bool {
    match w {
        Json::Object(entries) => r matches Json::Object(e) && e@ == shifted_entries(entries@, offset),
        _ => r == w,
    }
}

pub open spec fn is_shifted_list<S: Scalar>(words: Seq<Json<S>>, offset: S, r: Seq<Json<S>>) -> bool {
    &&& r.len() == words.len()
    &&& forall|i: int| 0 <= i < words.len() ==> is_shifted_word(words[i], offset, #[trigger] r[i])
}

/// Where the first of `entries` with the name `key` stands.
pub open spec fn entry_index<S>(entries: Seq<(String, Json<S>)>, key: Seq<char>) -> Option<nat>
    decreases entries.len(),
{
    if entries.len() == 0 {
        None
    } else if entries[0].0@ == key {
        Some(0)
    } else {
        match entry_index(entries.skip(1), key) {
            None => None,
            Some(k) => Some(k + 1),
        }
    }
}

/// `r` is a segment, `offset` later, with its words.
pub open spec fn is_shifted_segment<S: Scalar>(seg: Json<S>, offset: S, r: Json<S>) -> bool {
    match seg {
        Json::Object(entries) => {
            let own = shifted_entries(entries@, offset);
            &&& r matches Json::Object(e)
            &&& e@.len() == own.len()
            &&& match entry_index(own, "words"@) {
                None => e@ == own,
                Some(k) => {
                    &&& forall|i: int| 0 <= i < own.len() && i != k ==> #[trigger] e@[i] == own[i]
                    &&& e@[k as int].0 == own[k as int].0
                    &&& match own[k as int].1 {
                        Json::List(words) => e@[k as int].1 matches Json::List(w) && is_shifted_list(
                            words@,
                            offset,
                            w@,
                        ),
                        x => e@[k as int].1 == x,
                    }
                },
            }
        },
        _ => r == seg,
    }
}

fn find_entry<S: Scalar>(entries: &Vec<(String, Json<S>)>, key: &str) -> (r: Option<usize>)
    ensures
        r is Some <==> entry_index(entries@, key@) is Some,
        r matches Some(k) ==> entry_index(entries@, key@) == Some(k as nat) && k < entries@.len(),
{
    let mut i: usize = 0;
    assert(entries@.skip(0) =~= entries@);
    while i < entries.len()
        invariant
            i <= entries@.len(),
            entry_index(entries@, key@) == (match entry_index(entries@.skip(i as int), key@) {
                None => None,
                Some(k) => Some((k + i) as nat),
            }),
        decreases entries@.len() - i,
    {
        assert(entries@.skip(i as int)[0] == entries@[i as int]);
        if chars::same_text(entries[i].0.as_str(), key) {
            return Some(i);
        }
        assert(entries@.skip(i as int).skip(1) =~= entries@.skip(i as int + 1));
        i = i + 1;
    }
    None
}

proof fn lemma_shifted_entry<S: Scalar>(entries: Seq<(String, Json<S>)>, key: Seq<char>, offset: S)
    ensures
        shifted_entry(entries, key, offset) == (match entry_index(entries, key) {
            None => entries,
            Some(k) => match entries[k as int].1.real_spec() {
                None => entries,
                Some(x) => entries.update(
                    k as int,
                    (
                        entries[k as int].0,
                        Json::Number { unsigned: None, signed: None, value: x.plus_spec(offset) },
                    ),
                ),
            },
        }),
        entry_index(entries, key) matches Some(k) ==> k < entries.len(),
    decreases entries.len(),
{
    if entries.len() > 0 && entries[0].0@ != key {
        let t = entries.skip(1);
        lemma_shifted_entry(t, key, offset);
        assert(seq![entries[0]] + t =~= entries);
        if let Some(k) = entry_index(t, key) {
            assert(t[k as int] == entries[k as int + 1]);
            if let Some(x) = t[k as int].1.real_spec() {
                let v = (
                    t[k as int].0,
                    Json::Number { unsigned: None, signed: None, value: x.plus_spec(offset) },
                );
                assert(seq![entries[0]] + t.update(k as int, v) =~= entries.update(k as int + 1, v));
            }
        }
    }
}

fn shift_entry<S: Scalar>(entries: &mut Vec<(String, Json<S>)>, key: &str, offset: S)
    ensures
        final(entries)@ == shifted_entry(old(entries)@, key@, offset),
{
    proof {
        lemma_shifted_entry(entries@, key@, offset);
    }
    match find_entry(entries, key) {
        None => {},
        Some(k) => {
            match entries[k].1.as_f64() {
                None => {},
                Some(x) => {
                    let name = entries[k].0.clone();
                    entries.set(
                        k,
                        (name, Json::Number { unsigned: None, signed: None, value: x.plus(offset) }),
                    );
                },
            }
        },
    }
}

fn shift_word<S: Scalar>(w: Json<S>, offset: S) -> (r: Json<S>)
    ensures
        is_shifted_word(w, offset, r),
{
    match w {
        Json::Object(entries) => {
            let mut e = entries;
            shift_entry(&mut e, "start_s", offset);
            shift_entry(&mut e, "end_s", offset);
            Json::Object(e)
        },
        x => x,
    }
}

fn turn_round<S: Scalar>(list: Vec<Json<S>>) -> (r: Vec<Json<S>>)
    ensures
        r@ == list@.reverse(),
{
    let mut list = list;
    let ghost all = list@;
    let mut out: Vec<Json<S>> = Vec::new();
    while list.len() > 0
        invariant
            list@.len() + out@.len() == all.len(),
            list@ == all.take(list@.len() as int),
            out@ == all.reverse().take(out@.len() as int),
        decreases list@.len(),
    {
        match list.pop() {
            Some(x) => {
                out.push(x);
            },
            None => {},
        }
        assert(list@ =~= all.take(list@.len() as int));
        assert(out@ =~= all.reverse().take(out@.len() as int));
    }
    assert(out@ =~= all.reverse());
    out
}

fn shift_words<S: Scalar>(words: Vec<Json<S>>, offset: S) -> (r: Vec<Json<S>>)
    ensures
        is_shifted_list(words@, offset, r@),
{
    let ghost all = words@;
    let mut rest = turn_round(words);
    let mut out: Vec<Json<S>> = Vec::new();
    while rest.len() > 0
        invariant
            rest@.len() + out@.len() == all.len(),
            rest@ == all.reverse().take(rest@.len() as int),
            forall|i: int| 0 <= i < out@.len() ==> is_shifted_word(all[i], offset, #[trigger] out@[i]),
        decreases rest@.len(),
    {
        match rest.pop() {
            Some(x) => {
                assert(x == all[out@.len() as int]);
                out.push(shift_word(x, offset));
            },
            None => {},
        }
        assert(rest@ =~= all.reverse().take(rest@.len() as int));
    }
    out
}

fn shift_segment<S: Scalar>(seg: Json<S>, offset: S) -> (r: Json<S>)
    ensures
        is_shifted_segment(seg, offset, r),
{
    match seg {
        Json::Object(entries) => {
            let mut e = entries;
            shift_entry(&mut e, "start_s", offset);
            shift_entry(&mut e, "end_s", offset);
            let ghost own = shifted_entries(entries@, offset);
            match find_entry(&e, "words") {
                None => Json::Object(e),
                Some(k) => {
                    let name = e[k].0.clone();
                    let old_entry = take_entry(&mut e, k, (name, Json::Null));
                    let shifted = match old_entry.1 {
                        Json::List(words) => Json::List(shift_words(words, offset)),
                        x => x,
                    };
                    e.set(k, (old_entry.0, shifted));
                    Json::Object(e)
                },
            }
        },
        x => x,
    }
}

/// Puts `put` in the place of entry `k` and hands that entry out.
fn take_entry<S: Scalar>(e: &mut Vec<(String, Json<S>)>, k: usize, put: (String, Json<S>)) -> (r: (String, Json<S>))
    requires
        k < old(e)@.len(),
    ensures
        r == old(e)@[k as int],
        final(e)@ == old(e)@.update(k as int, put),
{
    let ghost before = e@;
    e.push(put);
    let r = e.swap_remove(k);
    assert(e@ =~= before.update(k as int, put));
    r
}

pub open spec fn are_shifted_segments<S: Scalar>(segs: Seq<Json<S>>, offset: S, r: Seq<Json<S>>) -> bool {
    &&& r.len() == segs.len()
    &&& forall|i: int| 0 <= i < segs.len() ==> is_shifted_segment(segs[i], offset, #[trigger] r[i])
}

/// `r` is a transcription, `offset` later. An offset of zero changes nothing.
pub open spec fn is_shifted_transcription<S: Scalar>(t: Json<S>, offset: S, r: Json<S>) -> bool {
    if offset.rank() == S::whole_spec(0).rank() {
        r == t
    } else {
        match t {
            Json::Object(entries) => match entry_index(entries@, "segments"@) {
                None => r == t,
                Some(k) => match entries@[k as int].1 {
                    Json::List(segs) => {
                        &&& r matches Json::Object(e)
                        &&& e@.len() == entries@.len()
                        &&& forall|i: int| 0 <= i < entries@.len() && i != k ==> #[trigger] e@[i] == entries@[i]
                        &&& e@[k as int].0 == entries@[k as int].0
                        &&& e@[k as int].1 matches Json::List(w) && are_shifted_segments(segs@, offset, w@)
                    },
                    _ => r == t,
                },
            },
            _ => r == t,
        }
    }
}

fn shift_segments<S: Scalar>(segs: Vec<Json<S>>, offset: S) -> (r: Vec<Json<S>>)
    ensures
        are_shifted_segments(segs@, offset, r@),
{
    let ghost all = segs@;
    let mut rest = turn_round(segs);
    let mut out: Vec<Json<S>> = Vec::new();
    while rest.len() > 0
        invariant
            rest@.len() + out@.len() == all.len(),
            rest@ == all.reverse().take(rest@.len() as int),
            forall|i: int| 0 <= i < out@.len() ==> is_shifted_segment(all[i], offset, #[trigger] out@[i]),
        decreases rest@.len(),
    {
        match rest.pop() {
            Some(x) => {
                assert(x == all[out@.len() as int]);
                out.push(shift_segment(x, offset));
            },
            None => {},
        }
        assert(rest@ =~= all.reverse().take(rest@.len() as int));
    }
    out
}

/// Moves the times of a transcription by `offset_s`.
pub fn offset_transcription_times<S: Scalar>(transcription: Json<S>, offset_s: S) -> (r: Json<S>)
    ensures
        is_shifted_transcription(transcription, offset_s, r),
{
    if !offset_s.below(S::whole(0)) && !S::whole(0).below(offset_s) {
        return transcription;
    }
    match transcription {
        Json::Object(entries) => {
            let mut e = entries;
            match find_entry(&e, "segments") {
                None => Json::Object(e),
                Some(k) => {
                    proof {
                        lemma_shifted_entry(entries@, "segments"@, offset_s);
                    }
                    if e[k].1.as_array().is_none() {
                        return Json::Object(e);
                    }
                    let name = e[k].0.clone();
                    let entry = take_entry(&mut e, k, (name, Json::Null));
                    match entry.1 {
                        Json::List(segs) => {
                            e.set(k, (entry.0, Json::List(shift_segments(segs, offset_s))));
                        },
                        _ => {},
                    }
                    Json::Object(e)
                },
            }
        },
        x => x,
    }
}

// ---------------------------------------------------------------------------
// Words with both times

/// The word that an entry of a word list describes, if it has a text and both
/// times.
pub open spec fn word_spoken<S: Scalar>(w: Json<S>) -> Option<Spoken<S>> {
    let t = chars::trimmed(Json::text_or_empty(w.field("word"@)));
    match (w.field("start_s"@), w.field("end_s"@)) {
        (Some(s), Some(e)) => match (s.real_spec(), e.real_spec()) {
            (Some(start_s), Some(end_s)) => if t.len() == 0 {
                None
            } else {
                Some(Spoken { start_s, end_s, word: t })
            },
            _ => None,
        },
        _ => None,
    }
}

/// The words of a word list.
pub open spec fn words_spoken<S: Scalar>(words: Seq<Json<S>>) -> Seq<Spoken<S>>
    decreases words.len(),
{
    if words.len() == 0 {
        Seq::empty()
    } else {
        let before = words_spoken(words.drop_last());
        match word_spoken(words.last()) {
            None => before,
            Some(w) => before.push(w),
        }
    }
}

/// The words of the first `k` segments.
pub open spec fn segments_spoken<S: Scalar>(segs: Seq<Json<S>>, k: nat) -> Seq<Spoken<S>>
    decreases k,
{
    if k == 0 {
        Seq::empty()
    } else {
        segments_spoken(segs, (k - 1) as nat) + (match segs[k - 1].field("words"@) {
            Some(Json::List(items)) => words_spoken(items@),
            _ => Seq::empty(),
        })
    }
}

/// The place of a word in time.
pub struct WordKey<S> {
    pub start: S,
    pub index: usize,
}

impl<S: Copy> Clone for WordKey<S> {
    fn clone(&self) -> (r: Self)
        ensures
            r == *self,
    {
        *self
    }
}

impl<S: Copy> Copy for WordKey<S> {

}

impl<S: Scalar> Keyed for WordKey<S> {
    open spec fn key(self) -> (int, int) {
        (self.start.rank(), 0)
    }

    fn before(&self, other: &Self) -> (r: bool) {
        self.start.below(other.start)
    }
}

pub open spec fn word_keys<S: Scalar>(s: Seq<Spoken<S>>) -> Seq<WordKey<S>> {
    Seq::new(s.len(), |i: int| WordKey { start: s[i].start_s, index: i as usize })
}

/// The words in the order in which they start.
pub open spec fn in_time<S: Scalar>(s: Seq<Spoken<S>>) -> Seq<Spoken<S>> {
    sorting::sorted(word_keys(s)).map_values(|k: WordKey<S>| s[k.index as int])
}

proof fn lemma_key_indexes<S: Scalar>(s: Seq<Spoken<S>>)
    requires
        s.len() <= usize::MAX,
    ensures
        sorting::sorted(word_keys(s)).len() == s.len(),
        forall|k: int|
            0 <= k < s.len() ==> (#[trigger] sorting::sorted(word_keys(s))[k]).index < s.len() && s[sorting::sorted(
                word_keys(s),
            )[k].index as int].start_s == sorting::sorted(word_keys(s))[k].start,
{
    broadcast use vstd::seq_lib::group_to_multiset_ensures;

    let d = word_keys(s);
    let t = sorting::sorted(d);
    sorting::lemma_sorted_len(d);
    assert forall|k: int| 0 <= k < s.len() implies (#[trigger] t[k]).index < s.len() && s[t[k].index as int].start_s
        == t[k].start by {
        assert(t.contains(t[k]));
        assert(t.to_multiset().count(t[k]) > 0);
        assert(d.to_multiset().count(t[k]) > 0);
        assert(d.contains(t[k]));
        let j = choose|j: int| 0 <= j < d.len() && d[j] == t[k];
        assert(d[j].index == j);
    }
}

/// Words in time start one after the other.
pub proof fn law_words_in_time<S: Scalar>(s: Seq<Spoken<S>>)
    requires
        s.len() <= usize::MAX,
    ensures
        in_time(s).len() == s.len(),
        forall|i: int, j: int|
            0 <= i < j < s.len() ==> (#[trigger] in_time(s)[i]).start_s.rank() <= (#[trigger] in_time(
                s,
            )[j]).start_s.rank(),
{
    let t = sorting::sorted(word_keys(s));
    lemma_key_indexes(s);
    sorting::law_sorted_is_in_order(word_keys(s));
    assert forall|i: int, j: int| 0 <= i < j < s.len() implies (#[trigger] in_time(s)[i]).start_s.rank() <= (
    #[trigger] in_time(s)[j]).start_s.rank() by {
        assert(!sorting::key_before(t[j].key(), t[i].key()));
        assert(in_time(s)[i] == s[t[i].index as int]);
        assert(in_time(s)[j] == s[t[j].index as int]);
    }
}

/// Sorts words by their starts.
pub fn sort_words<S: Scalar>(words: &[TimedWord<S>]) -> (r: Vec<TimedWord<S>>)
    ensures
        spoken(r@) == in_time(spoken(words@)),
{
    let ghost all = spoken(words@);
    let mut keys: Vec<WordKey<S>> = Vec::new();
    let mut i: usize = 0;
    while i < words.len()
        invariant
            i <= words@.len(),
            all == spoken(words@),
            keys@ == word_keys(all).take(i as int),
        decreases words@.len() - i,
    {
        keys.push(WordKey { start: words[i].start_s, index: i });
        assert(keys@ =~= word_keys(all).take(i as int + 1));
        i = i + 1;
    }
    assert(keys@ =~= word_keys(all));
    let order = sorting::sort(&keys);
    proof {
        lemma_key_indexes(all);
    }
    let mut out: Vec<TimedWord<S>> = Vec::new();
    let mut k: usize = 0;
    assert(spoken(out@) =~= in_time(all).take(0));
    while k < order.len()
        invariant
            k <= order@.len(),
            all == spoken(words@),
            order@ == sorting::sorted(word_keys(all)),
            forall|j: int| 0 <= j < order@.len() ==> (#[trigger] order@[j]).index < words@.len(),
            spoken(out@) == in_time(all).take(k as int),
        decreases order@.len() - k,
    {
        assert(order@[k as int].index < words@.len());
        let w = copy_word(&words[order[k].index]);
        let ghost before = spoken(out@);
        out.push(w);
        proof {
            assert(w@ == in_time(all)[k as int]);
            assert(spoken(out@) =~= before.push(w@));
            assert(in_time(all).take(k as int + 1) =~= in_time(all).take(k as int).push(w@));
        }
        k = k + 1;
    }
    assert(spoken(out@) =~= in_time(all));
    out
}

fn read_spoken<S: Scalar>(w: &Json<S>) -> (r: Option<TimedWord<S>>)
    ensures
        r is Some <==> word_spoken(*w) is Some,
        r matches Some(t) ==> word_spoken(*w) == Some(t@),
{
    let word = chars::trim(w.text_field("word"));
    match (w.get("start_s"), w.get("end_s")) {
        (Some(s), Some(e)) => match (s.as_f64(), e.as_f64()) {
            (Some(start_s), Some(end_s)) => if text::is_blank(word.as_str()) {
                None
            } else {
                Some(TimedWord { start_s, end_s, word })
            },
            _ => None,
        },
        _ => None,
    }
}

/// The words of a transcription that have both times, in the order in which they
/// start.
pub fn extract_timed_words<S: Scalar>(transcription: &Json<S>) -> (r: Vec<TimedWord<S>>)
    ensures
        spoken(r@) == in_time(
            segments_spoken(timed::segments_in(*transcription), timed::segments_in(*transcription).len()),
        ),
{
    let mut out: Vec<TimedWord<S>> = Vec::new();
    match transcription.get("segments") {
        Some(Json::List(segs)) => {
            let mut i: usize = 0;
            assert(spoken(out@) =~= segments_spoken(segs@, 0));
            while i < segs.len()
                invariant
                    i <= segs@.len(),
                    spoken(out@) == segments_spoken(segs@, i as nat),
                decreases segs@.len() - i,
            {
                let ghost before = spoken(out@);
                match segs[i].get("words") {
                    Some(Json::List(items)) => {
                        let mut k: usize = 0;
                        assert(before + words_spoken(items@.take(0)) =~= before);
                        while k < items.len()
                            invariant
                                k <= items@.len(),
                                spoken(out@) == before + words_spoken(items@.take(k as int)),
                            decreases items@.len() - k,
                        {
                            assert(items@.take(k as int + 1).drop_last() =~= items@.take(k as int));
                            let ghost so_far = spoken(out@);
                            match read_spoken(&items[k]) {
                                None => {},
                                Some(w) => {
                                    out.push(w);
                                    assert(spoken(out@) =~= so_far.push(w@));
                                    assert(so_far.push(w@) =~= before + words_spoken(items@.take(k as int)).push(w@));
                                },
                            }
                            k = k + 1;
                        }
                        assert(items@.take(items@.len() as int) =~= items@);
                    },
                    _ => {
                        assert(before + Seq::<Spoken<S>>::empty() =~= before);
                    },
                }
                i = i + 1;
            }
        },
        _ => {
            assert(spoken(out@) =~= segments_spoken(timed::segments_in(*transcription), 0));
        },
    }
    sort_words(&out)
}

// ---------------------------------------------------------------------------
// The rolling window

/// The words that end at `keep_start` or later and do not touch the time from
/// `from` to `to`.
pub open spec fn outside<S: Scalar>(words: Seq<Spoken<S>>, keep_start: S, from: S, to: S) -> Seq<Spoken<S>>
    decreases words.len(),
{
    if words.len() == 0 {
        Seq::empty()
    } else {
        let before = outside(words.drop_last(), keep_start, from, to);
        let w = words.last();
        if w.end_s.rank() < keep_start.rank() || (from.rank() <= w.end_s.rank() && w.start_s.rank() <= to.rank()) {
            before
        } else {
            before.push(w)
        }
    }
}

/// The same word, starting less than 0.03 apart.
pub open spec fn repeats<S: Scalar>(w: Spoken<S>, last: Spoken<S>) -> bool {
    let d = w.start_s.minus_spec(last.start_s);
    let size = if d.rank() < S::whole_spec(0).rank() {
        S::whole_spec(0).minus_spec(d)
    } else {
        d
    };
    size.rank() < S::milli_spec(30).rank() && w.word == last.word
}

/// Words that repeat the word in front of them are merged into it.
pub open spec fn merged_repeats<S: Scalar>(words: Seq<Spoken<S>>) -> Seq<Spoken<S>>
    decreases words.len(),
{
    if words.len() == 0 {
        Seq::empty()
    } else {
        let d = merged_repeats(words.drop_last());
        let w = words.last();
        if d.len() > 0 && repeats(w, d.last()) {
            d.drop_last().push(Spoken { end_s: scalar::max_spec(d.last().end_s, w.end_s), ..d.last() })
        } else {
            d.push(w)
        }
    }
}

/// No two neighbours are left that repeat each other.
pub proof fn law_repeats_are_merged<S: Scalar>(words: Seq<Spoken<S>>)
    ensures
        merged_repeats(words).len() <= words.len(),
        forall|k: int|
            0 < k < merged_repeats(words).len() ==> !repeats(
                #[trigger] merged_repeats(words)[k],
                merged_repeats(words)[k - 1],
            ),
    decreases words.len(),
{
    if words.len() > 0 {
        law_repeats_are_merged(words.drop_last());
        let d = merged_repeats(words.drop_last());
        let m = merged_repeats(words);
        assert forall|k: int| 0 < k < m.len() implies !repeats(#[trigger] m[k], m[k - 1]) by {
            if k < d.len() {
                assert(!repeats(d[k], d[k - 1]));
            }
        }
    }
}

/// The window after new words for the time from `replace_start` to
/// `replace_end` replaced what was known of that time.
pub open spec fn rolled<S: Scalar>(
    rolling: Seq<Spoken<S>>,
    new_words: Seq<Spoken<S>>,
    replace_start: S,
    replace_end: S,
    keep_start: S,
) -> Seq<Spoken<S>> {
    let from = scalar::max_spec(replace_start.minus_spec(S::milli_spec(250)), S::whole_spec(0));
    let to = replace_end.plus_spec(S::milli_spec(250));
    merged_repeats(in_time(outside(rolling, keep_start, from, to) + new_words))
}

fn is_repeat<S: Scalar>(w: &TimedWord<S>, last: &TimedWord<S>) -> (r: bool)
    ensures
        r == repeats(w@, last@),
{
    let d: S = w.start_s.minus(last.start_s);
    let size: S = if d.below(S::whole(0)) {
        S::whole(0).minus(d)
    } else {
        d
    };
    size.below(S::milli(30)) && w.word == last.word
}

fn merge_repeats<S: Scalar>(words: &[TimedWord<S>]) -> (r: Vec<TimedWord<S>>)
    ensures
        spoken(r@) == merged_repeats(spoken(words@)),
{
    let ghost all = spoken(words@);
    let mut out: Vec<TimedWord<S>> = Vec::new();
    let mut i: usize = 0;
    assert(spoken(out@) =~= merged_repeats(all.take(0)));
    while i < words.len()
        invariant
            i <= words@.len(),
            all == spoken(words@),
            spoken(out@) == merged_repeats(all.take(i as int)),
        decreases words@.len() - i,
    {
        proof {
            assert(all.take(i as int + 1).drop_last() =~= all.take(i as int));
            assert(all.take(i as int + 1).last() == words@[i as int]@);
            assert(spoken(out@).len() == out@.len());
        }
        let ghost before = spoken(out@);
        let n: usize = out.len();
        if n > 0 && is_repeat(&words[i], &out[n - 1]) {
            assert(before.last() == out@[n - 1]@);
            let merged = TimedWord {
                start_s: out[n - 1].start_s,
                end_s: scalar::max_of(out[n - 1].end_s, words[i].end_s),
                word: out[n - 1].word.clone(),
            };
            out.set(n - 1, merged);
            assert(spoken(out@) =~= before.drop_last().push(merged@));
        } else {
            proof {
                if n > 0 {
                    assert(before.last() == out@[n - 1]@);
                }
            }
            let w = copy_word(&words[i]);
            out.push(w);
            assert(spoken(out@) =~= before.push(w@));
        }
        i = i + 1;
    }
    assert(all.take(i as int) =~= all);
    out
}

fn keep_outside<S: Scalar>(words: &[TimedWord<S>], keep_start: S, from: S, to: S) -> (r: Vec<TimedWord<S>>)
    ensures
        spoken(r@) == outside(spoken(words@), keep_start, from, to),
{
    let ghost all = spoken(words@);
    let mut out: Vec<TimedWord<S>> = Vec::new();
    let mut i: usize = 0;
    assert(spoken(out@) =~= outside(all.take(0), keep_start, from, to));
    while i < words.len()
        invariant
            i <= words@.len(),
            all == spoken(words@),
            spoken(out@) == outside(all.take(i as int), keep_start, from, to),
        decreases words@.len() - i,
    {
        proof {
            assert(all.take(i as int + 1).drop_last() =~= all.take(i as int));
            assert(all.take(i as int + 1).last() == words@[i as int]@);
        }
        let w = &words[i];
        if !w.end_s.below(keep_start) && (w.end_s.below(from) || to.below(w.start_s)) {
            let ghost before = spoken(out@);
            let c = copy_word(w);
            out.push(c);
            assert(spoken(out@) =~= before.push(c@));
        }
        i = i + 1;
    }
    assert(all.take(i as int) =~= all);
    out
}

/// Puts new words into the window.
pub fn ingest_words_into_rolling<S: Scalar>(
    rolling: &mut Vec<TimedWord<S>>,
    new_words: Vec<TimedWord<S>>,
    replace_start_s: S,
    replace_end_s: S,
    keep_start_s: S,
)
    ensures
        spoken(final(rolling)@) == rolled(
            spoken(old(rolling)@),
            spoken(new_words@),
            replace_start_s,
            replace_end_s,
            keep_start_s,
        ),
{
    let from: S = scalar::max_of(replace_start_s.minus(S::milli(250)), S::whole(0));
    let to: S = replace_end_s.plus(S::milli(250));
    let mut kept = keep_outside(rolling, keep_start_s, from, to);
    let mut more = new_words;
    let ghost a = kept@;
    let ghost b = more@;
    kept.append(&mut more);
    assert(spoken(kept@) =~= spoken(a) + spoken(b));
    let sorted = sort_words(&kept);
    let merged = merge_repeats(&sorted);
    *rolling = merged;
}

/// The words that end at `keep_start` or later.
pub open spec fn recent<S: Scalar>(words: Seq<Spoken<S>>, keep_start: S) -> Seq<Spoken<S>>
    decreases words.len(),
{
    if words.len() == 0 {
        Seq::empty()
    } else {
        let before = recent(words.drop_last(), keep_start);
        if words.last().end_s.rank() < keep_start.rank() {
            before
        } else {
            before.push(words.last())
        }
    }
}

/// Forgets the words that end before `keep_start`.
pub fn prune_words<S: Scalar>(words: &[TimedWord<S>], keep_start: S) -> (r: Vec<TimedWord<S>>)
    ensures
        spoken(r@) == recent(spoken(words@), keep_start),
{
    let ghost all = spoken(words@);
    let mut out: Vec<TimedWord<S>> = Vec::new();
    let mut i: usize = 0;
    assert(spoken(out@) =~= recent(all.take(0), keep_start));
    while i < words.len()
        invariant
            i <= words@.len(),
            all == spoken(words@),
            spoken(out@) == recent(all.take(i as int), keep_start),
        decreases words@.len() - i,
    {
        proof {
            assert(all.take(i as int + 1).drop_last() =~= all.take(i as int));
            assert(all.take(i as int + 1).last() == words@[i as int]@);
        }
        if !words[i].end_s.below(keep_start) {
            let ghost before = spoken(out@);
            let c = copy_word(&words[i]);
            out.push(c);
            assert(spoken(out@) =~= before.push(c@));
        }
        i = i + 1;
    }
    assert(all.take(i as int) =~= all);
    out
}

/// The words that touch the time from `from` to `to`.
pub open spec fn words_within<S: Scalar>(words: Seq<Spoken<S>>, from: S, to: S) -> Seq<Spoken<S>>
    decreases words.len(),
{
    if words.len() == 0 {
        Seq::empty()
    } else {
        let before = words_within(words.drop_last(), from, to);
        let w = words.last();
        if from.rank() <= w.end_s.rank() && w.start_s.rank() <= to.rank() {
            before.push(w)
        } else {
            before
        }
    }
}

pub fn select_words<S: Scalar>(words: &[TimedWord<S>], from: S, to: S) -> (r: Vec<TimedWord<S>>)
    ensures
        spoken(r@) == words_within(spoken(words@), from, to),
{
    let ghost all = spoken(words@);
    let mut out: Vec<TimedWord<S>> = Vec::new();
    let mut i: usize = 0;
    assert(spoken(out@) =~= words_within(all.take(0), from, to));
    while i < words.len()
        invariant
            i <= words@.len(),
            all == spoken(words@),
            spoken(out@) == words_within(all.take(i as int), from, to),
        decreases words@.len() - i,
    {
        proof {
            assert(all.take(i as int + 1).drop_last() =~= all.take(i as int));
            assert(all.take(i as int + 1).last() == words@[i as int]@);
        }
        if !words[i].end_s.below(from) && !to.below(words[i].start_s) {
            let ghost before = spoken(out@);
            let c = copy_word(&words[i]);
            out.push(c);
            assert(spoken(out@) =~= before.push(c@));
        }
        i = i + 1;
    }
    assert(all.take(i as int) =~= all);
    out
}

// ---------------------------------------------------------------------------
// Laws

/// Of the words so far those stay that end no earlier than the window begins and do not
/// touch the stretch that was heard anew.
pub proof fn law_words_outside_stay<S: Scalar>(words: Seq<Spoken<S>>, keep_start: S, from: S, to: S)
    ensures
        outside(words, keep_start, from, to) == words.filter(
            |w: Spoken<S>|
                keep_start.rank() <= w.end_s.rank() && (w.end_s.rank() < from.rank() || to.rank() < w.start_s.rank()),
        ),
    decreases words.len(),
{
    reveal(Seq::filter);
    if words.len() > 0 {
        law_words_outside_stay(words.drop_last(), keep_start, from, to);
    }
}

/// Words that end before the window begins are forgotten, and no others.
pub proof fn law_recent_words_stay<S: Scalar>(words: Seq<Spoken<S>>, keep_start: S)
    ensures
        recent(words, keep_start) == words.filter(|w: Spoken<S>| keep_start.rank() <= w.end_s.rank()),
    decreases words.len(),
{
    reveal(Seq::filter);
    if words.len() > 0 {
        law_recent_words_stay(words.drop_last(), keep_start);
    }
}

/// The words within a stretch are those that touch it.
pub proof fn law_words_within_touch_the_stretch<S: Scalar>(words: Seq<Spoken<S>>, from: S, to: S)
    ensures
        words_within(words, from, to) == words.filter(
            |w: Spoken<S>| from.rank() <= w.end_s.rank() && w.start_s.rank() <= to.rank(),
        ),
    decreases words.len(),
{
    reveal(Seq::filter);
    if words.len() > 0 {
        law_words_within_touch_the_stretch(words.drop_last(), from, to);
    }
}

/// Putting words in the order of time neither drops nor adds any.
pub proof fn law_ordering_keeps_words<S: Scalar>(s: Seq<Spoken<S>>)
    requires
        s.len() <= usize::MAX,
    ensures
        in_time(s).to_multiset() == s.to_multiset(),
{
    let keys = word_keys(s);
    let f = |k: WordKey<S>| s[k.index as int];
    sorting::law_sorting_keeps_values(keys, f);
    assert(keys.map_values(f) =~= s);
    assert(in_time(s) =~= sorting::sorted(keys).map_values(f));
}

/// What was heard anew, and a quarter of a second around it, is replaced by the new
/// words; the rest stays, all in the order of time and with repeats merged.
pub proof fn law_new_words_replace_old_ones<S: Scalar>(
    rolling: Seq<Spoken<S>>,
    new_words: Seq<Spoken<S>>,
    start: S,
    end: S,
    keep_start: S,
)
    requires
        rolling.len() + new_words.len() <= usize::MAX,
        S::whole_spec(0).rank() <= start.minus_spec(S::milli_spec(250)).rank(),
    ensures
        ({
            let kept = rolling.filter(
                |w: Spoken<S>|
                    keep_start.rank() <= w.end_s.rank() && (w.end_s.rank() < start.minus_spec(S::milli_spec(250)).rank()
                        || end.plus_spec(S::milli_spec(250)).rank() < w.start_s.rank()),
            );
            exists|all: Seq<Spoken<S>>|
                {
                    &&& all.to_multiset() == (kept + new_words).to_multiset()
                    &&& forall|i: int, j: int|
                        0 <= i < j < all.len() ==> (#[trigger] all[i]).start_s.rank() <= (#[trigger] all[j]).start_s.rank()
                    &&& rolled(rolling, new_words, start, end, keep_start) == #[trigger] merged_repeats(all)
                }
        }),
{
    let from = start.minus_spec(S::milli_spec(250));
    let to = end.plus_spec(S::milli_spec(250));
    law_words_outside_stay(rolling, keep_start, from, to);
    let o = outside(rolling, keep_start, from, to);
    lemma_outside_len(rolling, keep_start, from, to);
    let f = |w: Spoken<S>|
        keep_start.rank() <= w.end_s.rank() && (w.end_s.rank() < start.minus_spec(S::milli_spec(250)).rank()
            || end.plus_spec(S::milli_spec(250)).rank() < w.start_s.rank());
    let g = |w: Spoken<S>|
        keep_start.rank() <= w.end_s.rank() && (w.end_s.rank() < from.rank() || to.rank() < w.start_s.rank());
    assert(f =~= g);
    law_words_in_time(o + new_words);
    law_ordering_keeps_words(o + new_words);
    let all = in_time(o + new_words);
    assert(rolled(rolling, new_words, start, end, keep_start) == merged_repeats(all));
}

proof fn lemma_outside_len<S: Scalar>(words: Seq<Spoken<S>>, keep_start: S, from: S, to: S)
    ensures
        outside(words, keep_start, from, to).len() <= words.len(),
    decreases words.len(),
{
    if words.len() > 0 {
        lemma_outside_len(words.drop_last(), keep_start, from, to);
    }
}

/// The same word within 30 milliseconds of the last one is a repeat.
pub proof fn law_repeats_start_together(w: Spoken<scalar::Thousandths>, last: Spoken<scalar::Thousandths>)
    requires
        0 <= w.start_s.count <= 1_000_000_000_000,
        0 <= last.start_s.count <= 1_000_000_000_000,
    ensures
        repeats(w, last) <==> w.word == last.word && -30 < w.start_s.count - last.start_s.count < 30,
{
}

/// A repeat only extends the word in front of it; any other word is added as it is.
pub proof fn law_repeats_extend_the_word<S: Scalar>(words: Seq<Spoken<S>>, w: Spoken<S>)
    ensures
        ({
            let before = merged_repeats(words);
            let after = merged_repeats(words.push(w));
            let n = before.len();
            &&& words.len() > 0 ==> n > 0
            &&& n == 0 || !repeats(w, before[n - 1]) ==> after == before.push(w)
            &&& n > 0 && repeats(w, before[n - 1]) ==> {
                &&& after.len() == n
                &&& after.take(n - 1) == before.take(n - 1)
                &&& after[n - 1].word == before[n - 1].word && after[n - 1].start_s == before[n - 1].start_s
                &&& before[n - 1].end_s.rank() <= after[n - 1].end_s.rank() && w.end_s.rank() <= after[n - 1].end_s.rank()
                &&& after[n - 1].end_s == before[n - 1].end_s || after[n - 1].end_s == w.end_s
            }
        }),
{
    assert(words.push(w).drop_last() =~= words);
    lemma_merged_some(words);
    let before = merged_repeats(words);
    if before.len() > 0 && repeats(w, before[before.len() - 1]) {
        assert(merged_repeats(words.push(w)).take(before.len() - 1) =~= before.take(before.len() - 1));
    }
}

proof fn lemma_merged_some<S: Scalar>(words: Seq<Spoken<S>>)
    ensures
        words.len() > 0 ==> merged_repeats(words).len() > 0,
    decreases words.len(),
{
    if words.len() > 0 {
        lemma_merged_some(words.drop_last());
    }
}

/// A word of a list is heard if it has a text and both times.
pub proof fn law_spoken_words_have_times<S: Scalar>(w: Json<S>)
    ensures
        word_spoken(w) matches Some(x) ==> {
            &&& x.word == chars::trimmed(Json::text_or_empty(w.field("word"@))) && x.word.len() > 0
            &&& w.field("start_s"@) matches Some(s) && s.real_spec() == Some(x.start_s)
            &&& w.field("end_s"@) matches Some(e) && e.real_spec() == Some(x.end_s)
        },
        word_spoken(w) is None <==> chars::trimmed(Json::text_or_empty(w.field("word"@))).len() == 0 || (w.field(
            "start_s"@,
        ) matches Some(s) ==> s.real_spec() is None) || (w.field("end_s"@) matches Some(e) ==> e.real_spec() is None),
{
}

proof fn lemma_entry_after_shift<S: Scalar>(entries: Seq<(String, Json<S>)>, key: Seq<char>, offset: S, other: Seq<char>)
    ensures
        shifted_entry(entries, key, offset).len() == entries.len(),
        other != key ==> crate::json::entry_of(shifted_entry(entries, key, offset), other) == crate::json::entry_of(
            entries,
            other,
        ),
        crate::json::entry_of(entries, key) matches Some(v) ==> (v.real_spec() matches Some(x) ==> (
        crate::json::entry_of(shifted_entry(entries, key, offset), key) matches Some(w) && w.real_spec() == Some(
            x.plus_spec(offset),
        ))),
    decreases entries.len(),
{
    if entries.len() > 0 {
        let r = shifted_entry(entries, key, offset);
        if entries[0].0@ == key {
            assert(r.skip(1) =~= entries.skip(1));
        } else {
            lemma_entry_after_shift(entries.skip(1), key, offset, other);
            let rest = shifted_entry(entries.skip(1), key, offset);
            assert(r.skip(1) =~= rest);
        }
    }
}

/// A word that is moved in time keeps its text and its length: both its times move by the
/// same.
pub proof fn law_moved_words_keep_their_text<S: Scalar>(w: Json<S>, offset: S, r: Json<S>)
    requires
        is_shifted_word(w, offset, r),
    ensures
        word_spoken(w) matches Some(x) ==> word_spoken(r) == Some(
            Spoken { start_s: x.start_s.plus_spec(offset), end_s: x.end_s.plus_spec(offset), word: x.word },
        ),
{
    reveal_strlit("start_s");
    reveal_strlit("end_s");
    reveal_strlit("word");
    assert("start_s"@.len() == 7 && "end_s"@.len() == 5 && "word"@.len() == 4);
    match w {
        Json::Object(entries) => {
            let first = shifted_entry(entries@, "start_s"@, offset);
            lemma_entry_after_shift(entries@, "start_s"@, offset, "end_s"@);
            lemma_entry_after_shift(entries@, "start_s"@, offset, "word"@);
            lemma_entry_after_shift(first, "end_s"@, offset, "start_s"@);
            lemma_entry_after_shift(first, "end_s"@, offset, "word"@);
        },
        _ => {},
    }
}

/// Nothing moves by nothing.
pub proof fn law_moving_by_nothing_changes_nothing<S: Scalar>(t: Json<S>, r: Json<S>)
    requires
        is_shifted_transcription(t, S::whole_spec(0), r),
    ensures
        r == t,
{
}

/// The words spoken are read one by one; those without a text or a time are passed over.
pub proof fn law_spoken_words_are_read_one_by_one<S: Scalar>(words: Seq<Json<S>>, w: Json<S>)
    ensures
        word_spoken(w) matches Some(x) ==> words_spoken(words.push(w)) == words_spoken(words).push(x),
        word_spoken(w) is None ==> words_spoken(words.push(w)) == words_spoken(words),
{
    assert(words.push(w).drop_last() =~= words);
}

/// The words spoken in segments are those of their lists, one segment after the other.
pub proof fn law_segments_are_spoken_in_order<S: Scalar>(segs: Seq<Json<S>>, k: nat)
    requires
        k < segs.len(),
    ensures
        ({
            let before = segments_spoken(segs, k);
            let after = segments_spoken(segs, k + 1);
            &&& segments_spoken(segs, 0).len() == 0
            &&& after.take(before.len() as int) == before
            &&& segs[k as int].field("words"@) matches Some(Json::List(items)) ==> after.skip(before.len() as int)
                == words_spoken(items@)
            &&& !(segs[k as int].field("words"@) matches Some(Json::List(items))) ==> after == before
        }),
{
    let before = segments_spoken(segs, k);
    let after = segments_spoken(segs, k + 1);
    assert(after.take(before.len() as int) =~= before);
    match segs[k as int].field("words"@) {
        Some(Json::List(items)) => {
            assert(after.skip(before.len() as int) =~= words_spoken(items@));
        },
        _ => {
            assert(after =~= before);
        },
    }
}

} // verus!
