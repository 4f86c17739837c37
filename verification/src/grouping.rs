//! Words of a stream, grouped into the segments of a transcription.

use vstd::prelude::*;

use crate::chars;
use crate::json;
use crate::json::Json;
use crate::rolling;
use crate::rolling::{Spoken, TimedWord};
use crate::scalar;
use crate::scalar::Scalar;
use crate::text;
use crate::timed;

verus! {

/// How many words a segment has at most.
pub const SEG_MAX_WORDS: usize = 18;

/// A word begins a new segment after a pause of more than 0.85, or when the
/// segment is full.
pub open spec fn begins_segment<S: Scalar>(w: Spoken<S>, end_s: S, count: int) -> bool {
    S::milli_spec(850).rank() < w.start_s.minus_spec(end_s).rank() || count >= SEG_MAX_WORDS
}

/// Where the segment of the last of the first `k` words begins, and when it has
/// ended so far.
pub open spec fn open_segment<S: Scalar>(words: Seq<Spoken<S>>, k: nat) -> (int, S)
    decreases k,
{
    if k == 0 {
        (0, S::whole_spec(0))
    } else if k == 1 {
        (0, words[0].end_s)
    } else {
        let p = open_segment(words, (k - 1) as nat);
        let w = words[k - 1];
        if begins_segment(w, p.1, k - 1 - p.0) {
            (k - 1, w.end_s)
        } else {
            (p.0, scalar::max_spec(p.1, w.end_s))
        }
    }
}

/// A segment: the words from `from` to in front of `to`, and when it ends.
pub struct Group<S> {
    pub from: usize,
    pub to: usize,
    pub start_s: S,
    pub end_s: S,
}

impl<S: Copy> Clone for Group<S> {
    fn clone(&self) -> (r: Self)
        ensures
            r == *self,
    {
        *self
    }
}

impl<S: Copy> Copy for Group<S> {

}

/// The earliest start among the words from `from` to in front of `to`.
pub open spec fn first_start<S: Scalar>(words: Seq<Spoken<S>>, from: int, to: int) -> S
    decreases to - from,
{
    if to <= from + 1 {
        words[from].start_s
    } else {
        scalar::min_spec(first_start(words, from, to - 1), words[to - 1].start_s)
    }
}

pub open spec fn group_of<S: Scalar>(words: Seq<Spoken<S>>, from: int, to: int, end_s: S) -> Group<S> {
    Group { from: from as usize, to: to as usize, start_s: first_start(words, from, to), end_s }
}

/// The segments that are complete after the first `k` words.
pub open spec fn closed_segments<S: Scalar>(words: Seq<Spoken<S>>, k: nat) -> Seq<Group<S>>
    decreases k,
{
    if k <= 1 {
        Seq::empty()
    } else {
        let before = closed_segments(words, (k - 1) as nat);
        let p = open_segment(words, (k - 1) as nat);
        if begins_segment(words[k - 1], p.1, k - 1 - p.0) {
            before.push(group_of(words, p.0, k - 1, p.1))
        } else {
            before
        }
    }
}

/// All segments.
pub open spec fn all_segments<S: Scalar>(words: Seq<Spoken<S>>) -> Seq<Group<S>> {
    if words.len() == 0 {
        Seq::empty()
    } else {
        let p = open_segment(words, words.len());
        closed_segments(words, words.len()).push(group_of(words, p.0, words.len() as int, p.1))
    }
}

/// The groups cover the first `upto` words one after the other.
pub open spec fn tiles<S>(groups: Seq<Group<S>>, upto: int) -> bool {
    &&& groups.len() == 0 ==> upto == 0
    &&& groups.len() > 0 ==> groups[0].from == 0 && groups.last().to == upto
    &&& forall|g: int| 0 <= g < groups.len() ==> (#[trigger] groups[g]).from < groups[g].to <= upto
    &&& forall|g: int| 0 < g < groups.len() ==> (#[trigger] groups[g]).from == groups[g - 1].to
    &&& forall|g: int| 0 <= g < groups.len() ==> (#[trigger] groups[g]).to - groups[g].from <= SEG_MAX_WORDS
}

proof fn lemma_closed_tiles<S: Scalar>(words: Seq<Spoken<S>>, k: nat)
    requires
        1 <= k <= words.len(),
        words.len() <= usize::MAX,
    ensures
        0 <= open_segment(words, k).0 < k,
        k - open_segment(words, k).0 <= SEG_MAX_WORDS,
        tiles(closed_segments(words, k), open_segment(words, k).0),
    decreases k,
{
    if k > 1 {
        lemma_closed_tiles(words, (k - 1) as nat);
    }
}

/// The segments cover all words, one after the other, each word once, and none
/// has more than [`SEG_MAX_WORDS`] words.
pub proof fn law_segments_cover_all_words<S: Scalar>(words: Seq<Spoken<S>>)
    requires
        words.len() <= usize::MAX,
    ensures
        tiles(all_segments(words), words.len() as int),
{
    if words.len() > 0 {
        lemma_closed_tiles(words, words.len());
    }
}

pub fn group_words<S: Scalar>(words: &[TimedWord<S>]) -> (r: Vec<Group<S>>)
    ensures
        r@ == all_segments(rolling::spoken(words@)),
        tiles(r@, words@.len() as int),
{
    let ghost all = rolling::spoken(words@);
    let n: usize = words.len();
    let mut out: Vec<Group<S>> = Vec::new();
    if n == 0 {
        assert(out@ =~= all_segments(all));
        return out;
    }
    assert(all[0] == words@[0]@);
    let mut from: usize = 0;
    let mut start: S = words[0].start_s;
    let mut end: S = words[0].end_s;
    let mut k: usize = 1;
    while k < n
        invariant
            n == words@.len(),
            all == rolling::spoken(words@),
            1 <= k <= n,
            from < k,
            open_segment(all, k as nat) == (from as int, end),
            start == first_start(all, from as int, k as int),
            out@ == closed_segments(all, k as nat),
        decreases n - k,
    {
        let w = &words[k];
        assert(all[k as int] == w@);
        if S::milli(850).below(w.start_s.minus(end)) || k - from >= SEG_MAX_WORDS {
            out.push(Group { from, to: k, start_s: start, end_s: end });
            from = k;
            start = w.start_s;
            end = w.end_s;
        } else {
            start = scalar::min_of(start, w.start_s);
            end = scalar::max_of(end, w.end_s);
        }
        k = k + 1;
    }
    out.push(Group { from, to: n, start_s: start, end_s: end });
    proof {
        law_segments_cover_all_words(all);
    }
    out
}

// ---------------------------------------------------------------------------
// As a transcription

/// The words of a run of spoken words.
pub open spec fn texts_of<S>(words: Seq<Spoken<S>>) -> Seq<Seq<char>> {
    words.map_values(|w: Spoken<S>| w.word)
}

/// The text of a group.
pub open spec fn group_text<S>(words: Seq<Spoken<S>>, g: Group<S>) -> Seq<char> {
    chars::trimmed(chars::joined(texts_of(words.subrange(g.from as int, g.to as int)), " "@))
}

/// The texts of the groups, without the empty ones.
pub open spec fn group_texts<S>(words: Seq<Spoken<S>>, groups: Seq<Group<S>>) -> Seq<Seq<char>>
    decreases groups.len(),
{
    if groups.len() == 0 {
        Seq::empty()
    } else {
        let before = group_texts(words, groups.drop_last());
        let t = group_text(words, groups.last());
        if t.len() == 0 {
            before
        } else {
            before.push(t)
        }
    }
}

/// The text of all words.
pub open spec fn full_text<S: Scalar>(words: Seq<Spoken<S>>) -> Seq<char> {
    chars::trimmed(chars::joined(group_texts(words, all_segments(words)), " "@))
}

pub open spec fn is_number<S>(v: Option<Json<S>>, x: S) -> bool {
    v == Some(Json::Number { unsigned: None, signed: None, value: x })
}

pub open spec fn is_text<S: Scalar>(v: Option<Json<S>>, t: Seq<char>) -> bool {
    v matches Some(j) && j.str_spec() == Some(t)
}

/// `j` is the entry of a word list for `w`.
pub open spec fn is_word_entry<S: Scalar>(j: Json<S>, w: Spoken<S>) -> bool {
    &&& is_text(j.field("word"@), w.word)
    &&& is_number(j.field("start_s"@), w.start_s)
    &&& is_number(j.field("end_s"@), w.end_s)
}

pub open spec fn are_word_entries<S: Scalar>(items: Seq<Json<S>>, words: Seq<Spoken<S>>) -> bool {
    &&& items.len() == words.len()
    &&& forall|k: int| 0 <= k < items.len() ==> is_word_entry(#[trigger] items[k], words[k])
}

/// `j` is the segment for group `g`.
pub open spec fn is_segment<S: Scalar>(j: Json<S>, words: Seq<Spoken<S>>, g: Group<S>) -> bool {
    &&& is_number(j.field("start_s"@), g.start_s)
    &&& is_number(j.field("end_s"@), g.end_s)
    &&& is_text(j.field("text"@), group_text(words, g))
    &&& j.field("words"@) matches Some(Json::List(items)) && are_word_entries(
        items@,
        words.subrange(g.from as int, g.to as int),
    )
}

/// `t` is the transcription whose segments are the groups of the words.
pub open spec fn is_transcription_of<S: Scalar>(t: Json<S>, words: Seq<Spoken<S>>) -> bool {
    let segs = timed::segments_in(t);
    let groups = all_segments(words);
    &&& segs.len() == groups.len()
    &&& forall|g: int| 0 <= g < groups.len() ==> is_segment(#[trigger] segs[g], words, groups[g])
}

pub proof fn lemma_entry<S>(entries: Seq<(String, Json<S>)>, i: int, key: Seq<char>)
    requires
        0 <= i < entries.len(),
        entries[i].0@ == key,
        forall|j: int| 0 <= j < i ==> (#[trigger] entries[j]).0@ != key,
    ensures
        json::entry_of(entries, key) == Some(entries[i].1),
    decreases i,
{
    if i > 0 {
        assert(entries[0].0@ != key);
        let t = entries.skip(1);
        assert forall|j: int| 0 <= j < i - 1 implies (#[trigger] t[j]).0@ != key by {
            assert(t[j] == entries[j + 1]);
        }
        lemma_entry(t, i - 1, key);
    }
}

proof fn lemma_names_differ()
    ensures
        "start_s"@ != "end_s"@,
        "start_s"@ != "word"@,
        "end_s"@ != "word"@,
        "start_s"@ != "text"@,
        "end_s"@ != "text"@,
        "start_s"@ != "words"@,
        "end_s"@ != "words"@,
        "text"@ != "words"@,
{
    reveal_strlit("start_s");
    reveal_strlit("end_s");
    reveal_strlit("word");
    reveal_strlit("text");
    reveal_strlit("words");
    assert("start_s"@.len() == 7 && "end_s"@.len() == 5 && "word"@.len() == 4 && "text"@.len() == 4 && "words"@.len()
        == 5);
    assert("end_s"@[0] != "words"@[0]);
}

pub fn number<S: Scalar>(x: S) -> (r: Json<S>)
    ensures
        r == (Json::Number { unsigned: None, signed: None, value: x }),
{
    Json::Number { unsigned: None, signed: None, value: x }
}

pub fn text_value<S: Scalar>(t: &str) -> (r: Json<S>)
    ensures
        r.str_spec() == Some(t@),
{
    Json::Text { text: t.to_owned(), spelled: None }
}

fn word_entry<S: Scalar>(w: &TimedWord<S>) -> (r: Json<S>)
    ensures
        is_word_entry(r, w@),
{
    let mut e: Vec<(String, Json<S>)> = Vec::new();
    e.push(("word".to_owned(), text_value(w.word.as_str())));
    e.push(("start_s".to_owned(), number(w.start_s)));
    e.push(("end_s".to_owned(), number(w.end_s)));
    proof {
        lemma_names_differ();
        lemma_entry(e@, 0, "word"@);
        lemma_entry(e@, 1, "start_s"@);
        lemma_entry(e@, 2, "end_s"@);
    }
    Json::Object(e)
}

fn join_group<S: Scalar>(words: &[TimedWord<S>], g: Group<S>) -> (r: String)
    requires
        g.from <= g.to <= words@.len(),
    ensures
        r@ == group_text(rolling::spoken(words@), g),
{
    let ghost part = rolling::spoken(words@).subrange(g.from as int, g.to as int);
    let mut texts: Vec<String> = Vec::new();
    let mut k: usize = g.from;
    assert(chars::views(texts@) =~= texts_of(part).take(0));
    while k < g.to
        invariant
            g.from <= k <= g.to <= words@.len(),
            part == rolling::spoken(words@).subrange(g.from as int, g.to as int),
            chars::views(texts@) == texts_of(part).take(k - g.from),
        decreases g.to - k,
    {
        let t = words[k].word.clone();
        let ghost before = chars::views(texts@);
        texts.push(t);
        proof {
            assert(chars::views(texts@) =~= before.push(t@));
            assert(texts_of(part)[k - g.from] == t@);
            assert(texts_of(part).take(k + 1 - g.from) =~= texts_of(part).take(k - g.from).push(t@));
        }
        k = k + 1;
    }
    assert(texts_of(part).take(g.to - g.from) =~= texts_of(part));
    chars::trim(chars::join(&texts, " ").as_str())
}

fn segment_value<S: Scalar>(words: &[TimedWord<S>], g: Group<S>, t: &str) -> (r: Json<S>)
    requires
        g.from <= g.to <= words@.len(),
        t@ == group_text(rolling::spoken(words@), g),
    ensures
        is_segment(r, rolling::spoken(words@), g),
{
    let ghost part = rolling::spoken(words@).subrange(g.from as int, g.to as int);
    let mut items: Vec<Json<S>> = Vec::new();
    let mut k: usize = g.from;
    while k < g.to
        invariant
            g.from <= k <= g.to <= words@.len(),
            part == rolling::spoken(words@).subrange(g.from as int, g.to as int),
            items@.len() == k - g.from,
            forall|j: int| 0 <= j < items@.len() ==> is_word_entry(#[trigger] items@[j], part[j]),
        decreases g.to - k,
    {
        assert(part[k - g.from] == words@[k as int]@);
        items.push(word_entry(&words[k]));
        k = k + 1;
    }
    let mut e: Vec<(String, Json<S>)> = Vec::new();
    e.push(("start_s".to_owned(), number(g.start_s)));
    e.push(("end_s".to_owned(), number(g.end_s)));
    e.push(("text".to_owned(), text_value(t)));
    e.push(("words".to_owned(), Json::List(items)));
    proof {
        lemma_names_differ();
        lemma_entry(e@, 0, "start_s"@);
        lemma_entry(e@, 1, "end_s"@);
        lemma_entry(e@, 2, "text"@);
        lemma_entry(e@, 3, "words"@);
    }
    Json::Object(e)
}

/// The words as a transcription, and their text.
pub fn build_transcription_from_words<S: Scalar>(words: &[TimedWord<S>]) -> (r: (Json<S>, String))
    ensures
        is_transcription_of(r.0, rolling::spoken(words@)),
        r.1@ == full_text(rolling::spoken(words@)),
{
    let ghost all = rolling::spoken(words@);
    let groups = group_words(words);
    let mut segs: Vec<Json<S>> = Vec::new();
    let mut texts: Vec<String> = Vec::new();
    let mut k: usize = 0;
    assert(chars::views(texts@) =~= group_texts(all, groups@.take(0)));
    while k < groups.len()
        invariant
            all == rolling::spoken(words@),
            tiles(groups@, words@.len() as int),
            k <= groups@.len(),
            segs@.len() == k,
            forall|g: int| 0 <= g < k ==> is_segment(#[trigger] segs@[g], all, groups@[g]),
            chars::views(texts@) == group_texts(all, groups@.take(k as int)),
        decreases groups@.len() - k,
    {
        let g = groups[k];
        proof {
            assert(groups@[k as int].from < groups@[k as int].to <= words@.len());
            assert(groups@.take(k as int + 1).drop_last() =~= groups@.take(k as int));
        }
        let t = join_group(words, g);
        segs.push(segment_value(words, g, t.as_str()));
        if !text::is_blank(t.as_str()) {
            let ghost before = chars::views(texts@);
            texts.push(t);
            assert(chars::views(texts@) =~= before.push(t@));
        }
        k = k + 1;
    }
    assert(groups@.take(groups@.len() as int) =~= groups@);
    let mut e: Vec<(String, Json<S>)> = Vec::new();
    e.push(("segments".to_owned(), Json::List(segs)));
    proof {
        lemma_entry(e@, 0, "segments"@);
    }
    (Json::Object(e), chars::trim(chars::join(&texts, " ").as_str()))
}

/// A word that extraction would give back: without white space at its ends, and
/// not empty.
pub open spec fn is_clean<S>(w: Spoken<S>) -> bool {
    w.word.len() > 0 && chars::trimmed(w.word) == w.word
}

proof fn lemma_entries_read_back<S: Scalar>(items: Seq<Json<S>>, words: Seq<Spoken<S>>)
    requires
        are_word_entries(items, words),
        forall|k: int| 0 <= k < words.len() ==> is_clean(#[trigger] words[k]),
    ensures
        rolling::words_spoken(items) == words,
    decreases items.len(),
{
    if items.len() > 0 {
        let p = items.drop_last();
        let q = words.drop_last();
        assert forall|k: int| 0 <= k < p.len() implies is_word_entry(#[trigger] p[k], q[k]) by {
            assert(is_word_entry(items[k], words[k]));
        }
        lemma_entries_read_back(p, q);
        let n = items.len() - 1;
        assert(is_word_entry(items[n], words[n]));
        assert(is_clean(words[n]));
        assert(rolling::word_spoken(items[n]) == Some(words[n]));
        assert(q.push(words[n]) =~= words);
    } else {
        assert(words =~= Seq::<Spoken<S>>::empty());
    }
}

proof fn lemma_segments_read_back<S: Scalar>(
    segs: Seq<Json<S>>,
    words: Seq<Spoken<S>>,
    groups: Seq<Group<S>>,
    k: nat,
)
    requires
        k <= segs.len(),
        segs.len() == groups.len(),
        tiles(groups, words.len() as int),
        forall|g: int| 0 <= g < groups.len() ==> is_segment(#[trigger] segs[g], words, groups[g]),
        forall|i: int| 0 <= i < words.len() ==> is_clean(#[trigger] words[i]),
    ensures
        rolling::segments_spoken(segs, k) == words.take(
            if k == 0 {
                0
            } else {
                groups[k - 1].to as int
            },
        ),
    decreases k,
{
    if k > 0 {
        lemma_segments_read_back(segs, words, groups, (k - 1) as nat);
        let g = groups[k - 1];
        assert(is_segment(segs[k - 1], words, groups[k - 1]));
        let part = words.subrange(g.from as int, g.to as int);
        assert forall|i: int| 0 <= i < part.len() implies is_clean(#[trigger] part[i]) by {
            assert(part[i] == words[g.from + i]);
        }
        match segs[k - 1].field("words"@) {
            Some(Json::List(items)) => {
                lemma_entries_read_back(items@, part);
            },
            _ => {},
        }
        assert(g.from as int == (if k == 1 {
            0
        } else {
            groups[k - 2].to as int
        }));
        assert(words.take(g.from as int) + part =~= words.take(g.to as int));
    } else {
        assert(rolling::segments_spoken(segs, 0) =~= words.take(0));
    }
}

/// A transcription built from clean words gives the same words back.
pub proof fn law_built_words_read_back<S: Scalar>(t: Json<S>, words: Seq<Spoken<S>>)
    requires
        words.len() <= usize::MAX,
        is_transcription_of(t, words),
        forall|i: int| 0 <= i < words.len() ==> is_clean(#[trigger] words[i]),
    ensures
        rolling::segments_spoken(timed::segments_in(t), timed::segments_in(t).len()) == words,
{
    law_segments_cover_all_words(words);
    let groups = all_segments(words);
    lemma_segments_read_back(timed::segments_in(t), words, groups, groups.len());
    assert(words.take(words.len() as int) =~= words);
}

// ---------------------------------------------------------------------------
// Laws

proof fn lemma_open_segment<S: Scalar>(words: Seq<Spoken<S>>, k: nat)
    requires
        0 < k <= words.len(),
    ensures
        ({
            let p = open_segment(words, k);
            &&& 0 <= p.0 < k
            &&& forall|i: int| p.0 <= i < k ==> (#[trigger] words[i]).end_s.rank() <= p.1.rank()
            &&& exists|i: int| p.0 <= i < k && (#[trigger] words[i]).end_s == p.1
        }),
    decreases k,
{
    if k == 1 {
        assert(words[0].end_s == open_segment(words, 1).1);
    } else {
        lemma_open_segment(words, (k - 1) as nat);
        let q = open_segment(words, (k - 1) as nat);
        let p = open_segment(words, k);
        if p.0 == k - 1 {
            assert(words[k - 1].end_s == p.1);
        } else if p.1 == q.1 {
            let i = choose|i: int| q.0 <= i < k - 1 && (#[trigger] words[i]).end_s == q.1;
            assert(words[i].end_s == p.1);
        } else {
            assert(words[k - 1].end_s == p.1);
        }
    }
}

/// A word begins a segment exactly if it starts more than 0.85 seconds after the latest
/// end of the words of the segment before it, or if that has 18 words.
pub proof fn law_segments_begin_after_pauses<S: Scalar>(words: Seq<Spoken<S>>, k: nat)
    requires
        0 < k < words.len(),
    ensures
        ({
            let from = open_segment(words, k).0;
            let next = open_segment(words, k + 1).0;
            exists|latest: int|
                {
                    &&& from <= latest < k
                    &&& forall|i: int|
                        from <= i < k ==> (#[trigger] words[i]).end_s.rank() <= words[latest].end_s.rank()
                    &&& next == k <==> S::milli_spec(850).rank() < words[k as int].start_s.minus_spec(
                        (#[trigger] words[latest]).end_s,
                    ).rank() || k - from >= 18
                    &&& next == k || next == from
                }
        }),
{
    lemma_open_segment(words, k);
    let p = open_segment(words, k);
    let i = choose|i: int| p.0 <= i < k && (#[trigger] words[i]).end_s == p.1;
    assert(words[i].end_s == p.1);
}

/// No segment has more than 18 words.
pub proof fn law_segments_are_short<S: Scalar>(words: Seq<Spoken<S>>, g: int)
    requires
        words.len() <= usize::MAX,
        0 <= g < all_segments(words).len(),
    ensures
        all_segments(words)[g].to - all_segments(words)[g].from <= 18,
{
    law_segments_cover_all_words(words);
}

/// A segment starts with the earliest start of its words.
pub proof fn law_segments_start_with_their_words<S: Scalar>(words: Seq<Spoken<S>>, from: int, to: int)
    requires
        0 <= from < to <= words.len(),
    ensures
        forall|i: int| from <= i < to ==> first_start(words, from, to).rank() <= (#[trigger] words[i]).start_s.rank(),
        exists|i: int| from <= i < to && (#[trigger] words[i]).start_s == first_start(words, from, to),
    decreases to - from,
{
    if to > from + 1 {
        law_segments_start_with_their_words(words, from, to - 1);
        let before = first_start(words, from, to - 1);
        if first_start(words, from, to) == before {
            let i = choose|i: int| from <= i < to - 1 && (#[trigger] words[i]).start_s == before;
            assert(words[i].start_s == first_start(words, from, to));
        } else {
            assert(words[to - 1].start_s == first_start(words, from, to));
        }
    } else {
        assert(words[from].start_s == first_start(words, from, to));
    }
}

/// The texts of the segments are those that are not blank.
pub proof fn law_blank_segments_have_no_text<S>(words: Seq<Spoken<S>>, groups: Seq<Group<S>>)
    ensures
        group_texts(words, groups) == groups.map_values(|g: Group<S>| group_text(words, g)).filter(
            |t: Seq<char>| t.len() > 0,
        ),
    decreases groups.len(),
{
    reveal(Seq::filter);
    let f = |g: Group<S>| group_text(words, g);
    if groups.len() > 0 {
        law_blank_segments_have_no_text(words, groups.drop_last());
        assert(groups.map_values(f).drop_last() =~= groups.drop_last().map_values(f));
    }
}

proof fn lemma_joined_both(a: Seq<Seq<char>>, b: Seq<Seq<char>>, sep: Seq<char>)
    requires
        a.len() > 0,
        b.len() > 0,
    ensures
        chars::joined(a + b, sep) == chars::joined(a, sep) + sep + chars::joined(b, sep),
    decreases b.len(),
{
    let s = a + b;
    if b.len() == 1 {
        assert(s.drop_last() =~= a);
    } else {
        lemma_joined_both(a, b.drop_last(), sep);
        assert(s.drop_last() =~= a + b.drop_last());
        assert(chars::joined(s, sep) =~= chars::joined(a, sep) + sep + chars::joined(b, sep));
    }
}

proof fn lemma_joined_ends(words: Seq<Seq<char>>)
    requires
        words.len() > 0,
        forall|i: int|
            0 <= i < words.len() ==> (#[trigger] words[i]).len() > 0 && !chars::is_space_spec(words[i][0])
                && !chars::is_space_spec(words[i].last()),
    ensures
        ({
            let t = chars::joined(words, " "@);
            t.len() > 0 && !chars::is_space_spec(t[0]) && !chars::is_space_spec(t.last())
        }),
    decreases words.len(),
{
    if words.len() > 1 {
        let d = words.drop_last();
        assert forall|i: int| 0 <= i < d.len() implies (#[trigger] d[i]).len() > 0 && !chars::is_space_spec(d[i][0])
            && !chars::is_space_spec(d[i].last()) by {
            assert(d[i] == words[i]);
        }
        lemma_joined_ends(d);
        assert(words.last() == words[words.len() - 1]);
        let t = chars::joined(words, " "@);
        assert(t[0] == chars::joined(d, " "@)[0]);
        assert(t.last() == words.last().last());
    } else {
        assert(words[0].len() > 0);
    }
}

/// The text of a transcription is its words with a space between them, however they fall
/// into segments.
pub proof fn law_text_holds_all_words<S: Scalar>(words: Seq<Spoken<S>>)
    requires
        0 < words.len() <= usize::MAX,
        forall|i: int|
            0 <= i < words.len() ==> (#[trigger] words[i]).word.len() > 0 && !chars::is_space_spec(words[i].word[0])
                && !chars::is_space_spec(words[i].word.last()),
    ensures
        full_text(words) == chars::joined(words.map_values(|w: Spoken<S>| w.word), " "@),
{
    let groups = all_segments(words);
    law_segments_cover_all_words(words);
    assert(groups.len() > 0);
    lemma_group_texts(words, groups, groups.len());
    assert(groups.take(groups.len() as int) =~= groups);
    let all = texts_of(words);
    assert(words.subrange(0, words.len() as int) =~= words);
    lemma_texts_have_ends(words);
    lemma_joined_ends(all);
    chars::lemma_trimmed_stays(chars::joined(all, " "@));
    assert(all =~= words.map_values(|w: Spoken<S>| w.word));
}

proof fn lemma_texts_have_ends<S>(words: Seq<Spoken<S>>)
    requires
        forall|i: int|
            0 <= i < words.len() ==> (#[trigger] words[i]).word.len() > 0 && !chars::is_space_spec(words[i].word[0])
                && !chars::is_space_spec(words[i].word.last()),
    ensures
        forall|i: int|
            0 <= i < texts_of(words).len() ==> (#[trigger] texts_of(words)[i]).len() > 0 && !chars::is_space_spec(
                texts_of(words)[i][0],
            ) && !chars::is_space_spec(texts_of(words)[i].last()),
{
    let t = texts_of(words);
    assert forall|i: int| 0 <= i < t.len() implies (#[trigger] t[i]).len() > 0 && !chars::is_space_spec(t[i][0])
        && !chars::is_space_spec(t[i].last()) by {
        assert(t[i] == words[i].word);
    }
}

proof fn lemma_group_texts<S>(words: Seq<Spoken<S>>, groups: Seq<Group<S>>, n: nat)
    requires
        0 < n <= groups.len(),
        tiles(groups, words.len() as int),
        forall|i: int|
            0 <= i < words.len() ==> (#[trigger] words[i]).word.len() > 0 && !chars::is_space_spec(words[i].word[0])
                && !chars::is_space_spec(words[i].word.last()),
    ensures
        group_texts(words, groups.take(n as int)).len() == n,
        chars::joined(group_texts(words, groups.take(n as int)), " "@) == chars::joined(
            texts_of(words.subrange(0, groups[n - 1].to as int)),
            " "@,
        ),
    decreases n,
{
    let part = groups.take(n as int);
    let g = groups[n - 1];
    assert(part.last() == g);
    assert(part.drop_last() =~= groups.take(n - 1));
    assert(g.from < g.to <= words.len());
    let own = words.subrange(g.from as int, g.to as int);
    assert forall|i: int| 0 <= i < own.len() implies (#[trigger] own[i]).word.len() > 0 && !chars::is_space_spec(
        own[i].word[0],
    ) && !chars::is_space_spec(own[i].word.last()) by {
        assert(own[i] == words[g.from + i]);
    }
    lemma_texts_have_ends(own);
    lemma_joined_ends(texts_of(own));
    chars::lemma_trimmed_stays(chars::joined(texts_of(own), " "@));
    let t = group_text(words, g);
    assert(t == chars::joined(texts_of(own), " "@));
    let before = group_texts(words, groups.take(n - 1));
    assert(group_texts(words, part) == before.push(t));
    if n == 1 {
        assert(groups.take(0) =~= Seq::empty());
        assert(before.len() == 0);
        assert(before.push(t) =~= seq![t]);
        assert(g.from == 0);
    } else {
        lemma_group_texts(words, groups, (n - 1) as nat);
        let front = words.subrange(0, groups[n - 2].to as int);
        assert(groups[n - 1].from == groups[n - 2].to);
        assert(words.subrange(0, g.to as int) =~= front + own);
        assert(texts_of(front + own) =~= texts_of(front) + texts_of(own));
        assert(groups[n - 2].from < groups[n - 2].to);
        lemma_joined_both(texts_of(front), texts_of(own), " "@);
        assert(before.push(t).drop_last() =~= before);
    }
}

} // verus!
