//! Heard words with their times.

use vstd::prelude::*;

use crate::chars;
use crate::json;
use crate::json::Json;
use crate::scalar;
use crate::scalar::Scalar;
use crate::text;

verus! {

/// A heard word: as it was transcribed, in normal form, and when it was heard.
pub struct TimedToken<S> {
    pub raw: String,
    pub simplified: String,
    pub start_s: Option<S>,
    pub end_s: Option<S>,
    /// The times were derived from those of a longer stretch.
    pub estimated_time: bool,
}

/// What a [`TimedToken`] holds.
pub struct Heard<S> {
    pub raw: Seq<char>,
    pub simplified: Seq<char>,
    pub start_s: Option<S>,
    pub end_s: Option<S>,
    pub estimated_time: bool,
}

impl<S: Scalar> View for TimedToken<S> {
    type V = Heard<S>;

    open spec fn view(&self) -> Heard<S> {
        Heard {
            raw: self.raw@,
            simplified: self.simplified@,
            start_s: self.start_s,
            end_s: self.end_s,
            estimated_time: self.estimated_time,
        }
    }
}

/// What the tokens of a list hold.
pub open spec fn heard<S: Scalar>(v: Seq<TimedToken<S>>) -> Seq<Heard<S>> {
    v.map_values(|t: TimedToken<S>| t@)
}

/// The normal forms of the words, without the empty ones.
pub open spec fn forms_of(words: Seq<Seq<char>>) -> Seq<Seq<char>>
    decreases words.len(),
{
    if words.len() == 0 {
        Seq::empty()
    } else {
        let before = forms_of(words.drop_last());
        let f = text::token_form(words.last());
        if f.len() == 0 {
            before
        } else {
            before.push(f)
        }
    }
}

/// The heard word that an entry of a word list describes, if it has a normal
/// form.
pub open spec fn word_heard<S: Scalar>(w: Json<S>) -> Option<Heard<S>> {
    let raw = chars::trimmed(Json::text_or_empty(w.field("word"@)));
    let simplified = text::token_form(raw);
    if raw.len() == 0 || simplified.len() == 0 {
        None
    } else {
        Some(
            Heard {
                raw,
                simplified,
                start_s: w.number_field("start_s"@),
                end_s: w.number_field("end_s"@),
                estimated_time: match w.field("estimated"@) {
                    None => false,
                    Some(v) => v.switch_spec() == Some(true),
                },
            },
        )
    }
}

/// The heard words that a word list describes.
pub open spec fn words_heard<S: Scalar>(words: Seq<Json<S>>) -> Seq<Heard<S>>
    decreases words.len(),
{
    if words.len() == 0 {
        Seq::empty()
    } else {
        let before = words_heard(words.drop_last());
        match word_heard(words.last()) {
            None => before,
            Some(h) => before.push(h),
        }
    }
}

/// A word list looks incomplete beside the text that it should cover.
pub open spec fn looks_broken(word_n: nat, text_n: nat) -> bool {
    (text_n >= 4 && 5 * word_n < 3 * text_n) || (text_n >= 3 && word_n == 1)
}

/// Word `k` of `forms`, spread evenly over the time from `start` to `end`.
pub open spec fn spread_word<S: Scalar>(forms: Seq<Seq<char>>, start: S, end: S, k: int) -> Heard<S> {
    let dur = scalar::max_spec(end.minus_spec(start), S::whole_spec(0));
    let step = dur.over_spec(S::whole_spec(forms.len()));
    Heard {
        raw: forms[k],
        simplified: forms[k],
        start_s: Some(start.plus_spec(S::whole_spec(k as nat).times_spec(step))),
        end_s: Some(
            if S::whole_spec(0).rank() < step.rank() {
                start.plus_spec(S::whole_spec(k as nat).plus_spec(S::whole_spec(1)).times_spec(step))
            } else {
                end
            },
        ),
        estimated_time: true,
    }
}

/// The heard words of a segment: those of its word list, unless the list is
/// missing or looks incomplete and the segment has times; then the words of its
/// text, spread evenly.
pub open spec fn segment_heard<S: Scalar>(seg: Json<S>) -> Seq<Heard<S>> {
    let forms = forms_of(chars::words_of(chars::trimmed(Json::text_or_empty(seg.field("text"@)))));
    let start = seg.number_field("start_s"@);
    let end = seg.number_field("end_s"@);
    let listed = match seg.field("words"@) {
        Some(Json::List(items)) => words_heard(items@),
        _ => Seq::empty(),
    };
    if listed.len() > 0 && (forms.len() == 0 || !looks_broken(listed.len(), forms.len()) || start is None
        || end is None) {
        listed
    } else if start is None || end is None {
        Seq::empty()
    } else {
        Seq::new(forms.len(), |k: int| spread_word(forms, start->0, end->0, k))
    }
}

/// The heard words of the first `k` segments.
pub open spec fn segments_heard<S: Scalar>(segs: Seq<Json<S>>, k: nat) -> Seq<Heard<S>>
    decreases k,
{
    if k == 0 {
        Seq::empty()
    } else {
        segments_heard(segs, (k - 1) as nat) + segment_heard(segs[k - 1])
    }
}

pub open spec fn segments_in<S: Scalar>(transcription: Json<S>) -> Seq<Json<S>> {
    match transcription.field("segments"@) {
        Some(Json::List(items)) => items@,
        _ => Seq::empty(),
    }
}

/// The heard words of a transcription.
pub open spec fn transcription_heard<S: Scalar>(transcription: Json<S>) -> Seq<Heard<S>> {
    segments_heard(segments_in(transcription), segments_in(transcription).len())
}

/// How many words the first `k` segments can give at most: their characters and
/// the entries of their word lists.
pub open spec fn size_bound<S: Scalar>(segs: Seq<Json<S>>, k: nat) -> nat
    decreases k,
{
    if k == 0 {
        0
    } else {
        let seg = segs[k - 1];
        size_bound(segs, (k - 1) as nat) + Json::text_or_empty(seg.field("text"@)).len() + (match seg.field("words"@) {
            Some(Json::List(items)) => items@.len(),
            _ => 0,
        })
    }
}

/// A bound on the number of heard words that can be read off a transcription
/// without normalizing it.
pub open spec fn transcription_size<S: Scalar>(transcription: Json<S>) -> nat {
    size_bound(segments_in(transcription), segments_in(transcription).len())
}

proof fn lemma_forms_len(words: Seq<Seq<char>>)
    ensures
        forms_of(words).len() <= words.len(),
    decreases words.len(),
{
    if words.len() > 0 {
        lemma_forms_len(words.drop_last());
    }
}

pub proof fn lemma_words_len(s: Seq<char>)
    ensures
        chars::words_of(s).len() <= s.len(),
    decreases s.len(),
{
    if s.len() == 0 {
    } else if chars::is_space_spec(s[0]) {
        lemma_words_len(s.skip(1));
    } else {
        chars::lemma_word_len(s);
        lemma_words_len(s.skip(chars::word_len(s) as int));
    }
}

proof fn lemma_words_heard_len<S: Scalar>(words: Seq<Json<S>>)
    ensures
        words_heard(words).len() <= words.len(),
    decreases words.len(),
{
    if words.len() > 0 {
        lemma_words_heard_len(words.drop_last());
    }
}

proof fn lemma_segments_size<S: Scalar>(segs: Seq<Json<S>>, k: nat)
    ensures
        segments_heard(segs, k).len() <= size_bound(segs, k),
    decreases k,
{
    if k > 0 {
        lemma_segments_size(segs, (k - 1) as nat);
        let seg = segs[k - 1];
        let t = Json::text_or_empty(seg.field("text"@));
        text::lemma_trimmed_len(t);
        lemma_words_len(chars::trimmed(t));
        lemma_forms_len(chars::words_of(chars::trimmed(t)));
        match seg.field("words"@) {
            Some(Json::List(items)) => {
                lemma_words_heard_len(items@);
            },
            _ => {},
        }
    }
}

/// Segments give no more words than their size allows.
pub proof fn law_words_within_size<S: Scalar>(segs: Seq<Json<S>>)
    ensures
        segments_heard(segs, segs.len()).len() <= size_bound(segs, segs.len()),
{
    lemma_segments_size(segs, segs.len());
}

/// A part of the segments is no larger than all of them.
pub proof fn lemma_part_size<S: Scalar>(segs: Seq<Json<S>>, from: int, to: int)
    requires
        0 <= from <= to <= segs.len(),
    ensures
        size_bound(segs.subrange(from, to), (to - from) as nat) + size_bound(segs, from as nat) == size_bound(
            segs,
            to as nat,
        ),
        size_bound(segs, to as nat) <= size_bound(segs, segs.len()),
    decreases segs.len() + to - from,
{
    let part = segs.subrange(from, to);
    if to < segs.len() {
        lemma_size_grows(segs, to as nat, segs.len());
    }
    if from < to {
        let shorter = segs.subrange(from, to - 1);
        lemma_part_size(segs, from, to - 1);
        lemma_size_prefix(part, shorter, (to - 1 - from) as nat);
        assert(part[to - from - 1] == segs[to - 1]);
    }
}

proof fn lemma_size_grows<S: Scalar>(segs: Seq<Json<S>>, j: nat, k: nat)
    requires
        j <= k,
    ensures
        size_bound(segs, j) <= size_bound(segs, k),
    decreases k,
{
    if j < k {
        lemma_size_grows(segs, j, (k - 1) as nat);
    }
}

proof fn lemma_size_prefix<S: Scalar>(a: Seq<Json<S>>, b: Seq<Json<S>>, k: nat)
    requires
        k <= a.len(),
        k <= b.len(),
        forall|i: int| 0 <= i < k ==> #[trigger] a[i] == b[i],
    ensures
        size_bound(a, k) == size_bound(b, k),
    decreases k,
{
    if k > 0 {
        lemma_size_prefix(a, b, (k - 1) as nat);
        assert(a[k - 1] == b[k - 1]);
    }
}

/// Whether the size of segments stays below what an `i32` holds.
pub fn size_fits<S: Scalar>(segs: &[Json<S>]) -> (r: bool)
    ensures
        r == (size_bound(segs@, segs@.len()) < i32::MAX),
{
    let limit: usize = i32::MAX as usize;
    let mut sum: usize = 0;
    let mut i: usize = 0;
    while i < segs.len()
        invariant
            i <= segs@.len(),
            limit == i32::MAX,
            sum < limit,
            sum == size_bound(segs@, i as nat),
        decreases segs@.len() - i,
    {
        let chars_n: usize = segs[i].text_field("text").unicode_len();
        let words_n: usize = match segs[i].get("words") {
            Some(Json::List(items)) => items.len(),
            _ => 0,
        };
        proof {
            lemma_size_grows(segs@, (i + 1) as nat, segs@.len());
        }
        if chars_n >= limit - sum || words_n >= limit - sum - chars_n {
            return false;
        }
        sum = sum + chars_n + words_n;
        i = i + 1;
    }
    true
}

fn read_forms(s: &str) -> (r: Vec<String>)
    ensures
        chars::views(r@) == forms_of(chars::words_of(s@)),
{
    let words = chars::split_words(s);
    let ghost all = chars::views(words@);
    let mut out: Vec<String> = Vec::new();
    let mut i: usize = 0;
    assert(chars::views(out@) =~= forms_of(all.take(0)));
    while i < words.len()
        invariant
            i <= words@.len(),
            all == chars::views(words@),
            chars::views(out@) == forms_of(all.take(i as int)),
        decreases words@.len() - i,
    {
        assert(all.take(i as int + 1).drop_last() =~= all.take(i as int));
        assert(all.take(i as int + 1).last() == words@[i as int]@);
        let f = text::normalize_token(words[i].as_str());
        if !text::is_blank(f.as_str()) {
            let ghost before = chars::views(out@);
            out.push(f);
            assert(chars::views(out@) =~= before.push(f@));
        }
        i = i + 1;
    }
    assert(all.take(i as int) =~= all);
    out
}

fn read_word<S: Scalar>(w: &Json<S>) -> (r: Option<TimedToken<S>>)
    ensures
        r is Some <==> word_heard(*w) is Some,
        r matches Some(t) ==> word_heard(*w) == Some(t@),
{
    let raw = chars::trim(w.text_field("word"));
    if text::is_blank(raw.as_str()) {
        return None;
    }
    let simplified = text::normalize_token(raw.as_str());
    if text::is_blank(simplified.as_str()) {
        return None;
    }
    let estimated: bool = match w.get("estimated") {
        None => false,
        Some(v) => match json::safe_bool(v) {
            Some(b) => b,
            None => false,
        },
    };
    Some(
        TimedToken {
            raw,
            simplified,
            start_s: json::number_field(w, "start_s"),
            end_s: json::number_field(w, "end_s"),
            estimated_time: estimated,
        },
    )
}

fn read_word_list<S: Scalar>(words: &Vec<Json<S>>) -> (r: Vec<TimedToken<S>>)
    ensures
        heard(r@) == words_heard(words@),
{
    let mut out: Vec<TimedToken<S>> = Vec::new();
    let mut i: usize = 0;
    assert(heard(out@) =~= words_heard(words@.take(0)));
    while i < words.len()
        invariant
            i <= words@.len(),
            heard(out@) == words_heard(words@.take(i as int)),
        decreases words@.len() - i,
    {
        assert(words@.take(i as int + 1).drop_last() =~= words@.take(i as int));
        match read_word(&words[i]) {
            None => {},
            Some(t) => {
                let ghost before = heard(out@);
                out.push(t);
                assert(heard(out@) =~= before.push(t@));
            },
        }
        i = i + 1;
    }
    assert(words@.take(words@.len() as int) =~= words@);
    out
}

fn broken(word_n: usize, text_n: usize) -> (r: bool)
    ensures
        r == looks_broken(word_n as nat, text_n as nat),
{
    (text_n >= 4 && 5 * (word_n as u128) < 3 * (text_n as u128)) || (text_n >= 3 && word_n == 1)
}

fn spread_words<S: Scalar>(forms: &Vec<String>, start: S, end: S) -> (r: Vec<TimedToken<S>>)
    ensures
        heard(r@) == Seq::new(
            forms@.len(),
            |k: int| spread_word(chars::views(forms@), start, end, k),
        ),
{
    let ghost all = chars::views(forms@);
    let ghost want = Seq::new(forms@.len(), |k: int| spread_word(all, start, end, k));
    let dur: S = scalar::max_of(end.minus(start), S::whole(0));
    let step: S = dur.over(S::whole(forms.len() as u64));
    let mut out: Vec<TimedToken<S>> = Vec::new();
    let mut k: usize = 0;
    while k < forms.len()
        invariant
            k <= forms@.len(),
            all == chars::views(forms@),
            want == Seq::new(forms@.len(), |k: int| spread_word(all, start, end, k)),
            dur == scalar::max_spec(end.minus_spec(start), S::whole_spec(0)),
            step == dur.over_spec(S::whole_spec(all.len())),
            heard(out@) == want.take(k as int),
        decreases forms@.len() - k,
    {
        let w_start: S = start.plus(S::whole(k as u64).times(step));
        let w_end: S = if S::whole(0).below(step) {
            start.plus(S::whole(k as u64).plus(S::whole(1)).times(step))
        } else {
            end
        };
        let t = TimedToken {
            raw: forms[k].clone(),
            simplified: forms[k].clone(),
            start_s: Some(w_start),
            end_s: Some(w_end),
            estimated_time: true,
        };
        let ghost before = heard(out@);
        out.push(t);
        proof {
            assert(t@ == want[k as int]);
            assert(heard(out@) =~= before.push(t@));
            assert(want.take(k as int + 1) =~= want.take(k as int).push(want[k as int]));
        }
        k = k + 1;
    }
    assert(heard(out@) =~= want);
    out
}

fn read_segment<S: Scalar>(seg: &Json<S>) -> (r: Vec<TimedToken<S>>)
    ensures
        heard(r@) == segment_heard(*seg),
{
    let forms = read_forms(chars::trim(seg.text_field("text")).as_str());
    let start: Option<S> = json::number_field(seg, "start_s");
    let end: Option<S> = json::number_field(seg, "end_s");
    let listed: Vec<TimedToken<S>> = match seg.get("words") {
        Some(Json::List(items)) => read_word_list(items),
        _ => {
            let none: Vec<TimedToken<S>> = Vec::new();
            assert(heard(none@) =~= Seq::<Heard<S>>::empty());
            none
        },
    };
    proof {
        assert(heard(listed@).len() == listed@.len());
        assert(chars::views(forms@).len() == forms@.len());
    }
    if listed.len() > 0 && (forms.len() == 0 || !broken(listed.len(), forms.len()) || start.is_none()
        || end.is_none()) {
        return listed;
    }
    match (start, end) {
        (Some(s), Some(e)) => spread_words(&forms, s, e),
        _ => {
            let none: Vec<TimedToken<S>> = Vec::new();
            assert(heard(none@) =~= Seq::<Heard<S>>::empty());
            none
        },
    }
}

/// The heard words of segments.
pub fn extract_from_segments<S: Scalar>(segs: &[Json<S>]) -> (r: Vec<TimedToken<S>>)
    ensures
        heard(r@) == segments_heard(segs@, segs@.len()),
        r@.len() == segments_heard(segs@, segs@.len()).len(),
{
    let mut out: Vec<TimedToken<S>> = Vec::new();
    let mut i: usize = 0;
    assert(heard(out@) =~= segments_heard(segs@, 0));
    while i < segs.len()
        invariant
            i <= segs@.len(),
            heard(out@) == segments_heard(segs@, i as nat),
        decreases segs@.len() - i,
    {
        let mut more = read_segment(&segs[i]);
        let ghost a = out@;
        let ghost b = more@;
        out.append(&mut more);
        assert(heard(out@) =~= heard(a) + heard(b));
        i = i + 1;
    }
    assert(heard(out@).len() == out@.len());
    out
}

/// The heard words of a transcription.
pub fn extract_timed_tokens_from_transcription<S: Scalar>(transcription: &Json<S>) -> (r: Vec<TimedToken<S>>)
    ensures
        heard(r@) == transcription_heard(*transcription),
        r@.len() == transcription_heard(*transcription).len(),
{
    match transcription.get("segments") {
        Some(Json::List(segs)) => extract_from_segments(segs),
        _ => {
            let none: Vec<TimedToken<S>> = Vec::new();
            assert(heard(none@) =~= Seq::<Heard<S>>::empty());
            none
        },
    }
}

// ---------------------------------------------------------------------------
// Corrected times

#[derive(Clone, Copy, Debug, PartialEq, Eq, Structural)]
pub enum TimeMode {
    /// Times stay as they are.
    Keep,
    /// Words are made to follow each other.
    Smooth,
    /// Forced alignment, which is not implemented.
    Forced,
    Unknown,
}

/// The mode that a lower-case word names.
pub open spec fn time_mode_of(key: Seq<char>) -> TimeMode {
    if key.len() == 0 || key == "0"@ || key == "false"@ || key == "off"@ || key == "none"@ {
        TimeMode::Keep
    } else if key == "smooth"@ || key == "smoothing"@ {
        TimeMode::Smooth
    } else if key == "whisperx"@ || key == "forced"@ {
        TimeMode::Forced
    } else {
        TimeMode::Unknown
    }
}

pub fn read_time_mode(key: &str) -> (r: TimeMode)
    ensures
        r == time_mode_of(key@),
{
    if text::is_blank(key) || chars::same_text(key, "0") || chars::same_text(key, "false") || chars::same_text(
        key,
        "off",
    ) || chars::same_text(key, "none") {
        TimeMode::Keep
    } else if chars::same_text(key, "smooth") || chars::same_text(key, "smoothing") {
        TimeMode::Smooth
    } else if chars::same_text(key, "whisperx") || chars::same_text(key, "forced") {
        TimeMode::Forced
    } else {
        TimeMode::Unknown
    }
}

/// A start that is not before the end of the word in front, and an end that is
/// not before that start.
pub open spec fn smoothed_times<S: Scalar>(start: S, end: S, prev: Option<S>) -> (S, S) {
    let e = if end.rank() < start.rank() {
        start
    } else {
        end
    };
    match prev {
        None => (start, e),
        Some(p) => if start.rank() < p.rank() {
            (p, if e.rank() < p.rank() {
                p
            } else {
                e
            })
        } else {
            (start, e)
        },
    }
}

/// The end of the last word that has times.
pub open spec fn last_end<S: Scalar>(h: Seq<Heard<S>>) -> Option<S>
    decreases h.len(),
{
    if h.len() == 0 {
        None
    } else {
        let t = h.last();
        match (t.start_s, t.end_s) {
            (Some(s), Some(e)) => Some(smoothed_times(s, e, last_end(h.drop_last())).1),
            _ => last_end(h.drop_last()),
        }
    }
}

/// The words with smoothed times; words without times stay as they are.
pub open spec fn smoothed<S: Scalar>(h: Seq<Heard<S>>) -> Seq<Heard<S>>
    decreases h.len(),
{
    if h.len() == 0 {
        h
    } else {
        let t = h.last();
        let before = smoothed(h.drop_last());
        match (t.start_s, t.end_s) {
            (Some(s), Some(e)) => {
                let p = smoothed_times(s, e, last_end(h.drop_last()));
                before.push(Heard { start_s: Some(p.0), end_s: Some(p.1), ..t })
            },
            _ => before.push(t),
        }
    }
}

/// What a mode makes of the words; `None` where it cannot be applied.
pub open spec fn upgraded<S: Scalar>(h: Seq<Heard<S>>, mode: TimeMode) -> Option<Seq<Heard<S>>> {
    match mode {
        TimeMode::Keep => Some(h),
        TimeMode::Smooth => Some(smoothed(h)),
        _ => None,
    }
}

fn smooth_times<S: Scalar>(start: S, end: S, prev: Option<S>) -> (r: (S, S))
    ensures
        r == smoothed_times(start, end, prev),
{
    let e: S = if end.below(start) {
        start
    } else {
        end
    };
    match prev {
        None => (start, e),
        Some(p) => if start.below(p) {
            (p, if e.below(p) {
                p
            } else {
                e
            })
        } else {
            (start, e)
        },
    }
}

/// Applies a mode to the times of the words. The mode is named in any case and
/// with white space around it.
pub fn upgrade_word_timestamps<S: Scalar>(tokens: Vec<TimedToken<S>>, mode: &str) -> (r: Result<
    Vec<TimedToken<S>>,
    TimeMode,
>)
    ensures
        match r {
            Ok(v) => upgraded(heard(tokens@), time_mode_of(chars::lowercase(chars::trimmed(mode@)))) == Some(
                heard(v@),
            ),
            Err(m) => m == time_mode_of(chars::lowercase(chars::trimmed(mode@))) && upgraded(heard(tokens@), m)
                is None,
        },
{
    upgrade_with_mode(tokens, read_time_mode(chars::to_lower(chars::trim(mode).as_str()).as_str()))
}

/// Applies a mode to the times of the words.
pub fn upgrade_with_mode<S: Scalar>(tokens: Vec<TimedToken<S>>, mode: TimeMode) -> (r: Result<
    Vec<TimedToken<S>>,
    TimeMode,
>)
    ensures
        match r {
            Ok(v) => upgraded(heard(tokens@), mode) == Some(heard(v@)),
            Err(m) => m == mode && upgraded(heard(tokens@), mode) is None,
        },
{
    match mode {
        TimeMode::Keep => Ok(tokens),
        TimeMode::Smooth => Ok(smooth_tokens(tokens)),
        _ => Err(mode),
    }
}

fn smooth_tokens<S: Scalar>(tokens: Vec<TimedToken<S>>) -> (r: Vec<TimedToken<S>>)
    ensures
        heard(r@) == smoothed(heard(tokens@)),
{
    let ghost all = heard(tokens@);
    let mut out: Vec<TimedToken<S>> = Vec::new();
    let mut prev: Option<S> = None;
    let mut i: usize = 0;
    assert(heard(out@) =~= smoothed(all.take(0)));
    while i < tokens.len()
        invariant
            i <= tokens@.len(),
            all == heard(tokens@),
            heard(out@) == smoothed(all.take(i as int)),
            prev == last_end(all.take(i as int)),
        decreases tokens@.len() - i,
    {
        assert(all.take(i as int + 1).drop_last() =~= all.take(i as int));
        assert(all.take(i as int + 1).last() == tokens@[i as int]@);
        let mut start_s: Option<S> = tokens[i].start_s;
        let mut end_s: Option<S> = tokens[i].end_s;
        match (start_s, end_s) {
            (Some(s), Some(e)) => {
                let p = smooth_times(s, e, prev);
                start_s = Some(p.0);
                end_s = Some(p.1);
                prev = Some(p.1);
            },
            _ => {},
        }
        let t = TimedToken {
            raw: tokens[i].raw.clone(),
            simplified: tokens[i].simplified.clone(),
            start_s,
            end_s,
            estimated_time: tokens[i].estimated_time,
        };
        let ghost before = heard(out@);
        out.push(t);
        assert(heard(out@) =~= before.push(t@));
        i = i + 1;
    }
    assert(all.take(i as int) =~= all);
    out
}

/// Smoothed words follow each other: none ends before it starts, and none starts
/// before the end of one in front of it.
pub proof fn law_smoothed_words_follow_each_other<S: Scalar>(h: Seq<Heard<S>>)
    ensures
        smoothed(h).len() == h.len(),
        forall|i: int|
            0 <= i < h.len() && (#[trigger] smoothed(h)[i]).start_s is Some && smoothed(h)[i].end_s is Some ==> smoothed(
                h,
            )[i].start_s->0.rank() <= smoothed(h)[i].end_s->0.rank() && (last_end(h) matches Some(e)
                && smoothed(h)[i].end_s->0.rank() <= e.rank()),
        forall|i: int, j: int|
            0 <= i < j < h.len() && (#[trigger] smoothed(h)[i]).start_s is Some && smoothed(h)[i].end_s is Some && (
            #[trigger] smoothed(h)[j]).start_s is Some && smoothed(h)[j].end_s is Some ==> smoothed(
                h,
            )[i].end_s->0.rank() <= smoothed(h)[j].start_s->0.rank(),
    decreases h.len(),
{
    if h.len() > 0 {
        let p = h.drop_last();
        law_smoothed_words_follow_each_other(p);
        let s = smoothed(h);
        let q = smoothed(p);
        assert(forall|i: int| 0 <= i < p.len() ==> #[trigger] s[i] == q[i]);
    }
}

// ---------------------------------------------------------------------------
// The text to search for

/// The normal forms of the words that have one.
pub open spec fn simplified_forms<S: Scalar>(h: Seq<Heard<S>>) -> Seq<Seq<char>>
    decreases h.len(),
{
    if h.len() == 0 {
        Seq::empty()
    } else {
        let before = simplified_forms(h.drop_last());
        if h.last().simplified.len() == 0 {
            before
        } else {
            before.push(h.last().simplified)
        }
    }
}

/// At most `max` words: the first half of that number and the rest from the
/// end.
pub open spec fn head_and_tail(words: Seq<Seq<char>>, max: nat) -> Seq<Seq<char>> {
    if words.len() <= max {
        words
    } else {
        words.take(max as int / 2) + words.skip(words.len() - (max - max as int / 2))
    }
}

/// A text of at most `max_words` normal forms.
pub fn build_query_text<S: Scalar>(tokens: &[TimedToken<S>], max_words: usize) -> (r: String)
    ensures
        r@ == chars::joined(head_and_tail(simplified_forms(heard(tokens@)), max_words as nat), " "@),
{
    let ghost all = heard(tokens@);
    let mut words: Vec<String> = Vec::new();
    let mut i: usize = 0;
    assert(chars::views(words@) =~= simplified_forms(all.take(0)));
    while i < tokens.len()
        invariant
            i <= tokens@.len(),
            all == heard(tokens@),
            chars::views(words@) == simplified_forms(all.take(i as int)),
        decreases tokens@.len() - i,
    {
        assert(all.take(i as int + 1).drop_last() =~= all.take(i as int));
        assert(all.take(i as int + 1).last() == tokens@[i as int]@);
        if !text::is_blank(tokens[i].simplified.as_str()) {
            let ghost before = chars::views(words@);
            let w = tokens[i].simplified.clone();
            words.push(w);
            assert(chars::views(words@) =~= before.push(w@));
        }
        i = i + 1;
    }
    assert(all.take(i as int) =~= all);
    let ghost forms = chars::views(words@);
    assert(forms.len() == words@.len());
    if words.len() <= max_words {
        return chars::join(&words, " ");
    }
    let head: usize = max_words / 2;
    let from: usize = words.len() - (max_words - head);
    let mut chosen: Vec<String> = Vec::new();
    let mut k: usize = 0;
    while k < head
        invariant
            k <= head <= words@.len(),
            forms == chars::views(words@),
            chars::views(chosen@) == forms.take(k as int),
        decreases head - k,
    {
        let ghost before = chars::views(chosen@);
        let w = words[k].clone();
        chosen.push(w);
        assert(chars::views(chosen@) =~= before.push(w@));
        assert(forms.take(k as int + 1) =~= forms.take(k as int).push(w@));
        k = k + 1;
    }
    let mut j: usize = from;
    assert(chars::views(chosen@) =~= forms.take(head as int) + forms.subrange(from as int, from as int));
    while j < words.len()
        invariant
            head <= words@.len(),
            from <= j <= words@.len(),
            forms == chars::views(words@),
            chars::views(chosen@) == forms.take(head as int) + forms.subrange(from as int, j as int),
        decreases words@.len() - j,
    {
        let ghost before = chars::views(chosen@);
        let w = words[j].clone();
        chosen.push(w);
        assert(chars::views(chosen@) =~= before.push(w@));
        assert(before.push(w@) =~= forms.take(head as int) + forms.subrange(from as int, j as int + 1));
        j = j + 1;
    }
    assert(forms.subrange(from as int, j as int) =~= forms.skip(from as int));
    chars::join(&chosen, " ")
}

// ---------------------------------------------------------------------------
// Laws

/// A segment's word list is used if it holds words, unless it looks broken beside the
/// segment's text and the times of the segment are known: with four words or more in the
/// text less than six tenths of them, or a single one for three or more.
pub proof fn law_broken_word_lists_are_replaced<S: Scalar>(seg: Json<S>)
    ensures
        ({
            let forms = forms_of(chars::words_of(chars::trimmed(Json::text_or_empty(seg.field("text"@)))));
            let listed = match seg.field("words"@) {
                Some(Json::List(items)) => words_heard(items@),
                _ => Seq::empty(),
            };
            let timed = seg.number_field("start_s"@) is Some && seg.number_field("end_s"@) is Some;
            let n = forms.len();
            let broken = (n >= 4 && 10 * listed.len() < 6 * n) || (n >= 3 && listed.len() == 1);
            &&& listed.len() > 0 && !(timed && broken) ==> segment_heard(seg) == listed
            &&& timed && (listed.len() == 0 || broken) ==> segment_heard(seg).len() == n && forall|k: int|
                0 <= k < n ==> (#[trigger] segment_heard(seg)[k]).simplified == forms[k] && segment_heard(
                    seg,
                )[k].estimated_time
            &&& listed.len() == 0 && !timed ==> segment_heard(seg).len() == 0
        }),
{
}

/// Words that are spread over a segment follow each other without gaps, all equally long;
/// the first starts with the segment, and the last ends with it but for a thousandth of a
/// second for each word.
pub proof fn law_spread_words_fill_the_segment(
    forms: Seq<Seq<char>>,
    start: scalar::Thousandths,
    end: scalar::Thousandths,
    k: int,
)
    requires
        0 <= k < forms.len() <= 1_000_000,
        0 <= start.count <= 1_000_000_000_000,
        start.count + forms.len() <= end.count <= 1_000_000_000_000,
    ensures
        ({
            let w = spread_word(forms, start, end, k);
            let first = spread_word(forms, start, end, 0);
            let last = spread_word(forms, start, end, forms.len() - 1);
            let len = first.end_s->0.count - first.start_s->0.count;
            &&& w.start_s is Some && w.end_s is Some && w.estimated_time && w.simplified == forms[k]
            &&& first.start_s->0 == start
            &&& w.end_s->0.count - w.start_s->0.count == len
            &&& k > 0 ==> w.start_s == spread_word(forms, start, end, k - 1).end_s
            &&& end.count - forms.len() < last.end_s->0.count <= end.count
        }),
{
    let n = forms.len() as int;
    let dur = end.count - start.count;
    vstd::arithmetic::div_mod::lemma_div_multiples_vanish_quotient(1000, dur, n);
    assert(1000 * dur == dur * 1000 && 1000 * n == n * 1000);
    let step = dur / n;
    assert(step * n <= dur < step * n + n) by (nonlinear_arith)
        requires
            step == dur / n,
            0 < n,
            0 <= dur,
    ;
    assert(0 < step) by (nonlinear_arith)
        requires
            dur < step * n + n,
            n <= dur,
            0 < n,
    ;
    lemma_spread(forms, start, end, step, k);
    lemma_spread(forms, start, end, step, 0);
    lemma_spread(forms, start, end, step, n - 1);
    if k > 0 {
        lemma_spread(forms, start, end, step, k - 1);
    }
    assert(k * step + step == (k + 1) * step) by (nonlinear_arith);
    assert((n - 1) * step + step == n * step) by (nonlinear_arith);
    assert(n * step == step * n) by (nonlinear_arith);
    assert((k - 1 + 1) * step == k * step);
}

proof fn lemma_spread(
    forms: Seq<Seq<char>>,
    start: scalar::Thousandths,
    end: scalar::Thousandths,
    step: int,
    k: int,
)
    requires
        0 <= k < forms.len() <= 1_000_000,
        0 <= start.count <= 1_000_000_000_000,
        start.count <= end.count <= 1_000_000_000_000,
        0 < step,
        step == ((end.count - start.count) * 1000) / (forms.len() as int * 1000),
        step * forms.len() <= end.count - start.count,
    ensures
        ({
            let w = spread_word(forms, start, end, k);
            w.start_s == Some(scalar::Thousandths { count: (start.count + k * step) as i64 }) && w.end_s == Some(
                scalar::Thousandths { count: (start.count + (k + 1) * step) as i64 },
            ) && 0 <= k * step <= 1_000_000_000_000 && 0 <= (k + 1) * step <= 1_000_000_000_000
        }),
{
    let n = forms.len() as int;
    assert(0 <= k * step <= n * step && 0 <= (k + 1) * step <= n * step) by (nonlinear_arith)
        requires
            0 <= k < n,
            0 < step,
    ;
    assert(n * step == step * n) by (nonlinear_arith);
    assert((k * 1000 * step) / 1000 == k * step) by {
        assert(k * 1000 * step == k * step * 1000) by (nonlinear_arith);
    }
    assert(((k * 1000 + 1000) * step) / 1000 == (k + 1) * step) by {
        assert((k * 1000 + 1000) * step == (k + 1) * step * 1000) by (nonlinear_arith);
    }
}

/// Smoothing moves a word no further than needed: its start up to the latest end before
/// it, and its end up to its start. A word in order keeps its times, and one without
/// both times is left as it is.
pub proof fn law_smoothing_moves_no_further_than_needed<S: Scalar>(h: Seq<Heard<S>>)
    requires
        h.len() > 0,
    ensures
        ({
            let w = h.last();
            let r = smoothed(h).last();
            let front = last_end(h.drop_last());
            &&& smoothed(h).drop_last() == smoothed(h.drop_last())
            &&& r.raw == w.raw && r.simplified == w.simplified && r.estimated_time == w.estimated_time
            &&& w.start_s is None || w.end_s is None ==> r == w
            &&& w.start_s is Some && w.end_s is Some ==> {
                let s = w.start_s->0;
                let e = w.end_s->0;
                &&& r.start_s is Some && r.end_s is Some
                &&& front is None || front->0.rank() <= s.rank() ==> r.start_s == w.start_s
                &&& front is Some && s.rank() < front->0.rank() ==> r.start_s == front
                &&& r.start_s->0.rank() <= e.rank() ==> r.end_s->0.rank() == e.rank()
                &&& e.rank() < r.start_s->0.rank() ==> r.end_s->0.rank() == r.start_s->0.rank()
            }
        }),
{
    assert(smoothed(h).drop_last() =~= smoothed(h.drop_last()));
}

/// The names of the modes for correcting times.
pub proof fn law_time_mode_names(key: Seq<char>)
    ensures
        time_mode_of(key) == TimeMode::Keep <==> key.len() == 0 || key == "0"@ || key == "false"@ || key == "off"@ || key
            == "none"@,
        time_mode_of(key) == TimeMode::Smooth <==> key == "smooth"@ || key == "smoothing"@,
        time_mode_of(key) == TimeMode::Forced <==> key == "whisperx"@ || key == "forced"@,
{
    reveal_strlit("0");
    reveal_strlit("false");
    reveal_strlit("off");
    reveal_strlit("none");
    reveal_strlit("smooth");
    reveal_strlit("smoothing");
    reveal_strlit("whisperx");
    reveal_strlit("forced");
    assert("smooth"@[0] == 's' && "forced"@[0] == 'f');
    assert("smooth"@.len() == 6 && "smoothing"@.len() == 9 && "whisperx"@.len() == 8 && "forced"@.len() == 6);
    assert("0"@.len() == 1 && "false"@.len() == 5 && "off"@.len() == 3 && "none"@.len() == 4);
}

/// Times are kept or smoothed as asked for; the other modes give nothing.
pub proof fn law_upgrades_by_mode<S: Scalar>(h: Seq<Heard<S>>)
    ensures
        upgraded(h, TimeMode::Keep) == Some(h),
        upgraded(h, TimeMode::Smooth) == Some(smoothed(h)),
        upgraded(h, TimeMode::Forced) is None,
        upgraded(h, TimeMode::Unknown) is None,
{
}

/// Of more words than are wanted, the first half and the last ones are kept, as many as
/// are wanted.
pub proof fn law_head_and_tail_are_kept(words: Seq<Seq<char>>, max: nat)
    ensures
        words.len() <= max ==> head_and_tail(words, max) == words,
        words.len() > max ==> {
            let r = head_and_tail(words, max);
            &&& r.len() == max
            &&& forall|i: int| 0 <= i < max as int / 2 ==> #[trigger] r[i] == words[i]
            &&& forall|i: int| max as int / 2 <= i < max ==> #[trigger] r[i] == words[words.len() - max + i]
        },
{
}

/// A word is heard if it has a form, with the times and the form it has.
pub proof fn law_heard_words_have_a_form<S: Scalar>(w: Json<S>)
    ensures
        word_heard(w) is Some <==> text::token_form(chars::trimmed(Json::text_or_empty(w.field("word"@)))).len() > 0
            && chars::trimmed(Json::text_or_empty(w.field("word"@))).len() > 0,
        word_heard(w) matches Some(h) ==> {
            &&& h.raw == chars::trimmed(Json::text_or_empty(w.field("word"@)))
            &&& h.simplified == text::token_form(h.raw)
            &&& h.start_s == w.number_field("start_s"@)
            &&& h.end_s == w.number_field("end_s"@)
            &&& h.estimated_time <==> (w.field("estimated"@) matches Some(v) && v.switch_spec() == Some(true))
        },
{
}

/// The words of a list are heard one by one; one without a form is passed over.
pub proof fn law_listed_words_are_heard<S: Scalar>(words: Seq<Json<S>>, w: Json<S>)
    ensures
        words_heard(Seq::<Json<S>>::empty()).len() == 0,
        word_heard(w) matches Some(h) ==> words_heard(words.push(w)) == words_heard(words).push(h),
        word_heard(w) is None ==> words_heard(words.push(w)) == words_heard(words),
{
    assert(words.push(w).drop_last() =~= words);
}

/// Segments are heard one after the other, each with all its words.
pub proof fn law_segments_are_heard_in_order<S: Scalar>(segs: Seq<Json<S>>, k: nat)
    requires
        k < segs.len(),
    ensures
        segments_heard(segs, 0).len() == 0,
        segments_heard(segs, k + 1).len() == segments_heard(segs, k).len() + segment_heard(segs[k as int]).len(),
        segments_heard(segs, k + 1).take(segments_heard(segs, k).len() as int) == segments_heard(segs, k),
        segments_heard(segs, k + 1).skip(segments_heard(segs, k).len() as int) == segment_heard(segs[k as int]),
{
    let a = segments_heard(segs, k);
    let b = segment_heard(segs[k as int]);
    assert((a + b).take(a.len() as int) =~= a);
    assert((a + b).skip(a.len() as int) =~= b);
}

/// The forms of words are those that are not empty, in their order.
pub proof fn law_empty_forms_are_left_out(words: Seq<Seq<char>>)
    ensures
        forms_of(words) == words.map_values(|w: Seq<char>| text::token_form(w)).filter(|f: Seq<char>| f.len() > 0),
    decreases words.len(),
{
    reveal(Seq::filter);
    let f = |w: Seq<char>| text::token_form(w);
    if words.len() > 0 {
        law_empty_forms_are_left_out(words.drop_last());
        assert(words.map_values(f).drop_last() =~= words.drop_last().map_values(f));
    }
}

/// The forms of what was heard are those that are not empty, in their order.
pub proof fn law_heard_forms_are_kept<S: Scalar>(h: Seq<Heard<S>>)
    ensures
        simplified_forms(h) == h.map_values(|t: Heard<S>| t.simplified).filter(|f: Seq<char>| f.len() > 0),
    decreases h.len(),
{
    reveal(Seq::filter);
    let f = |t: Heard<S>| t.simplified;
    if h.len() > 0 {
        law_heard_forms_are_kept(h.drop_last());
        assert(h.map_values(f).drop_last() =~= h.drop_last().map_values(f));
    }
}

/// Smoothing moves times only: each word stays, with its form.
pub proof fn law_smoothing_keeps_the_words<S: Scalar>(h: Seq<Heard<S>>)
    ensures
        smoothed(h).len() == h.len(),
        forall|i: int|
            0 <= i < h.len() ==> (#[trigger] smoothed(h)[i]).raw == h[i].raw && smoothed(h)[i].simplified
                == h[i].simplified && smoothed(h)[i].estimated_time == h[i].estimated_time,
    decreases h.len(),
{
    if h.len() > 0 {
        let d = h.drop_last();
        law_smoothing_keeps_the_words(d);
        assert forall|i: int| 0 <= i < h.len() implies (#[trigger] smoothed(h)[i]).raw == h[i].raw && smoothed(h)[i].simplified
            == h[i].simplified && smoothed(h)[i].estimated_time == h[i].estimated_time by {
            if i < d.len() {
                assert(smoothed(h)[i] == smoothed(d)[i]);
                assert(d[i] == h[i]);
            }
        }
    }
}

} // verus!
