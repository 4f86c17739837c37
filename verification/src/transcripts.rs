//! Transcripts as text files: segments in brackets with their times, and below
//! each the words with theirs.

use vstd::prelude::*;

use crate::chars;
use crate::grouping;
use crate::json::Json;
use crate::scalar;
use crate::scalar::Scalar;
use crate::sorting;
use crate::sorting::Keyed;
use crate::timed;

verus! {

// ---------------------------------------------------------------------------
// Timestamps

/// What keeps a text from being a number.
#[derive(Clone, Copy, Debug, PartialEq, Eq, Structural)]
pub enum NumberFault {
    Empty,
    /// It holds a character that is no digit.
    Digit,
    TooLarge,
    TooSmall,
}

#[derive(Clone, Copy, Debug, PartialEq, Eq, Structural)]
pub enum TimestampError {
    /// Not of the form `h:m:s.ms`.
    Shape,
    /// The milliseconds are no number.
    Millis,
    /// Hours, minutes or seconds are no number.
    Number(NumberFault),
}

/// The number that a text spells: decimal digits, with a sign in front or
/// without.
pub open spec fn spelled_i64(s: Seq<char>) -> Option<int> {
    if s.len() > 0 && s[0] == '-' {
        let t = s.skip(1);
        if t.len() == 0 || t[0] == '+' {
            None
        } else {
            match chars::spelled_number(t, 0x8000_0000_0000_0000) {
                Some(n) => Some(-(n as int)),
                None => None,
            }
        }
    } else {
        match chars::spelled_number(s, i64::MAX as nat) {
            Some(n) => Some(n as int),
            None => None,
        }
    }
}

pub fn parse_i64(s: &str) -> (r: Option<i64>)
    ensures
        match r {
            None => spelled_i64(s@) is None,
            Some(v) => spelled_i64(s@) == Some(v as int),
        },
{
    let cs = chars::to_chars(s);
    if cs.len() > 0 && cs[0] == '-' {
        if cs.len() == 1 || cs[1] == '+' {
            return None;
        }
        let t = chars::from_chars(&cs, 1, cs.len());
        assert(t@ =~= s@.skip(1));
        match chars::parse_number(t.as_str(), 0x8000_0000_0000_0000) {
            Some(n) => if n == 0x8000_0000_0000_0000 {
                Some(i64::MIN)
            } else {
                Some(-(n as i64))
            },
            None => None,
        }
    } else {
        match chars::parse_number(s, i64::MAX as u64) {
            Some(n) => Some(n as i64),
            None => None,
        }
    }
}

/// The first fault in what should be digits of a number up to `max`: a character that
/// is no digit, or else the digit at which the number becomes too long for it, which is
/// the fault `over`.
pub open spec fn digits_fault(d: Seq<char>, max: nat, over: NumberFault) -> Option<NumberFault>
    decreases d.len(),
{
    if d.len() == 0 {
        None
    } else {
        match digits_fault(d.drop_last(), max, over) {
            Some(f) => Some(f),
            None => match chars::digits_value(d) {
                None => Some(NumberFault::Digit),
                Some(v) => if v > max {
                    Some(over)
                } else {
                    None
                },
            },
        }
    }
}

/// What keeps a text from being a number.
pub open spec fn number_fault(s: Seq<char>) -> Option<NumberFault> {
    if s.len() == 0 {
        Some(NumberFault::Empty)
    } else if s.len() == 1 && (s[0] == '-' || s[0] == '+') {
        Some(NumberFault::Digit)
    } else if s[0] == '-' {
        digits_fault(s.skip(1), 0x8000_0000_0000_0000, NumberFault::TooSmall)
    } else if s[0] == '+' {
        digits_fault(s.skip(1), i64::MAX as nat, NumberFault::TooLarge)
    } else {
        digits_fault(s, i64::MAX as nat, NumberFault::TooLarge)
    }
}

proof fn lemma_digits_fault(d: Seq<char>, max: nat, over: NumberFault)
    ensures
        digits_fault(d, max, over) is None <==> (chars::digits_value(d) matches Some(v) && v <= max),
    decreases d.len(),
{
    if d.len() > 0 {
        lemma_digits_fault(d.drop_last(), max, over);
    }
}

/// A text is a number exactly if nothing keeps it from being one.
pub proof fn law_numbers_have_no_fault(s: Seq<char>)
    ensures
        number_fault(s) is None <==> spelled_i64(s) is Some,
{
    if s.len() > 0 {
        lemma_digits_fault(s, i64::MAX as nat, NumberFault::TooLarge);
        lemma_digits_fault(s.skip(1), i64::MAX as nat, NumberFault::TooLarge);
        lemma_digits_fault(s.skip(1), 0x8000_0000_0000_0000, NumberFault::TooSmall);
        let t = s.skip(1);
        if t.len() > 0 && chars::digits_value(t) is Some {
            chars::lemma_digits_grow(t, 1);
            assert(t.take(1).last() == t[0]);
        }
    }
}

fn find_digits_fault(cs: &Vec<char>, from: usize, max: u64, over: NumberFault) -> (r: Option<NumberFault>)
    requires
        from <= cs@.len(),
    ensures
        r == digits_fault(cs@.skip(from as int), max as nat, over),
{
    let ghost d = cs@.skip(from as int);
    let mut v: u64 = 0;
    let mut i: usize = from;
    assert(d.take(0) =~= Seq::<char>::empty());
    while i < cs.len()
        invariant
            from <= i <= cs@.len(),
            d == cs@.skip(from as int),
            digits_fault(d.take(i - from), max as nat, over) is None,
            chars::digits_value(d.take(i - from)) == Some(v as nat),
            v <= max,
        decreases cs@.len() - i,
    {
        let c: char = cs[i];
        proof {
            assert(d[i - from] == c);
            assert(d.take(i + 1 - from).drop_last() =~= d.take(i - from));
            assert(d.take(i + 1 - from).last() == c);
        }
        if c < '0' || c > '9' {
            proof {
                assert(digits_fault(d.take(i + 1 - from), max as nat, over) == Some(NumberFault::Digit));
                lemma_fault_stays(d, max as nat, over, i + 1 - from);
            }
            return Some(NumberFault::Digit);
        }
        let x: u64 = (c as u32 - 48) as u64;
        if v > max / 10 || x > max || v * 10 > max - x {
            proof {
                assert(digits_fault(d.take(i + 1 - from), max as nat, over) == Some(over));
                lemma_fault_stays(d, max as nat, over, i + 1 - from);
            }
            return Some(over);
        }
        v = v * 10 + x;
        i = i + 1;
    }
    assert(d.take(i - from) =~= d);
    None
}

proof fn lemma_fault_stays(d: Seq<char>, max: nat, over: NumberFault, k: int)
    requires
        0 <= k <= d.len(),
        digits_fault(d.take(k), max, over) is Some,
    ensures
        digits_fault(d, max, over) == digits_fault(d.take(k), max, over),
    decreases d.len() - k,
{
    if k == d.len() {
        assert(d.take(k) =~= d);
    } else {
        assert(d.take(k + 1).drop_last() =~= d.take(k));
        lemma_fault_stays(d, max, over, k + 1);
    }
}

/// What keeps a text from being a number.
pub fn find_number_fault(s: &str) -> (r: Option<NumberFault>)
    ensures
        r == number_fault(s@),
{
    let cs = chars::to_chars(s);
    if cs.len() == 0 {
        return Some(NumberFault::Empty);
    }
    assert(cs@.skip(0) =~= cs@);
    if cs.len() == 1 && (cs[0] == '-' || cs[0] == '+') {
        Some(NumberFault::Digit)
    } else if cs[0] == '-' {
        find_digits_fault(&cs, 1, 0x8000_0000_0000_0000, NumberFault::TooSmall)
    } else if cs[0] == '+' {
        find_digits_fault(&cs, 1, i64::MAX as u64, NumberFault::TooLarge)
    } else {
        find_digits_fault(&cs, 0, i64::MAX as u64, NumberFault::TooLarge)
    }
}

/// A whole number as a scalar.
pub open spec fn signed<S: Scalar>(i: int) -> S {
    if i >= 0 {
        S::whole_spec(i as nat)
    } else {
        S::whole_spec(0).minus_spec(S::whole_spec((-i) as nat))
    }
}

pub fn from_i64<S: Scalar>(i: i64) -> (r: S)
    ensures
        r == signed::<S>(i as int),
{
    if i >= 0 {
        S::whole(i as u64)
    } else if i == i64::MIN {
        S::whole(0).minus(S::whole(0x8000_0000_0000_0000))
    } else {
        S::whole(0).minus(S::whole((-i) as u64))
    }
}

/// The seconds of hours, minutes, seconds and milliseconds.
pub open spec fn clock_time<S: Scalar>(h: int, m: int, s: int, ms: int) -> S {
    signed::<S>(h).times_spec(S::whole_spec(3600)).plus_spec(
        signed::<S>(m).times_spec(S::whole_spec(60)),
    ).plus_spec(signed::<S>(s)).plus_spec(signed::<S>(ms).over_spec(S::whole_spec(1000)))
}

/// The first fault among three texts, one of which is no number.
pub open spec fn first_number_fault(parts: Seq<Seq<char>>) -> NumberFault {
    match (number_fault(parts[0]), number_fault(parts[1]), number_fault(parts[2])) {
        (Some(f), _, _) => f,
        (None, Some(f), _) => f,
        (None, None, Some(f)) => f,
        (None, None, None) => NumberFault::Digit,
    }
}

/// The seconds of a timestamp `h:m:s.ms`.
pub open spec fn time_of<S: Scalar>(ts: Seq<char>) -> Result<S, TimestampError> {
    let t = chars::trimmed(ts);
    match chars::index_of_char(t, '.') {
        None => Err(TimestampError::Shape),
        Some(k) => match spelled_i64(t.skip(k as int + 1)) {
            None => Err(TimestampError::Millis),
            Some(ms) => {
                let parts = chars::split_on(t.take(k as int), ':');
                if parts.len() != 3 {
                    Err(TimestampError::Shape)
                } else {
                    match (spelled_i64(parts[0]), spelled_i64(parts[1]), spelled_i64(parts[2])) {
                        (Some(h), Some(m), Some(s)) => Ok(clock_time::<S>(h, m, s, ms)),
                        _ => Err(TimestampError::Number(first_number_fault(parts))),
                    }
                }
            },
        },
    }
}

pub fn parse_ts<S: Scalar>(ts: &str) -> (r: Result<S, TimestampError>)
    ensures
        r == time_of::<S>(ts@),
{
    let t = chars::trim(ts);
    let cs = chars::to_chars(t.as_str());
    let total: usize = cs.len();
    assert(cs@.skip(0) =~= cs@);
    let k: usize = match chars::find_char(&cs, 0, '.') {
        Some(k) => k,
        None => return Err(TimestampError::Shape),
    };
    let tail = chars::from_chars(&cs, k + 1, total);
    assert(tail@ =~= t@.skip(k as int + 1));
    let ms: i64 = match parse_i64(tail.as_str()) {
        Some(v) => v,
        None => return Err(TimestampError::Millis),
    };
    let head = chars::from_chars(&cs, 0, k);
    assert(head@ =~= t@.take(k as int));
    let parts = chars::split(head.as_str(), ':');
    let ghost views = chars::views(parts@);
    if parts.len() != 3 {
        return Err(TimestampError::Shape);
    }
    proof {
        assert(views[0] == parts@[0]@);
        assert(views[1] == parts@[1]@);
        assert(views[2] == parts@[2]@);
    }
    match (parse_i64(parts[0].as_str()), parse_i64(parts[1].as_str()), parse_i64(parts[2].as_str())) {
        (Some(h), Some(m), Some(s)) => {
            let hours: S = from_i64::<S>(h).times(S::whole(3600));
            let minutes: S = from_i64::<S>(m).times(S::whole(60));
            Ok(hours.plus(minutes).plus(from_i64(s)).plus(from_i64::<S>(ms).over(S::whole(1000))))
        },
        _ => {
            let f = match find_number_fault(parts[0].as_str()) {
                Some(f) => f,
                None => match find_number_fault(parts[1].as_str()) {
                    Some(f) => f,
                    None => match find_number_fault(parts[2].as_str()) {
                        Some(f) => f,
                        None => NumberFault::Digit,
                    },
                },
            };
            Err(TimestampError::Number(f))
        },
    }
}

// ---------------------------------------------------------------------------
// Segments and words

pub struct TranscriptWord<S> {
    pub start_s: S,
    pub end_s: S,
    pub start_ts: String,
    pub end_ts: String,
    pub word: String,
}

pub struct TranscriptSegment<S> {
    pub start_s: S,
    pub end_s: S,
    pub start_ts: String,
    pub end_ts: String,
    pub text: String,
    pub words: Vec<TranscriptWord<S>>,
}

/// A word of a transcript.
pub struct WordLine<S> {
    pub start_s: S,
    pub end_s: S,
    pub start_ts: Seq<char>,
    pub end_ts: Seq<char>,
    pub word: Seq<char>,
}

/// A segment of a transcript.
pub struct SegmentLines<S> {
    pub start_s: S,
    pub end_s: S,
    pub start_ts: Seq<char>,
    pub end_ts: Seq<char>,
    pub text: Seq<char>,
    pub words: Seq<WordLine<S>>,
}

impl<S: Scalar> View for TranscriptWord<S> {
    type V = WordLine<S>;

    open spec fn view(&self) -> WordLine<S> {
        WordLine {
            start_s: self.start_s,
            end_s: self.end_s,
            start_ts: self.start_ts@,
            end_ts: self.end_ts@,
            word: self.word@,
        }
    }
}

pub open spec fn word_lines<S: Scalar>(words: Seq<TranscriptWord<S>>) -> Seq<WordLine<S>> {
    words.map_values(|w: TranscriptWord<S>| w@)
}

impl<S: Scalar> View for TranscriptSegment<S> {
    type V = SegmentLines<S>;

    open spec fn view(&self) -> SegmentLines<S> {
        SegmentLines {
            start_s: self.start_s,
            end_s: self.end_s,
            start_ts: self.start_ts@,
            end_ts: self.end_ts@,
            text: self.text@,
            words: word_lines(self.words@),
        }
    }
}

pub open spec fn segment_lines<S: Scalar>(segs: Seq<TranscriptSegment<S>>) -> Seq<SegmentLines<S>> {
    segs.map_values(|x: TranscriptSegment<S>| x@)
}

#[derive(Clone, Copy, Debug, PartialEq, Eq, Structural)]
pub enum TranscriptFault {
    /// A segment's line has no two times in its brackets.
    Header,
    Time(TimestampError),
}

/// Why a transcript cannot be read: the fault, and the line or the timestamp in which
/// it is.
#[derive(Clone, Debug, PartialEq, Eq)]
pub struct TranscriptError {
    pub fault: TranscriptFault,
    pub text: String,
}

impl View for TranscriptError {
    type V = (TranscriptFault, Seq<char>);

    open spec fn view(&self) -> (TranscriptFault, Seq<char>) {
        (self.fault, self.text@)
    }
}

/// What is read of a transcript so far.
pub struct Reading<S> {
    pub segments: Seq<SegmentLines<S>>,
    pub parts: Seq<Seq<char>>,
    pub starts: Seq<S>,
}

pub open spec fn nothing_read<S>() -> Reading<S> {
    Reading { segments: Seq::empty(), parts: Seq::empty(), starts: Seq::empty() }
}

pub open spec fn contains_text(s: Seq<char>, t: Seq<char>) -> bool {
    chars::index_of_text(s, t) is Some
}

/// A line that begins a segment: it begins with a bracket, and holds a closing one
/// and an arrow.
pub open spec fn is_header(line: Seq<char>) -> bool {
    line.len() > 0 && line[0] == '[' && chars::index_of_char(line, ']') is Some && contains_text(line, "-->"@)
}

/// Without the brackets in front.
pub open spec fn without_brackets(s: Seq<char>) -> Seq<char>
    decreases s.len(),
{
    if s.len() > 0 && s[0] == '[' {
        without_brackets(s.skip(1))
    } else {
        s
    }
}

/// What stands in front of an arrow and what behind it.
pub open spec fn around_arrow(s: Seq<char>) -> Option<(Seq<char>, Seq<char>)> {
    match chars::index_of_text(s, "-->"@) {
        None => None,
        Some(k) => Some((chars::trimmed(s.take(k as int)), chars::trimmed(s.skip(k as int + 3)))),
    }
}

/// The segment that a line begins, without words.
pub open spec fn header_of<S: Scalar>(line: Seq<char>) -> Result<SegmentLines<S>, (TranscriptFault, Seq<char>)> {
    let k = chars::index_of_char(line, ']')->0 as int;
    match around_arrow(chars::trimmed(without_brackets(line.take(k)))) {
        None => Err((TranscriptFault::Header, line)),
        Some((a, b)) => match (time_of::<S>(a), time_of::<S>(b)) {
            (Err(e), _) => Err((TranscriptFault::Time(e), a)),
            (_, Err(e)) => Err((TranscriptFault::Time(e), b)),
            (Ok(start_s), Ok(end_s)) => Ok(
                SegmentLines {
                    start_s,
                    end_s,
                    start_ts: a,
                    end_ts: b,
                    text: chars::trimmed(line.skip(k + 1)),
                    words: Seq::empty(),
                },
            ),
        },
    }
}

/// The first word of `s` up to a space, and the rest.
pub open spec fn around_space(s: Seq<char>) -> (Seq<char>, Seq<char>) {
    match chars::index_of_char(s, ' ') {
        None => (chars::trimmed(s), Seq::empty()),
        Some(k) => (chars::trimmed(s.take(k as int)), chars::trimmed(s.skip(k as int + 1))),
    }
}

/// The word that a line holds, if it holds one.
pub open spec fn word_of<S: Scalar>(line: Seq<char>) -> Result<Option<WordLine<S>>, (TranscriptFault, Seq<char>)> {
    match around_arrow(chars::trimmed(line)) {
        None => Ok(None),
        Some((left, right)) => {
            let (end_ts, word) = around_space(right);
            if end_ts.len() == 0 || word.len() == 0 {
                Ok(None)
            } else {
                match (time_of::<S>(left), time_of::<S>(end_ts)) {
                    (Err(e), _) => Err((TranscriptFault::Time(e), left)),
                    (_, Err(e)) => Err((TranscriptFault::Time(e), end_ts)),
                    (Ok(start_s), Ok(end_s)) => Ok(
                        Some(WordLine { start_s, end_s, start_ts: left, end_ts, word }),
                    ),
                }
            }
        },
    }
}

pub open spec fn with_word<S>(x: SegmentLines<S>, w: WordLine<S>) -> SegmentLines<S> {
    SegmentLines { words: x.words.push(w), ..x }
}

/// What is read after one more line. Blank lines, lines without an arrow, and
/// words in front of the first segment are passed over.
pub open spec fn read_line<S: Scalar>(st: Reading<S>, raw_line: Seq<char>) -> Result<
    Reading<S>,
    (TranscriptFault, Seq<char>),
> {
    let line = chars::trim_end(raw_line);
    if chars::trimmed(line).len() == 0 {
        Ok(st)
    } else if is_header(line) {
        match header_of::<S>(line) {
            Err(e) => Err(e),
            Ok(x) => Ok(
                Reading {
                    segments: st.segments.push(x),
                    parts: if x.text.len() == 0 {
                        st.parts
                    } else {
                        st.parts.push(x.text)
                    },
                    starts: st.starts,
                },
            ),
        }
    } else if st.segments.len() == 0 || !contains_text(line, "-->"@) {
        Ok(st)
    } else {
        match word_of::<S>(line) {
            Err(e) => Err(e),
            Ok(None) => Ok(st),
            Ok(Some(w)) => Ok(
                Reading {
                    segments: st.segments.drop_last().push(with_word(st.segments.last(), w)),
                    parts: st.parts,
                    starts: st.starts.push(w.start_s),
                },
            ),
        }
    }
}

/// What is read after the first `n` lines, up to the first error.
pub open spec fn read_lines<S: Scalar>(lines: Seq<Seq<char>>, n: nat) -> Result<
    Reading<S>,
    (TranscriptFault, Seq<char>),
>
    decreases n,
{
    if n == 0 {
        Ok(nothing_read())
    } else {
        match read_lines::<S>(lines, (n - 1) as nat) {
            Err(e) => Err(e),
            Ok(st) => read_line(st, lines[n - 1]),
        }
    }
}

/// A transcript with its segments in the order of the file.
pub struct Transcript<S> {
    pub segments: Vec<TranscriptSegment<S>>,
    pub text: String,
    /// When the words start, in order.
    pub word_starts: Vec<S>,
}

fn strip_brackets(s: &str) -> (r: String)
    ensures
        r@ == without_brackets(s@),
{
    let cs = chars::to_chars(s);
    let mut lo: usize = 0;
    assert(cs@.skip(0) =~= cs@);
    while lo < cs.len() && cs[lo] == '['
        invariant
            lo <= cs@.len(),
            without_brackets(cs@) == without_brackets(cs@.skip(lo as int)),
        ensures
            lo <= cs@.len(),
            without_brackets(cs@) == cs@.skip(lo as int),
        decreases cs@.len() - lo,
    {
        proof {
            assert(cs@.skip(lo as int)[0] == cs@[lo as int]);
            assert(cs@.skip(lo as int).skip(1) =~= cs@.skip(lo as int + 1));
        }
        lo = lo + 1;
    }
    assert(cs@.subrange(lo as int, cs@.len() as int) =~= cs@.skip(lo as int));
    chars::from_chars(&cs, lo, cs.len())
}

fn strip_end(s: &str) -> (r: String)
    ensures
        r@ == chars::trim_end(s@),
{
    let cs = chars::to_chars(s);
    let mut hi: usize = cs.len();
    assert(cs@.take(hi as int) =~= cs@);
    while hi > 0 && chars::is_space(cs[hi - 1])
        invariant
            hi <= cs@.len(),
            chars::trim_end(cs@) == chars::trim_end(cs@.take(hi as int)),
        ensures
            hi <= cs@.len(),
            chars::trim_end(cs@) == cs@.take(hi as int),
        decreases hi,
    {
        proof {
            assert(cs@.take(hi as int).last() == cs@[hi - 1]);
            assert(cs@.take(hi as int).drop_last() =~= cs@.take(hi - 1));
        }
        hi = hi - 1;
    }
    assert(cs@.subrange(0, hi as int) =~= cs@.take(hi as int));
    chars::from_chars(&cs, 0, hi)
}

fn split_arrow(s: &str) -> (r: Option<(String, String)>)
    ensures
        match r {
            None => around_arrow(s@) is None,
            Some((a, b)) => around_arrow(s@) == Some((a@, b@)),
        },
{
    let cs = chars::to_chars(s);
    match chars::find_text(&cs, "-->") {
        None => None,
        Some(k) => {
            proof {
                reveal_strlit("-->");
            }
            let a = chars::from_chars(&cs, 0, k);
            let b = chars::from_chars(&cs, k + 3, cs.len());
            assert(a@ =~= s@.take(k as int));
            assert(b@ =~= s@.skip(k as int + 3));
            Some((chars::trim(a.as_str()), chars::trim(b.as_str())))
        },
    }
}

fn split_space(s: &str) -> (r: (String, String))
    ensures
        (r.0@, r.1@) == around_space(s@),
{
    let cs = chars::to_chars(s);
    let total: usize = cs.len();
    assert(cs@.skip(0) =~= cs@);
    match chars::find_char(&cs, 0, ' ') {
        None => {
            let rest = String::new();
            assert(rest@ =~= Seq::<char>::empty());
            (chars::trim(s), rest)
        },
        Some(k) => {
            let a = chars::from_chars(&cs, 0, k);
            let b = chars::from_chars(&cs, k + 1, total);
            assert(a@ =~= s@.take(k as int));
            assert(b@ =~= s@.skip(k as int + 1));
            (chars::trim(a.as_str()), chars::trim(b.as_str()))
        },
    }
}

fn read_header<S: Scalar>(line: &str) -> (r: Result<TranscriptSegment<S>, TranscriptError>)
    requires
        is_header(line@),
    ensures
        match r {
            Err(e) => header_of::<S>(line@) == Err::<SegmentLines<S>, (TranscriptFault, Seq<char>)>(e@),
            Ok(x) => header_of::<S>(line@) == Ok::<SegmentLines<S>, (TranscriptFault, Seq<char>)>(x@),
        },
{
    let cs = chars::to_chars(line);
    let total: usize = cs.len();
    assert(cs@.skip(0) =~= cs@);
    let k: usize = match chars::find_char(&cs, 0, ']') {
        Some(k) => k,
        None => return Err(TranscriptError { fault: TranscriptFault::Header, text: line.to_owned() }),
    };
    let head = chars::from_chars(&cs, 0, k);
    assert(head@ =~= line@.take(k as int));
    let inner = chars::trim(strip_brackets(head.as_str()).as_str());
    let (a, b) = match split_arrow(inner.as_str()) {
        Some(p) => p,
        None => return Err(TranscriptError { fault: TranscriptFault::Header, text: line.to_owned() }),
    };
    let start_s: S = match parse_ts::<S>(a.as_str()) {
        Ok(t) => t,
        Err(e) => return Err(TranscriptError { fault: TranscriptFault::Time(e), text: a }),
    };
    let end_s: S = match parse_ts::<S>(b.as_str()) {
        Ok(t) => t,
        Err(e) => return Err(TranscriptError { fault: TranscriptFault::Time(e), text: b }),
    };
    let rest = chars::from_chars(&cs, k + 1, total);
    assert(rest@ =~= line@.skip(k as int + 1));
    let x = TranscriptSegment {
        start_s,
        end_s,
        start_ts: a,
        end_ts: b,
        text: chars::trim(rest.as_str()),
        words: Vec::new(),
    };
    assert(word_lines(x.words@) =~= Seq::<WordLine<S>>::empty());
    Ok(x)
}

fn read_word<S: Scalar>(line: &str) -> (r: Result<Option<TranscriptWord<S>>, TranscriptError>)
    ensures
        match r {
            Err(e) => word_of::<S>(line@) == Err::<Option<WordLine<S>>, (TranscriptFault, Seq<char>)>(e@),
            Ok(None) => word_of::<S>(line@) == Ok::<Option<WordLine<S>>, (TranscriptFault, Seq<char>)>(None),
            Ok(Some(w)) => word_of::<S>(line@) == Ok::<Option<WordLine<S>>, (TranscriptFault, Seq<char>)>(Some(w@)),
        },
{
    let (left, right) = match split_arrow(chars::trim(line).as_str()) {
        Some(p) => p,
        None => return Ok(None),
    };
    let (end_ts, word) = split_space(right.as_str());
    if end_ts.as_str().is_empty() || word.as_str().is_empty() {
        return Ok(None);
    }
    let start_s: S = match parse_ts::<S>(left.as_str()) {
        Ok(t) => t,
        Err(e) => return Err(TranscriptError { fault: TranscriptFault::Time(e), text: left }),
    };
    let end_s: S = match parse_ts::<S>(end_ts.as_str()) {
        Ok(t) => t,
        Err(e) => return Err(TranscriptError { fault: TranscriptFault::Time(e), text: end_ts }),
    };
    Ok(Some(TranscriptWord { start_s, end_s, start_ts: left, end_ts, word }))
}

// ---------------------------------------------------------------------------
// Order of times

/// A time as it is sorted.
pub struct TimeKey<S> {
    pub t: S,
}

impl<S: Copy> Clone for TimeKey<S> {
    fn clone(&self) -> (r: Self)
        ensures
            r == *self,
    {
        *self
    }
}

impl<S: Copy> Copy for TimeKey<S> {

}

impl<S: Scalar> Keyed for TimeKey<S> {
    open spec fn key(self) -> (int, int) {
        (self.t.rank(), 0)
    }

    fn before(&self, other: &Self) -> (r: bool) {
        self.t.below(other.t)
    }
}

pub open spec fn time_keys<S: Scalar>(times: Seq<S>) -> Seq<TimeKey<S>> {
    times.map_values(|t: S| TimeKey { t })
}

/// The times in order.
pub open spec fn sorted_times<S: Scalar>(times: Seq<S>) -> Seq<S> {
    sorting::sorted(time_keys(times)).map_values(|k: TimeKey<S>| k.t)
}

pub fn sort_times<S: Scalar>(times: &[S]) -> (r: Vec<S>)
    ensures
        r@ == sorted_times(times@),
{
    let mut keys: Vec<TimeKey<S>> = Vec::new();
    let mut i: usize = 0;
    while i < times.len()
        invariant
            i <= times@.len(),
            keys@ == time_keys(times@).take(i as int),
        decreases times@.len() - i,
    {
        keys.push(TimeKey { t: times[i] });
        assert(keys@ =~= time_keys(times@).take(i as int + 1));
        i = i + 1;
    }
    assert(keys@ =~= time_keys(times@));
    let order = sorting::sort(&keys);
    let mut out: Vec<S> = Vec::new();
    let mut k: usize = 0;
    while k < order.len()
        invariant
            k <= order@.len(),
            order@ == sorting::sorted(time_keys(times@)),
            out@ == sorted_times(times@).take(k as int),
        decreases order@.len() - k,
    {
        out.push(order[k].t);
        assert(out@ =~= sorted_times(times@).take(k as int + 1));
        k = k + 1;
    }
    assert(out@ =~= sorted_times(times@));
    out
}

/// Sorted times are the same as before and do not go back.
pub proof fn law_sorted_times<S: Scalar>(times: Seq<S>)
    ensures
        sorted_times(times).len() == times.len(),
        sorted_times(times).to_multiset() == times.to_multiset(),
        forall|i: int, j: int|
            0 <= i < j < times.len() ==> (#[trigger] sorted_times(times)[i]).rank() <= (#[trigger] sorted_times(
                times,
            )[j]).rank(),
{
    let keys = time_keys(times);
    let s = sorting::sorted(keys);
    sorting::lemma_sorted_len(keys);
    sorting::law_sorted_is_in_order(keys);
    let f = |k: TimeKey<S>| k.t;
    sorting::law_sorting_keeps_values(keys, f);
    assert(keys.map_values(f) =~= times);
    assert(sorted_times(times) =~= s.map_values(f));
    assert forall|i: int, j: int| 0 <= i < j < times.len() implies (#[trigger] sorted_times(times)[i]).rank() <= (
    #[trigger] sorted_times(times)[j]).rank() by {
        assert(!sorting::key_before(s[j].key(), s[i].key()));
    }
}

// ---------------------------------------------------------------------------
// Whole transcripts

/// The transcript that a file holds, or the first error in it.
pub open spec fn is_transcript<S: Scalar>(raw: Seq<char>, r: Result<Transcript<S>, TranscriptError>) -> bool {
    let lines = chars::split_on(raw, '\n');
    match (read_lines::<S>(lines, lines.len()), r) {
        (Err(e), Err(f)) => e == f@,
        (Ok(st), Ok(t)) => {
            &&& segment_lines(t.segments@) == st.segments
            &&& t.text@ == chars::trimmed(chars::joined(st.parts, " "@))
            &&& t.word_starts@ == sorted_times(st.starts)
        },
        _ => false,
    }
}

proof fn lemma_error_stays<S: Scalar>(lines: Seq<Seq<char>>, k: nat, n: nat)
    requires
        k <= n,
        read_lines::<S>(lines, k) is Err,
    ensures
        read_lines::<S>(lines, n) == read_lines::<S>(lines, k),
    decreases n - k,
{
    if k < n {
        lemma_error_stays::<S>(lines, k, (n - 1) as nat);
    }
}

fn add_word<S: Scalar>(segments: &mut Vec<TranscriptSegment<S>>, w: TranscriptWord<S>)
    requires
        old(segments)@.len() > 0,
    ensures
        segment_lines(final(segments)@) == segment_lines(old(segments)@).drop_last().push(
            with_word(segment_lines(old(segments)@).last(), w@),
        ),
{
    let ghost before = segments@;
    match segments.pop() {
        Some(x) => {
            let mut x = x;
            let ghost words = word_lines(x.words@);
            let ghost wv = w@;
            x.words.push(w);
            proof {
                assert(word_lines(x.words@) =~= words.push(wv));
                assert(segment_lines(before).last() == before.last()@);
                assert(segment_lines(before).drop_last() =~= segment_lines(before.drop_last()));
            }
            let ghost xv = x@;
            segments.push(x);
            assert(segment_lines(segments@) =~= segment_lines(before.drop_last()).push(xv));
        },
        None => {},
    }
}

/// Reads a transcript.
pub fn parse_transcript_txt<S: Scalar>(raw: &str) -> (r: Result<Transcript<S>, TranscriptError>)
    ensures
        is_transcript(raw@, r),
{
    let lines = chars::split(raw, '\n');
    let ghost all = chars::views(lines@);
    let mut segments: Vec<TranscriptSegment<S>> = Vec::new();
    let mut parts: Vec<String> = Vec::new();
    let mut starts: Vec<S> = Vec::new();
    let mut i: usize = 0;
    proof {
        assert(segment_lines(segments@) =~= Seq::<SegmentLines<S>>::empty());
        assert(chars::views(parts@) =~= Seq::<Seq<char>>::empty());
    }
    while i < lines.len()
        invariant
            i <= lines@.len(),
            all == chars::views(lines@),
            all == chars::split_on(raw@, '\n'),
            read_lines::<S>(all, i as nat) == Ok::<Reading<S>, (TranscriptFault, Seq<char>)>(
                Reading { segments: segment_lines(segments@), parts: chars::views(parts@), starts: starts@ },
            ),
        decreases lines@.len() - i,
    {
        let ghost st = Reading { segments: segment_lines(segments@), parts: chars::views(parts@), starts: starts@ };
        proof {
            assert(all[i as int] == lines@[i as int]@);
            assert(read_lines::<S>(all, (i + 1) as nat) == read_line(st, all[i as int]));
        }
        let line = strip_end(lines[i].as_str());
        if !chars::trim(line.as_str()).as_str().is_empty() {
            let cs = chars::to_chars(line.as_str());
            assert(cs@.skip(0) =~= cs@);
            let arrow: bool = chars::find_text(&cs, "-->").is_some();
            if cs.len() > 0 && cs[0] == '[' && chars::find_char(&cs, 0, ']').is_some() && arrow {
                match read_header::<S>(line.as_str()) {
                    Err(e) => {
                        proof {
                            lemma_error_stays::<S>(all, (i + 1) as nat, all.len());
                        }
                        return Err(e);
                    },
                    Ok(x) => {
                        let ghost parts_before = chars::views(parts@);
                        let ghost segs_before = segment_lines(segments@);
                        let ghost xv = x@;
                        if !x.text.as_str().is_empty() {
                            parts.push(x.text.as_str().to_owned());
                            assert(chars::views(parts@) =~= parts_before.push(xv.text));
                        }
                        segments.push(x);
                        assert(segment_lines(segments@) =~= segs_before.push(xv));
                    },
                }
            } else if arrow && segments.len() > 0 {
                match read_word::<S>(line.as_str()) {
                    Err(e) => {
                        proof {
                            lemma_error_stays::<S>(all, (i + 1) as nat, all.len());
                        }
                        return Err(e);
                    },
                    Ok(None) => {},
                    Ok(Some(w)) => {
                        starts.push(w.start_s);
                        add_word(&mut segments, w);
                    },
                }
            }
        }
        i = i + 1;
    }
    let word_starts = sort_times(&starts);
    let text = chars::trim(chars::join(&parts, " ").as_str());
    Ok(Transcript { segments, text, word_starts })
}

// ---------------------------------------------------------------------------
// Transcripts as transcriptions

/// `j` is a word with its times.
pub open spec fn is_word_value<S: Scalar>(j: Json<S>, w: WordLine<S>) -> bool {
    &&& grouping::is_number(j.field("start_s"@), w.start_s)
    &&& grouping::is_number(j.field("end_s"@), w.end_s)
    &&& grouping::is_text(j.field("start_ts"@), w.start_ts)
    &&& grouping::is_text(j.field("end_ts"@), w.end_ts)
    &&& grouping::is_text(j.field("word"@), w.word)
}

pub open spec fn are_word_values<S: Scalar>(items: Seq<Json<S>>, words: Seq<WordLine<S>>) -> bool {
    &&& items.len() == words.len()
    &&& forall|k: int| 0 <= k < items.len() ==> is_word_value(#[trigger] items[k], words[k])
}

/// `j` is a segment with its times and words.
pub open spec fn is_segment_value<S: Scalar>(j: Json<S>, x: SegmentLines<S>) -> bool {
    &&& grouping::is_number(j.field("start_s"@), x.start_s)
    &&& grouping::is_number(j.field("end_s"@), x.end_s)
    &&& grouping::is_text(j.field("start_ts"@), x.start_ts)
    &&& grouping::is_text(j.field("end_ts"@), x.end_ts)
    &&& grouping::is_text(j.field("text"@), x.text)
    &&& j.field("words"@) matches Some(Json::List(items)) && are_word_values(items@, x.words)
}

/// The greatest end of the first `n` segments, at least zero.
pub open spec fn last_end<S: Scalar>(segs: Seq<SegmentLines<S>>, n: nat) -> S
    decreases n,
{
    if n == 0 {
        S::whole_spec(0)
    } else {
        scalar::max_spec(last_end(segs, (n - 1) as nat), segs[n - 1].end_s)
    }
}

/// `j` is the transcription with these segments.
pub open spec fn is_transcription_value<S: Scalar>(j: Json<S>, segs: Seq<SegmentLines<S>>) -> bool {
    let items = timed::segments_in(j);
    &&& grouping::is_text(j.field("language"@), "ar"@)
    &&& grouping::is_number(j.field("language_probability"@), S::whole_spec(1))
    &&& grouping::is_number(j.field("duration_s"@), last_end(segs, segs.len()))
    &&& items.len() == segs.len()
    &&& forall|k: int| 0 <= k < items.len() ==> is_segment_value(#[trigger] items[k], segs[k])
}

proof fn lemma_names_differ()
    ensures
        "start_s"@ != "end_s"@,
        "start_s"@ != "start_ts"@,
        "start_s"@ != "end_ts"@,
        "start_s"@ != "text"@,
        "start_s"@ != "word"@,
        "start_s"@ != "words"@,
        "end_s"@ != "start_ts"@,
        "end_s"@ != "end_ts"@,
        "end_s"@ != "text"@,
        "end_s"@ != "word"@,
        "end_s"@ != "words"@,
        "start_ts"@ != "end_ts"@,
        "start_ts"@ != "text"@,
        "start_ts"@ != "word"@,
        "start_ts"@ != "words"@,
        "end_ts"@ != "text"@,
        "end_ts"@ != "word"@,
        "end_ts"@ != "words"@,
        "text"@ != "words"@,
        "language"@ != "language_probability"@,
        "language"@ != "duration_s"@,
        "language"@ != "segments"@,
        "language_probability"@ != "duration_s"@,
        "language_probability"@ != "segments"@,
        "duration_s"@ != "segments"@,
{
    reveal_strlit("start_s");
    reveal_strlit("end_s");
    reveal_strlit("start_ts");
    reveal_strlit("end_ts");
    reveal_strlit("text");
    reveal_strlit("word");
    reveal_strlit("words");
    reveal_strlit("language");
    reveal_strlit("language_probability");
    reveal_strlit("duration_s");
    reveal_strlit("segments");
    assert("start_s"@.len() == 7 && "start_ts"@.len() == 8 && "end_s"@.len() == 5 && "end_ts"@.len() == 6);
    assert("text"@.len() == 4 && "word"@.len() == 4 && "words"@.len() == 5);
    assert("end_s"@[0] != "words"@[0]);
    assert("language"@.len() == 8 && "language_probability"@.len() == 20 && "duration_s"@.len() == 10
        && "segments"@.len() == 8);
    assert("language"@[0] != "segments"@[0]);
}

fn word_value<S: Scalar>(w: &TranscriptWord<S>) -> (r: Json<S>)
    ensures
        is_word_value(r, w@),
{
    let mut e: Vec<(String, Json<S>)> = Vec::new();
    e.push(("start_s".to_owned(), grouping::number(w.start_s)));
    e.push(("end_s".to_owned(), grouping::number(w.end_s)));
    e.push(("start_ts".to_owned(), grouping::text_value(w.start_ts.as_str())));
    e.push(("end_ts".to_owned(), grouping::text_value(w.end_ts.as_str())));
    e.push(("word".to_owned(), grouping::text_value(w.word.as_str())));
    proof {
        lemma_names_differ();
        grouping::lemma_entry(e@, 0, "start_s"@);
        grouping::lemma_entry(e@, 1, "end_s"@);
        grouping::lemma_entry(e@, 2, "start_ts"@);
        grouping::lemma_entry(e@, 3, "end_ts"@);
        grouping::lemma_entry(e@, 4, "word"@);
    }
    Json::Object(e)
}

fn segment_value<S: Scalar>(x: &TranscriptSegment<S>) -> (r: Json<S>)
    ensures
        is_segment_value(r, x@),
{
    let mut items: Vec<Json<S>> = Vec::new();
    let mut k: usize = 0;
    while k < x.words.len()
        invariant
            k <= x.words@.len(),
            items@.len() == k,
            forall|j: int| 0 <= j < k ==> is_word_value(#[trigger] items@[j], word_lines(x.words@)[j]),
        decreases x.words@.len() - k,
    {
        assert(word_lines(x.words@)[k as int] == x.words@[k as int]@);
        items.push(word_value(&x.words[k]));
        k = k + 1;
    }
    let mut e: Vec<(String, Json<S>)> = Vec::new();
    e.push(("start_s".to_owned(), grouping::number(x.start_s)));
    e.push(("end_s".to_owned(), grouping::number(x.end_s)));
    e.push(("start_ts".to_owned(), grouping::text_value(x.start_ts.as_str())));
    e.push(("end_ts".to_owned(), grouping::text_value(x.end_ts.as_str())));
    e.push(("text".to_owned(), grouping::text_value(x.text.as_str())));
    e.push(("words".to_owned(), Json::List(items)));
    proof {
        lemma_names_differ();
        grouping::lemma_entry(e@, 0, "start_s"@);
        grouping::lemma_entry(e@, 1, "end_s"@);
        grouping::lemma_entry(e@, 2, "start_ts"@);
        grouping::lemma_entry(e@, 3, "end_ts"@);
        grouping::lemma_entry(e@, 4, "text"@);
        grouping::lemma_entry(e@, 5, "words"@);
    }
    Json::Object(e)
}

/// The transcription that a transcript stands for.
pub fn to_transcription<S: Scalar>(segments: &[TranscriptSegment<S>]) -> (r: Json<S>)
    ensures
        is_transcription_value(r, segment_lines(segments@)),
{
    let ghost segs = segment_lines(segments@);
    let mut items: Vec<Json<S>> = Vec::new();
    let mut end: S = S::whole(0);
    let mut k: usize = 0;
    while k < segments.len()
        invariant
            k <= segments@.len(),
            segs == segment_lines(segments@),
            items@.len() == k,
            forall|j: int| 0 <= j < k ==> is_segment_value(#[trigger] items@[j], segs[j]),
            end == last_end(segs, k as nat),
        decreases segments@.len() - k,
    {
        assert(segs[k as int] == segments@[k as int]@);
        items.push(segment_value(&segments[k]));
        end = scalar::max_of(end, segments[k].end_s);
        k = k + 1;
    }
    let mut e: Vec<(String, Json<S>)> = Vec::new();
    e.push(("language".to_owned(), grouping::text_value("ar")));
    e.push(("language_probability".to_owned(), grouping::number(S::whole(1))));
    e.push(("duration_s".to_owned(), grouping::number(end)));
    e.push(("segments".to_owned(), Json::List(items)));
    proof {
        lemma_names_differ();
        grouping::lemma_entry(e@, 0, "language"@);
        grouping::lemma_entry(e@, 1, "language_probability"@);
        grouping::lemma_entry(e@, 2, "duration_s"@);
        grouping::lemma_entry(e@, 3, "segments"@);
    }
    Json::Object(e)
}

// ---------------------------------------------------------------------------
// Laws

/// A clock time counts its hours, minutes, seconds and thousandths.
pub proof fn law_clock_times_add_up(h: int, m: int, s: int, ms: int)
    requires
        0 <= h <= 1_000_000,
        0 <= m <= 1_000_000,
        0 <= s <= 1_000_000,
        0 <= ms <= 1_000_000,
    ensures
        clock_time::<scalar::Thousandths>(h, m, s, ms).count == ((h * 60 + m) * 60 + s) * 1000 + ms,
{
    assert((h * 1000 * 3_600_000) / 1000 == h * 3_600_000);
    assert((m * 1000 * 60_000) / 1000 == m * 60_000);
    assert((ms * 1000 * 1000) / 1_000_000 == ms);
    assert(signed::<scalar::Thousandths>(ms).over_spec(scalar::Thousandths::whole_spec(1000)).count == ms);
}

proof fn lemma_digits_only(d: Seq<char>)
    requires
        chars::digits_value(d) is Some,
    ensures
        forall|i: int| 0 <= i < d.len() ==> '0' <= #[trigger] d[i] <= '9',
    decreases d.len(),
{
    if d.len() > 0 {
        lemma_digits_only(d.drop_last());
        assert forall|i: int| 0 <= i < d.len() implies '0' <= #[trigger] d[i] <= '9' by {
            if i < d.len() - 1 {
                assert(d.drop_last()[i] == d[i]);
            }
        }
    }
}

/// Digits, with three colons and a point between them as on a clock, tell the time that
/// they count.
pub proof fn law_clock_texts_are_read<S: Scalar>(h: Seq<char>, m: Seq<char>, s: Seq<char>, ms: Seq<char>)
    requires
        h.len() > 0 && m.len() > 0 && s.len() > 0 && ms.len() > 0,
        chars::digits_value(h) matches Some(v) && v <= i64::MAX,
        chars::digits_value(m) matches Some(v) && v <= i64::MAX,
        chars::digits_value(s) matches Some(v) && v <= i64::MAX,
        chars::digits_value(ms) matches Some(v) && v <= i64::MAX,
    ensures
        time_of::<S>(h + seq![':'] + m + seq![':'] + s + seq!['.'] + ms) == Ok::<S, TimestampError>(
            clock_time::<S>(
                chars::digits_value(h)->0 as int,
                chars::digits_value(m)->0 as int,
                chars::digits_value(s)->0 as int,
                chars::digits_value(ms)->0 as int,
            ),
        ),
{
    let t = h + seq![':'] + m + seq![':'] + s + seq!['.'] + ms;
    let front = h + seq![':'] + m + seq![':'] + s;
    lemma_digits_only(h);
    lemma_digits_only(m);
    lemma_digits_only(s);
    lemma_digits_only(ms);
    assert(t[0] == h[0]);
    assert(t.last() == ms.last());
    chars::lemma_trimmed_stays(t);
    chars::lemma_index_of_char(t, '.');
    let k = front.len();
    assert(t[k as int] == '.');
    assert forall|i: int| 0 <= i < k implies #[trigger] t[i] != '.' by {
        assert(t[i] == front[i]);
        let a = h.len() as int;
        let b = a + 1 + m.len();
        if i < a {
            assert(front[i] == h[i]);
        } else if i == a || i == b {
        } else if i < b {
            assert(front[i] == m[i - a - 1]);
        } else {
            assert(front[i] == s[i - b - 1]);
        }
    }
    assert(chars::index_of_char(t, '.') == Some(k));
    assert(t.skip(k as int + 1) =~= ms);
    assert(t.take(k as int) =~= front);
    let rest = m.push(':') + s;
    chars::law_texts_are_split_at_separators(h, rest, ':');
    chars::law_texts_are_split_at_separators(m, s, ':');
    chars::law_texts_are_split_at_separators(s, Seq::empty(), ':');
    assert(front =~= h.push(':') + rest);
    assert(chars::split_on(front, ':') =~= seq![h, m, s]);
    lemma_spelled_digits(h);
    lemma_spelled_digits(m);
    lemma_spelled_digits(s);
    lemma_spelled_digits(ms);
}

proof fn lemma_spelled_digits(d: Seq<char>)
    requires
        d.len() > 0,
        chars::digits_value(d) matches Some(v) && v <= i64::MAX,
    ensures
        spelled_i64(d) == Some(chars::digits_value(d)->0 as int),
{
    lemma_digits_only(d);
    assert('0' <= d[0] <= '9');
}

/// A time that was written is read back.
pub proof fn law_written_times_are_read_back(total_ms: int)
    requires
        0 <= total_ms <= 1_000_000_000_000,
    ensures
        time_of::<scalar::Thousandths>(crate::text::timestamp(total_ms)) matches Ok(t) && t.count == total_ms,
{
    let (h, m, s, ms) = crate::text::law_times_are_told_in_hours(total_ms);
    crate::text::law_padded_numbers_keep_their_value(h, 2);
    crate::text::law_padded_numbers_keep_their_value(m, 2);
    crate::text::law_padded_numbers_keep_their_value(s, 2);
    crate::text::law_padded_numbers_keep_their_value(ms, 3);
    law_clock_texts_are_read::<scalar::Thousandths>(
        crate::text::padded(false, h, 2),
        crate::text::padded(false, m, 2),
        crate::text::padded(false, s, 2),
        crate::text::padded(false, ms, 3),
    );
    assert(h <= 1_000_000);
    law_clock_times_add_up(h as int, m as int, s as int, ms as int);
}

/// What stands in front of the first arrow and what stands behind it are parted, without
/// the space around them.
pub proof fn law_arrows_part_texts(a: Seq<char>, b: Seq<char>)
    requires
        forall|i: int| 0 <= i < a.len() ==> #[trigger] a[i] != '-',
    ensures
        around_arrow(a + "-->"@ + b) == Some((chars::trimmed(a), chars::trimmed(b))),
        around_arrow(a) is None,
{
    reveal_strlit("-->");
    let arrow = "-->"@;
    let s = a + arrow + b;
    chars::law_texts_are_found_where_they_begin(s, arrow, a.len() as int);
    assert(s.skip(a.len() as int).take(3) =~= arrow);
    match chars::index_of_text(s, arrow) {
        None => {},
        Some(k) => {
            if k < a.len() {
                assert(s.skip(k as int).take(3)[0] == s[k as int]);
                assert(s[k as int] == a[k as int]);
            }
            assert(k == a.len());
            assert(s.take(k as int) =~= a);
            assert(s.skip(k as int + 3) =~= b);
        },
    }
    match chars::index_of_text(a, arrow) {
        None => {},
        Some(k) => {
            chars::law_texts_are_found_where_they_begin(a, arrow, 0);
            assert(a.skip(k as int).take(3)[0] == arrow[0]);
            assert(a[k as int] == '-');
        },
    }
}

/// A header holds two times in brackets, with an arrow between them, and then a text.
pub proof fn law_headers_are_read<S: Scalar>(a: Seq<char>, b: Seq<char>, text: Seq<char>, start_s: S, end_s: S)
    requires
        a.len() > 0 && b.len() > 0,
        forall|i: int| 0 <= i < a.len() ==> #[trigger] a[i] != '-' && a[i] != ']' && a[i] != '[',
        forall|i: int| 0 <= i < b.len() ==> #[trigger] b[i] != ']',
        !chars::is_space_spec(a[0]) && !chars::is_space_spec(a.last()),
        !chars::is_space_spec(b[0]) && !chars::is_space_spec(b.last()),
        time_of::<S>(a) == Ok::<S, TimestampError>(start_s),
        time_of::<S>(b) == Ok::<S, TimestampError>(end_s),
    ensures
        ({
            let line = seq!['['] + a + "-->"@ + b + seq![']'] + text;
            &&& is_header(line)
            &&& header_of::<S>(line) == Ok::<SegmentLines<S>, (TranscriptFault, Seq<char>)>(
                SegmentLines {
                    start_s,
                    end_s,
                    start_ts: a,
                    end_ts: b,
                    text: chars::trimmed(text),
                    words: Seq::empty(),
                },
            )
        }),
{
    reveal_strlit("-->");
    let arrow = "-->"@;
    let inner = a + arrow + b;
    let line = seq!['['] + a + arrow + b + seq![']'] + text;
    let k = 1 + inner.len();
    chars::lemma_index_of_char(line, ']');
    assert(line[k as int] == ']');
    assert forall|i: int| 0 <= i < k implies #[trigger] line[i] != ']' by {
        if 1 <= i <= a.len() {
            assert(line[i] == a[i - 1]);
        } else if i > a.len() + 3 {
            assert(line[i] == b[i - 4 - a.len()]);
        } else if i > a.len() {
            assert(line[i] == arrow[i - 1 - a.len()]);
        }
    }
    assert(chars::index_of_char(line, ']') == Some(k));
    assert(line.take(k as int) =~= seq!['['] + inner);
    assert(line.take(k as int).skip(1) =~= inner);
    assert(inner[0] == a[0]);
    assert(inner.last() == b.last());
    reveal_with_fuel(without_brackets, 3);
    assert(without_brackets(line.take(k as int)) == inner);
    chars::lemma_trimmed_stays(inner);
    chars::lemma_trimmed_stays(a);
    chars::lemma_trimmed_stays(b);
    law_arrows_part_texts(a, b);
    assert(line.skip(k as int + 1) =~= text);
    chars::law_texts_are_found_where_they_begin(line, arrow, 1 + a.len() as int);
    assert(line.skip(1 + a.len() as int).take(3) =~= arrow);
}

/// Blank lines say nothing; nor do lines with neither brackets nor an arrow, or with a
/// word before the first header.
pub proof fn law_other_lines_say_nothing<S: Scalar>(st: Reading<S>, line: Seq<char>)
    requires
        chars::trimmed(chars::trim_end(line)).len() == 0 || (!is_header(chars::trim_end(line)) && (st.segments.len() == 0
            || chars::index_of_text(chars::trim_end(line), "-->"@) is None)),
    ensures
        read_line(st, line) == Ok::<Reading<S>, (TranscriptFault, Seq<char>)>(st),
{
}

/// A header begins a segment; a word goes to the segment that was begun last, and its
/// start to the starts.
pub proof fn law_words_go_to_their_segment<S: Scalar>(st: Reading<S>, line: Seq<char>)
    requires
        chars::trimmed(chars::trim_end(line)).len() > 0,
        read_line(st, line) is Ok,
    ensures
        ({
            let after = read_line(st, line)->Ok_0;
            let n = st.segments.len() as int;
            &&& is_header(chars::trim_end(line)) ==> {
                &&& after.segments.len() == n + 1 && after.segments.take(n) == st.segments
                &&& after.segments[n].words.len() == 0
                &&& after.starts == st.starts
                &&& after.segments[n].text.len() > 0 ==> after.parts == st.parts.push(after.segments[n].text)
                &&& after.segments[n].text.len() == 0 ==> after.parts == st.parts
            }
            &&& !is_header(chars::trim_end(line)) ==> {
                &&& after.segments.len() == n && after.parts == st.parts
                &&& n > 0 ==> after.segments.take(n - 1) == st.segments.take(n - 1)
                &&& after == st || {
                    &&& n > 0
                    &&& after.segments[n - 1].words.len() == st.segments[n - 1].words.len() + 1
                    &&& after.segments[n - 1].words.drop_last() == st.segments[n - 1].words
                    &&& after.starts == st.starts.push(after.segments[n - 1].words.last().start_s)
                    &&& after.segments[n - 1].text == st.segments[n - 1].text
                    &&& after.segments[n - 1].start_s == st.segments[n - 1].start_s
                    &&& after.segments[n - 1].end_s == st.segments[n - 1].end_s
                }
            }
        }),
{
    let after = read_line(st, line)->Ok_0;
    let n = st.segments.len() as int;
    if is_header(chars::trim_end(line)) {
        assert(after.segments.take(n) =~= st.segments);
    } else if n > 0 {
        assert(after.segments.take(n - 1) =~= st.segments.take(n - 1));
        if after != st {
            let w = after.segments[n - 1].words;
            assert(w.drop_last() =~= st.segments[n - 1].words);
        }
    }
}

/// A line with a word holds two times with an arrow between them, and the word behind a
/// space.
pub proof fn law_word_lines_are_read<S: Scalar>(a: Seq<char>, b: Seq<char>, word: Seq<char>, start_s: S, end_s: S)
    requires
        a.len() > 0 && b.len() > 0 && word.len() > 0,
        forall|i: int| 0 <= i < a.len() ==> #[trigger] a[i] != '-',
        forall|i: int| 0 <= i < b.len() ==> #[trigger] b[i] != ' ',
        !chars::is_space_spec(a[0]) && !chars::is_space_spec(a.last()),
        !chars::is_space_spec(b[0]) && !chars::is_space_spec(b.last()),
        !chars::is_space_spec(word[0]) && !chars::is_space_spec(word.last()),
        time_of::<S>(a) == Ok::<S, TimestampError>(start_s),
        time_of::<S>(b) == Ok::<S, TimestampError>(end_s),
    ensures
        word_of::<S>(a + "-->"@ + b + seq![' '] + word) == Ok::<Option<WordLine<S>>, (TranscriptFault, Seq<char>)>(
            Some(WordLine { start_s, end_s, start_ts: a, end_ts: b, word }),
        ),
{
    reveal_strlit("-->");
    let right = b + seq![' '] + word;
    let line = a + "-->"@ + b + seq![' '] + word;
    assert(line =~= a + "-->"@ + right);
    assert(line[0] == a[0]);
    assert(line.last() == word.last());
    assert(right[0] == b[0]);
    assert(right.last() == word.last());
    chars::lemma_trimmed_stays(line);
    chars::lemma_trimmed_stays(right);
    chars::lemma_trimmed_stays(a);
    chars::lemma_trimmed_stays(b);
    chars::lemma_trimmed_stays(word);
    law_arrows_part_texts(a, right);
    chars::lemma_index_of_char(right, ' ');
    assert(right[b.len() as int] == ' ');
    assert forall|i: int| 0 <= i < b.len() implies #[trigger] right[i] != ' ' by {
        assert(right[i] == b[i]);
    }
    assert(chars::index_of_char(right, ' ') == Some(b.len()));
    assert(right.take(b.len() as int) =~= b);
    assert(right.skip(b.len() as int + 1) =~= word);
}

/// A transcription lasts until its latest end.
pub proof fn law_transcriptions_last_to_the_latest_end<S: Scalar>(segs: Seq<SegmentLines<S>>, n: nat)
    requires
        n <= segs.len(),
    ensures
        forall|i: int| 0 <= i < n ==> (#[trigger] segs[i]).end_s.rank() <= last_end(segs, n).rank(),
        last_end(segs, n) == S::whole_spec(0) || exists|i: int|
            0 <= i < n && (#[trigger] segs[i]).end_s == last_end(segs, n),
    decreases n,
{
    if n > 0 {
        law_transcriptions_last_to_the_latest_end(segs, (n - 1) as nat);
        let before = last_end(segs, (n - 1) as nat);
        if last_end(segs, n) == segs[n - 1].end_s {
        } else if before != S::whole_spec(0) {
            let i = choose|i: int| 0 <= i < n - 1 && (#[trigger] segs[i]).end_s == before;
            assert(segs[i].end_s == last_end(segs, n));
        }
    }
}

/// Lines are read one after the other, up to the first that cannot be read.
pub proof fn law_lines_are_read_in_order<S: Scalar>(lines: Seq<Seq<char>>, n: nat)
    requires
        n < lines.len(),
    ensures
        read_lines::<S>(lines, 0) == Ok::<Reading<S>, (TranscriptFault, Seq<char>)>(
            Reading { segments: Seq::empty(), parts: Seq::empty(), starts: Seq::empty() },
        ),
        read_lines::<S>(lines, n) matches Ok(st) ==> read_lines::<S>(lines, n + 1) == read_line(st, lines[n as int]),
        read_lines::<S>(lines, n) matches Err(e) ==> read_lines::<S>(lines, n + 1) == Err::<
            Reading<S>,
            (TranscriptFault, Seq<char>),
        >(e),
{
}

/// A transcript holds the segments of its lines, its words' starts in order, and the
/// texts of its headers with a space between them.
pub proof fn law_transcripts_hold_their_lines<S: Scalar>(raw: Seq<char>, r: Result<Transcript<S>, TranscriptError>)
    requires
        is_transcript(raw, r),
    ensures
        ({
            let lines = chars::split_on(raw, '\n');
            let st = read_lines::<S>(lines, lines.len());
            &&& r is Ok <==> st is Ok
            &&& r matches Ok(t) ==> {
                &&& segment_lines(t.segments@) == st->Ok_0.segments
                &&& t.text@ == chars::trimmed(chars::joined(st->Ok_0.parts, " "@))
                &&& t.word_starts@.to_multiset() == st->Ok_0.starts.to_multiset()
                &&& forall|i: int, j: int|
                    0 <= i < j < t.word_starts@.len() ==> (#[trigger] t.word_starts@[i]).rank() <= (
                    #[trigger] t.word_starts@[j]).rank()
            }
        }),
{
    let lines = chars::split_on(raw, '\n');
    match (read_lines::<S>(lines, lines.len()), r) {
        (Ok(st), Ok(t)) => {
            law_sorted_times(st.starts);
        },
        _ => {},
    }
}

} // verus!
