//! Recitations that jump: the segments of a transcription are split into spans
//! that each follow the reference.

use vstd::prelude::*;

use crate::alignment_v2;
use crate::alignment_v2::{AlignError, AlignmentReport};
use crate::assets;
use crate::assets::AlignmentAssetsV2;
use crate::chars;
use crate::json::Json;
use crate::scalar;
use crate::scalar::Scalar;
use crate::spans::AyahRef;
use crate::text;
use crate::timed;
use crate::timed::TimeMode;

verus! {

// ---------------------------------------------------------------------------
// One segment

/// The verses that a single segment recites.
pub struct SegAlign<S> {
    pub seg_index: usize,
    pub seg_start_s: S,
    pub seg_end_s: S,
    pub start_surah_id: u16,
    pub end_surah_id: u16,
    pub start_global: u16,
    pub end_global: u16,
    pub confidence: S,
}

impl<S: Copy> Clone for SegAlign<S> {
    fn clone(&self) -> (r: Self)
        ensures
            r == *self,
    {
        *self
    }
}

impl<S: Copy> Copy for SegAlign<S> {

}

impl<S: Scalar> SegAlign<S> {
    /// The verse in the middle.
    pub open spec fn center(self) -> int {
        if self.start_global <= self.end_global {
            self.start_global + (self.end_global - self.start_global) / 2
        } else {
            self.end_global + (self.start_global - self.end_global) / 2
        }
    }

    pub fn center_global(&self) -> (r: u16)
        ensures
            r == self.center(),
    {
        if self.start_global <= self.end_global {
            self.start_global + (self.end_global - self.start_global) / 2
        } else {
            self.end_global + (self.start_global - self.end_global) / 2
        }
    }
}

/// The middle lies between the ends.
pub proof fn law_center_lies_between<S: Scalar>(a: SegAlign<S>)
    ensures
        a.start_global <= a.end_global ==> a.start_global <= a.center() <= a.end_global,
        a.end_global <= a.start_global ==> a.end_global <= a.center() <= a.start_global,
{
}

/// The words of a word list, trimmed, without the empty ones.
pub open spec fn listed_words<S: Scalar>(words: Seq<Json<S>>) -> Seq<Seq<char>>
    decreases words.len(),
{
    if words.len() == 0 {
        Seq::empty()
    } else {
        let before = listed_words(words.drop_last());
        let w = chars::trimmed(Json::text_or_empty(words.last().field("word"@)));
        if w.len() == 0 {
            before
        } else {
            before.push(w)
        }
    }
}

/// The text of a segment, or the words of its word list where it has none.
pub open spec fn segment_text_of<S: Scalar>(seg: Json<S>) -> Seq<char> {
    let t = chars::trimmed(Json::text_or_empty(seg.field("text"@)));
    if t.len() > 0 {
        t
    } else {
        let words = match seg.field("words"@) {
            Some(Json::List(items)) => listed_words(items@),
            _ => Seq::empty(),
        };
        chars::trimmed(chars::joined(words, " "@))
    }
}

pub fn segment_text<S: Scalar>(seg: &Json<S>) -> (r: String)
    ensures
        r@ == segment_text_of(*seg),
{
    let t = chars::trim(seg.text_field("text"));
    if !text::is_blank(t.as_str()) {
        return t;
    }
    let mut parts: Vec<String> = Vec::new();
    assert(chars::views(parts@) =~= Seq::<Seq<char>>::empty());
    match seg.get("words") {
        Some(Json::List(items)) => {
            let mut i: usize = 0;
            assert(listed_words(items@.take(0)) =~= Seq::<Seq<char>>::empty());
            while i < items.len()
                invariant
                    i <= items@.len(),
                    chars::views(parts@) == listed_words(items@.take(i as int)),
                decreases items@.len() - i,
            {
                assert(items@.take(i as int + 1).drop_last() =~= items@.take(i as int));
                let w = chars::trim(items[i].text_field("word"));
                if !text::is_blank(w.as_str()) {
                    let ghost before = chars::views(parts@);
                    parts.push(w);
                    assert(chars::views(parts@) =~= before.push(w@));
                }
                i = i + 1;
            }
            assert(items@.take(items@.len() as int) =~= items@);
        },
        _ => {},
    }
    chars::trim(chars::join(&parts, " ").as_str())
}

/// The number behind `key`, or `other`.
pub open spec fn real_or<S: Scalar>(v: Json<S>, key: Seq<char>, other: S) -> S {
    match v.field(key) {
        None => other,
        Some(x) => match x.real_spec() {
            None => other,
            Some(n) => n,
        },
    }
}

pub fn read_real_or<S: Scalar>(v: &Json<S>, key: &str, other: S) -> (r: S)
    ensures
        r == real_or(*v, key@, other),
{
    match v.get(key) {
        None => other,
        Some(x) => match x.as_f64() {
            None => other,
            Some(n) => n,
        },
    }
}

/// A segment with fewer than three words tells too little.
pub open spec fn tells_enough<S: Scalar>(seg: Json<S>) -> bool {
    chars::words_of(segment_text_of(seg)).len() >= 3
}

/// The number of a verse, if the tables know it.
pub open spec fn global_of<S: Scalar>(a: AlignmentAssetsV2<S>, v: AyahRef) -> Option<u16> {
    let k = assets::ayah_key_spec(v.surah, v.ayah);
    if a.ayah_key_to_global@.dom().contains(k) {
        Some(a.ayah_key_to_global@[k])
    } else {
        None
    }
}

pub fn find_global<S: Scalar>(a: &AlignmentAssetsV2<S>, v: AyahRef) -> (r: Option<u16>)
    ensures
        r == global_of(*a, v),
{
    broadcast use vstd::std_specs::hash::group_hash_axioms;

    match a.ayah_key_to_global.get(&assets::ayah_key(v.surah, v.ayah)) {
        None => None,
        Some(g) => Some(*g),
    }
}

/// What the alignment of segment `i` says about it.
pub open spec fn seg_align_of<S: Scalar>(
    a: AlignmentAssetsV2<S>,
    seg: Json<S>,
    i: int,
    outcome: Result<AlignmentReport<S>, AlignError>,
) -> Option<SegAlign<S>> {
    if !tells_enough(seg) {
        None
    } else {
        match outcome {
            Err(_) => None,
            Ok(t) => match (global_of(a, t.start), global_of(a, t.end)) {
                (Some(g0), Some(g1)) => {
                    let start = real_or(seg, "start_s"@, S::whole_spec(0));
                    Some(
                        SegAlign {
                            seg_index: i as usize,
                            seg_start_s: start,
                            seg_end_s: real_or(seg, "end_s"@, start),
                            start_surah_id: t.start.surah,
                            end_surah_id: t.end.surah,
                            start_global: g0,
                            end_global: g1,
                            confidence: t.confidence,
                        },
                    )
                },
                _ => None,
            },
        }
    }
}

/// How many words a single segment may have.
pub const MAX_SEGMENT_TOKENS: usize = 2000;

/// How many words a span may have.
pub const MAX_SPAN_TOKENS: usize = 10_000;

/// An outcome of aligning segment `i` alone.
pub open spec fn is_seg_outcome<S: Scalar>(
    a: AlignmentAssetsV2<S>,
    segs: Seq<Json<S>>,
    i: int,
    mode: TimeMode,
    outcome: Result<AlignmentReport<S>, AlignError>,
) -> bool {
    tells_enough(segs[i]) ==> alignment_v2::is_outcome(
        segs.subrange(i, i + 1),
        segment_text_of(segs[i]),
        a,
        "absolute"@,
        mode,
        MAX_SEGMENT_TOKENS,
        outcome,
    )
}

/// `sa` is what an alignment of segment `i` alone says about it.
pub open spec fn is_seg_align<S: Scalar>(
    a: AlignmentAssetsV2<S>,
    segs: Seq<Json<S>>,
    i: int,
    mode: TimeMode,
    sa: Option<SegAlign<S>>,
) -> bool {
    exists|outcome: Result<AlignmentReport<S>, AlignError>| #[trigger]
        is_seg_outcome(a, segs, i, mode, outcome) && sa == seg_align_of(a, segs[i], i, outcome)
}

/// Aligns one segment.
pub fn seg_align_one<S: Scalar>(
    segs: &[Json<S>],
    i: usize,
    a: &AlignmentAssetsV2<S>,
    mode: TimeMode,
) -> (r: Option<SegAlign<S>>)
    requires
        a.wf(),
        i < segs@.len(),
        timed::size_bound(segs@, segs@.len()) < i32::MAX,
    ensures
        is_seg_align(*a, segs@, i as int, mode, r),
{
    let seg = &segs[i];
    let start: S = read_real_or(seg, "start_s", S::whole(0));
    let end: S = read_real_or(seg, "end_s", start);
    let t = segment_text(seg);
    let words = chars::split_words(t.as_str());
    assert(chars::views(words@).len() == words@.len());
    if words.len() < 3 {
        proof {
            let any = Err::<AlignmentReport<S>, AlignError>(AlignError::NoTokens);
            assert(is_seg_outcome(*a, segs@, i as int, mode, any));
        }
        return None;
    }
    proof {
        timed::lemma_part_size(segs@, i as int, i + 1);
        let part = segs@.subrange(i as int, i + 1);
        assert(part.len() == 1);
    }
    let total: usize = segs.len();
    let outcome = alignment_v2::guess_for_segments(
        vstd::slice::slice_subrange(segs, i, i + 1),
        t.as_str(),
        a,
        "absolute",
        mode,
        MAX_SEGMENT_TOKENS,
    );
    assert(is_seg_outcome(*a, segs@, i as int, mode, outcome));
    match &outcome {
        Err(_) => None,
        Ok(t) => match (find_global(a, t.start), find_global(a, t.end)) {
            (Some(g0), Some(g1)) => Some(
                SegAlign {
                    seg_index: i,
                    seg_start_s: start,
                    seg_end_s: end,
                    start_surah_id: t.start.surah,
                    end_surah_id: t.end.surah,
                    start_global: g0,
                    end_global: g1,
                    confidence: t.confidence,
                },
            ),
            _ => None,
        },
    }
}

// ---------------------------------------------------------------------------
// Splitting

/// A run of segments, by the first and the last of them.
#[derive(Clone, Copy, Debug, PartialEq, Eq, Structural)]
pub struct SpanCandidate {
    pub start_seg_index: usize,
    pub end_seg_index: usize,
}

/// A jump from one span to another.
pub struct JumpEvent<S> {
    pub at_s: S,
    pub at_segment_index: usize,
    pub from_span_index: usize,
    pub to_span_index: usize,
    pub distance_ayahs: i32,
}

impl<S: Copy> Clone for JumpEvent<S> {
    fn clone(&self) -> (r: Self)
        ensures
            r == *self,
    {
        *self
    }
}

impl<S: Copy> Copy for JumpEvent<S> {

}

/// A jump that one more segment would confirm.
pub struct PendingJump<S> {
    pub start_seg_index: usize,
    pub pos_global: u16,
    pub surah_id: u16,
    pub confidence: S,
    pub count: usize,
    pub from_span_index: usize,
}

impl<S: Copy> Clone for PendingJump<S> {
    fn clone(&self) -> (r: Self)
        ensures
            r == *self,
    {
        *self
    }
}

impl<S: Copy> Copy for PendingJump<S> {

}

/// How far a split has come.
pub struct Split<S> {
    pub spans: Seq<SpanCandidate>,
    pub jumps: Seq<JumpEvent<S>>,
    pub cur_span: int,
    /// Where the last trusted segment lies.
    pub last_pos: Option<u16>,
    pub last_surah: Option<u16>,
    pub pending: Option<PendingJump<S>>,
}

pub struct SplitState<S> {
    pub spans: Vec<SpanCandidate>,
    pub jumps: Vec<JumpEvent<S>>,
    pub cur_span: usize,
    pub last_pos: Option<u16>,
    pub last_surah: Option<u16>,
    pub pending: Option<PendingJump<S>>,
}

impl<S: Scalar> View for SplitState<S> {
    type V = Split<S>;

    open spec fn view(&self) -> Split<S> {
        Split {
            spans: self.spans@,
            jumps: self.jumps@,
            cur_span: self.cur_span as int,
            last_pos: self.last_pos,
            last_surah: self.last_surah,
            pending: self.pending,
        }
    }
}

pub open spec fn distance(a: int, b: int) -> int {
    if a < b {
        b - a
    } else {
        a - b
    }
}

/// Far enough to be a jump: 80 verses or two chapters.
pub open spec fn is_far(dist: int, surah_gap: int) -> bool {
    dist >= 80 || surah_gap >= 2
}

pub open spec fn one_less(x: usize) -> usize {
    if x == 0 {
        0
    } else {
        (x - 1) as usize
    }
}

/// No segment has been looked at.
pub open spec fn split_start<S>() -> Split<S> {
    Split {
        spans: seq![SpanCandidate { start_seg_index: 0, end_seg_index: 0 }],
        jumps: Seq::empty(),
        cur_span: 0,
        last_pos: None,
        last_surah: None,
        pending: None,
    }
}

/// Ends span `from` in front of segment `start` and begins a new one there that
/// reaches to segment `end`.
pub open spec fn with_new_span<S: Scalar>(
    st: Split<S>,
    from: int,
    start: usize,
    end: usize,
    at_s: S,
    dist: int,
) -> Split<S> {
    let cut = st.spans.update(from, SpanCandidate { end_seg_index: one_less(start), ..st.spans[from] });
    Split {
        spans: cut.push(SpanCandidate { start_seg_index: start, end_seg_index: end }),
        jumps: st.jumps.push(
            JumpEvent {
                at_s,
                at_segment_index: start,
                from_span_index: from as usize,
                to_span_index: st.spans.len() as usize,
                distance_ayahs: dist as i32,
            },
        ),
        cur_span: st.spans.len() as int,
        ..st
    }
}

/// The recitation is trusted to be at verse `pos` of chapter `surah`.
pub open spec fn at_place<S>(st: Split<S>, pos: u16, surah: u16) -> Split<S> {
    Split { last_pos: Some(pos), last_surah: Some(surah), pending: None, ..st }
}

pub open spec fn new_pending<S: Scalar>(st: Split<S>, i: usize, pos: u16, sa: SegAlign<S>) -> PendingJump<S> {
    PendingJump {
        start_seg_index: i,
        pos_global: pos,
        surah_id: sa.start_surah_id,
        confidence: sa.confidence,
        count: 1,
        from_span_index: st.cur_span as usize,
    }
}

/// What segment `i` adds: it extends the current span, and where it is trusted
/// and far from the last trusted segment, it begins a new span at once (when it
/// is certain) or together with a second such segment.
pub open spec fn split_step<S: Scalar>(st0: Split<S>, i: usize, seg: Option<SegAlign<S>>) -> Split<S> {
    let st = Split {
        spans: st0.spans.update(st0.cur_span, SpanCandidate { end_seg_index: i, ..st0.spans[st0.cur_span] }),
        ..st0
    };
    match seg {
        None => st,
        Some(sa) => {
            let pos = sa.center() as u16;
            if sa.confidence.rank() < S::milli_spec(300).rank() {
                st
            } else {
                match st.last_pos {
                    None => at_place(st, pos, sa.start_surah_id),
                    Some(last) => {
                        let dist = distance(pos as int, last as int);
                        let gap = match st.last_surah {
                            None => 0,
                            Some(x) => distance(sa.start_surah_id as int, x as int),
                        };
                        if !is_far(dist, gap) {
                            at_place(st, pos, sa.start_surah_id)
                        } else if S::milli_spec(930).rank() <= sa.confidence.rank() {
                            at_place(
                                with_new_span(st, st.cur_span, i, i, sa.seg_start_s, dist),
                                pos,
                                sa.start_surah_id,
                            )
                        } else {
                            match st.pending {
                                None => Split { pending: Some(new_pending(st, i, pos, sa)), ..st },
                                Some(p) => if distance(pos as int, p.pos_global as int) > 80 {
                                    Split { pending: Some(new_pending(st, i, pos, sa)), ..st }
                                } else if p.count + 1 >= 2 {
                                    at_place(
                                        with_new_span(
                                            st,
                                            p.from_span_index as int,
                                            p.start_seg_index,
                                            i,
                                            sa.seg_start_s,
                                            dist,
                                        ),
                                        pos,
                                        sa.start_surah_id,
                                    )
                                } else {
                                    Split {
                                        pending: Some(PendingJump { count: (p.count + 1) as usize, ..p }),
                                        ..st
                                    }
                                },
                            }
                        }
                    },
                }
            }
        },
    }
}

/// The split after the first `k` segments.
pub open spec fn split_after<S: Scalar>(aligns: Seq<Option<SegAlign<S>>>, k: nat) -> Split<S>
    decreases k,
{
    if k == 0 {
        split_start()
    } else {
        split_step(split_after(aligns, (k - 1) as nat), (k - 1) as usize, aligns[k - 1])
    }
}

/// A jump that waits for confirmation in the very last segment is taken.
pub open spec fn split_end<S: Scalar>(st: Split<S>, starts: Seq<S>) -> Split<S> {
    let n = starts.len();
    match (st.pending, st.last_pos, st.last_surah) {
        (Some(p), Some(last), Some(surah)) => {
            let dist = distance(p.pos_global as int, last as int);
            let gap = distance(p.surah_id as int, surah as int);
            let from = p.from_span_index as int;
            if p.start_seg_index + 1 >= n && is_far(dist, gap) && S::milli_spec(300).rank() <= p.confidence.rank()
                && p.start_seg_index > st.spans[from].start_seg_index && p.start_seg_index < n {
                with_new_span(st, from, p.start_seg_index, (n - 1) as usize, starts[p.start_seg_index as int], dist)
            } else {
                st
            }
        },
        _ => st,
    }
}

/// The indexes of a split refer to its spans and to segments below `k`.
pub open spec fn split_wf<S: Scalar>(st: Split<S>, k: int) -> bool {
    &&& 0 <= st.cur_span < st.spans.len()
    &&& st.spans.len() <= k + 1
    &&& st.jumps.len() + 1 == st.spans.len()
    &&& st.pending matches Some(p) ==> p.from_span_index < st.spans.len() && p.start_seg_index < k && 1 <= p.count
        <= k && p.from_span_index == st.cur_span
    &&& k == 0 ==> st.spans =~= seq![SpanCandidate { start_seg_index: 0, end_seg_index: 0 }]
    &&& k > 0 ==> forall|j: int| 0 <= j < st.spans.len() ==> (#[trigger] st.spans[j]).end_seg_index < k
    &&& k > 0 ==> forall|j: int| 0 <= j < st.spans.len() ==> (#[trigger] st.spans[j]).start_seg_index < k
    &&& forall|j: int|
        0 <= j < st.jumps.len() ==> (#[trigger] st.jumps[j]).from_span_index < st.spans.len()
            && st.jumps[j].to_span_index < st.spans.len() && st.jumps[j].from_span_index != st.jumps[j].to_span_index
}

proof fn lemma_new_span_wf<S: Scalar>(
    st: Split<S>,
    k: int,
    from: int,
    start: usize,
    end: usize,
    at_s: S,
    dist: int,
    pos: u16,
    surah: u16,
)
    requires
        split_wf(st, k),
        1 <= k <= usize::MAX,
        st.spans.len() <= k,
        0 <= from < st.spans.len(),
        start < k,
        end < k,
    ensures
        split_wf(at_place(with_new_span(st, from, start, end, at_s, dist), pos, surah), k),
{
    let r = at_place(with_new_span(st, from, start, end, at_s, dist), pos, surah);
    assert forall|j: int| 0 <= j < r.spans.len() implies (#[trigger] r.spans[j]).end_seg_index < k by {
        if j < st.spans.len() {
            assert(st.spans[j].end_seg_index < k);
        }
    }
    assert forall|j: int| 0 <= j < r.spans.len() implies (#[trigger] r.spans[j]).start_seg_index < k by {
        if j < st.spans.len() {
            assert(st.spans[j].start_seg_index < k);
        }
    }
    assert forall|j: int| 0 <= j < r.jumps.len() implies (#[trigger] r.jumps[j]).from_span_index < r.spans.len()
        && r.jumps[j].to_span_index < r.spans.len() && r.jumps[j].from_span_index != r.jumps[j].to_span_index by {
        if j < st.jumps.len() {
            assert(r.jumps[j] == st.jumps[j]);
        }
    }
}

proof fn lemma_split_step_wf<S: Scalar>(st0: Split<S>, i: usize, seg: Option<SegAlign<S>>)
    requires
        split_wf(st0, i as int),
        i < usize::MAX,
    ensures
        split_wf(split_step(st0, i, seg), i + 1),
{
    let st = Split {
        spans: st0.spans.update(st0.cur_span, SpanCandidate { end_seg_index: i, ..st0.spans[st0.cur_span] }),
        ..st0
    };
    assert(split_wf(st, i + 1)) by {
        assert forall|j: int| 0 <= j < st.spans.len() implies (#[trigger] st.spans[j]).end_seg_index < i + 1 by {
            assert(i == 0 || st0.spans[j].end_seg_index < i);
        }
        assert forall|j: int| 0 <= j < st.spans.len() implies (#[trigger] st.spans[j]).start_seg_index < i + 1 by {
            assert(i == 0 || st0.spans[j].start_seg_index < i);
        }
    }
    if let Some(sa) = seg {
        if let Some(last) = st.last_pos {
            let pos = sa.center() as u16;
            let dist = distance(pos as int, last as int);
            lemma_new_span_wf(st, i + 1, st.cur_span, i, i, sa.seg_start_s, dist, pos, sa.start_surah_id);
            if let Some(p) = st.pending {
                lemma_new_span_wf(
                    st,
                    i + 1,
                    p.from_span_index as int,
                    p.start_seg_index,
                    i,
                    sa.seg_start_s,
                    dist,
                    pos,
                    sa.start_surah_id,
                );
            }
        }
    }
}

/// A split keeps its indexes within its spans and within the segments looked at.
pub proof fn law_split_indexes<S: Scalar>(aligns: Seq<Option<SegAlign<S>>>, k: nat)
    requires
        k <= aligns.len(),
        aligns.len() <= usize::MAX,
    ensures
        split_wf(split_after(aligns, k), k as int),
    decreases k,
{
    if k > 0 {
        law_split_indexes(aligns, (k - 1) as nat);
        lemma_split_step_wf(split_after(aligns, (k - 1) as nat), (k - 1) as usize, aligns[k - 1]);
    }
}

fn apart(a: u16, b: u16) -> (r: u16)
    ensures
        r == distance(a as int, b as int),
{
    if a < b {
        b - a
    } else {
        a - b
    }
}

impl<S: Scalar> SplitState<S> {
    fn start() -> (r: Self)
        ensures
            r@ == split_start::<S>(),
    {
        let mut spans: Vec<SpanCandidate> = Vec::new();
        spans.push(SpanCandidate { start_seg_index: 0, end_seg_index: 0 });
        let r = SplitState {
            spans,
            jumps: Vec::new(),
            cur_span: 0,
            last_pos: None,
            last_surah: None,
            pending: None,
        };
        assert(r@.spans =~= split_start::<S>().spans);
        assert(r@.jumps =~= split_start::<S>().jumps);
        r
    }

    fn open_span(&mut self, from: usize, start: usize, end: usize, at_s: S, dist: u16)
        requires
            from < old(self).spans@.len(),
        ensures
            final(self)@ == with_new_span(old(self)@, from as int, start, end, at_s, dist as int),
    {
        let to: usize = self.spans.len();
        let first: usize = self.spans[from].start_seg_index;
        let last: usize = if start == 0 {
            0
        } else {
            start - 1
        };
        self.spans.set(from, SpanCandidate { start_seg_index: first, end_seg_index: last });
        self.spans.push(SpanCandidate { start_seg_index: start, end_seg_index: end });
        self.jumps.push(
            JumpEvent {
                at_s,
                at_segment_index: start,
                from_span_index: from,
                to_span_index: to,
                distance_ayahs: dist as i32,
            },
        );
        self.cur_span = to;
        assert(self@.spans =~= with_new_span(old(self)@, from as int, start, end, at_s, dist as int).spans);
        assert(self@.jumps =~= with_new_span(old(self)@, from as int, start, end, at_s, dist as int).jumps);
    }

    fn place(&mut self, pos: u16, surah: u16)
        ensures
            final(self)@ == at_place(old(self)@, pos, surah),
    {
        self.last_pos = Some(pos);
        self.last_surah = Some(surah);
        self.pending = None;
    }

    fn step(&mut self, i: usize, seg: Option<SegAlign<S>>)
        requires
            split_wf(old(self)@, i as int),
            i < usize::MAX,
        ensures
            final(self)@ == split_step(old(self)@, i, seg),
    {
        let cur: usize = self.cur_span;
        let first: usize = self.spans[cur].start_seg_index;
        self.spans.set(cur, SpanCandidate { start_seg_index: first, end_seg_index: i });
        let ghost st = Split {
            spans: old(self)@.spans.update(
                old(self)@.cur_span,
                SpanCandidate { end_seg_index: i, ..old(self)@.spans[old(self)@.cur_span] },
            ),
            ..old(self)@
        };
        assert(self@.spans =~= st.spans);
        assert(self@ == st);
        let sa = match seg {
            None => return,
            Some(sa) => sa,
        };
        if sa.confidence.below(S::milli(300)) {
            return;
        }
        let pos: u16 = sa.center_global();
        let last: u16 = match self.last_pos {
            None => {
                self.place(pos, sa.start_surah_id);
                return;
            },
            Some(l) => l,
        };
        let dist: u16 = apart(pos, last);
        let gap: u16 = match self.last_surah {
            None => 0,
            Some(x) => apart(sa.start_surah_id, x),
        };
        if !(dist >= 80 || gap >= 2) {
            self.place(pos, sa.start_surah_id);
            return;
        }
        if !sa.confidence.below(S::milli(930)) {
            self.open_span(cur, i, i, sa.seg_start_s, dist);
            self.place(pos, sa.start_surah_id);
            return;
        }
        let fresh = PendingJump {
            start_seg_index: i,
            pos_global: pos,
            surah_id: sa.start_surah_id,
            confidence: sa.confidence,
            count: 1,
            from_span_index: cur,
        };
        match self.pending {
            None => {
                self.pending = Some(fresh);
            },
            Some(p) => {
                if apart(pos, p.pos_global) > 80 {
                    self.pending = Some(fresh);
                } else if p.count >= 1 {
                    self.open_span(p.from_span_index, p.start_seg_index, i, sa.seg_start_s, dist);
                    self.place(pos, sa.start_surah_id);
                }
            },
        }
    }

    fn finish(&mut self, starts: &[S])
        requires
            split_wf(old(self)@, starts@.len() as int),
        ensures
            final(self)@ == split_end(old(self)@, starts@),
    {
        let n: usize = starts.len();
        match (self.pending, self.last_pos, self.last_surah) {
            (Some(p), Some(last), Some(surah)) => {
                let dist: u16 = apart(p.pos_global, last);
                let gap: u16 = apart(p.surah_id, surah);
                let far: bool = dist >= 80 || gap >= 2;
                let from: usize = p.from_span_index;
                if p.start_seg_index >= n - 1 && far && !p.confidence.below(S::milli(300)) && p.start_seg_index
                    > self.spans[from].start_seg_index && p.start_seg_index < n {
                    self.open_span(from, p.start_seg_index, n - 1, starts[p.start_seg_index], dist);
                }
            },
            _ => {},
        }
    }
}

/// The spans and jumps of a recitation, given what each segment says and when it
/// starts.
pub open spec fn split_of<S: Scalar>(aligns: Seq<Option<SegAlign<S>>>, starts: Seq<S>) -> Split<S> {
    split_end(split_after(aligns, aligns.len()), starts)
}

pub fn split_segments<S: Scalar>(aligns: &[Option<SegAlign<S>>], starts: &[S]) -> (r: SplitState<S>)
    requires
        aligns@.len() == starts@.len(),
    ensures
        r@ == split_of(aligns@, starts@),
        forall|j: int|
            0 <= j < r@.spans.len() ==> (#[trigger] r@.spans[j]).end_seg_index < starts@.len() || starts@.len() == 0,
        forall|j: int|
            0 <= j < r@.jumps.len() ==> (#[trigger] r@.jumps[j]).from_span_index < r@.spans.len()
                && r@.jumps[j].to_span_index < r@.spans.len(),
{
    let mut st = SplitState::start();
    let mut i: usize = 0;
    while i < aligns.len()
        invariant
            i <= aligns@.len(),
            st@ == split_after(aligns@, i as nat),
        decreases aligns@.len() - i,
    {
        proof {
            law_split_indexes(aligns@, i as nat);
        }
        st.step(i, aligns[i]);
        i = i + 1;
    }
    let n: usize = starts.len();
    proof {
        law_split_indexes(aligns@, i as nat);
    }
    st.finish(starts);
    st
}

/// The spans cover the segments below `k`, one after the other, each segment once.
#[verifier::opaque]
pub open spec fn spans_cover(spans: Seq<SpanCandidate>, k: int) -> bool {
    &&& spans.len() > 0
    &&& spans[0].start_seg_index == 0
    &&& spans.last().end_seg_index + 1 == k
    &&& forall|j: int| 0 <= j < spans.len() ==> (#[trigger] spans[j]).start_seg_index <= spans[j].end_seg_index
    &&& forall|j: int|
        0 < j < spans.len() ==> (#[trigger] spans[j]).start_seg_index == spans[j - 1].end_seg_index + 1
}

/// The last span is the current one, and a jump that waits began within it.
spec fn is_last_current<S: Scalar>(st: Split<S>, k: int) -> bool {
    &&& st.cur_span == st.spans.len() - 1
    &&& st.spans.len() <= k + 1
    &&& k == 0 ==> st.last_pos is None && st.pending is None && st.spans.len() == 1 && st.spans[0].start_seg_index == 0
    &&& k > 0 ==> spans_cover(st.spans, k) && st.spans.last().start_seg_index < k
    &&& st.pending matches Some(p) ==> st.spans.last().start_seg_index < p.start_seg_index < k
        && p.from_span_index == st.cur_span
}

proof fn lemma_cut_covers<S: Scalar>(st: Split<S>, k: int, start: usize, at_s: S, dist: int)
    requires
        spans_cover(st.spans, k),
        k <= usize::MAX,
        st.spans.last().start_seg_index < start < k,
    ensures
        st.spans.len() > 0,
        spans_cover(with_new_span(st, st.spans.len() - 1, start, (k - 1) as usize, at_s, dist).spans, k),
{
    reveal(spans_cover);
    let r = with_new_span(st, st.spans.len() - 1, start, (k - 1) as usize, at_s, dist).spans;
    let n = st.spans.len() as int;
    assert(st.spans.last() == st.spans[n - 1]);
    assert forall|j: int| 0 <= j < r.len() implies (#[trigger] r[j]).start_seg_index <= r[j].end_seg_index by {
        if j < n - 1 {
            assert(r[j] == st.spans[j]);
        }
    }
    assert forall|j: int| 0 < j < r.len() implies (#[trigger] r[j]).start_seg_index == r[j - 1].end_seg_index + 1 by {
        if j < n {
            assert(st.spans[j].start_seg_index == st.spans[j - 1].end_seg_index + 1);
            assert(r[j - 1] == st.spans[j - 1]);
            assert(r[j].start_seg_index == st.spans[j].start_seg_index);
        }
    }
    assert(r[0].start_seg_index == st.spans[0].start_seg_index);
}

proof fn lemma_longer_covers(spans: Seq<SpanCandidate>, k: int) -> (r: Seq<SpanCandidate>)
    requires
        spans.len() > 0,
        0 <= k < usize::MAX,
        k == 0 ==> spans.len() == 1 && spans[0].start_seg_index == 0,
        k > 0 ==> spans_cover(spans, k),
    ensures
        r == spans.update(spans.len() - 1, SpanCandidate { end_seg_index: k as usize, ..spans[spans.len() - 1] }),
        spans_cover(r, k + 1),
        r.last().start_seg_index == spans.last().start_seg_index,
        r.last().start_seg_index < k + 1,
{
    reveal(spans_cover);
    let n = spans.len() as int;
    let r = spans.update(n - 1, SpanCandidate { end_seg_index: k as usize, ..spans[n - 1] });
    assert(spans.last() == spans[n - 1]);
    assert(spans[n - 1].start_seg_index <= k);
    assert forall|j: int| 0 < j < n implies (#[trigger] r[j]).start_seg_index == r[j - 1].end_seg_index + 1 by {
        assert(spans[j].start_seg_index == spans[j - 1].end_seg_index + 1);
    }
    r
}

proof fn lemma_step_covers<S: Scalar>(st0: Split<S>, k: int, seg: Option<SegAlign<S>>)
    requires
        is_last_current(st0, k),
        st0.spans.len() > 0,
        0 <= k < usize::MAX,
    ensures
        is_last_current(split_step(st0, k as usize, seg), k + 1),
        split_step(st0, k as usize, seg).spans.len() > 0,
{
    let i = k as usize;
    let spans = lemma_longer_covers(st0.spans, k);
    let st = Split { spans, ..st0 };
    match (seg, st.last_pos) {
        (Some(sa), Some(last)) => {
            let dist = distance(sa.center() as u16 as int, last as int);
            lemma_cut_covers(st, k + 1, i, sa.seg_start_s, dist);
            match st.pending {
                Some(p) => {
                    lemma_cut_covers(st, k + 1, p.start_seg_index, sa.seg_start_s, dist);
                },
                None => {},
            }
        },
        _ => {},
    }
}

proof fn lemma_split_covers<S: Scalar>(aligns: Seq<Option<SegAlign<S>>>, k: nat)
    requires
        k <= aligns.len(),
        aligns.len() <= usize::MAX,
    ensures
        is_last_current(split_after(aligns, k), k as int),
        split_after(aligns, k).spans.len() > 0,
    decreases k,
{
    if k > 0 {
        lemma_split_covers(aligns, (k - 1) as nat);
        lemma_step_covers(split_after(aligns, (k - 1) as nat), k - 1, aligns[k - 1]);
    }
}

proof fn lemma_all_spans_kept(spans: Seq<SpanCandidate>, n: int, k: nat)
    requires
        spans_cover(spans, n),
        k <= spans.len(),
    ensures
        kept_spans(spans, k) == spans.take(k as int),
    decreases k,
{
    reveal(spans_cover);
    if k > 0 {
        lemma_all_spans_kept(spans, n, (k - 1) as nat);
        assert(spans[k - 1].start_seg_index <= spans[k - 1].end_seg_index);
        assert(spans.take(k as int) =~= spans.take(k - 1).push(spans[k - 1]));
    }
}

/// The spans of a split cover all segments, one after the other, each segment once;
/// so none of them is left out for want of segments.
pub proof fn law_spans_cover_all_segments<S: Scalar>(aligns: Seq<Option<SegAlign<S>>>, starts: Seq<S>)
    requires
        0 < aligns.len() <= usize::MAX,
        starts.len() == aligns.len(),
    ensures
        spans_cover(split_of(aligns, starts).spans, aligns.len() as int),
        kept_spans(split_of(aligns, starts).spans, split_of(aligns, starts).spans.len()) == split_of(
            aligns,
            starts,
        ).spans,
{
    let n = aligns.len();
    let st = split_after(aligns, n);
    lemma_split_covers(aligns, n);
    match (st.pending, st.last_pos) {
        (Some(p), Some(last)) => {
            lemma_cut_covers(
                st,
                n as int,
                p.start_seg_index,
                starts[p.start_seg_index as int],
                distance(p.pos_global as int, last as int),
            );
        },
        _ => {},
    }
    let spans = split_of(aligns, starts).spans;
    lemma_all_spans_kept(spans, n as int, spans.len());
    assert(spans.take(spans.len() as int) =~= spans);
}

/// The verse half way between the ends of a segment.
pub open spec fn middle<S>(a: SegAlign<S>) -> int {
    (a.start_global as int + a.end_global as int) / 2
}

/// A segment with a confidence of at least 0.30.
pub open spec fn is_trusted<S: Scalar>(seg: Option<SegAlign<S>>) -> bool {
    seg matches Some(a) && S::milli_spec(300).rank() <= a.confidence.rank()
}

/// The middles of two segments lie 80 or more verses apart, or their chapters two or
/// more.
pub open spec fn lie_apart<S>(a: SegAlign<S>, b: SegAlign<S>) -> bool {
    ||| middle(a) - middle(b) >= 80
    ||| middle(b) - middle(a) >= 80
    ||| a.start_surah_id - b.start_surah_id >= 2
    ||| b.start_surah_id - a.start_surah_id >= 2
}

/// After the first `k` segments, the recitation is taken to be where segment `j` is.
pub open spec fn is_at<S: Scalar>(aligns: Seq<Option<SegAlign<S>>>, k: nat, j: int) -> bool {
    &&& 0 <= j < k
    &&& is_trusted(aligns[j])
    &&& split_after(aligns, k).last_pos == Some(middle(aligns[j]->0) as u16)
    &&& split_after(aligns, k).last_surah == Some(aligns[j]->0.start_surah_id)
}

/// A jump at segment `x` away from where segment `j` is. Segment `i` decided it: `x`
/// itself, when it is certain or the last one of all, or a later one near `x` that
/// lies as far away.
pub open spec fn is_jump_from<S: Scalar>(
    aligns: Seq<Option<SegAlign<S>>>,
    jump: JumpEvent<S>,
    j: int,
    x: int,
    i: int,
) -> bool {
    &&& 0 <= j < x <= i < aligns.len()
    &&& is_trusted(aligns[j]) && is_trusted(aligns[x]) && is_trusted(aligns[i])
    &&& lie_apart(aligns[j]->0, aligns[x]->0)
    &&& lie_apart(aligns[j]->0, aligns[i]->0)
    &&& jump.at_segment_index == x
    &&& jump.distance_ayahs == middle(aligns[i]->0) - middle(aligns[j]->0) || jump.distance_ayahs == middle(
        aligns[j]->0,
    ) - middle(aligns[i]->0)
    &&& jump.distance_ayahs >= 0
    &&& x < i || S::milli_spec(930).rank() <= aligns[i]->0.confidence.rank() ==> jump.at_s == aligns[i]->0.seg_start_s
    &&& x == i ==> S::milli_spec(930).rank() <= aligns[i]->0.confidence.rank() || i == aligns.len() - 1
    &&& x < i ==> -80 <= middle(aligns[i]->0) - middle(aligns[x]->0) <= 80 && aligns[i]->0.confidence.rank()
        < S::milli_spec(930).rank()
}

pub open spec fn leads_away<S: Scalar>(aligns: Seq<Option<SegAlign<S>>>, jump: JumpEvent<S>) -> bool {
    exists|j: int, x: int, i: int| #[trigger] is_jump_from(aligns, jump, j, x, i)
}

/// Some segment is where the recitation is taken to be, and a jump that waits leads
/// away from it.
spec fn tracks<S: Scalar>(aligns: Seq<Option<SegAlign<S>>>, k: nat) -> bool {
    let st = split_after(aligns, k);
    &&& st.last_pos is None ==> st.pending is None && st.last_surah is None && forall|q: int|
        0 <= q < k ==> !is_trusted(#[trigger] aligns[q])
    &&& st.last_pos is Some ==> exists|j: int| #[trigger] is_at(aligns, k, j) && (st.pending matches Some(p) ==> {
        &&& j < p.start_seg_index < k
        &&& is_trusted(aligns[p.start_seg_index as int])
        &&& lie_apart(aligns[j]->0, aligns[p.start_seg_index as int]->0)
        &&& p.pos_global == middle(aligns[p.start_seg_index as int]->0)
        &&& p.surah_id == aligns[p.start_seg_index as int]->0.start_surah_id
        &&& p.confidence == aligns[p.start_seg_index as int]->0.confidence
        &&& p.confidence.rank() < S::milli_spec(930).rank()
        &&& p.count == 1
    })
    &&& forall|y: int| 0 <= y < st.jumps.len() ==> leads_away(aligns, #[trigger] st.jumps[y])
}

proof fn lemma_middle<S: Scalar>(a: SegAlign<S>)
    ensures
        a.center() == middle(a),
        0 <= middle(a) <= u16::MAX,
{
}

proof fn lemma_tracks_step<S: Scalar>(aligns: Seq<Option<SegAlign<S>>>, k: nat)
    requires
        k < aligns.len() <= usize::MAX,
        tracks(aligns, k),
    ensures
        tracks(aligns, k + 1),
{
    let st = split_after(aligns, k);
    let r = split_after(aligns, k + 1);
    let i = k as usize;
    assert(r == split_step(st, i, aligns[k as int]));
    assert(i as int == k);
    assert forall|y: int| 0 <= y < st.jumps.len() implies leads_away(aligns, #[trigger] r.jumps[y]) by {
        assert(r.jumps[y] == st.jumps[y]);
    }
    if is_trusted(aligns[k as int]) {
        let sa = aligns[k as int]->0;
        lemma_middle(sa);
        if st.last_pos is None {
            assert(is_at(aligns, k + 1, k as int));
        } else {
            let j = choose|j: int| #[trigger]
                is_at(aligns, k, j) && (st.pending matches Some(p) ==> {
                    &&& j < p.start_seg_index < k
                    &&& is_trusted(aligns[p.start_seg_index as int])
                    &&& lie_apart(aligns[j]->0, aligns[p.start_seg_index as int]->0)
                    &&& p.pos_global == middle(aligns[p.start_seg_index as int]->0)
                    &&& p.surah_id == aligns[p.start_seg_index as int]->0.start_surah_id
                    &&& p.confidence == aligns[p.start_seg_index as int]->0.confidence
                    &&& p.confidence.rank() < S::milli_spec(930).rank()
                    &&& p.count == 1
                });
            let ja = aligns[j]->0;
            lemma_middle(ja);
            if !lie_apart(ja, sa) {
                assert(is_at(aligns, k + 1, k as int));
            } else if S::milli_spec(930).rank() <= sa.confidence.rank() {
                assert(is_at(aligns, k + 1, k as int));
                assert(is_jump_from(aligns, r.jumps.last(), j, k as int, k as int));
                assert(leads_away(aligns, r.jumps.last()));
            } else {
                match st.pending {
                    Some(p) => {
                        let x = p.start_seg_index as int;
                        lemma_middle(aligns[x]->0);
                        if r.jumps.len() > st.jumps.len() {
                            assert(is_at(aligns, k + 1, k as int));
                            assert(is_jump_from(aligns, r.jumps.last(), j, x, k as int));
                            assert(leads_away(aligns, r.jumps.last()));
                        } else {
                            assert(is_at(aligns, k + 1, j));
                        }
                    },
                    None => {
                        assert(is_at(aligns, k + 1, j));
                    },
                }
            }
        }
    } else if st.last_pos is Some {
        let j = choose|j: int| #[trigger]
            is_at(aligns, k, j) && (st.pending matches Some(p) ==> {
                &&& j < p.start_seg_index < k
                &&& is_trusted(aligns[p.start_seg_index as int])
                &&& lie_apart(aligns[j]->0, aligns[p.start_seg_index as int]->0)
                &&& p.pos_global == middle(aligns[p.start_seg_index as int]->0)
                &&& p.surah_id == aligns[p.start_seg_index as int]->0.start_surah_id
                &&& p.confidence == aligns[p.start_seg_index as int]->0.confidence
                &&& p.confidence.rank() < S::milli_spec(930).rank()
                &&& p.count == 1
            });
        assert(is_at(aligns, k + 1, j));
    }
}

proof fn lemma_tracks<S: Scalar>(aligns: Seq<Option<SegAlign<S>>>, k: nat)
    requires
        k <= aligns.len() <= usize::MAX,
    ensures
        tracks(aligns, k),
    decreases k,
{
    if k > 0 {
        lemma_tracks(aligns, (k - 1) as nat);
        lemma_tracks_step(aligns, (k - 1) as nat);
    }
}

/// Jump `y` goes from span `y` to the next one, which begins at its segment.
spec fn jumps_link_spans<S: Scalar>(st: Split<S>) -> bool {
    &&& st.spans.len() == st.jumps.len() + 1
    &&& forall|y: int|
        0 <= y < st.jumps.len() ==> (#[trigger] st.jumps[y]).from_span_index == y && st.jumps[y].to_span_index == y + 1
            && st.spans[y + 1].start_seg_index == st.jumps[y].at_segment_index
}

proof fn lemma_new_span_links<S: Scalar>(st: Split<S>, start: usize, end: usize, at_s: S, dist: int)
    requires
        jumps_link_spans(st),
        st.spans.len() <= usize::MAX,
    ensures
        jumps_link_spans(with_new_span(st, st.spans.len() - 1, start, end, at_s, dist)),
{
    let r = with_new_span(st, st.spans.len() - 1, start, end, at_s, dist);
    assert forall|y: int| 0 <= y < r.jumps.len() implies (#[trigger] r.jumps[y]).from_span_index == y
        && r.jumps[y].to_span_index == y + 1 && r.spans[y + 1].start_seg_index == r.jumps[y].at_segment_index by {
        if y < st.jumps.len() {
            assert(r.jumps[y] == st.jumps[y]);
        }
    }
}

/// What is told of jumps and begun spans after `k` segments stays after `m`.
proof fn lemma_split_grows<S: Scalar>(aligns: Seq<Option<SegAlign<S>>>, k: nat, m: nat)
    requires
        k <= m <= aligns.len() < usize::MAX,
    ensures
        jumps_link_spans(split_after(aligns, m)),
        split_after(aligns, k).jumps.len() <= split_after(aligns, m).jumps.len(),
        forall|y: int|
            0 <= y < split_after(aligns, k).jumps.len() ==> #[trigger] split_after(aligns, m).jumps[y] == split_after(
                aligns,
                k,
            ).jumps[y],
    decreases m,
{
    if m > 0 {
        let before = (m - 1) as nat;
        if k < m {
            lemma_split_grows(aligns, k, before);
        } else {
            lemma_split_grows(aligns, before, before);
        }
        lemma_split_covers(aligns, before);
        let st0 = split_after(aligns, before);
        let i = before as usize;
        let st = Split {
            spans: st0.spans.update(st0.cur_span, SpanCandidate { end_seg_index: i, ..st0.spans[st0.cur_span] }),
            ..st0
        };
        assert(jumps_link_spans(st)) by {
            assert forall|y: int| 0 <= y < st.jumps.len() implies (#[trigger] st.jumps[y]).from_span_index == y
                && st.jumps[y].to_span_index == y + 1 && st.spans[y + 1].start_seg_index
                == st.jumps[y].at_segment_index by {
                assert(st.jumps[y] == st0.jumps[y]);
            }
        }
        match (aligns[m - 1], st.last_pos) {
            (Some(sa), Some(last)) => {
                let dist = distance(sa.center() as u16 as int, last as int);
                lemma_new_span_links(st, i, i, sa.seg_start_s, dist);
                match st.pending {
                    Some(p) => {
                        lemma_new_span_links(st, p.start_seg_index, i, sa.seg_start_s, dist);
                    },
                    None => {},
                }
            },
            _ => {},
        }
    }
}

proof fn lemma_split_ends<S: Scalar>(aligns: Seq<Option<SegAlign<S>>>, starts: Seq<S>)
    requires
        0 < aligns.len() < usize::MAX,
        starts.len() == aligns.len(),
    ensures
        jumps_link_spans(split_of(aligns, starts)),
        split_after(aligns, aligns.len()).jumps.len() <= split_of(aligns, starts).jumps.len(),
        forall|y: int|
            0 <= y < split_after(aligns, aligns.len()).jumps.len() ==> #[trigger] split_of(aligns, starts).jumps[y]
                == split_after(aligns, aligns.len()).jumps[y],
{
    let n = aligns.len();
    let st = split_after(aligns, n);
    lemma_split_grows(aligns, n, n);
    lemma_split_covers(aligns, n);
    match (st.pending, st.last_pos) {
        (Some(p), Some(last)) => {
            lemma_new_span_links(
                st,
                p.start_seg_index,
                (n - 1) as usize,
                starts[p.start_seg_index as int],
                distance(p.pos_global as int, last as int),
            );
        },
        _ => {},
    }
}

/// A jump is only reported away from where the recitation was: its segment and an
/// earlier trusted one lie 80 verses or two chapters apart, and it was certain,
/// confirmed by a later segment, or the last segment of all. It leads from one span to
/// the next, which begins at its segment.
pub proof fn law_jumps_lead_away<S: Scalar>(aligns: Seq<Option<SegAlign<S>>>, starts: Seq<S>, y: int)
    requires
        0 < aligns.len() < usize::MAX,
        starts.len() == aligns.len(),
        0 <= y < split_of(aligns, starts).jumps.len(),
    ensures
        ({
            let st = split_of(aligns, starts);
            &&& leads_away(aligns, st.jumps[y])
            &&& st.jumps[y].from_span_index == y && st.jumps[y].to_span_index == y + 1
            &&& y + 1 < st.spans.len() && st.spans[y + 1].start_seg_index == st.jumps[y].at_segment_index
            &&& st.spans[y].end_seg_index + 1 == st.jumps[y].at_segment_index
        }),
{
    let n = aligns.len();
    let st = split_after(aligns, n);
    let r = split_of(aligns, starts);
    lemma_tracks(aligns, n);
    lemma_split_ends(aligns, starts);
    law_spans_cover_all_segments(aligns, starts);
    reveal(spans_cover);
    assert(r.spans[y + 1].start_seg_index == r.spans[y + 1 - 1].end_seg_index + 1);
    if y < st.jumps.len() {
        assert(r.jumps[y] == st.jumps[y]);
    } else {
        let p = st.pending->0;
        let x = p.start_seg_index as int;
        let j = choose|j: int| #[trigger]
            is_at(aligns, n, j) && (st.pending matches Some(p) ==> {
                &&& j < p.start_seg_index < n
                &&& is_trusted(aligns[p.start_seg_index as int])
                &&& lie_apart(aligns[j]->0, aligns[p.start_seg_index as int]->0)
                &&& p.pos_global == middle(aligns[p.start_seg_index as int]->0)
                &&& p.surah_id == aligns[p.start_seg_index as int]->0.start_surah_id
                &&& p.confidence == aligns[p.start_seg_index as int]->0.confidence
                &&& p.confidence.rank() < S::milli_spec(930).rank()
                &&& p.count == 1
            });
        lemma_middle(aligns[j]->0);
        lemma_middle(aligns[x]->0);
        assert(is_jump_from(aligns, r.jumps[y], j, x, x));
    }
}

/// A recitation whose trusted segments all lie within 80 verses and two chapters of
/// each other is a single span without jumps.
pub proof fn law_steady_recitation_is_one_span<S: Scalar>(aligns: Seq<Option<SegAlign<S>>>, starts: Seq<S>)
    requires
        0 < aligns.len() < usize::MAX,
        starts.len() == aligns.len(),
        forall|a: int, b: int|
            0 <= a < b < aligns.len() && is_trusted(#[trigger] aligns[a]) && is_trusted(#[trigger] aligns[b])
                ==> -80 < middle(aligns[a]->0) - middle(aligns[b]->0) < 80 && -2 < aligns[a]->0.start_surah_id
                - aligns[b]->0.start_surah_id < 2,
    ensures
        split_of(aligns, starts).jumps.len() == 0,
        split_of(aligns, starts).spans == seq![
            SpanCandidate { start_seg_index: 0, end_seg_index: (aligns.len() - 1) as usize },
        ],
{
    let r = split_of(aligns, starts);
    if r.jumps.len() > 0 {
        law_jumps_lead_away(aligns, starts, 0);
        let (j, x, i) = choose|j: int, x: int, i: int| #[trigger] is_jump_from(aligns, r.jumps[0], j, x, i);
        assert(is_trusted(aligns[j]) && is_trusted(aligns[x]));
        assert(false);
    }
    lemma_split_ends(aligns, starts);
    law_spans_cover_all_segments(aligns, starts);
    reveal(spans_cover);
    assert(r.spans.last() == r.spans[0]);
    assert(r.spans =~= seq![
        SpanCandidate { start_seg_index: 0, end_seg_index: (aligns.len() - 1) as usize },
    ]);
}

/// The recitation is taken to be where the first trusted segment is, and follows every
/// trusted segment that lies within 80 verses and two chapters of it or has a
/// confidence of at least 0.93. A segment that is not trusted changes nothing.
pub proof fn law_recitation_is_followed<S: Scalar>(aligns: Seq<Option<SegAlign<S>>>, k: nat, j: int)
    requires
        k < aligns.len() < usize::MAX,
        forall|q: int| 0 <= q < k ==> !is_trusted(#[trigger] aligns[q]) || is_at(aligns, k, j),
    ensures
        is_trusted(aligns[k as int]) && (!is_at(aligns, k, j) || !lie_apart(aligns[j]->0, aligns[k as int]->0)
            || S::milli_spec(930).rank() <= aligns[k as int]->0.confidence.rank()) ==> is_at(
            aligns,
            k + 1,
            k as int,
        ),
        !is_trusted(aligns[k as int]) && is_at(aligns, k, j) ==> is_at(aligns, k + 1, j),
{
    lemma_tracks(aligns, k);
    let st = split_after(aligns, k);
    if is_at(aligns, k, j) {
        lemma_middle(aligns[j]->0);
    } else if st.last_pos is Some {
        let w = choose|w: int| #[trigger] is_at(aligns, k, w);
        assert(is_trusted(aligns[w]));
        assert(false);
    }
    if is_trusted(aligns[k as int]) {
        lemma_middle(aligns[k as int]->0);
    }
}

proof fn lemma_certain_step<S: Scalar>(aligns: Seq<Option<SegAlign<S>>>, j: int, i: int)
    requires
        0 <= j < i < aligns.len() < usize::MAX,
        is_at(aligns, i as nat, j),
        aligns[i] is Some,
        S::milli_spec(930).rank() <= aligns[i]->0.confidence.rank(),
        S::milli_spec(300).rank() <= S::milli_spec(930).rank(),
    ensures
        ({
            let st = split_after(aligns, i as nat);
            let st1 = split_after(aligns, (i + 1) as nat);
            let up = middle(aligns[i]->0) - middle(aligns[j]->0);
            let y = st.jumps.len() as int;
            &&& lie_apart(aligns[j]->0, aligns[i]->0) ==> {
                &&& st1.jumps.len() == y + 1
                &&& st1.jumps[y].at_segment_index == i
                &&& st1.jumps[y].at_s == aligns[i]->0.seg_start_s
                &&& st1.jumps[y].distance_ayahs == (if up < 0 {
                    -up
                } else {
                    up
                })
            }
            &&& !lie_apart(aligns[j]->0, aligns[i]->0) ==> st1.jumps == st.jumps && st1.pending is None
        }),
{
    let k = i as nat;
    lemma_middle(aligns[j]->0);
    lemma_middle(aligns[i]->0);
    assert(split_after(aligns, k + 1) == split_step(split_after(aligns, k), i as usize, aligns[i]));
}

proof fn lemma_span_at_jump<S: Scalar>(aligns: Seq<Option<SegAlign<S>>>, starts: Seq<S>, k: nat, y: int)
    requires
        k <= aligns.len(),
        0 < aligns.len() < usize::MAX,
        starts.len() == aligns.len(),
        0 <= y < split_after(aligns, k).jumps.len(),
    ensures
        ({
            let st = split_of(aligns, starts);
            &&& y < st.jumps.len()
            &&& st.jumps[y] == split_after(aligns, k).jumps[y]
            &&& st.spans[y + 1].start_seg_index == st.jumps[y].at_segment_index
            &&& st.spans[y].end_seg_index == st.jumps[y].at_segment_index - 1
        }),
{
    let n = aligns.len();
    lemma_split_grows(aligns, k, n);
    lemma_split_ends(aligns, starts);
    law_spans_cover_all_segments(aligns, starts);
    reveal(spans_cover);
    let r = split_of(aligns, starts);
    assert(split_after(aligns, n).jumps[y] == split_after(aligns, k).jumps[y]);
    assert(r.jumps[y] == split_after(aligns, n).jumps[y]);
    assert(r.spans[y + 1].start_seg_index == r.spans[y + 1 - 1].end_seg_index + 1);
}

/// A segment with a confidence of at least 0.93 begins a span and is a jump by the
/// distance of the verses, exactly if it lies 80 verses or two chapters from where the
/// recitation is taken to be.
#[verifier::spinoff_prover]
#[verifier::rlimit(40)]
pub proof fn law_certain_segments_jump<S: Scalar>(aligns: Seq<Option<SegAlign<S>>>, starts: Seq<S>, j: int, i: int)
    requires
        0 <= j < i < aligns.len() < usize::MAX,
        starts.len() == aligns.len(),
        is_at(aligns, i as nat, j),
        aligns[i] is Some,
        S::milli_spec(930).rank() <= aligns[i]->0.confidence.rank(),
        S::milli_spec(300).rank() <= S::milli_spec(930).rank(),
    ensures
        ({
            let st = split_of(aligns, starts);
            let a = aligns[j]->0;
            let b = aligns[i]->0;
            let up = (b.start_global as int + b.end_global as int) / 2 - (a.start_global as int + a.end_global as int) / 2;
            let chapters = b.start_surah_id - a.start_surah_id;
            let y = split_after(aligns, i as nat).jumps.len() as int;
            if up >= 80 || up <= -80 || chapters >= 2 || chapters <= -2 {
                &&& y < st.jumps.len()
                &&& st.jumps[y].at_segment_index == i
                &&& st.jumps[y].at_s == b.seg_start_s
                &&& st.jumps[y].distance_ayahs == (if up < 0 {
                    -up
                } else {
                    up
                })
                &&& st.spans[y + 1].start_seg_index == i
                &&& st.spans[y].end_seg_index == i - 1
            } else {
                &&& forall|z: int| 0 <= z < st.jumps.len() ==> (#[trigger] st.jumps[z]).at_segment_index != i
                &&& forall|z: int| 0 <= z < st.spans.len() ==> (#[trigger] st.spans[z]).start_seg_index != i
            }
        }),
{
    let n = aligns.len();
    let k = i as nat;
    let st = split_after(aligns, k);
    let st1 = split_after(aligns, k + 1);
    let r = split_of(aligns, starts);
    let a = aligns[j]->0;
    let b = aligns[i]->0;
    lemma_middle(a);
    lemma_middle(b);
    lemma_certain_step(aligns, j, i);
    if lie_apart(a, b) {
        lemma_span_at_jump(aligns, starts, k + 1, st.jumps.len() as int);
    } else {
        lemma_tracks(aligns, k);
        lemma_split_grows(aligns, k + 1, n);
        lemma_split_ends(aligns, starts);
        law_spans_cover_all_segments(aligns, starts);
        reveal(spans_cover);
        assert(st1 == split_step(st, i as usize, aligns[i]));
        assert(is_at(aligns, k + 1, i));
        lemma_later_jumps(aligns, k + 1, n, i);
        let e = split_after(aligns, n);
        assert forall|z: int| 0 <= z < r.jumps.len() implies (#[trigger] r.jumps[z]).at_segment_index != i by {
            if z < e.jumps.len() {
                assert(r.jumps[z] == e.jumps[z]);
            }
        }
        assert forall|z: int| 0 <= z < r.spans.len() implies (#[trigger] r.spans[z]).start_seg_index != i by {
            if z > 0 {
                assert(r.jumps[z - 1].at_segment_index != i);
            }
        }
    }
}

/// Where the recitation was at segment `i` and no jump waited, no later jump begins
/// there.
proof fn lemma_later_jumps<S: Scalar>(aligns: Seq<Option<SegAlign<S>>>, k: nat, m: nat, i: int)
    requires
        0 <= i < k <= m <= aligns.len() < usize::MAX,
        i == k - 1,
        split_after(aligns, k).pending is None,
        split_after(aligns, k).jumps.len() == split_after(aligns, (k - 1) as nat).jumps.len(),
    ensures
        forall|y: int|
            0 <= y < split_after(aligns, m).jumps.len() ==> (#[trigger] split_after(aligns, m).jumps[y]).at_segment_index
                != i,
        split_after(aligns, m).pending matches Some(p) ==> p.start_seg_index > i,
    decreases m,
{
    let st = split_after(aligns, m);
    if m == k {
        law_split_indexes(aligns, (k - 1) as nat);
        lemma_split_covers(aligns, (k - 1) as nat);
        lemma_split_grows(aligns, (k - 1) as nat, (k - 1) as nat);
        let before = split_after(aligns, (k - 1) as nat);
        lemma_split_grows(aligns, (k - 1) as nat, k);
        assert forall|y: int| 0 <= y < st.jumps.len() implies (#[trigger] st.jumps[y]).at_segment_index != i by {
            assert(st.jumps[y] == before.jumps[y]);
            assert(before.spans[y + 1].start_seg_index == before.jumps[y].at_segment_index);
            if k > 1 {
                assert(before.spans[y + 1].start_seg_index < k - 1);
            }
        }
    } else {
        lemma_later_jumps(aligns, k, (m - 1) as nat, i);
        let before = split_after(aligns, (m - 1) as nat);
        lemma_split_grows(aligns, (m - 1) as nat, m);
        assert forall|y: int| 0 <= y < st.jumps.len() implies (#[trigger] st.jumps[y]).at_segment_index != i by {
            if y < before.jumps.len() {
                assert(st.jumps[y] == before.jumps[y]);
            }
        }
    }
}

/// A segment with a confidence below 0.93 that lies 80 verses or two chapters from
/// where the recitation is taken to be is a jump once the next trusted segment lies as
/// far away and within 80 verses of it: a span begins at the first of the two.
#[verifier::spinoff_prover]
#[verifier::rlimit(60)]
pub proof fn law_confirmed_segments_jump<S: Scalar>(
    aligns: Seq<Option<SegAlign<S>>>,
    starts: Seq<S>,
    j: int,
    x: int,
    i: int,
)
    requires
        0 <= j < x < i < aligns.len() < usize::MAX,
        starts.len() == aligns.len(),
        is_at(aligns, x as nat, j),
        split_after(aligns, x as nat).pending is None,
        is_trusted(aligns[x]) && is_trusted(aligns[i]),
        forall|q: int| x < q < i ==> !is_trusted(#[trigger] aligns[q]),
        aligns[x]->0.confidence.rank() < S::milli_spec(930).rank(),
        aligns[i]->0.confidence.rank() < S::milli_spec(930).rank(),
        lie_apart(aligns[j]->0, aligns[x]->0),
        lie_apart(aligns[j]->0, aligns[i]->0),
        -80 <= middle(aligns[i]->0) - middle(aligns[x]->0) <= 80,
    ensures
        ({
            let st = split_of(aligns, starts);
            let y = split_after(aligns, x as nat).jumps.len() as int;
            let up = middle(aligns[i]->0) - middle(aligns[j]->0);
            &&& y < st.jumps.len()
            &&& st.jumps[y].at_segment_index == x
            &&& st.jumps[y].at_s == aligns[i]->0.seg_start_s
            &&& st.jumps[y].distance_ayahs == (if up < 0 {
                -up
            } else {
                up
            })
            &&& st.spans[y + 1].start_seg_index == x
            &&& st.spans[y].end_seg_index == x - 1
        }),
{
    lemma_middle(aligns[j]->0);
    lemma_middle(aligns[x]->0);
    lemma_middle(aligns[i]->0);
    lemma_waits(aligns, x as nat, i as nat);
    let st = split_after(aligns, i as nat);
    let st1 = split_after(aligns, (i + 1) as nat);
    let y = split_after(aligns, x as nat).jumps.len() as int;
    assert(st1.jumps.len() == y + 1 && st1.jumps[y].at_segment_index == x && st1.jumps[y].at_s
        == aligns[i]->0.seg_start_s && st1.jumps[y].distance_ayahs == (if middle(aligns[i]->0) < middle(aligns[j]->0) {
        middle(aligns[j]->0) - middle(aligns[i]->0)
    } else {
        middle(aligns[i]->0) - middle(aligns[j]->0)
    })) by {
        assert(st1 == split_step(st, i as usize, aligns[i]));
    }
    lemma_span_at_jump(aligns, starts, (i + 1) as nat, y);
}

proof fn lemma_waits<S: Scalar>(aligns: Seq<Option<SegAlign<S>>>, x: nat, i: nat)
    requires
        x < i <= aligns.len() < usize::MAX,
        is_trusted(aligns[x as int]),
        split_after(aligns, x).pending is None,
        split_after(aligns, x).last_pos is Some,
        split_after(aligns, x).last_surah is Some,
        is_far(
            distance(middle(aligns[x as int]->0), split_after(aligns, x).last_pos->0 as int),
            distance(aligns[x as int]->0.start_surah_id as int, split_after(aligns, x).last_surah->0 as int),
        ),
        aligns[x as int]->0.confidence.rank() < S::milli_spec(930).rank(),
        forall|q: int| x < q < i ==> !is_trusted(#[trigger] aligns[q]),
    ensures
        ({
            let st = split_after(aligns, i);
            let st0 = split_after(aligns, x);
            &&& st.jumps == st0.jumps && st.last_pos == st0.last_pos && st.last_surah == st0.last_surah
            &&& st.pending matches Some(p) && p.start_seg_index == x && p.pos_global == middle(aligns[x as int]->0)
                && p.count == 1 && p.confidence == aligns[x as int]->0.confidence && p.surah_id
                == aligns[x as int]->0.start_surah_id
        }),
    decreases i,
{
    lemma_middle(aligns[x as int]->0);
    if i > x + 1 {
        lemma_waits(aligns, x, (i - 1) as nat);
        assert(!is_trusted(aligns[i - 1]));
    }
}

/// A recitation in which no jump waits, and whose last segment is trusted and lies 80
/// verses or two chapters from where it was taken to be, ends with a jump: the last span
/// is that segment alone.
pub proof fn law_far_end_jumps<S: Scalar>(aligns: Seq<Option<SegAlign<S>>>, starts: Seq<S>, j: int)
    requires
        1 < aligns.len() < usize::MAX,
        starts.len() == aligns.len(),
        is_at(aligns, (aligns.len() - 1) as nat, j),
        is_trusted(aligns.last()),
        lie_apart(aligns[j]->0, aligns.last()->0),
        split_after(aligns, (aligns.len() - 1) as nat).pending is None,
    ensures
        ({
            let st = split_of(aligns, starts);
            let last = (aligns.len() - 1) as int;
            let y = split_after(aligns, last as nat).jumps.len() as int;
            let up = middle(aligns[last]->0) - middle(aligns[j]->0);
            &&& st.jumps.len() == y + 1
            &&& st.jumps[y].at_segment_index == last
            &&& st.jumps[y].distance_ayahs == (if up < 0 {
                -up
            } else {
                up
            })
            &&& aligns[last]->0.confidence.rank() < S::milli_spec(930).rank() ==> st.jumps[y].at_s == starts[last]
            &&& st.spans.last() == (SpanCandidate { start_seg_index: last as usize, end_seg_index: last as usize })
        }),
{
    let n = aligns.len();
    let k = (n - 1) as nat;
    let st = split_after(aligns, k);
    let st1 = split_after(aligns, n);
    lemma_middle(aligns[j]->0);
    lemma_middle(aligns.last()->0);
    assert(st1 == split_step(st, k as usize, aligns[k as int]));
    lemma_split_covers(aligns, k);
    lemma_split_covers(aligns, n);
    lemma_split_grows(aligns, k, k);
    lemma_split_ends(aligns, starts);
    if aligns.last()->0.confidence.rank() < S::milli_spec(930).rank() {
        lemma_waits(aligns, k, n);
    }
}

// ---------------------------------------------------------------------------
// Spans without segments

pub open spec fn has_segments(s: SpanCandidate) -> bool {
    s.end_seg_index >= s.start_seg_index
}

/// How many of the first `k` spans have segments.
pub open spec fn kept_before(spans: Seq<SpanCandidate>, k: nat) -> nat
    decreases k,
{
    if k == 0 {
        0
    } else {
        kept_before(spans, (k - 1) as nat) + if has_segments(spans[k - 1]) {
            1nat
        } else {
            0nat
        }
    }
}

/// The spans with segments among the first `k`.
pub open spec fn kept_spans(spans: Seq<SpanCandidate>, k: nat) -> Seq<SpanCandidate>
    decreases k,
{
    if k == 0 {
        Seq::empty()
    } else if has_segments(spans[k - 1]) {
        kept_spans(spans, (k - 1) as nat).push(spans[k - 1])
    } else {
        kept_spans(spans, (k - 1) as nat)
    }
}

/// The jumps among the first `k` between spans with segments, renumbered.
pub open spec fn kept_jumps<S>(spans: Seq<SpanCandidate>, jumps: Seq<JumpEvent<S>>, k: nat) -> Seq<JumpEvent<S>>
    decreases k,
{
    if k == 0 {
        Seq::empty()
    } else {
        let before = kept_jumps(spans, jumps, (k - 1) as nat);
        let j = jumps[k - 1];
        if has_segments(spans[j.from_span_index as int]) && has_segments(spans[j.to_span_index as int]) {
            before.push(
                JumpEvent {
                    from_span_index: kept_before(spans, j.from_span_index as nat) as usize,
                    to_span_index: kept_before(spans, j.to_span_index as nat) as usize,
                    ..j
                },
            )
        } else {
            before
        }
    }
}

proof fn lemma_kept(spans: Seq<SpanCandidate>, k: nat)
    requires
        k <= spans.len(),
    ensures
        kept_before(spans, k) <= k,
        kept_spans(spans, k).len() == kept_before(spans, k),
        forall|j: int|
            0 <= j < kept_spans(spans, k).len() ==> has_segments(#[trigger] kept_spans(spans, k)[j]) && spans.contains(
                kept_spans(spans, k)[j],
            ),
    decreases k,
{
    if k > 0 {
        lemma_kept(spans, (k - 1) as nat);
        assert(spans.contains(spans[k - 1]));
    }
}

fn keep_spans(spans: &[SpanCandidate]) -> (r: (Vec<SpanCandidate>, Vec<Option<usize>>))
    ensures
        r.0@ == kept_spans(spans@, spans@.len()),
        r.1@.len() == spans@.len(),
        forall|k: int|
            0 <= k < spans@.len() ==> match #[trigger] r.1@[k] {
                None => !has_segments(spans@[k]),
                Some(x) => has_segments(spans@[k]) && x == kept_before(spans@, k as nat),
            },
{
    let mut out: Vec<SpanCandidate> = Vec::new();
    let mut map: Vec<Option<usize>> = Vec::new();
    let mut k: usize = 0;
    while k < spans.len()
        invariant
            k <= spans@.len(),
            out@ == kept_spans(spans@, k as nat),
            out@.len() == kept_before(spans@, k as nat),
            map@.len() == k,
            forall|j: int|
                0 <= j < k ==> match #[trigger] map@[j] {
                    None => !has_segments(spans@[j]),
                    Some(x) => has_segments(spans@[j]) && x == kept_before(spans@, j as nat),
                },
        decreases spans@.len() - k,
    {
        if spans[k].end_seg_index >= spans[k].start_seg_index {
            map.push(Some(out.len()));
            out.push(spans[k]);
        } else {
            map.push(None);
        }
        k = k + 1;
    }
    (out, map)
}

fn keep_jumps<S: Scalar>(
    Ghost(spans): Ghost<Seq<SpanCandidate>>,
    map: &[Option<usize>],
    jumps: &[JumpEvent<S>],
) -> (r: Vec<JumpEvent<S>>)
    requires
        map@.len() == spans.len(),
        forall|k: int|
            0 <= k < spans.len() ==> match #[trigger] map@[k] {
                None => !has_segments(spans[k]),
                Some(x) => has_segments(spans[k]) && x == kept_before(spans, k as nat),
            },
        forall|j: int|
            0 <= j < jumps@.len() ==> (#[trigger] jumps@[j]).from_span_index < spans.len() && jumps@[j].to_span_index
                < spans.len(),
    ensures
        r@ == kept_jumps(spans, jumps@, jumps@.len()),
{
    let mut out: Vec<JumpEvent<S>> = Vec::new();
    let mut k: usize = 0;
    while k < jumps.len()
        invariant
            k <= jumps@.len(),
            map@.len() == spans.len(),
            forall|k: int|
                0 <= k < spans.len() ==> match #[trigger] map@[k] {
                    None => !has_segments(spans[k]),
                    Some(x) => has_segments(spans[k]) && x == kept_before(spans, k as nat),
                },
            forall|j: int|
                0 <= j < jumps@.len() ==> (#[trigger] jumps@[j]).from_span_index < spans.len()
                    && jumps@[j].to_span_index < spans.len(),
            out@ == kept_jumps(spans, jumps@, k as nat),
        decreases jumps@.len() - k,
    {
        let j = jumps[k];
        assert(jumps@[k as int].from_span_index < spans.len());
        match (map[j.from_span_index], map[j.to_span_index]) {
            (Some(from), Some(to)) => {
                out.push(
                    JumpEvent {
                        at_s: j.at_s,
                        at_segment_index: j.at_segment_index,
                        from_span_index: from,
                        to_span_index: to,
                        distance_ayahs: j.distance_ayahs,
                    },
                );
            },
            _ => {},
        }
        k = k + 1;
    }
    out
}

// ---------------------------------------------------------------------------
// A leading span that is noise

/// The start of a segment; zero where it is not known.
pub open spec fn seg_start<S: Scalar>(segs: Seq<Json<S>>, i: int) -> S {
    real_or(segs[i], "start_s"@, S::whole_spec(0))
}

/// The confidence of an outcome; zero where there was none.
pub open spec fn outcome_confidence<S: Scalar>(r: Result<AlignmentReport<S>, AlignError>) -> S {
    match r {
        Ok(t) => t.confidence,
        Err(_) => S::whole_spec(0),
    }
}

pub fn confidence_in<S: Scalar>(r: &Result<AlignmentReport<S>, AlignError>) -> (c: S)
    ensures
        c == outcome_confidence(*r),
{
    match r {
        Ok(t) => t.confidence,
        Err(_) => S::whole(0),
    }
}

/// The first of several spans is a single short segment that was not recognized
/// well, and what follows is much longer.
pub open spec fn lead_is_noise<S: Scalar>(segs: Seq<Json<S>>, spans: Seq<SpanCandidate>, conf: S) -> bool {
    let s0 = spans[0];
    let start0 = seg_start(segs, s0.start_seg_index as int);
    let end0 = real_or(segs[s0.end_seg_index as int], "end_s"@, start0);
    let dur0 = scalar::max_spec(end0.minus_spec(start0), S::whole_spec(0));
    let start1 = seg_start(segs, spans[1].start_seg_index as int);
    let end_all = real_or(segs[spans.last().end_seg_index as int], "end_s"@, start1);
    let rest = scalar::max_spec(end_all.minus_spec(start1), S::whole_spec(0));
    let need = scalar::max_spec(dur0.times_spec(S::whole_spec(3)), S::whole_spec(10));
    &&& s0.end_seg_index <= s0.start_seg_index
    &&& dur0.rank() <= S::whole_spec(15).rank()
    &&& conf.rank() < S::milli_spec(750).rank()
    &&& need.rank() <= rest.rank()
}

fn is_noise<S: Scalar>(segs: &[Json<S>], spans: &[SpanCandidate], conf: S) -> (r: bool)
    requires
        spans@.len() >= 2,
        forall|j: int|
            0 <= j < spans@.len() ==> (#[trigger] spans@[j]).start_seg_index < segs@.len() && spans@[j].end_seg_index
                < segs@.len(),
    ensures
        r == lead_is_noise(segs@, spans@, conf),
{
    let s0 = spans[0];
    assert(spans@[0].start_seg_index < segs@.len());
    assert(spans@[1].start_seg_index < segs@.len());
    assert(spans@[spans@.len() - 1].end_seg_index < segs@.len());
    if s0.end_seg_index > s0.start_seg_index {
        return false;
    }
    let zero: S = S::whole(0);
    let start0: S = read_real_or(&segs[s0.start_seg_index], "start_s", zero);
    let end0: S = read_real_or(&segs[s0.end_seg_index], "end_s", start0);
    let dur0: S = scalar::max_of(end0.minus(start0), zero);
    if S::whole(15).below(dur0) {
        return false;
    }
    if !conf.below(S::milli(750)) {
        return false;
    }
    let start1: S = read_real_or(&segs[spans[1].start_seg_index], "start_s", zero);
    let end_all: S = read_real_or(&segs[spans[spans.len() - 1].end_seg_index], "end_s", start1);
    let rest: S = scalar::max_of(end_all.minus(start1), zero);
    let need: S = scalar::max_of(dur0.times(S::whole(3)), S::whole(10));
    !rest.below(need)
}

/// The jumps that remain when the first span is dropped.
pub open spec fn jumps_without_first<S>(jumps: Seq<JumpEvent<S>>) -> Seq<JumpEvent<S>>
    decreases jumps.len(),
{
    if jumps.len() == 0 {
        jumps
    } else {
        let before = jumps_without_first(jumps.drop_last());
        let j = jumps.last();
        if j.from_span_index == 0 || j.to_span_index == 0 {
            before
        } else {
            before.push(
                JumpEvent {
                    from_span_index: (j.from_span_index - 1) as usize,
                    to_span_index: (j.to_span_index - 1) as usize,
                    ..j
                },
            )
        }
    }
}

fn drop_first_jumps<S: Scalar>(jumps: &[JumpEvent<S>]) -> (r: Vec<JumpEvent<S>>)
    ensures
        r@ == jumps_without_first(jumps@),
{
    let mut out: Vec<JumpEvent<S>> = Vec::new();
    let mut k: usize = 0;
    assert(out@ =~= jumps_without_first(jumps@.take(0)));
    while k < jumps.len()
        invariant
            k <= jumps@.len(),
            out@ == jumps_without_first(jumps@.take(k as int)),
        decreases jumps@.len() - k,
    {
        assert(jumps@.take(k as int + 1).drop_last() =~= jumps@.take(k as int));
        let j = jumps[k];
        if j.from_span_index != 0 && j.to_span_index != 0 {
            out.push(
                JumpEvent {
                    at_s: j.at_s,
                    at_segment_index: j.at_segment_index,
                    from_span_index: j.from_span_index - 1,
                    to_span_index: j.to_span_index - 1,
                    distance_ayahs: j.distance_ayahs,
                },
            );
        }
        k = k + 1;
    }
    assert(jumps@.take(jumps@.len() as int) =~= jumps@);
    out
}

/// How many leading spans are noise.
pub open spec fn noise_count<S: Scalar>(
    segs: Seq<Json<S>>,
    spans: Seq<SpanCandidate>,
    outcomes: Seq<Result<AlignmentReport<S>, AlignError>>,
) -> nat
    decreases spans.len(),
{
    if spans.len() >= 2 && lead_is_noise(segs, spans, outcome_confidence(outcomes[0])) {
        1 + noise_count(segs, spans.skip(1), outcomes.skip(1))
    } else {
        0
    }
}

/// The jumps when the first `k` spans are dropped.
pub open spec fn jumps_after<S>(jumps: Seq<JumpEvent<S>>, k: nat) -> Seq<JumpEvent<S>>
    decreases k,
{
    if k == 0 {
        jumps
    } else {
        jumps_after(jumps_without_first(jumps), (k - 1) as nat)
    }
}

proof fn lemma_noise_count<S: Scalar>(
    segs: Seq<Json<S>>,
    spans: Seq<SpanCandidate>,
    outcomes: Seq<Result<AlignmentReport<S>, AlignError>>,
)
    ensures
        spans.len() > 0 ==> noise_count(segs, spans, outcomes) < spans.len(),
    decreases spans.len(),
{
    if spans.len() >= 2 && lead_is_noise(segs, spans, outcome_confidence(outcomes[0])) {
        lemma_noise_count(segs, spans.skip(1), outcomes.skip(1));
    }
}

/// Drops leading spans that are noise.
pub fn drop_noise<S: Scalar>(
    segs: &[Json<S>],
    spans: &mut Vec<SpanCandidate>,
    outcomes: &mut Vec<Result<AlignmentReport<S>, AlignError>>,
    jumps: &mut Vec<JumpEvent<S>>,
)
    requires
        old(spans)@.len() == old(outcomes)@.len(),
        old(spans)@.len() > 0,
        forall|j: int|
            0 <= j < old(spans)@.len() ==> (#[trigger] old(spans)@[j]).start_seg_index < segs@.len()
                && old(spans)@[j].end_seg_index < segs@.len(),
    ensures
        ({
            let k = noise_count(segs@, old(spans)@, old(outcomes)@);
            &&& final(spans)@ == old(spans)@.skip(k as int)
            &&& final(outcomes)@ == old(outcomes)@.skip(k as int)
            &&& final(jumps)@ == jumps_after(old(jumps)@, k)
            &&& k < old(spans)@.len()
        }),
{
    let ghost total = noise_count(segs@, spans@, outcomes@);
    let ghost mut done: nat = 0;
    let ghost s0 = spans@;
    let ghost o0 = outcomes@;
    let ghost j0 = jumps@;
    proof {
        lemma_noise_count(segs@, spans@, outcomes@);
        assert(s0.skip(0) =~= s0);
        assert(o0.skip(0) =~= o0);
    }
    while spans.len() >= 2
        invariant
            total == noise_count(segs@, s0, o0),
            total < s0.len(),
            s0 == old(spans)@,
            o0 == old(outcomes)@,
            j0 == old(jumps)@,
            s0.len() == o0.len(),
            done < s0.len(),
            spans@ == s0.skip(done as int),
            outcomes@ == o0.skip(done as int),
            total == done + noise_count(segs@, spans@, outcomes@),
            jumps_after(j0, total) == jumps_after(jumps@, (total - done) as nat),
            forall|j: int|
                0 <= j < s0.len() ==> (#[trigger] s0[j]).start_seg_index < segs@.len() && s0[j].end_seg_index
                    < segs@.len(),
        ensures
            spans@ == s0.skip(total as int),
            outcomes@ == o0.skip(total as int),
            jumps@ == jumps_after(j0, total),
        decreases s0.len() - done,
    {
        let conf: S = confidence_in(&outcomes[0]);
        assert forall|j: int| 0 <= j < spans@.len() implies (#[trigger] spans@[j]).start_seg_index < segs@.len()
            && spans@[j].end_seg_index < segs@.len() by {
            assert(spans@[j] == s0[j + done]);
        }
        if !is_noise(segs, spans, conf) {
            break;
        }
        let ghost before_s = spans@;
        let ghost before_o = outcomes@;
        spans.remove(0);
        outcomes.remove(0);
        let rest = drop_first_jumps(jumps);
        *jumps = rest;
        proof {
            assert(before_s.remove(0) =~= before_s.skip(1));
            assert(before_o.remove(0) =~= before_o.skip(1));
            assert(before_s.skip(1) =~= s0.skip(done as int + 1));
            assert(before_o.skip(1) =~= o0.skip(done as int + 1));
            done = done + 1;
        }
    }
}

// ---------------------------------------------------------------------------
// The active span

/// The last of the first `k` outcomes that is an alignment.
pub open spec fn last_aligned<S: Scalar>(outcomes: Seq<Result<AlignmentReport<S>, AlignError>>, k: nat) -> Option<
    usize,
>
    decreases k,
{
    if k == 0 {
        None
    } else if outcomes[k - 1] is Ok {
        Some((k - 1) as usize)
    } else {
        last_aligned(outcomes, (k - 1) as nat)
    }
}

/// Hits and paired words of an outcome.
pub open spec fn evidence_of<S: Scalar>(r: Result<AlignmentReport<S>, AlignError>) -> (int, int) {
    match r {
        Ok(t) => (t.best.matches as int, t.best.substitutions as int),
        Err(_) => (0, 0),
    }
}

/// The span that the recitation is in: the last that could be aligned, or the one
/// in front of it where that rests on clearly more words and the last is not
/// certain.
pub open spec fn active_span<S: Scalar>(outcomes: Seq<Result<AlignmentReport<S>, AlignError>>) -> Option<usize> {
    match last_aligned(outcomes, outcomes.len()) {
        None => None,
        Some(i) => if i == 0 {
            Some(i)
        } else {
            let last = evidence_of(outcomes[i as int]);
            let prev = evidence_of(outcomes[i - 1]);
            if (last.1 < 8 || last.0 < 5) && prev.1 >= 8 && prev.0 >= 5 && outcome_confidence(
                outcomes[i as int],
            ).rank() < S::milli_spec(850).rank() {
                Some((i - 1) as usize)
            } else {
                Some(i)
            }
        },
    }
}

fn evidence_in<S: Scalar>(r: &Result<AlignmentReport<S>, AlignError>) -> (e: (usize, usize))
    ensures
        e.0 == evidence_of(*r).0,
        e.1 == evidence_of(*r).1,
{
    match r {
        Ok(t) => (t.best.matches, t.best.substitutions),
        Err(_) => (0, 0),
    }
}

pub fn find_active<S: Scalar>(outcomes: &[Result<AlignmentReport<S>, AlignError>]) -> (r: Option<usize>)
    ensures
        r == active_span(outcomes@),
        r matches Some(i) ==> i < outcomes@.len(),
{
    let mut k: usize = outcomes.len();
    while k > 0
        invariant
            k <= outcomes@.len(),
            last_aligned(outcomes@, outcomes@.len()) == last_aligned(outcomes@, k as nat),
        decreases k,
    {
        if outcomes[k - 1].is_ok() {
            let i: usize = k - 1;
            if i == 0 {
                return Some(i);
            }
            let last = evidence_in(&outcomes[i]);
            let prev = evidence_in(&outcomes[i - 1]);
            if (last.1 < 8 || last.0 < 5) && prev.1 >= 8 && prev.0 >= 5 && confidence_in(&outcomes[i]).below(
                S::milli(850),
            ) {
                return Some(i - 1);
            }
            return Some(i);
        }
        k = k - 1;
    }
    None
}

// ---------------------------------------------------------------------------
// The whole recitation

/// The texts of segments, without the empty ones.
pub open spec fn texts_in<S: Scalar>(segs: Seq<Json<S>>) -> Seq<Seq<char>>
    decreases segs.len(),
{
    if segs.len() == 0 {
        Seq::empty()
    } else {
        let before = texts_in(segs.drop_last());
        let t = segment_text_of(segs.last());
        if t.len() == 0 {
            before
        } else {
            before.push(t)
        }
    }
}

/// The segments of a span.
pub open spec fn segments_of<S: Scalar>(segs: Seq<Json<S>>, sp: SpanCandidate) -> Seq<Json<S>> {
    segs.subrange(sp.start_seg_index as int, sp.end_seg_index + 1)
}

/// The text of a span: that of its segments, or the whole transcript where they
/// have none.
pub open spec fn span_text<S: Scalar>(segs: Seq<Json<S>>, sp: SpanCandidate, transcript: Seq<char>) -> Seq<char> {
    let parts = texts_in(segments_of(segs, sp));
    if parts.len() == 0 {
        transcript
    } else {
        chars::joined(parts, " "@)
    }
}

/// An outcome of aligning a span.
pub open spec fn is_span_outcome<S: Scalar>(
    a: AlignmentAssetsV2<S>,
    segs: Seq<Json<S>>,
    sp: SpanCandidate,
    transcript: Seq<char>,
    mode: TimeMode,
    outcome: Result<AlignmentReport<S>, AlignError>,
) -> bool {
    alignment_v2::is_outcome(
        segments_of(segs, sp),
        span_text(segs, sp, transcript),
        a,
        "absolute"@,
        mode,
        MAX_SPAN_TOKENS,
        outcome,
    )
}

/// A span as it is reported.
pub struct SpanReport<S> {
    pub start: Option<AyahRef>,
    pub end: Option<AyahRef>,
    pub start_s: S,
    pub end_s: S,
    pub confidence: S,
    pub segments: SpanCandidate,
}

pub open spec fn span_report<S: Scalar>(
    segs: Seq<Json<S>>,
    sp: SpanCandidate,
    outcome: Result<AlignmentReport<S>, AlignError>,
) -> SpanReport<S> {
    let start = seg_start(segs, sp.start_seg_index as int);
    SpanReport {
        start: match outcome {
            Ok(t) => Some(t.start),
            Err(_) => None,
        },
        end: match outcome {
            Ok(t) => Some(t.end),
            Err(_) => None,
        },
        start_s: start,
        end_s: real_or(segs[sp.end_seg_index as int], "end_s"@, start),
        confidence: outcome_confidence(outcome),
        segments: sp,
    }
}

/// The spans of a recitation, their alignments, and the jumps between them.
pub struct MultiSpanOutput<S> {
    pub alignments: Vec<Result<AlignmentReport<S>, AlignError>>,
    /// Spans and jumps, where there were segments to split.
    pub spans: Option<Vec<SpanReport<S>>>,
    pub jumps: Option<Vec<JumpEvent<S>>>,
    pub active_span_index: Option<usize>,
}

impl<S: Scalar> MultiSpanOutput<S> {
    /// The active span is one of those that were aligned.
    pub open spec fn wf(&self) -> bool {
        self.active_span_index matches Some(i) ==> i < self.alignments@.len()
    }

    /// The alignment of the active span; of the last where none is active.
    pub open spec fn active(&self) -> Option<Result<AlignmentReport<S>, AlignError>> {
        match self.active_span_index {
            Some(i) => Some(self.alignments@[i as int]),
            None => if self.alignments@.len() == 0 {
                None
            } else {
                Some(self.alignments@.last())
            },
        }
    }

    pub fn active_alignment(&self) -> (r: Option<&Result<AlignmentReport<S>, AlignError>>)
        requires
            self.wf(),
        ensures
            match r {
                None => self.active() is None,
                Some(x) => self.active() == Some(*x),
            },
    {
        match self.active_span_index {
            Some(i) => Some(&self.alignments[i]),
            None => if self.alignments.len() == 0 {
                None
            } else {
                Some(&self.alignments[self.alignments.len() - 1])
            },
        }
    }
}

pub open spec fn starts_of<S: Scalar>(segs: Seq<Json<S>>) -> Seq<S> {
    Seq::new(segs.len(), |i: int| seg_start(segs, i))
}

/// The spans with segments.
pub open spec fn span_list<S: Scalar>(segs: Seq<Json<S>>, aligns: Seq<Option<SegAlign<S>>>) -> Seq<SpanCandidate> {
    let st = split_of(aligns, starts_of(segs));
    kept_spans(st.spans, st.spans.len())
}

/// The jumps between spans with segments.
pub open spec fn jump_list<S: Scalar>(segs: Seq<Json<S>>, aligns: Seq<Option<SegAlign<S>>>) -> Seq<JumpEvent<S>> {
    let st = split_of(aligns, starts_of(segs));
    kept_jumps(st.spans, st.jumps, st.jumps.len())
}

/// What is reported, given what each segment says and the outcome for each span.
pub open spec fn is_multi_report<S: Scalar>(
    segs: Seq<Json<S>>,
    aligns: Seq<Option<SegAlign<S>>>,
    outcomes: Seq<Result<AlignmentReport<S>, AlignError>>,
    r: MultiSpanOutput<S>,
) -> bool {
    let spans = span_list(segs, aligns);
    let k = noise_count(segs, spans, outcomes) as int;
    let kept = spans.skip(k);
    &&& r.alignments@ == outcomes.skip(k)
    &&& r.spans matches Some(v) && v@ == Seq::new(
        kept.len(),
        |i: int| span_report(segs, kept[i], outcomes.skip(k)[i]),
    )
    &&& r.jumps matches Some(v) && v@ == jumps_after(jump_list(segs, aligns), k as nat)
    &&& r.active_span_index == active_span(outcomes.skip(k))
}

/// What is reported for a recitation.
pub open spec fn is_multi_outcome<S: Scalar>(
    segs: Seq<Json<S>>,
    transcript: Seq<char>,
    a: AlignmentAssetsV2<S>,
    mode: TimeMode,
    r: MultiSpanOutput<S>,
) -> bool {
    if segs.len() == 0 {
        &&& r.alignments@ == seq![Err::<AlignmentReport<S>, AlignError>(AlignError::NoTokens)]
        &&& r.spans is None
        &&& r.jumps is None
        &&& r.active_span_index is None
    } else {
        exists|
            aligns: Seq<Option<SegAlign<S>>>,
            outcomes: Seq<Result<AlignmentReport<S>, AlignError>>,
        |
            {
                &&& aligns.len() == segs.len()
                &&& forall|i: int| 0 <= i < segs.len() ==> is_seg_align(a, segs, i, mode, #[trigger] aligns[i])
                &&& outcomes.len() == span_list(segs, aligns).len()
                &&& forall|k: int|
                    0 <= k < outcomes.len() ==> is_span_outcome(
                        a,
                        segs,
                        span_list(segs, aligns)[k],
                        transcript,
                        mode,
                        #[trigger] outcomes[k],
                    )
                &&& #[trigger] is_multi_report(segs, aligns, outcomes, r)
            }
    }
}

fn text_of_span<S: Scalar>(segs: &[Json<S>], sp: SpanCandidate, transcript: &str) -> (r: String)
    requires
        sp.start_seg_index <= sp.end_seg_index < segs@.len(),
    ensures
        r@ == span_text(segs@, sp, transcript@),
{
    let n: usize = segs.len();
    let ghost part = segments_of(segs@, sp);
    let mut texts: Vec<String> = Vec::new();
    let mut i: usize = sp.start_seg_index;
    assert(chars::views(texts@) =~= texts_in(part.take(0)));
    while i <= sp.end_seg_index
        invariant
            n == segs@.len(),
            sp.start_seg_index <= sp.end_seg_index < n,
            sp.start_seg_index <= i <= sp.end_seg_index + 1,
            part == segments_of(segs@, sp),
            chars::views(texts@) == texts_in(part.take(i - sp.start_seg_index)),
        decreases sp.end_seg_index + 1 - i,
    {
        let ghost k = i - sp.start_seg_index;
        assert(part.take(k + 1).drop_last() =~= part.take(k));
        assert(part.take(k + 1).last() == segs@[i as int]);
        let t = segment_text(&segs[i]);
        if !text::is_blank(t.as_str()) {
            let ghost before = chars::views(texts@);
            texts.push(t);
            assert(chars::views(texts@) =~= before.push(t@));
        }
        i = i + 1;
    }
    assert(part.take(part.len() as int) =~= part);
    assert(chars::views(texts@).len() == texts@.len());
    if texts.len() == 0 {
        transcript.to_owned()
    } else {
        chars::join(&texts, " ")
    }
}

fn align_segments<S: Scalar>(segs: &[Json<S>], a: &AlignmentAssetsV2<S>, mode: TimeMode) -> (r: Vec<
    Option<SegAlign<S>>,
>)
    requires
        a.wf(),
        timed::size_bound(segs@, segs@.len()) < i32::MAX,
    ensures
        r@.len() == segs@.len(),
        forall|i: int| 0 <= i < segs@.len() ==> is_seg_align(*a, segs@, i, mode, #[trigger] r@[i]),
{
    let mut out: Vec<Option<SegAlign<S>>> = Vec::new();
    let mut i: usize = 0;
    while i < segs.len()
        invariant
            a.wf(),
            timed::size_bound(segs@, segs@.len()) < i32::MAX,
            i <= segs@.len(),
            out@.len() == i,
            forall|k: int| 0 <= k < i ==> is_seg_align(*a, segs@, k, mode, #[trigger] out@[k]),
        decreases segs@.len() - i,
    {
        out.push(seg_align_one(segs, i, a, mode));
        i = i + 1;
    }
    out
}

fn align_spans<S: Scalar>(
    segs: &[Json<S>],
    spans: &[SpanCandidate],
    transcript: &str,
    a: &AlignmentAssetsV2<S>,
    mode: TimeMode,
) -> (r: Vec<Result<AlignmentReport<S>, AlignError>>)
    requires
        a.wf(),
        timed::size_bound(segs@, segs@.len()) < i32::MAX,
        forall|j: int|
            0 <= j < spans@.len() ==> (#[trigger] spans@[j]).start_seg_index <= spans@[j].end_seg_index < segs@.len(),
    ensures
        r@.len() == spans@.len(),
        forall|k: int|
            0 <= k < r@.len() ==> is_span_outcome(*a, segs@, spans@[k], transcript@, mode, #[trigger] r@[k]),
{
    let n: usize = segs.len();
    let mut out: Vec<Result<AlignmentReport<S>, AlignError>> = Vec::new();
    let mut k: usize = 0;
    while k < spans.len()
        invariant
            a.wf(),
            n == segs@.len(),
            timed::size_bound(segs@, segs@.len()) < i32::MAX,
            forall|j: int|
                0 <= j < spans@.len() ==> (#[trigger] spans@[j]).start_seg_index <= spans@[j].end_seg_index
                    < segs@.len(),
            k <= spans@.len(),
            out@.len() == k,
            forall|j: int|
                0 <= j < k ==> is_span_outcome(*a, segs@, spans@[j], transcript@, mode, #[trigger] out@[j]),
        decreases spans@.len() - k,
    {
        let sp = spans[k];
        assert(spans@[k as int].start_seg_index <= spans@[k as int].end_seg_index < segs@.len());
        let t = text_of_span(segs, sp, transcript);
        proof {
            timed::lemma_part_size(segs@, sp.start_seg_index as int, sp.end_seg_index + 1);
        }
        let outcome = alignment_v2::guess_for_segments(
            vstd::slice::slice_subrange(segs, sp.start_seg_index, sp.end_seg_index + 1),
            t.as_str(),
            a,
            "absolute",
            mode,
            MAX_SPAN_TOKENS,
        );
        out.push(outcome);
        k = k + 1;
    }
    out
}

fn report_spans<S: Scalar>(
    segs: &[Json<S>],
    spans: &[SpanCandidate],
    outcomes: &[Result<AlignmentReport<S>, AlignError>],
) -> (r: Vec<SpanReport<S>>)
    requires
        spans@.len() == outcomes@.len(),
        forall|j: int|
            0 <= j < spans@.len() ==> (#[trigger] spans@[j]).start_seg_index < segs@.len() && spans@[j].end_seg_index
                < segs@.len(),
    ensures
        r@ == Seq::new(spans@.len(), |i: int| span_report(segs@, spans@[i], outcomes@[i])),
{
    let ghost want = Seq::new(spans@.len(), |i: int| span_report(segs@, spans@[i], outcomes@[i]));
    let mut out: Vec<SpanReport<S>> = Vec::new();
    let mut k: usize = 0;
    while k < spans.len()
        invariant
            spans@.len() == outcomes@.len(),
            forall|j: int|
                0 <= j < spans@.len() ==> (#[trigger] spans@[j]).start_seg_index < segs@.len()
                    && spans@[j].end_seg_index < segs@.len(),
            k <= spans@.len(),
            want == Seq::new(spans@.len(), |i: int| span_report(segs@, spans@[i], outcomes@[i])),
            out@ == want.take(k as int),
        decreases spans@.len() - k,
    {
        let sp = spans[k];
        assert(spans@[k as int].start_seg_index < segs@.len());
        let start: S = read_real_or(&segs[sp.start_seg_index], "start_s", S::whole(0));
        let end: S = read_real_or(&segs[sp.end_seg_index], "end_s", start);
        let verses = match &outcomes[k] {
            Ok(t) => (Some(t.start), Some(t.end)),
            Err(_) => (None, None),
        };
        out.push(
            SpanReport {
                start: verses.0,
                end: verses.1,
                start_s: start,
                end_s: end,
                confidence: confidence_in(&outcomes[k]),
                segments: sp,
            },
        );
        assert(out@ =~= want.take(k as int + 1));
        k = k + 1;
    }
    assert(out@ =~= want);
    out
}

fn find_starts<S: Scalar>(segs: &[Json<S>]) -> (r: Vec<S>)
    ensures
        r@ == starts_of(segs@),
{
    let mut out: Vec<S> = Vec::new();
    let mut i: usize = 0;
    while i < segs.len()
        invariant
            i <= segs@.len(),
            out@ == starts_of(segs@).take(i as int),
        decreases segs@.len() - i,
    {
        out.push(read_real_or(&segs[i], "start_s", S::whole(0)));
        assert(out@ =~= starts_of(segs@).take(i as int + 1));
        i = i + 1;
    }
    assert(out@ =~= starts_of(segs@));
    out
}

/// Splits a recitation into spans and aligns each of them.
pub fn align_multi_span<S: Scalar>(
    transcription: &Json<S>,
    transcript_text: &str,
    assets: &AlignmentAssetsV2<S>,
    word_time_upgrade: &str,
) -> (r: MultiSpanOutput<S>)
    requires
        assets.wf(),
        timed::transcription_size(*transcription) < i32::MAX,
    ensures
        is_multi_outcome(
            timed::segments_in(*transcription),
            transcript_text@,
            *assets,
            timed::time_mode_of(chars::lowercase(chars::trimmed(word_time_upgrade@))),
            r,
        ),
        r.wf(),
{
    let mode = timed::read_time_mode(chars::to_lower(chars::trim(word_time_upgrade).as_str()).as_str());
    match transcription.get("segments") {
        Some(Json::List(segs)) => align_spans_of_segments(segs, transcript_text, assets, mode),
        _ => nothing_to_split(),
    }
}

fn nothing_to_split<S: Scalar>() -> (r: MultiSpanOutput<S>)
    ensures
        r.alignments@ == seq![Err::<AlignmentReport<S>, AlignError>(AlignError::NoTokens)],
        r.spans is None,
        r.jumps is None,
        r.active_span_index is None,
{
    let mut alignments: Vec<Result<AlignmentReport<S>, AlignError>> = Vec::new();
    alignments.push(Err(AlignError::NoTokens));
    assert(alignments@ =~= seq![Err::<AlignmentReport<S>, AlignError>(AlignError::NoTokens)]);
    MultiSpanOutput { alignments, spans: None, jumps: None, active_span_index: None }
}

/// Splits the segments of a recitation into spans and aligns each of them.
pub fn align_spans_of_segments<S: Scalar>(
    segs: &[Json<S>],
    transcript_text: &str,
    assets: &AlignmentAssetsV2<S>,
    mode: TimeMode,
) -> (r: MultiSpanOutput<S>)
    requires
        assets.wf(),
        timed::size_bound(segs@, segs@.len()) < i32::MAX,
    ensures
        is_multi_outcome(segs@, transcript_text@, *assets, mode, r),
        r.wf(),
{
    if segs.len() == 0 {
        return nothing_to_split();
    }
    let aligns = align_segments(segs, assets, mode);
    let starts = find_starts(segs);
    let st = split_segments(&aligns, &starts);
    let (mut spans, map) = keep_spans(&st.spans);
    assert forall|j: int| 0 <= j < st.jumps@.len() implies (#[trigger] st.jumps@[j]).from_span_index < st.spans@.len()
        && st.jumps@[j].to_span_index < st.spans@.len() by {
        assert(st@.jumps[j].from_span_index < st@.spans.len());
    }
    let mut jumps = keep_jumps(Ghost(st.spans@), &map, &st.jumps);
    proof {
        lemma_kept(st.spans@, st.spans@.len());
        assert(st.spans@ == st@.spans);
        lemma_span_list(segs@, aligns@);
        assert forall|j: int| 0 <= j < spans@.len() implies (#[trigger] spans@[j]).start_seg_index
            <= spans@[j].end_seg_index < segs@.len() by {
            assert(has_segments(spans@[j]));
            let k = choose|k: int| 0 <= k < st.spans@.len() && st.spans@[k] == spans@[j];
            assert(st@.spans[k].end_seg_index < segs@.len());
        }
    }
    let mut outcomes = align_spans(segs, &spans, transcript_text, assets, mode);
    let ghost all_spans = spans@;
    let ghost all_outcomes = outcomes@;
    assert(all_spans == span_list(segs@, aligns@));
    assert(jumps@ == jump_list(segs@, aligns@));
    drop_noise(segs, &mut spans, &mut outcomes, &mut jumps);
    let ghost k = noise_count(segs@, all_spans, all_outcomes) as int;
    assert forall|j: int| 0 <= j < spans@.len() implies (#[trigger] spans@[j]).start_seg_index < segs@.len()
        && spans@[j].end_seg_index < segs@.len() by {
        assert(spans@[j] == all_spans[j + k]);
    }
    let reports = report_spans(segs, &spans, &outcomes);
    let active = find_active(&outcomes);
    let r = MultiSpanOutput {
        alignments: outcomes,
        spans: Some(reports),
        jumps: Some(jumps),
        active_span_index: active,
    };
    assert(is_multi_report(segs@, aligns@, all_outcomes, r));
    r
}

/// There is always a span with segments.
proof fn lemma_span_list<S: Scalar>(segs: Seq<Json<S>>, aligns: Seq<Option<SegAlign<S>>>)
    requires
        segs.len() == aligns.len(),
        0 < segs.len() <= usize::MAX,
    ensures
        span_list(segs, aligns).len() > 0,
{
    let st = split_of(aligns, starts_of(segs));
    lemma_first_span_starts(aligns, aligns.len());
    law_split_indexes(aligns, aligns.len());
    assert(st.spans[0].start_seg_index == 0);
    lemma_kept_first(st.spans, st.spans.len());
}

proof fn lemma_first_span_starts<S: Scalar>(aligns: Seq<Option<SegAlign<S>>>, k: nat)
    requires
        k <= aligns.len(),
        aligns.len() <= usize::MAX,
    ensures
        split_after(aligns, k).spans.len() > 0,
        split_after(aligns, k).spans[0].start_seg_index == 0,
    decreases k,
{
    if k > 0 {
        lemma_first_span_starts(aligns, (k - 1) as nat);
        law_split_indexes(aligns, (k - 1) as nat);
    }
}

proof fn lemma_kept_first(spans: Seq<SpanCandidate>, k: nat)
    requires
        0 < k <= spans.len(),
        spans[0].start_seg_index == 0,
    ensures
        kept_spans(spans, k).len() > 0,
    decreases k,
{
    if k > 1 {
        lemma_kept_first(spans, (k - 1) as nat);
    } else {
        assert(has_segments(spans[0]));
    }
}

// ---------------------------------------------------------------------------
// Laws on leading spans and on the active one

/// The first of several spans is dropped exactly if it is a single segment of at most 15
/// seconds with a confidence below 0.75, and what follows lasts ten seconds or more and
/// at least three times as long.
pub proof fn law_noise_in_front_is_dropped<S: Scalar>(segs: Seq<Json<S>>, spans: Seq<SpanCandidate>, conf: S)
    requires
        spans.len() >= 2,
        spans[0].start_seg_index <= spans[0].end_seg_index,
    ensures
        ({
            let zero = S::whole_spec(0);
            let start = real_or(segs[spans[0].start_seg_index as int], "start_s"@, zero);
            let end = real_or(segs[spans[0].end_seg_index as int], "end_s"@, start);
            let next = real_or(segs[spans[1].start_seg_index as int], "start_s"@, zero);
            let over = real_or(segs[spans[spans.len() - 1].end_seg_index as int], "end_s"@, next);
            let lead = if end.minus_spec(start).rank() < zero.rank() {
                zero
            } else {
                end.minus_spec(start)
            };
            let rest = if over.minus_spec(next).rank() < zero.rank() {
                zero
            } else {
                over.minus_spec(next)
            };
            lead_is_noise(segs, spans, conf) <==> {
                &&& spans[0].start_seg_index == spans[0].end_seg_index
                &&& lead.rank() <= S::whole_spec(15).rank()
                &&& conf.rank() < S::milli_spec(750).rank()
                &&& S::whole_spec(10).rank() <= rest.rank()
                &&& lead.times_spec(S::whole_spec(3)).rank() <= rest.rank()
            }
        }),
{
}

/// Leading spans are dropped as long as they are noise; the last span always stays.
pub proof fn law_noise_is_dropped_from_the_front<S: Scalar>(
    segs: Seq<Json<S>>,
    spans: Seq<SpanCandidate>,
    outcomes: Seq<Result<AlignmentReport<S>, AlignError>>,
    i: int,
)
    requires
        spans.len() > 0,
        outcomes.len() == spans.len(),
        0 <= i <= noise_count(segs, spans, outcomes),
    ensures
        noise_count(segs, spans, outcomes) < spans.len(),
        i < noise_count(segs, spans, outcomes) ==> lead_is_noise(
            segs,
            spans.skip(i),
            outcome_confidence(outcomes.skip(i)[0]),
        ),
        i == noise_count(segs, spans, outcomes) ==> spans.skip(i).len() < 2 || !lead_is_noise(
            segs,
            spans.skip(i),
            outcome_confidence(outcomes.skip(i)[0]),
        ),
    decreases spans.len(),
{
    lemma_noise_count(segs, spans, outcomes);
    assert(spans.skip(0) =~= spans);
    assert(outcomes.skip(0) =~= outcomes);
    if i > 0 {
        law_noise_is_dropped_from_the_front(segs, spans.skip(1), outcomes.skip(1), i - 1);
        assert(spans.skip(1).skip(i - 1) =~= spans.skip(i));
        assert(outcomes.skip(1).skip(i - 1) =~= outcomes.skip(i));
    }
}

/// Where the first span is dropped, jumps from it or to it go with it; all others stay,
/// in their order, with their spans renumbered.
pub proof fn law_jumps_of_a_dropped_span_go_with_it<S>(jumps: Seq<JumpEvent<S>>, j: JumpEvent<S>)
    ensures
        jumps_without_first(Seq::<JumpEvent<S>>::empty()).len() == 0,
        j.from_span_index == 0 || j.to_span_index == 0 ==> jumps_without_first(jumps.push(j)) == jumps_without_first(
            jumps,
        ),
        j.from_span_index > 0 && j.to_span_index > 0 ==> jumps_without_first(jumps.push(j)) == jumps_without_first(
            jumps,
        ).push(
            JumpEvent {
                at_s: j.at_s,
                at_segment_index: j.at_segment_index,
                from_span_index: (j.from_span_index - 1) as usize,
                to_span_index: (j.to_span_index - 1) as usize,
                distance_ayahs: j.distance_ayahs,
            },
        ),
{
    assert(jumps.push(j).drop_last() =~= jumps);
}

proof fn lemma_last_aligned<S: Scalar>(outcomes: Seq<Result<AlignmentReport<S>, AlignError>>, k: nat)
    requires
        k <= outcomes.len() <= usize::MAX,
    ensures
        match last_aligned(outcomes, k) {
            None => forall|i: int| 0 <= i < k ==> (#[trigger] outcomes[i]) is Err,
            Some(n) => n < k && outcomes[n as int] is Ok && forall|i: int| n < i < k ==> (#[trigger] outcomes[i]) is Err,
        },
    decreases k,
{
    if k > 0 && outcomes[k - 1] is Err {
        lemma_last_aligned(outcomes, (k - 1) as nat);
    }
}

/// The last span that was aligned is the active one. Only where it has fewer than eight
/// paired words or fewer than five hits and a confidence below 0.85, while the span in
/// front of it has as many, that one is. There is none where no span was aligned.
pub proof fn law_last_aligned_span_is_active<S: Scalar>(outcomes: Seq<Result<AlignmentReport<S>, AlignError>>, i: int)
    requires
        outcomes.len() <= usize::MAX,
        0 <= i < outcomes.len(),
        outcomes[i] is Ok,
        forall|k: int| i < k < outcomes.len() ==> (#[trigger] outcomes[k]) is Err,
    ensures
        ({
            let t = outcomes[i]->Ok_0;
            let thin = t.best.substitutions < 8 || t.best.matches < 5;
            let unsure = t.confidence.rank() < S::milli_spec(850).rank();
            let front_is_better = i > 0 && (outcomes[i - 1] matches Ok(p) && p.best.substitutions >= 8 && p.best.matches
                >= 5);
            active_span(outcomes) == Some(
                if thin && unsure && front_is_better {
                    (i - 1) as usize
                } else {
                    i as usize
                },
            )
        }),
{
    lemma_last_aligned(outcomes, outcomes.len());
}

/// No span is active where none was aligned.
pub proof fn law_no_alignment_no_active_span<S: Scalar>(outcomes: Seq<Result<AlignmentReport<S>, AlignError>>)
    requires
        outcomes.len() <= usize::MAX,
        forall|k: int| 0 <= k < outcomes.len() ==> (#[trigger] outcomes[k]) is Err,
    ensures
        active_span(outcomes) is None,
{
    lemma_last_aligned(outcomes, outcomes.len());
}

/// A segment of fewer than three words says nothing of where it is; another one lies
/// where its alignment does, from its first verse to its last.
pub proof fn law_segments_lie_where_they_align<S: Scalar>(
    a: AlignmentAssetsV2<S>,
    seg: Json<S>,
    i: int,
    outcome: Result<AlignmentReport<S>, AlignError>,
)
    requires
        0 <= i <= usize::MAX,
    ensures
        chars::words_of(segment_text_of(seg)).len() < 3 || outcome is Err ==> seg_align_of(a, seg, i, outcome) is None,
        seg_align_of(a, seg, i, outcome) matches Some(s) ==> {
            let t = outcome->Ok_0;
            &&& s.seg_index == i
            &&& global_of(a, t.start) == Some(s.start_global) && global_of(a, t.end) == Some(s.end_global)
            &&& s.start_surah_id == t.start.surah && s.end_surah_id == t.end.surah
            &&& s.confidence == t.confidence
            &&& s.seg_start_s == real_or(seg, "start_s"@, S::whole_spec(0))
        },
        chars::words_of(segment_text_of(seg)).len() >= 3 && (outcome matches Ok(t) && global_of(a, t.start) is Some
            && global_of(a, t.end) is Some) ==> seg_align_of(a, seg, i, outcome) is Some,
{
}

/// The words of a list are those of its entries that are not blank, without the space
/// around them; and so with the texts of segments.
pub proof fn law_blank_texts_are_left_out<S: Scalar>(words: Seq<Json<S>>)
    ensures
        listed_words(words) == words.map_values(
            |w: Json<S>| chars::trimmed(Json::text_or_empty(w.field("word"@))),
        ).filter(|t: Seq<char>| t.len() > 0),
        texts_in(words) == words.map_values(|s: Json<S>| segment_text_of(s)).filter(|t: Seq<char>| t.len() > 0),
    decreases words.len(),
{
    reveal(Seq::filter);
    let f = |w: Json<S>| chars::trimmed(Json::text_or_empty(w.field("word"@)));
    let g = |s: Json<S>| segment_text_of(s);
    if words.len() > 0 {
        law_blank_texts_are_left_out(words.drop_last());
        assert(words.map_values(f).drop_last() =~= words.drop_last().map_values(f));
        assert(words.map_values(g).drop_last() =~= words.drop_last().map_values(g));
    }
}

/// A span is searched by the texts of its own segments, and by the whole transcript only
/// if they have none.
pub proof fn law_spans_are_searched_by_their_text<S: Scalar>(
    segs: Seq<Json<S>>,
    sp: SpanCandidate,
    transcript: Seq<char>,
)
    requires
        sp.start_seg_index <= sp.end_seg_index < segs.len(),
    ensures
        ({
            let own = segs.subrange(sp.start_seg_index as int, sp.end_seg_index + 1);
            let texts = own.map_values(|s: Json<S>| segment_text_of(s)).filter(|t: Seq<char>| t.len() > 0);
            &&& texts.len() > 0 ==> span_text(segs, sp, transcript) == chars::joined(texts, " "@)
            &&& texts.len() == 0 ==> span_text(segs, sp, transcript) == transcript
        }),
{
    law_blank_texts_are_left_out(segments_of(segs, sp));
}

/// A span is reported with the verses that its alignment found, from the start of its
/// first segment to the end of its last.
pub proof fn law_spans_are_reported<S: Scalar>(
    segs: Seq<Json<S>>,
    sp: SpanCandidate,
    outcome: Result<AlignmentReport<S>, AlignError>,
)
    ensures
        ({
            let r = span_report(segs, sp, outcome);
            &&& outcome matches Ok(t) ==> r.start == Some(t.start) && r.end == Some(t.end) && r.confidence == t.confidence
            &&& outcome is Err ==> r.start is None && r.end is None && r.confidence == S::whole_spec(0)
            &&& r.segments == sp
            &&& segs[sp.start_seg_index as int].number_field("start_s"@) matches Some(t) ==> segs[sp.start_seg_index as int].field(
                "start_s"@,
            )->0 is Number ==> r.start_s == t
            &&& segs[sp.end_seg_index as int].field("end_s"@) matches Some(Json::Number { unsigned, signed, value })
                ==> r.end_s == value
        }),
{
}

/// Without segments nothing was recited.
pub proof fn law_no_segments_no_recitation<S: Scalar>(
    transcript: Seq<char>,
    a: AlignmentAssetsV2<S>,
    mode: TimeMode,
    r: MultiSpanOutput<S>,
)
    requires
        is_multi_outcome(Seq::empty(), transcript, a, mode, r),
    ensures
        r.alignments@ == seq![Err::<AlignmentReport<S>, AlignError>(AlignError::NoTokens)],
        r.spans is None && r.jumps is None && r.active_span_index is None,
{
}

/// A jump between spans that are kept is kept, with the places that the spans then have;
/// a jump from or to one that is not goes with it.
pub proof fn law_jumps_stay_with_their_spans<S>(spans: Seq<SpanCandidate>, jumps: Seq<JumpEvent<S>>, k: nat)
    requires
        k < jumps.len(),
    ensures
        ({
            let j = jumps[k as int];
            let from = spans[j.from_span_index as int];
            let to = spans[j.to_span_index as int];
            let stays = from.start_seg_index <= from.end_seg_index && to.start_seg_index <= to.end_seg_index;
            let before = kept_jumps(spans, jumps, k);
            let after = kept_jumps(spans, jumps, k + 1);
            &&& kept_jumps(spans, jumps, 0).len() == 0
            &&& !stays ==> after == before
            &&& stays ==> {
                &&& after.drop_last() == before
                &&& after.last().at_s == j.at_s && after.last().at_segment_index == j.at_segment_index
                &&& after.last().distance_ayahs == j.distance_ayahs
                &&& after.last().from_span_index == kept_before(spans, j.from_span_index as nat) as usize
                &&& after.last().to_span_index == kept_before(spans, j.to_span_index as nat) as usize
            }
        }),
{
    let after = kept_jumps(spans, jumps, k + 1);
    let before = kept_jumps(spans, jumps, k);
    if after != before {
        assert(after.drop_last() =~= before);
    }
}

/// Where a span then stands: behind those in front of it that have a segment.
pub proof fn law_kept_spans_move_up(spans: Seq<SpanCandidate>, k: nat)
    requires
        k <= spans.len(),
    ensures
        kept_before(spans, k) == spans.take(k as int).filter(
            |s: SpanCandidate| s.start_seg_index <= s.end_seg_index,
        ).len(),
    decreases k,
{
    reveal(Seq::filter);
    if k > 0 {
        law_kept_spans_move_up(spans, (k - 1) as nat);
        assert(spans.take(k as int).drop_last() =~= spans.take(k - 1));
        assert(spans.take(k as int).last() == spans[k - 1]);
    }
}

} // verus!
