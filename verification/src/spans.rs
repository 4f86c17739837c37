//! From an alignment to the verses that were recited, and when.

use std::collections::HashMap;

use vstd::prelude::*;

use crate::assets;
use crate::assets::AlignmentAssetsV2;
use crate::chars;
use crate::scalar;
use crate::scalar::Scalar;
use crate::text;
use crate::timed;
use crate::timed::{Heard, TimedToken};

verus! {

/// A verse, by its chapter and its number within it.
#[derive(Clone, Copy, Debug, PartialEq, Eq, Structural)]
pub struct AyahRef {
    pub surah: u16,
    pub ayah: u16,
}

/// Heard words with the reference words that they stand for, and the part of the
/// reference that counts.
pub struct Mapping<S> {
    pub a: AlignmentAssetsV2<S>,
    pub heard: Seq<Heard<S>>,
    pub to_ref: Seq<Option<usize>>,
    pub is_match: Seq<bool>,
    pub lo: int,
    pub hi: int,
}

/// The verse of reference word `r`.
pub open spec fn ayah_at<S: Scalar>(a: AlignmentAssetsV2<S>, r: int) -> AyahRef {
    AyahRef { surah: a.ref_surah_id.items()[r], ayah: a.ref_ayah_num.items()[r] }
}

pub fn verse_at<S: Scalar>(a: &AlignmentAssetsV2<S>, r: usize) -> (v: AyahRef)
    requires
        a.wf(),
        r < a.ref_token_ids.items().len(),
    ensures
        v == ayah_at(*a, r as int),
{
    AyahRef { surah: a.ref_surah_id.as_slice()[r], ayah: a.ref_ayah_num.as_slice()[r] }
}

// ---------------------------------------------------------------------------
// The part of the reference that counts

/// Heard word `i` stands for a reference word; with `hits`, only if it is that
/// word.
pub open spec fn counts(to_ref: Seq<Option<usize>>, is_match: Seq<bool>, hits: bool, i: int) -> bool {
    to_ref[i] is Some && (!hits || is_match[i])
}

/// The first and the last reference word among those of the first `k` heard
/// words that count.
pub open spec fn extent(to_ref: Seq<Option<usize>>, is_match: Seq<bool>, hits: bool, k: nat) -> Option<(usize, usize)>
    decreases k,
{
    if k == 0 {
        None
    } else {
        let before = extent(to_ref, is_match, hits, (k - 1) as nat);
        if !counts(to_ref, is_match, hits, k - 1) {
            before
        } else {
            let r = to_ref[k - 1]->0;
            match before {
                None => Some((r, r)),
                Some(p) => Some(
                    (
                        if r < p.0 {
                            r
                        } else {
                            p.0
                        },
                        if r > p.1 {
                            r
                        } else {
                            p.1
                        },
                    ),
                ),
            }
        }
    }
}

/// The extent of the hits, or of all paired words where there is no hit.
pub open spec fn recited_extent(to_ref: Seq<Option<usize>>, is_match: Seq<bool>) -> Option<(usize, usize)> {
    match extent(to_ref, is_match, true, to_ref.len()) {
        Some(p) => Some(p),
        None => extent(to_ref, is_match, false, to_ref.len()),
    }
}

fn find_extent(to_ref: &[Option<usize>], is_match: &[bool], hits: bool) -> (r: Option<(usize, usize)>)
    requires
        to_ref@.len() == is_match@.len(),
    ensures
        r == extent(to_ref@, is_match@, hits, to_ref@.len()),
{
    let mut best: Option<(usize, usize)> = None;
    let mut i: usize = 0;
    while i < to_ref.len()
        invariant
            i <= to_ref@.len(),
            to_ref@.len() == is_match@.len(),
            best == extent(to_ref@, is_match@, hits, i as nat),
        decreases to_ref@.len() - i,
    {
        match to_ref[i] {
            Some(r) => {
                if !hits || is_match[i] {
                    best = match best {
                        None => Some((r, r)),
                        Some(p) => {
                            let lo: usize = if r < p.0 {
                                r
                            } else {
                                p.0
                            };
                            let hi: usize = if r > p.1 {
                                r
                            } else {
                                p.1
                            };
                            Some((lo, hi))
                        },
                    };
                }
            },
            None => {},
        }
        i = i + 1;
    }
    best
}

/// The part of the reference that was recited.
pub fn find_recited(to_ref: &[Option<usize>], is_match: &[bool]) -> (r: Option<(usize, usize)>)
    requires
        to_ref@.len() == is_match@.len(),
    ensures
        r == recited_extent(to_ref@, is_match@),
{
    match find_extent(to_ref, is_match, true) {
        Some(p) => Some(p),
        None => find_extent(to_ref, is_match, false),
    }
}

/// The extent is made of reference words that heard words stand for.
pub proof fn lemma_extent(to_ref: Seq<Option<usize>>, is_match: Seq<bool>, hits: bool, k: nat, bound: int)
    requires
        k <= to_ref.len(),
        forall|i: int| 0 <= i < to_ref.len() && (#[trigger] to_ref[i]) is Some ==> to_ref[i]->0 < bound,
    ensures
        extent(to_ref, is_match, hits, k) matches Some(p) ==> p.0 <= p.1 < bound,
    decreases k,
{
    if k > 0 {
        lemma_extent(to_ref, is_match, hits, (k - 1) as nat, bound);
    }
}

/// The verses from reference word `lo` to `hi`, each once per run.
pub open spec fn verses_between<S: Scalar>(a: AlignmentAssetsV2<S>, lo: int, hi: int) -> Seq<AyahRef>
    decreases hi - lo + 1,
{
    if hi < lo {
        Seq::empty()
    } else {
        let before = verses_between(a, lo, hi - 1);
        let v = ayah_at(a, hi);
        if before.len() > 0 && before.last() == v {
            before
        } else {
            before.push(v)
        }
    }
}

pub fn list_verses<S: Scalar>(a: &AlignmentAssetsV2<S>, lo: usize, hi: usize) -> (r: Vec<AyahRef>)
    requires
        a.wf(),
        hi < a.ref_token_ids.items().len(),
    ensures
        r@ == verses_between(*a, lo as int, hi as int),
{
    let mut out: Vec<AyahRef> = Vec::new();
    let mut k: usize = lo;
    while k <= hi
        invariant
            a.wf(),
            hi < a.ref_token_ids.items().len(),
            a.ref_token_ids.items().len() < i32::MAX,
            lo <= k,
            k <= hi + 1 || k == lo,
            out@ == verses_between(*a, lo as int, k - 1),
        decreases hi + 1 - k,
    {
        let v = verse_at(a, k);
        let n: usize = out.len();
        if n == 0 || out[n - 1] != v {
            out.push(v);
        }
        k = k + 1;
    }
    out
}

// ---------------------------------------------------------------------------
// The verse of each heard word

/// The verse of the reference word that heard word `i` stands for, within the
/// part that counts.
pub open spec fn own_verse<S: Scalar>(x: Mapping<S>, i: int) -> Option<AyahRef> {
    match x.to_ref[i] {
        None => None,
        Some(r) => if x.lo <= r <= x.hi {
            Some(ayah_at(x.a, r as int))
        } else {
            None
        },
    }
}

/// The nearest word at or in front of `i` with a verse of its own.
pub open spec fn prev_placed<S: Scalar>(x: Mapping<S>, i: int) -> Option<int>
    decreases i + 1,
{
    if i < 0 {
        None
    } else if own_verse(x, i) is Some {
        Some(i)
    } else {
        prev_placed(x, i - 1)
    }
}

/// The nearest word at or behind `i` with a verse of its own.
pub open spec fn next_placed<S: Scalar>(x: Mapping<S>, i: int) -> Option<int>
    decreases x.to_ref.len() - i,
{
    if i >= x.to_ref.len() {
        None
    } else if own_verse(x, i) is Some {
        Some(i)
    } else {
        next_placed(x, i + 1)
    }
}

/// The words of a verse, if the tables know them.
pub open spec fn verse_words<S: Scalar>(a: AlignmentAssetsV2<S>, v: AyahRef) -> Seq<u32> {
    let k = assets::ayah_key_spec(v.surah, v.ayah);
    if v.surah == 0 || v.ayah == 0 || !a.ayah_key_to_global@.dom().contains(k) {
        Seq::empty()
    } else {
        let g = a.ayah_key_to_global@[k] as int;
        let starts = a.ayah_token_start.items();
        let ends = a.ayah_token_end.items();
        let refs = a.ref_token_ids.items();
        if g >= starts.len() || g >= ends.len() || starts[g] >= ends[g] || ends[g] > refs.len() {
            Seq::empty()
        } else {
            refs.subrange(starts[g] as int, ends[g] as int)
        }
    }
}

pub fn verse_has_word<S: Scalar>(a: &AlignmentAssetsV2<S>, v: AyahRef, id: u32) -> (r: bool)
    ensures
        r == verse_words(*a, v).contains(id),
{
    broadcast use vstd::std_specs::hash::group_hash_axioms;

    if v.surah == 0 || v.ayah == 0 {
        return false;
    }
    let g: usize = match a.ayah_key_to_global.get(&assets::ayah_key(v.surah, v.ayah)) {
        None => return false,
        Some(g) => *g as usize,
    };
    let starts = a.ayah_token_start.as_slice();
    let ends = a.ayah_token_end.as_slice();
    let refs = a.ref_token_ids.as_slice();
    if g >= starts.len() || g >= ends.len() || starts[g] >= ends[g] || ends[g] as usize > refs.len() {
        return false;
    }
    let from: usize = starts[g] as usize;
    let to: usize = ends[g] as usize;
    let ghost all = refs@.subrange(from as int, to as int);
    let mut k: usize = from;
    while k < to
        invariant
            from <= k <= to <= refs@.len(),
            all == refs@.subrange(from as int, to as int),
            verse_words(*a, v) == all,
            forall|j: int| 0 <= j < k - from ==> #[trigger] all[j] != id,
        decreases to - k,
    {
        assert(all[k - from] == refs@[k as int]);
        if refs[k] == id {
            return true;
        }
        k = k + 1;
    }
    false
}

/// The start of a word, or its end where the start is not known.
pub open spec fn start_or_end<S: Scalar>(h: Heard<S>) -> Option<S> {
    match h.start_s {
        Some(s) => Some(s),
        None => h.end_s,
    }
}

/// The end of a word, or its start where the end is not known.
pub open spec fn end_or_start<S: Scalar>(h: Heard<S>) -> Option<S> {
    match h.end_s {
        Some(e) => Some(e),
        None => h.start_s,
    }
}

/// After a pause of more than 0.75 a word belongs to what follows.
pub open spec fn after_pause<S: Scalar>(word: Heard<S>, next: Heard<S>) -> bool {
    match (start_or_end(next), end_or_start(word)) {
        (Some(ns), Some(te)) => S::milli_spec(750).rank() < ns.minus_spec(te).rank(),
        _ => false,
    }
}

/// The number of a word, if it belongs to the vocabulary.
pub open spec fn number_of<S: Scalar>(a: AlignmentAssetsV2<S>, word: Seq<char>) -> Option<u32> {
    if a.token_to_id@.dom().contains(word) {
        Some(a.token_to_id@[word])
    } else {
        None
    }
}

/// The verse that a word without a verse of its own goes to, when the nearest
/// placed word on only one side, or on both, belongs to a verse.
pub open spec fn verse_between<S: Scalar>(x: Mapping<S>, i: int) -> Option<AyahRef> {
    let word = x.heard[i];
    let id = number_of(x.a, word.simplified);
    match (prev_placed(x, i), next_placed(x, i)) {
        (None, None) => None,
        (None, Some(n)) => {
            let v = own_verse(x, n)->0;
            if !word.estimated_time && id is Some && verse_words(x.a, v).contains(id->0) {
                Some(v)
            } else {
                None
            }
        },
        (Some(p), None) => {
            let v = own_verse(x, p)->0;
            if !word.estimated_time && id is Some && verse_words(x.a, v).contains(id->0) {
                Some(v)
            } else {
                None
            }
        },
        (Some(p), Some(n)) => {
            let before = own_verse(x, p)->0;
            let after = own_verse(x, n)->0;
            let in_before = id is Some && verse_words(x.a, before).contains(id->0);
            let in_after = id is Some && verse_words(x.a, after).contains(id->0);
            if before == after {
                Some(before)
            } else if word.estimated_time {
                None
            } else if in_before && !in_after {
                Some(before)
            } else if in_after && !in_before {
                Some(after)
            } else if after_pause(word, x.heard[n]) {
                Some(after)
            } else {
                Some(before)
            }
        },
    }
}

/// The verse that heard word `i` goes to.
pub open spec fn assigned_verse<S: Scalar>(x: Mapping<S>, i: int) -> Option<AyahRef> {
    match own_verse(x, i) {
        Some(v) => Some(v),
        None => verse_between(x, i),
    }
}

/// The arguments of [`assigned_verse`].
pub struct Placement<'a, S> {
    pub a: &'a AlignmentAssetsV2<S>,
    pub tokens: &'a [TimedToken<S>],
    pub to_ref: &'a [Option<usize>],
    pub is_match: &'a [bool],
    pub lo: usize,
    pub hi: usize,
}

impl<'a, S: Scalar> Placement<'a, S> {
    pub open spec fn mapping(self) -> Mapping<S> {
        Mapping {
            a: *self.a,
            heard: timed::heard(self.tokens@),
            to_ref: self.to_ref@,
            is_match: self.is_match@,
            lo: self.lo as int,
            hi: self.hi as int,
        }
    }

    pub open spec fn fits(self) -> bool {
        &&& self.a.wf()
        &&& self.tokens@.len() == self.to_ref@.len()
        &&& self.tokens@.len() == self.is_match@.len()
        &&& self.hi < self.a.ref_token_ids.items().len()
    }

    fn own(&self, i: usize) -> (r: Option<AyahRef>)
        requires
            self.fits(),
            i < self.to_ref@.len(),
        ensures
            r == own_verse(self.mapping(), i as int),
    {
        match self.to_ref[i] {
            None => None,
            Some(r) => if self.lo <= r && r <= self.hi {
                Some(verse_at(self.a, r))
            } else {
                None
            },
        }
    }

    /// For each word the nearest placed word at or in front of it.
    fn all_prev(&self) -> (r: Vec<Option<usize>>)
        requires
            self.fits(),
        ensures
            r@.len() == self.to_ref@.len(),
            forall|i: int| 0 <= i < r@.len() ==> index_is(#[trigger] r@[i], prev_placed(self.mapping(), i)),
            forall|i: int| 0 <= i < r@.len() ==> ((#[trigger] r@[i]) matches Some(k) ==> k <= i),
    {
        let mut out: Vec<Option<usize>> = Vec::new();
        let mut last: Option<usize> = None;
        let mut i: usize = 0;
        while i < self.to_ref.len()
            invariant
                self.fits(),
                i <= self.to_ref@.len(),
                out@.len() == i,
                index_is(last, prev_placed(self.mapping(), i - 1)),
                last matches Some(k) ==> k < i,
                forall|k: int| 0 <= k < i ==> index_is(#[trigger] out@[k], prev_placed(self.mapping(), k)),
                forall|k: int| 0 <= k < i ==> ((#[trigger] out@[k]) matches Some(j) ==> j <= k),
            decreases self.to_ref@.len() - i,
        {
            if self.own(i).is_some() {
                last = Some(i);
            }
            out.push(last);
            i = i + 1;
        }
        out
    }

    /// For each word the nearest placed word at or behind it.
    fn all_next(&self) -> (r: Vec<Option<usize>>)
        requires
            self.fits(),
        ensures
            r@.len() == self.to_ref@.len(),
            forall|i: int| 0 <= i < r@.len() ==> index_is(#[trigger] r@[i], next_placed(self.mapping(), i)),
            forall|i: int| 0 <= i < r@.len() ==> ((#[trigger] r@[i]) matches Some(k) ==> k < r@.len()),
    {
        let m: usize = self.to_ref.len();
        let mut out: Vec<Option<usize>> = vec![None; m];
        let mut last: Option<usize> = None;
        let mut i: usize = m;
        while i > 0
            invariant
                self.fits(),
                i <= m,
                m == self.to_ref@.len(),
                out@.len() == m,
                index_is(last, next_placed(self.mapping(), i as int)),
                last matches Some(k) ==> k < m,
                forall|k: int| i <= k < m ==> index_is(#[trigger] out@[k], next_placed(self.mapping(), k)),
                forall|k: int| i <= k < m ==> ((#[trigger] out@[k]) matches Some(j) ==> j < m),
            decreases i,
        {
            i = i - 1;
            if self.own(i).is_some() {
                last = Some(i);
            }
            out.set(i, last);
        }
        out
    }

    fn word_number(&self, i: usize) -> (r: Option<u32>)
        requires
            self.fits(),
            i < self.tokens@.len(),
        ensures
            r == number_of(*self.a, self.mapping().heard[i as int].simplified),
    {
        match self.a.token_to_id.get(self.tokens[i].simplified.as_str()) {
            None => None,
            Some(id) => Some(*id),
        }
    }

    fn paused(&self, i: usize, n: usize) -> (r: bool)
        requires
            self.fits(),
            i < self.tokens@.len(),
            n < self.tokens@.len(),
        ensures
            r == after_pause(self.mapping().heard[i as int], self.mapping().heard[n as int]),
    {
        let next_start: Option<S> = match self.tokens[n].start_s {
            Some(s) => Some(s),
            None => self.tokens[n].end_s,
        };
        let word_end: Option<S> = match self.tokens[i].end_s {
            Some(e) => Some(e),
            None => self.tokens[i].start_s,
        };
        match (next_start, word_end) {
            (Some(ns), Some(te)) => S::milli(750).below(ns.minus(te)),
            _ => false,
        }
    }

    /// The verse that word `i` goes to, given the placed words around it.
    fn assign(&self, i: usize, prev: Option<usize>, next: Option<usize>) -> (r: Option<AyahRef>)
        requires
            self.fits(),
            i < self.tokens@.len(),
            index_is(prev, prev_placed(self.mapping(), i as int)),
            index_is(next, next_placed(self.mapping(), i as int)),
            prev matches Some(k) ==> k < self.tokens@.len(),
            next matches Some(k) ==> k < self.tokens@.len(),
        ensures
            r == assigned_verse(self.mapping(), i as int),
    {
        let own = self.own(i);
        if own.is_some() {
            return own;
        }
        let ghost x = self.mapping();
        proof {
            lemma_placed(x, i as int);
        }
        let estimated: bool = self.tokens[i].estimated_time;
        match (prev, next) {
            (None, None) => None,
            (None, Some(n)) => {
                let v = self.own(n);
                self.if_it_has_word(v, i, estimated)
            },
            (Some(p), None) => {
                let v = self.own(p);
                self.if_it_has_word(v, i, estimated)
            },
            (Some(p), Some(n)) => {
                let before = self.own(p);
                let after = self.own(n);
                match (before, after) {
                    (Some(b), Some(f)) => {
                        if b == f {
                            return before;
                        }
                        if estimated {
                            return None;
                        }
                        match self.word_number(i) {
                            Some(id) => {
                                let in_before: bool = verse_has_word(self.a, b, id);
                                let in_after: bool = verse_has_word(self.a, f, id);
                                if in_before && !in_after {
                                    return before;
                                }
                                if in_after && !in_before {
                                    return after;
                                }
                            },
                            None => {},
                        }
                        if self.paused(i, n) {
                            after
                        } else {
                            before
                        }
                    },
                    _ => None,
                }
            },
        }
    }

    fn if_it_has_word(&self, v: Option<AyahRef>, i: usize, estimated: bool) -> (r: Option<AyahRef>)
        requires
            self.fits(),
            i < self.tokens@.len(),
            v is Some,
        ensures
            r == ({
                let id = number_of(*self.a, self.mapping().heard[i as int].simplified);
                if !estimated && id is Some && verse_words(*self.a, v->0).contains(id->0) {
                    v
                } else {
                    None
                }
            }),
    {
        if estimated {
            return None;
        }
        match (self.word_number(i), v) {
            (Some(id), Some(w)) => if verse_has_word(self.a, w, id) {
                v
            } else {
                None
            },
            _ => None,
        }
    }
}

/// An index, or none.
pub open spec fn index_is(a: Option<usize>, b: Option<int>) -> bool {
    match (a, b) {
        (None, None) => true,
        (Some(x), Some(y)) => x == y,
        _ => false,
    }
}

proof fn lemma_placed<S: Scalar>(x: Mapping<S>, i: int)
    ensures
        prev_placed(x, i) matches Some(p) ==> 0 <= p <= i && own_verse(x, p) is Some,
        next_placed(x, i) matches Some(n) ==> i <= n < x.to_ref.len() && own_verse(x, n) is Some,
{
    lemma_prev(x, i);
    lemma_next(x, i);
}

proof fn lemma_prev<S: Scalar>(x: Mapping<S>, i: int)
    ensures
        prev_placed(x, i) matches Some(p) ==> 0 <= p <= i && own_verse(x, p) is Some,
    decreases i + 1,
{
    if i >= 0 && own_verse(x, i) is None {
        lemma_prev(x, i - 1);
    }
}

proof fn lemma_next<S: Scalar>(x: Mapping<S>, i: int)
    ensures
        next_placed(x, i) matches Some(n) ==> i <= n < x.to_ref.len() && own_verse(x, n) is Some,
    decreases x.to_ref.len() - i,
{
    if i < x.to_ref.len() && own_verse(x, i) is None {
        lemma_next(x, i + 1);
    }
}

// ---------------------------------------------------------------------------
// The times of each verse

/// When a verse was heard: measured and estimated times, and how many words it
/// got.
pub struct AyahTime<S> {
    pub start_s_real: Option<S>,
    pub end_s_real: Option<S>,
    pub start_s_est: Option<S>,
    pub end_s_est: Option<S>,
    pub token_count: usize,
    pub match_count: usize,
}

impl<S: Copy> Clone for AyahTime<S> {
    fn clone(&self) -> (r: Self)
        ensures
            r == *self,
    {
        *self
    }
}

impl<S: Copy> Copy for AyahTime<S> {

}

pub open spec fn no_time<S>() -> AyahTime<S> {
    AyahTime {
        start_s_real: None,
        end_s_real: None,
        start_s_est: None,
        end_s_est: None,
        token_count: 0,
        match_count: 0,
    }
}

pub open spec fn earlier<S: Scalar>(a: Option<S>, b: Option<S>) -> Option<S> {
    match (a, b) {
        (Some(x), Some(y)) => Some(scalar::min_spec(x, y)),
        (Some(x), None) => Some(x),
        (None, _) => b,
    }
}

pub open spec fn later<S: Scalar>(a: Option<S>, b: Option<S>) -> Option<S> {
    match (a, b) {
        (Some(x), Some(y)) => Some(scalar::max_spec(x, y)),
        (Some(x), None) => Some(x),
        (None, _) => b,
    }
}

/// A verse's times with one more word.
pub open spec fn with_word<S: Scalar>(t: AyahTime<S>, h: Heard<S>, hit: bool) -> AyahTime<S> {
    AyahTime {
        start_s_real: if h.estimated_time {
            t.start_s_real
        } else {
            earlier(t.start_s_real, h.start_s)
        },
        end_s_real: if h.estimated_time {
            t.end_s_real
        } else {
            later(t.end_s_real, h.end_s)
        },
        start_s_est: if h.estimated_time {
            earlier(t.start_s_est, h.start_s)
        } else {
            t.start_s_est
        },
        end_s_est: if h.estimated_time {
            later(t.end_s_est, h.end_s)
        } else {
            t.end_s_est
        },
        token_count: (t.token_count + 1) as usize,
        match_count: (t.match_count + if hit {
            1int
        } else {
            0
        }) as usize,
    }
}

/// The times of verse `v` from the first `k` heard words.
pub open spec fn verse_time<S: Scalar>(x: Mapping<S>, v: AyahRef, k: nat) -> AyahTime<S>
    decreases k,
{
    if k == 0 {
        no_time()
    } else {
        let before = verse_time(x, v, (k - 1) as nat);
        if assigned_verse(x, k - 1) == Some(v) {
            with_word(before, x.heard[k - 1], own_verse(x, k - 1) is Some && x.is_match[k - 1])
        } else {
            before
        }
    }
}

fn pick_earlier<S: Scalar>(a: Option<S>, b: Option<S>) -> (r: Option<S>)
    ensures
        r == earlier(a, b),
{
    match (a, b) {
        (Some(x), Some(y)) => Some(scalar::min_of(x, y)),
        (Some(x), None) => Some(x),
        (None, _) => b,
    }
}

fn pick_later<S: Scalar>(a: Option<S>, b: Option<S>) -> (r: Option<S>)
    ensures
        r == later(a, b),
{
    match (a, b) {
        (Some(x), Some(y)) => Some(scalar::max_of(x, y)),
        (Some(x), None) => Some(x),
        (None, _) => b,
    }
}

fn add_word<S: Scalar>(t: AyahTime<S>, h: &TimedToken<S>, hit: bool) -> (r: AyahTime<S>)
    requires
        t.token_count < usize::MAX,
        t.match_count < usize::MAX,
    ensures
        r == with_word(t, h@, hit),
{
    let mut r = t;
    if h.estimated_time {
        r.start_s_est = pick_earlier(t.start_s_est, h.start_s);
        r.end_s_est = pick_later(t.end_s_est, h.end_s);
    } else {
        r.start_s_real = pick_earlier(t.start_s_real, h.start_s);
        r.end_s_real = pick_later(t.end_s_real, h.end_s);
    }
    r.token_count = t.token_count + 1;
    if hit {
        r.match_count = t.match_count + 1;
    }
    r
}

/// A verse gets no more words than there are, and no more hits than words.
pub proof fn law_verse_counts<S: Scalar>(x: Mapping<S>, v: AyahRef, k: nat)
    requires
        k <= usize::MAX,
    ensures
        verse_time(x, v, k).match_count <= verse_time(x, v, k).token_count <= k,
    decreases k,
{
    if k > 0 {
        law_verse_counts(x, v, (k - 1) as nat);
    }
}

/// The times of the verses, by their keys.
spec fn times_are<S: Scalar>(m: Map<u32, AyahTime<S>>, x: Mapping<S>, k: nat) -> bool {
    forall|v: AyahRef|
        #![trigger assets::ayah_key_spec(v.surah, v.ayah)]
        verse_time(x, v, k) == if m.dom().contains(assets::ayah_key_spec(v.surah, v.ayah)) {
            m[assets::ayah_key_spec(v.surah, v.ayah)]
        } else {
            no_time()
        }
}

impl<'a, S: Scalar> Placement<'a, S> {
    fn collect_times(&self) -> (r: HashMap<u32, AyahTime<S>>)
        requires
            self.fits(),
        ensures
            times_are(r@, self.mapping(), self.tokens@.len()),
    {
        broadcast use vstd::std_specs::hash::group_hash_axioms;

        let ghost x = self.mapping();
        let m: usize = self.tokens.len();
        let prev = self.all_prev();
        let next = self.all_next();
        let mut times: HashMap<u32, AyahTime<S>> = HashMap::new();
        let mut i: usize = 0;
        while i < m
            invariant
                self.fits(),
                x == self.mapping(),
                m == self.tokens@.len(),
                prev@.len() == m,
                next@.len() == m,
                forall|k: int| 0 <= k < m ==> index_is(#[trigger] prev@[k], prev_placed(x, k)),
                forall|k: int| 0 <= k < m ==> ((#[trigger] prev@[k]) matches Some(j) ==> j <= k),
                forall|k: int| 0 <= k < m ==> index_is(#[trigger] next@[k], next_placed(x, k)),
                forall|k: int| 0 <= k < m ==> ((#[trigger] next@[k]) matches Some(j) ==> j < m),
                i <= m,
                times_are(times@, x, i as nat),
            decreases m - i,
        {
            broadcast use vstd::std_specs::hash::group_hash_axioms;

            assert(index_is(prev@[i as int], prev_placed(x, i as int)));
            assert(index_is(next@[i as int], next_placed(x, i as int)));
            let assigned = self.assign(i, prev[i], next[i]);
            let ghost before = times@;
            match assigned {
                None => {},
                Some(v) => {
                    let key: u32 = assets::ayah_key(v.surah, v.ayah);
                    let t: AyahTime<S> = match times.get(&key) {
                        Some(t) => *t,
                        None => AyahTime {
                            start_s_real: None,
                            end_s_real: None,
                            start_s_est: None,
                            end_s_est: None,
                            token_count: 0,
                            match_count: 0,
                        },
                    };
                    proof {
                        assert(t == verse_time(x, v, i as nat));
                        law_verse_counts(x, v, i as nat);
                    }
                    let hit: bool = self.own(i).is_some() && self.is_match[i];
                    times.insert(key, add_word(t, &self.tokens[i], hit));
                },
            }
            proof {
                assert forall|v: AyahRef|
                    #![trigger assets::ayah_key_spec(v.surah, v.ayah)]
                    verse_time(x, v, (i + 1) as nat) == if times@.dom().contains(
                        assets::ayah_key_spec(v.surah, v.ayah),
                    ) {
                        times@[assets::ayah_key_spec(v.surah, v.ayah)]
                    } else {
                        no_time()
                    } by {
                    let k = assets::ayah_key_spec(v.surah, v.ayah);
                    assert(verse_time(x, v, i as nat) == if before.dom().contains(k) {
                        before[k]
                    } else {
                        no_time()
                    });
                    if let Some(w) = assigned {
                        if k == assets::ayah_key_spec(w.surah, w.ayah) {
                            assets::law_ayah_keys_differ(v.surah, v.ayah, w.surah, w.ayah);
                        }
                    }
                }
            }
            i = i + 1;
        }
        times
    }
}

// ---------------------------------------------------------------------------
// The time that counts as zero

#[derive(Clone, Copy, Debug, PartialEq, Eq, Structural)]
pub enum TimeBase {
    FirstWord,
    FirstAyah,
    Absolute,
}

/// The base that a lower-case word names.
pub open spec fn time_base_of(key: Seq<char>) -> TimeBase {
    if key == "first_word"@ {
        TimeBase::FirstWord
    } else if key == "first_ayah"@ {
        TimeBase::FirstAyah
    } else {
        TimeBase::Absolute
    }
}

pub fn read_time_base(key: &str) -> (r: TimeBase)
    ensures
        r == time_base_of(key@),
{
    if chars::same_text(key, "first_word") {
        TimeBase::FirstWord
    } else if chars::same_text(key, "first_ayah") {
        TimeBase::FirstAyah
    } else {
        TimeBase::Absolute
    }
}

/// The earliest start among the first `k` heard words; with `placed`, among
/// those with a verse of their own.
pub open spec fn earliest_start<S: Scalar>(x: Mapping<S>, placed: bool, k: nat) -> Option<S>
    decreases k,
{
    if k == 0 {
        None
    } else {
        let before = earliest_start(x, placed, (k - 1) as nat);
        if placed && own_verse(x, k - 1) is None {
            before
        } else {
            earlier(before, x.heard[k - 1].start_s)
        }
    }
}

/// The time that counts as zero.
pub open spec fn base_time<S: Scalar>(x: Mapping<S>, base: TimeBase) -> S {
    let first = match base {
        TimeBase::FirstWord => earliest_start(x, false, x.heard.len()),
        TimeBase::FirstAyah => earliest_start(x, true, x.heard.len()),
        TimeBase::Absolute => None,
    };
    match first {
        Some(s) => s,
        None => S::whole_spec(0),
    }
}

impl<'a, S: Scalar> Placement<'a, S> {
    fn earliest(&self, placed: bool) -> (r: Option<S>)
        requires
            self.fits(),
        ensures
            r == earliest_start(self.mapping(), placed, self.tokens@.len()),
    {
        let mut best: Option<S> = None;
        let mut i: usize = 0;
        while i < self.tokens.len()
            invariant
                self.fits(),
                i <= self.tokens@.len(),
                best == earliest_start(self.mapping(), placed, i as nat),
            decreases self.tokens@.len() - i,
        {
            if !placed || self.own(i).is_some() {
                best = pick_earlier(best, self.tokens[i].start_s);
            }
            i = i + 1;
        }
        best
    }

    /// The time that counts as zero.
    pub fn find_base(&self, base: TimeBase) -> (r: S)
        requires
            self.fits(),
        ensures
            r == base_time(self.mapping(), base),
    {
        let first = match base {
            TimeBase::FirstWord => self.earliest(false),
            TimeBase::FirstAyah => self.earliest(true),
            TimeBase::Absolute => None,
        };
        assert(self.mapping().heard.len() == self.tokens@.len());
        match first {
            Some(s) => s,
            None => S::whole(0),
        }
    }
}

// ---------------------------------------------------------------------------
// The recited verses

/// A recited verse and its time.
pub struct AyahSpan<S> {
    pub verse: AyahRef,
    pub start_s: Option<S>,
    pub end_s: Option<S>,
    pub token_count: usize,
    pub match_count: usize,
    pub estimated_time: bool,
}

impl<S: Copy> Clone for AyahSpan<S> {
    fn clone(&self) -> (r: Self)
        ensures
            r == *self,
    {
        *self
    }
}

impl<S: Copy> Copy for AyahSpan<S> {

}

pub open spec fn less_base<S: Scalar>(t: Option<S>, base: S) -> Option<S> {
    match t {
        None => None,
        Some(x) => Some(x.minus_spec(base)),
    }
}

pub open spec fn or_else<S>(a: Option<S>, b: Option<S>) -> Option<S> {
    match a {
        Some(x) => Some(x),
        None => b,
    }
}

fn first_of<S: Copy>(a: Option<S>, b: Option<S>) -> (r: Option<S>)
    ensures
        r == or_else(a, b),
{
    match a {
        Some(x) => Some(x),
        None => b,
    }
}

fn relative<S: Scalar>(t: Option<S>, base: S) -> (r: Option<S>)
    ensures
        r == less_base(t, base),
{
    match t {
        None => None,
        Some(x) => Some(x.minus(base)),
    }
}

/// A verse's span as it was heard: measured times before estimated ones.
pub open spec fn raw_span<S: Scalar>(v: AyahRef, t: AyahTime<S>, base: S) -> AyahSpan<S> {
    AyahSpan {
        verse: v,
        start_s: less_base(or_else(t.start_s_real, t.start_s_est), base),
        end_s: less_base(or_else(t.end_s_real, t.end_s_est), base),
        token_count: t.token_count,
        match_count: t.match_count,
        estimated_time: t.start_s_real is None || t.end_s_real is None,
    }
}

/// The first start behind span `k`.
pub open spec fn next_start<S>(spans: Seq<AyahSpan<S>>, k: int) -> Option<S>
    decreases spans.len() - k,
{
    if k + 1 >= spans.len() {
        None
    } else {
        or_else(spans[k + 1].start_s, next_start(spans, k + 1))
    }
}

/// The first `k` spans with missing times filled in: a start from the end in
/// front or the next start, an end from the next start or the own start.
pub open spec fn filled_spans<S>(spans: Seq<AyahSpan<S>>, k: nat) -> Seq<AyahSpan<S>>
    decreases k,
{
    if k == 0 {
        Seq::empty()
    } else {
        let before = filled_spans(spans, (k - 1) as nat);
        let s = spans[k - 1];
        if s.start_s is Some && s.end_s is Some {
            before.push(s)
        } else {
            let prev_end = if k > 1 {
                before.last().end_s
            } else {
                None
            };
            let next = next_start(spans, k - 1);
            let start = or_else(s.start_s, or_else(prev_end, next));
            let end = or_else(s.end_s, or_else(next, start));
            before.push(AyahSpan { start_s: start, end_s: end, estimated_time: true, ..s })
        }
    }
}

/// The last known end of the spans.
pub open spec fn last_known_end<S>(spans: Seq<AyahSpan<S>>) -> Option<S>
    decreases spans.len(),
{
    if spans.len() == 0 {
        None
    } else {
        or_else(spans.last().end_s, last_known_end(spans.drop_last()))
    }
}

/// A span, moved so that it neither starts before `front` nor ends before it
/// starts.
pub open spec fn put_behind<S: Scalar>(s: AyahSpan<S>, front: Option<S>) -> AyahSpan<S> {
    let start = match (s.start_s, front) {
        (Some(x), Some(p)) => if x.rank() < p.rank() {
            Some(p)
        } else {
            Some(x)
        },
        _ => s.start_s,
    };
    let end = match (start, s.end_s) {
        (Some(x), Some(e)) => if e.rank() < x.rank() {
            Some(x)
        } else {
            Some(e)
        },
        _ => s.end_s,
    };
    AyahSpan { start_s: start, end_s: end, ..s }
}

/// The first `k` spans, each put behind the ones in front.
pub open spec fn ordered_spans<S: Scalar>(spans: Seq<AyahSpan<S>>, k: nat) -> Seq<AyahSpan<S>>
    decreases k,
{
    if k == 0 {
        Seq::empty()
    } else {
        let before = ordered_spans(spans, (k - 1) as nat);
        before.push(put_behind(spans[k - 1], last_known_end(before)))
    }
}

/// The recited verses with their times, relative to the base.
pub open spec fn recited_spans<S: Scalar>(x: Mapping<S>, base: TimeBase) -> Seq<AyahSpan<S>> {
    let verses = verses_between(x.a, x.lo, x.hi);
    let raw = verses.map_values(
        |v: AyahRef| raw_span(v, verse_time(x, v, x.heard.len()), base_time(x, base)),
    );
    let filled = filled_spans(raw, raw.len());
    ordered_spans(filled, filled.len())
}

/// Behind ordered spans no span starts before the end of one in front, and none
/// ends before it starts.
pub proof fn law_recited_verses_follow_each_other<S: Scalar>(spans: Seq<AyahSpan<S>>, k: nat)
    requires
        k <= spans.len(),
    ensures
        ordered_spans(spans, k).len() == k,
        forall|i: int|
            0 <= i < k ==> (#[trigger] ordered_spans(spans, k)[i]).verse == spans[i].verse && (ordered_spans(
                spans,
                k,
            )[i].start_s is Some <==> spans[i].start_s is Some) && (ordered_spans(spans, k)[i].end_s is Some
                <==> spans[i].end_s is Some),
        forall|i: int|
            0 <= i < k && (#[trigger] ordered_spans(spans, k)[i]).start_s is Some && ordered_spans(
                spans,
                k,
            )[i].end_s is Some ==> ordered_spans(spans, k)[i].start_s->0.rank() <= ordered_spans(
                spans,
                k,
            )[i].end_s->0.rank(),
        forall|i: int, j: int|
            0 <= i < j < k && (#[trigger] ordered_spans(spans, k)[i]).end_s is Some && (#[trigger] ordered_spans(
                spans,
                k,
            )[j]).start_s is Some && (forall|q: int|
                i <= q < k ==> (#[trigger] spans[q]).start_s is Some) ==> ordered_spans(
                spans,
                k,
            )[i].end_s->0.rank() <= ordered_spans(spans, k)[j].start_s->0.rank(),
        forall|i: int|
            0 <= i < k && (#[trigger] ordered_spans(spans, k)[i]).end_s is Some && (forall|q: int|
                i <= q < k ==> (#[trigger] spans[q]).start_s is Some) ==> (last_known_end(
                ordered_spans(spans, k),
            ) matches Some(e) && ordered_spans(spans, k)[i].end_s->0.rank() <= e.rank()),
    decreases k,
{
    if k > 0 {
        law_recited_verses_follow_each_other(spans, (k - 1) as nat);
        let p = ordered_spans(spans, (k - 1) as nat);
        let o = ordered_spans(spans, k);
        assert(o.drop_last() =~= p);
        assert(forall|i: int| 0 <= i < k - 1 ==> #[trigger] o[i] == p[i]);
    }
}

fn fill_span<S: Scalar>(spans: &[AyahSpan<S>], k: usize, prev_end: Option<S>) -> (r: AyahSpan<S>)
    requires
        k < spans@.len(),
    ensures
        r == ({
            let s = spans@[k as int];
            if s.start_s is Some && s.end_s is Some {
                s
            } else {
                let next = next_start(spans@, k as int);
                let start = or_else(s.start_s, or_else(prev_end, next));
                let end = or_else(s.end_s, or_else(next, start));
                AyahSpan { start_s: start, end_s: end, estimated_time: true, ..s }
            }
        }),
{
    let s = spans[k];
    if s.start_s.is_some() && s.end_s.is_some() {
        return s;
    }
    let mut next: Option<S> = None;
    let mut j: usize = spans.len() - 1;
    while j > k
        invariant
            k <= j < spans@.len(),
            next == next_start(spans@, j as int),
        decreases j,
    {
        next = first_of(spans[j].start_s, next);
        j = j - 1;
    }
    let start = first_of(s.start_s, first_of(prev_end, next));
    let end = first_of(s.end_s, first_of(next, start));
    AyahSpan {
        verse: s.verse,
        start_s: start,
        end_s: end,
        token_count: s.token_count,
        match_count: s.match_count,
        estimated_time: true,
    }
}

pub fn fill_spans<S: Scalar>(spans: &[AyahSpan<S>]) -> (r: Vec<AyahSpan<S>>)
    ensures
        r@ == filled_spans(spans@, spans@.len()),
{
    let mut out: Vec<AyahSpan<S>> = Vec::new();
    let mut k: usize = 0;
    while k < spans.len()
        invariant
            k <= spans@.len(),
            out@.len() == k,
            out@ == filled_spans(spans@, k as nat),
        decreases spans@.len() - k,
    {
        let prev_end: Option<S> = if k > 0 {
            out[k - 1].end_s
        } else {
            None
        };
        out.push(fill_span(spans, k, prev_end));
        k = k + 1;
    }
    out
}

fn move_behind<S: Scalar>(s: AyahSpan<S>, front: Option<S>) -> (r: AyahSpan<S>)
    ensures
        r == put_behind(s, front),
{
    let start = match (s.start_s, front) {
        (Some(x), Some(p)) => if x.below(p) {
            Some(p)
        } else {
            Some(x)
        },
        _ => s.start_s,
    };
    let end = match (start, s.end_s) {
        (Some(x), Some(e)) => if e.below(x) {
            Some(x)
        } else {
            Some(e)
        },
        _ => s.end_s,
    };
    let mut r = s;
    r.start_s = start;
    r.end_s = end;
    r
}

pub fn order_spans<S: Scalar>(spans: &[AyahSpan<S>]) -> (r: Vec<AyahSpan<S>>)
    ensures
        r@ == ordered_spans(spans@, spans@.len()),
{
    let mut out: Vec<AyahSpan<S>> = Vec::new();
    let mut front: Option<S> = None;
    let mut k: usize = 0;
    while k < spans.len()
        invariant
            k <= spans@.len(),
            out@ == ordered_spans(spans@, k as nat),
            front == last_known_end(out@),
        decreases spans@.len() - k,
    {
        let s = move_behind(spans[k], front);
        let ghost before = out@;
        out.push(s);
        assert(out@.drop_last() =~= before);
        front = first_of(s.end_s, front);
        k = k + 1;
    }
    out
}

impl<'a, S: Scalar> Placement<'a, S> {
    /// The recited verses with their times.
    pub fn find_spans(&self, base: TimeBase) -> (r: Vec<AyahSpan<S>>)
        requires
            self.fits(),
        ensures
            r@ == recited_spans(self.mapping(), base),
    {
        broadcast use vstd::std_specs::hash::group_hash_axioms;

        let ghost x = self.mapping();
        let zero: S = self.find_base(base);
        let times = self.collect_times();
        let verses = list_verses(self.a, self.lo, self.hi);
        let ghost want = verses@.map_values(
            |v: AyahRef| raw_span(v, verse_time(x, v, x.heard.len()), base_time(x, base)),
        );
        let mut raw: Vec<AyahSpan<S>> = Vec::new();
        let mut k: usize = 0;
        while k < verses.len()
            invariant
                k <= verses@.len(),
                x == self.mapping(),
                zero == base_time(x, base),
                x.heard.len() == self.tokens@.len(),
                times_are(times@, x, self.tokens@.len()),
                want == verses@.map_values(
                    |v: AyahRef| raw_span(v, verse_time(x, v, x.heard.len()), base_time(x, base)),
                ),
                raw@ == want.take(k as int),
            decreases verses@.len() - k,
        {
            broadcast use vstd::std_specs::hash::group_hash_axioms;

            let v = verses[k];
            let key: u32 = assets::ayah_key(v.surah, v.ayah);
            let t: AyahTime<S> = match times.get(&key) {
                Some(t) => *t,
                None => AyahTime {
                    start_s_real: None,
                    end_s_real: None,
                    start_s_est: None,
                    end_s_est: None,
                    token_count: 0,
                    match_count: 0,
                },
            };
            assert(t == verse_time(x, v, self.tokens@.len()));
            let span = AyahSpan {
                verse: v,
                start_s: relative(first_of(t.start_s_real, t.start_s_est), zero),
                end_s: relative(first_of(t.end_s_real, t.end_s_est), zero),
                token_count: t.token_count,
                match_count: t.match_count,
                estimated_time: t.start_s_real.is_none() || t.end_s_real.is_none(),
            };
            raw.push(span);
            assert(raw@ =~= want.take(k as int + 1));
            k = k + 1;
        }
        assert(raw@ =~= want);
        let filled = fill_spans(&raw);
        order_spans(&filled)
    }
}

// ---------------------------------------------------------------------------
// Segments as they are reported

/// A recited verse with its name and timestamps.
pub struct AyahSegment<S> {
    pub ayah_key: String,
    pub surah_id: u16,
    pub ayah_num: u16,
    pub start_s: Option<S>,
    pub end_s: Option<S>,
    pub start_ts: Option<String>,
    pub end_ts: Option<String>,
    pub token_count: usize,
    pub match_count: usize,
    pub estimated_time: bool,
}

/// `chapter:verse`.
pub open spec fn verse_text(v: AyahRef) -> Seq<char> {
    chars::decimal(v.surah as nat) + seq![':'] + chars::decimal(v.ayah as nat)
}

pub fn verse_label(v: AyahRef) -> (r: String)
    ensures
        r@ == verse_text(v),
{
    let mut out = String::new();
    chars::push_decimal(&mut out, v.surah as u64);
    out.push(':');
    chars::push_decimal(&mut out, v.ayah as u64);
    assert(out@ =~= verse_text(v));
    out
}

/// The timestamp of a time that is known.
pub open spec fn stamp_is<S: Scalar>(ts: Option<String>, t: Option<S>) -> bool {
    match (ts, t) {
        (None, None) => true,
        (Some(s), Some(x)) => s@ == text::timestamp(text::millis(x) as int),
        _ => false,
    }
}

fn stamp<S: Scalar>(t: Option<S>) -> (r: Option<String>)
    ensures
        stamp_is(r, t),
{
    match t {
        None => None,
        Some(x) => Some(text::format_timestamp(x)),
    }
}

impl<S: Scalar> AyahSegment<S> {
    /// The segment reports the span.
    pub open spec fn reports(self, span: AyahSpan<S>) -> bool {
        &&& self.ayah_key@ == verse_text(span.verse)
        &&& self.surah_id == span.verse.surah
        &&& self.ayah_num == span.verse.ayah
        &&& self.start_s == span.start_s
        &&& self.end_s == span.end_s
        &&& stamp_is(self.start_ts, span.start_s)
        &&& stamp_is(self.end_ts, span.end_s)
        &&& self.token_count == span.token_count
        &&& self.match_count == span.match_count
        &&& self.estimated_time == span.estimated_time
    }

    pub fn of(span: AyahSpan<S>) -> (r: Self)
        ensures
            r.reports(span),
    {
        AyahSegment {
            ayah_key: verse_label(span.verse),
            surah_id: span.verse.surah,
            ayah_num: span.verse.ayah,
            start_s: span.start_s,
            end_s: span.end_s,
            start_ts: stamp(span.start_s),
            end_ts: stamp(span.end_s),
            token_count: span.token_count,
            match_count: span.match_count,
            estimated_time: span.estimated_time,
        }
    }
}

/// Each segment reports the span at its place.
pub open spec fn segments_report<S: Scalar>(segs: Seq<AyahSegment<S>>, spans: Seq<AyahSpan<S>>) -> bool {
    &&& segs.len() == spans.len()
    &&& forall|k: int| 0 <= k < segs.len() ==> (#[trigger] segs[k]).reports(spans[k])
}

pub fn report_spans<S: Scalar>(spans: &[AyahSpan<S>]) -> (r: Vec<AyahSegment<S>>)
    ensures
        segments_report(r@, spans@),
{
    let mut out: Vec<AyahSegment<S>> = Vec::new();
    let mut k: usize = 0;
    while k < spans.len()
        invariant
            k <= spans@.len(),
            out@.len() == k,
            forall|j: int| 0 <= j < k ==> (#[trigger] out@[j]).reports(spans@[j]),
        decreases spans@.len() - k,
    {
        out.push(AyahSegment::of(spans[k]));
        k = k + 1;
    }
    out
}

// ---------------------------------------------------------------------------
// Laws on verses and their times

proof fn lemma_extent_bounds(to_ref: Seq<Option<usize>>, is_match: Seq<bool>, hits: bool, k: nat)
    requires
        k <= to_ref.len(),
    ensures
        match extent(to_ref, is_match, hits, k) {
            None => forall|i: int| 0 <= i < k ==> (#[trigger] to_ref[i]) is None || (hits && !is_match[i]),
            Some(p) => {
                &&& exists|i: int| 0 <= i < k && #[trigger] to_ref[i] == Some(p.0) && (hits ==> is_match[i])
                &&& exists|i: int| 0 <= i < k && #[trigger] to_ref[i] == Some(p.1) && (hits ==> is_match[i])
                &&& forall|i: int|
                    0 <= i < k && (#[trigger] to_ref[i]) is Some && (hits ==> is_match[i]) ==> p.0 <= to_ref[i]->0 <= p.1
            },
        },
    decreases k,
{
    if k > 0 {
        lemma_extent_bounds(to_ref, is_match, hits, (k - 1) as nat);
        let now = extent(to_ref, is_match, hits, k);
        if now is Some {
            let p = now->0;
            match extent(to_ref, is_match, hits, (k - 1) as nat) {
                None => {
                    assert(to_ref[k - 1] == Some(p.0));
                },
                Some(b) => {
                    if p.0 == b.0 {
                        let i = choose|i: int| 0 <= i < k - 1 && #[trigger] to_ref[i] == Some(b.0) && (hits ==> is_match[i]);
                        assert(to_ref[i] == Some(p.0));
                    } else {
                        assert(to_ref[k - 1] == Some(p.0));
                    }
                    if p.1 == b.1 {
                        let i = choose|i: int| 0 <= i < k - 1 && #[trigger] to_ref[i] == Some(b.1) && (hits ==> is_match[i]);
                        assert(to_ref[i] == Some(p.1));
                    } else {
                        assert(to_ref[k - 1] == Some(p.1));
                    }
                },
            }
        }
    }
}

/// What was recited reaches from the first reference word that was hit to the last one.
/// Where none was hit, the words that are paired count; where none is paired, nothing
/// was recited.
pub proof fn law_recited_range_holds_the_hits(to_ref: Seq<Option<usize>>, is_match: Seq<bool>)
    requires
        is_match.len() == to_ref.len(),
    ensures
        ({
            let any_hit = exists|i: int| 0 <= i < to_ref.len() && (#[trigger] to_ref[i]) is Some && is_match[i];
            match recited_extent(to_ref, is_match) {
                None => forall|i: int| 0 <= i < to_ref.len() ==> (#[trigger] to_ref[i]) is None,
                Some(p) => {
                    &&& exists|i: int| 0 <= i < to_ref.len() && #[trigger] to_ref[i] == Some(p.0) && (any_hit ==> is_match[i])
                    &&& exists|i: int| 0 <= i < to_ref.len() && #[trigger] to_ref[i] == Some(p.1) && (any_hit ==> is_match[i])
                    &&& forall|i: int|
                        0 <= i < to_ref.len() && (#[trigger] to_ref[i]) is Some && (any_hit ==> is_match[i]) ==> p.0
                            <= to_ref[i]->0 <= p.1
                },
            }
        }),
{
    lemma_extent_bounds(to_ref, is_match, true, to_ref.len());
    lemma_extent_bounds(to_ref, is_match, false, to_ref.len());
    if extent(to_ref, is_match, true, to_ref.len()) is Some {
        let p = extent(to_ref, is_match, true, to_ref.len())->0;
        let i = choose|i: int| 0 <= i < to_ref.len() && #[trigger] to_ref[i] == Some(p.0) && is_match[i];
        assert(to_ref[i] is Some && is_match[i]);
    }
}

/// The verses between two reference words are those of all words from the one to the
/// other, in their order; neighbours differ.
pub proof fn law_verses_between_are_those_of_the_words<S: Scalar>(a: AlignmentAssetsV2<S>, lo: int, hi: int)
    requires
        lo <= hi,
    ensures
        ({
            let vs = verses_between(a, lo, hi);
            &&& vs.len() > 0
            &&& vs[0] == ayah_at(a, lo)
            &&& vs.last() == ayah_at(a, hi)
            &&& forall|r: int| lo <= r <= hi ==> vs.contains(#[trigger] ayah_at(a, r))
            &&& forall|k: int|
                #![trigger vs[k]]
                0 <= k < vs.len() ==> exists|r: int| lo <= r <= hi && vs[k] == #[trigger] ayah_at(a, r)
            &&& forall|k: int, m: int|
                0 <= k < vs.len() && m == k + 1 && m < vs.len() ==> #[trigger] vs[k] != #[trigger] vs[m]
        }),
    decreases hi - lo,
{
    let vs = verses_between(a, lo, hi);
    let before = verses_between(a, lo, hi - 1);
    if lo < hi {
        law_verses_between_are_those_of_the_words(a, lo, hi - 1);
    } else {
        assert(before.len() == 0);
    }
    assert(vs[vs.len() - 1] == ayah_at(a, hi));
    assert forall|r: int| lo <= r <= hi implies vs.contains(#[trigger] ayah_at(a, r)) by {
        if r < hi {
            assert(before.contains(ayah_at(a, r)));
            let k = choose|k: int| 0 <= k < before.len() && before[k] == ayah_at(a, r);
            assert(vs[k] == before[k]);
        }
    }
    assert forall|k: int| #![trigger vs[k]] 0 <= k < vs.len() implies exists|r: int|
        lo <= r <= hi && vs[k] == #[trigger] ayah_at(a, r) by {
        if k < before.len() {
            assert(vs[k] == before[k]);
            let r = choose|r: int| lo <= r <= hi - 1 && before[k] == #[trigger] ayah_at(a, r);
            assert(vs[k] == ayah_at(a, r));
        } else {
            assert(vs[k] == ayah_at(a, hi));
        }
    }
    assert forall|k: int, m: int| 0 <= k < vs.len() && m == k + 1 && m < vs.len() implies #[trigger] vs[k]
        != #[trigger] vs[m] by {
        if m < before.len() {
            assert(vs[k] == before[k] && vs[m] == before[m]);
        } else {
            assert(before.last() == vs[k]);
        }
    }
}

proof fn lemma_prev_placed<S: Scalar>(x: Mapping<S>, i: int)
    ensures
        match prev_placed(x, i) {
            None => forall|q: int| 0 <= q <= i ==> (#[trigger] own_verse(x, q)) is None,
            Some(p) => 0 <= p <= i && own_verse(x, p) is Some && forall|q: int|
                p < q <= i ==> (#[trigger] own_verse(x, q)) is None,
        },
    decreases i + 1,
{
    if i >= 0 && own_verse(x, i) is None {
        lemma_prev_placed(x, i - 1);
    }
}

proof fn lemma_next_placed<S: Scalar>(x: Mapping<S>, i: int)
    ensures
        match next_placed(x, i) {
            None => forall|q: int| i <= q < x.to_ref.len() ==> (#[trigger] own_verse(x, q)) is None,
            Some(n) => i <= n < x.to_ref.len() && own_verse(x, n) is Some && forall|q: int|
                i <= q < n ==> (#[trigger] own_verse(x, q)) is None,
        },
    decreases x.to_ref.len() - i,
{
    if i < x.to_ref.len() && own_verse(x, i) is None {
        lemma_next_placed(x, i + 1);
    }
}

/// A heard word that is paired with a reference word of the recited range belongs to the
/// verse of that word.
pub proof fn law_paired_words_belong_to_their_verse<S: Scalar>(x: Mapping<S>, i: int)
    requires
        0 <= i < x.to_ref.len(),
        x.to_ref[i] is Some,
        x.lo <= x.to_ref[i]->0 <= x.hi,
    ensures
        assigned_verse(x, i) == Some(
            AyahRef {
                surah: x.a.ref_surah_id.items()[x.to_ref[i]->0 as int],
                ayah: x.a.ref_ayah_num.items()[x.to_ref[i]->0 as int],
            },
        ),
{
}

/// A word that is not paired belongs to the verse of the paired words next to it, where
/// they agree. Between two verses a word of known time goes to the one that holds it.
/// Where both or neither hold it, it goes to the verse behind if more than 0.75 seconds
/// lie between its end and the start of the next paired word, else to the verse in
/// front. A word of estimated time goes to neither.
pub proof fn law_words_between_verses<S: Scalar>(x: Mapping<S>, p: int, i: int, n: int)
    requires
        0 <= p < i < n < x.to_ref.len(),
        own_verse(x, p) is Some && own_verse(x, n) is Some,
        forall|q: int| p < q < n ==> (#[trigger] own_verse(x, q)) is None,
    ensures
        ({
            let front = own_verse(x, p)->0;
            let behind = own_verse(x, n)->0;
            let word = x.heard[i];
            let held_by = |v: AyahRef| number_of(x.a, word.simplified) matches Some(id) && verse_words(x.a, v).contains(id);
            let paused = match (x.heard[n].start_s, x.heard[n].end_s, word.start_s, word.end_s) {
                (Some(next), _, _, Some(e)) => S::milli_spec(750).rank() < next.minus_spec(e).rank(),
                (Some(next), _, Some(s), None) => S::milli_spec(750).rank() < next.minus_spec(s).rank(),
                (None, Some(next), _, Some(e)) => S::milli_spec(750).rank() < next.minus_spec(e).rank(),
                (None, Some(next), Some(s), None) => S::milli_spec(750).rank() < next.minus_spec(s).rank(),
                _ => false,
            };
            &&& front == behind ==> assigned_verse(x, i) == Some(front)
            &&& front != behind && word.estimated_time ==> assigned_verse(x, i) is None
            &&& front != behind && !word.estimated_time && held_by(front) && !held_by(behind) ==> assigned_verse(x, i)
                == Some(front)
            &&& front != behind && !word.estimated_time && held_by(behind) && !held_by(front) ==> assigned_verse(x, i)
                == Some(behind)
            &&& front != behind && !word.estimated_time && held_by(behind) == held_by(front) ==> assigned_verse(x, i)
                == Some(
                if paused {
                    behind
                } else {
                    front
                },
            )
        }),
{
    lemma_prev_placed(x, i);
    lemma_next_placed(x, i);
    assert(own_verse(x, i) is None);
    let q = prev_placed(x, i)->0;
    let m = next_placed(x, i)->0;
    assert(prev_placed(x, i) is Some && q == p);
    assert(next_placed(x, i) is Some && m == n);
}

/// A word in front of all paired words, or behind them, belongs to the nearest paired
/// verse if its time is known and the verse holds it, and to no verse else.
pub proof fn law_words_outside_need_the_verse_to_hold_them<S: Scalar>(x: Mapping<S>, i: int, n: int)
    requires
        0 <= i < x.to_ref.len() && 0 <= n < x.to_ref.len(),
        own_verse(x, n) is Some,
        i < n ==> forall|q: int| 0 <= q < n ==> (#[trigger] own_verse(x, q)) is None,
        n < i ==> forall|q: int| n < q < x.to_ref.len() ==> (#[trigger] own_verse(x, q)) is None,
        i != n,
    ensures
        ({
            let v = own_verse(x, n)->0;
            let word = x.heard[i];
            let holds = number_of(x.a, word.simplified) matches Some(id) && verse_words(x.a, v).contains(id);
            assigned_verse(x, i) == (if holds && !word.estimated_time {
                Some(v)
            } else {
                None
            })
        }),
{
    lemma_prev_placed(x, i);
    lemma_next_placed(x, i);
    assert(own_verse(x, i) is None);
}

/// A heard word of verse `v` whose time is known as `known` says.
pub open spec fn times_verse<S: Scalar>(x: Mapping<S>, v: AyahRef, i: int, known: bool) -> bool {
    assigned_verse(x, i) == Some(v) && x.heard[i].estimated_time != known
}

proof fn lemma_verse_start<S: Scalar>(x: Mapping<S>, v: AyahRef, k: nat, known: bool)
    ensures
        ({
            let t = if known {
                verse_time(x, v, k).start_s_real
            } else {
                verse_time(x, v, k).start_s_est
            };
            &&& t is None ==> forall|i: int|
                0 <= i < k && #[trigger] times_verse(x, v, i, known) ==> x.heard[i].start_s is None
            &&& t matches Some(s) ==> {
                &&& exists|i: int| 0 <= i < k && #[trigger] times_verse(x, v, i, known) && x.heard[i].start_s == Some(s)
                &&& forall|i: int|
                    0 <= i < k && #[trigger] times_verse(x, v, i, known) && x.heard[i].start_s is Some ==> s.rank()
                        <= x.heard[i].start_s->0.rank()
            }
        }),
    decreases k,
{
    if k > 0 {
        lemma_verse_start(x, v, (k - 1) as nat, known);
        let pick = |t: AyahTime<S>|
            if known {
                t.start_s_real
            } else {
                t.start_s_est
            };
        let before = pick(verse_time(x, v, (k - 1) as nat));
        let now = pick(verse_time(x, v, k));
        if now is Some {
            if now == before {
                let i = choose|i: int|
                    0 <= i < k - 1 && #[trigger] times_verse(x, v, i, known) && x.heard[i].start_s == before;
                assert(times_verse(x, v, i, known) && x.heard[i].start_s == now);
            } else {
                assert(times_verse(x, v, k - 1, known) && x.heard[k - 1].start_s == now);
            }
        }
    }
}

proof fn lemma_verse_end<S: Scalar>(x: Mapping<S>, v: AyahRef, k: nat, known: bool)
    ensures
        ({
            let t = if known {
                verse_time(x, v, k).end_s_real
            } else {
                verse_time(x, v, k).end_s_est
            };
            &&& t is None ==> forall|i: int|
                0 <= i < k && #[trigger] times_verse(x, v, i, known) ==> x.heard[i].end_s is None
            &&& t matches Some(s) ==> {
                &&& exists|i: int| 0 <= i < k && #[trigger] times_verse(x, v, i, known) && x.heard[i].end_s == Some(s)
                &&& forall|i: int|
                    0 <= i < k && #[trigger] times_verse(x, v, i, known) && x.heard[i].end_s is Some
                        ==> x.heard[i].end_s->0.rank() <= s.rank()
            }
        }),
    decreases k,
{
    if k > 0 {
        lemma_verse_end(x, v, (k - 1) as nat, known);
        let pick = |t: AyahTime<S>|
            if known {
                t.end_s_real
            } else {
                t.end_s_est
            };
        let before = pick(verse_time(x, v, (k - 1) as nat));
        let now = pick(verse_time(x, v, k));
        if now is Some {
            if now == before {
                let i = choose|i: int|
                    0 <= i < k - 1 && #[trigger] times_verse(x, v, i, known) && x.heard[i].end_s == before;
                assert(times_verse(x, v, i, known) && x.heard[i].end_s == now);
            } else {
                assert(times_verse(x, v, k - 1, known) && x.heard[k - 1].end_s == now);
            }
        }
    }
}

/// Some word of the verse starts at a known time.
pub open spec fn starts_are_known<S: Scalar>(x: Mapping<S>, v: AyahRef) -> bool {
    exists|i: int| 0 <= i < x.heard.len() && #[trigger] times_verse(x, v, i, true) && x.heard[i].start_s is Some
}

/// Some word of the verse ends at a known time.
pub open spec fn ends_are_known<S: Scalar>(x: Mapping<S>, v: AyahRef) -> bool {
    exists|i: int| 0 <= i < x.heard.len() && #[trigger] times_verse(x, v, i, true) && x.heard[i].end_s is Some
}

/// A verse starts when the earliest of its words starts and ends when the latest ends,
/// less the base of times. Words of known time decide; those of estimated time only
/// where no word of known time tells, and then the verse is told as estimated.
pub proof fn law_verse_reaches_over_its_words<S: Scalar>(x: Mapping<S>, v: AyahRef, base: S)
    ensures
        ({
            let k = x.heard.len();
            let span = raw_span(v, verse_time(x, v, k), base);
            let starts_known = starts_are_known(x, v);
            let ends_known = ends_are_known(x, v);
            &&& span.verse == v
            &&& span.estimated_time == !(starts_known && ends_known)
            &&& span.start_s matches Some(s) ==> exists|i: int|
                {
                    &&& 0 <= i < k && #[trigger] times_verse(x, v, i, starts_known)
                    &&& x.heard[i].start_s is Some && s == x.heard[i].start_s->0.minus_spec(base)
                    &&& forall|j: int|
                        0 <= j < k && #[trigger] times_verse(x, v, j, starts_known) && x.heard[j].start_s is Some
                            ==> x.heard[i].start_s->0.rank() <= x.heard[j].start_s->0.rank()
                }
            &&& span.end_s matches Some(e) ==> exists|i: int|
                {
                    &&& 0 <= i < k && #[trigger] times_verse(x, v, i, ends_known)
                    &&& x.heard[i].end_s is Some && e == x.heard[i].end_s->0.minus_spec(base)
                    &&& forall|j: int|
                        0 <= j < k && #[trigger] times_verse(x, v, j, ends_known) && x.heard[j].end_s is Some
                            ==> x.heard[j].end_s->0.rank() <= x.heard[i].end_s->0.rank()
                }
            &&& span.start_s is None ==> forall|i: int|
                #![trigger assigned_verse(x, i)]
                0 <= i < k && assigned_verse(x, i) == Some(v) ==> x.heard[i].start_s is None
            &&& span.end_s is None ==> forall|i: int|
                #![trigger assigned_verse(x, i)]
                0 <= i < k && assigned_verse(x, i) == Some(v) ==> x.heard[i].end_s is None
        }),
{
    let k = x.heard.len();
    lemma_verse_start(x, v, k, true);
    lemma_verse_start(x, v, k, false);
    lemma_verse_end(x, v, k, true);
    lemma_verse_end(x, v, k, false);
    let t = verse_time(x, v, k);
    let span = raw_span(v, t, base);
    let starts_known = starts_are_known(x, v);
    let ends_known = ends_are_known(x, v);
    assert(starts_known == (t.start_s_real is Some)) by {
        if t.start_s_real is Some {
            let i = choose|i: int|
                0 <= i < k && #[trigger] times_verse(x, v, i, true) && x.heard[i].start_s == Some(t.start_s_real->0);
            assert(times_verse(x, v, i, true) && x.heard[i].start_s is Some);
        }
    }
    assert(ends_known == (t.end_s_real is Some)) by {
        if t.end_s_real is Some {
            let i = choose|i: int|
                0 <= i < k && #[trigger] times_verse(x, v, i, true) && x.heard[i].end_s == Some(t.end_s_real->0);
            assert(times_verse(x, v, i, true) && x.heard[i].end_s is Some);
        }
    }
    if span.start_s is Some {
        let first = or_else(t.start_s_real, t.start_s_est)->0;
        let i = choose|i: int|
            0 <= i < k && #[trigger] times_verse(x, v, i, starts_known) && x.heard[i].start_s == Some(first);
        assert(times_verse(x, v, i, starts_known));
    }
    if span.end_s is Some {
        let last = or_else(t.end_s_real, t.end_s_est)->0;
        let i = choose|i: int|
            0 <= i < k && #[trigger] times_verse(x, v, i, ends_known) && x.heard[i].end_s == Some(last);
        assert(times_verse(x, v, i, ends_known));
    }
    if span.start_s is None {
        assert forall|i: int| #![trigger assigned_verse(x, i)] 0 <= i < k && assigned_verse(x, i) == Some(v) implies
            x.heard[i].start_s is None by {
            assert(times_verse(x, v, i, true) || times_verse(x, v, i, false));
        }
    }
    if span.end_s is None {
        assert forall|i: int| #![trigger assigned_verse(x, i)] 0 <= i < k && assigned_verse(x, i) == Some(v) implies
            x.heard[i].end_s is None by {
            assert(times_verse(x, v, i, true) || times_verse(x, v, i, false));
        }
    }
}

/// One more word of a verse is counted, and as a hit where it was hit; a word of another
/// verse changes nothing of it.
pub proof fn law_verse_counts_its_words<S: Scalar>(x: Mapping<S>, v: AyahRef, k: nat)
    requires
        k < x.heard.len() <= usize::MAX,
    ensures
        ({
            let before = verse_time(x, v, k);
            let after = verse_time(x, v, k + 1);
            let hit = x.is_match[k as int] && x.to_ref[k as int] is Some && x.lo <= x.to_ref[k as int]->0 <= x.hi;
            &&& assigned_verse(x, k as int) != Some(v) ==> after == before
            &&& assigned_verse(x, k as int) == Some(v) ==> {
                &&& after.token_count == before.token_count + 1
                &&& after.match_count == before.match_count + (if hit {
                    1int
                } else {
                    0
                })
            }
            &&& verse_time(x, v, 0).token_count == 0 && verse_time(x, v, 0).match_count == 0
        }),
{
    law_verse_counts(x, v, k);
}

spec fn counts_for_base<S: Scalar>(x: Mapping<S>, placed: bool, i: int) -> bool {
    placed ==> own_verse(x, i) is Some
}

proof fn lemma_earliest<S: Scalar>(x: Mapping<S>, placed: bool, k: nat)
    ensures
        match earliest_start(x, placed, k) {
            None => forall|i: int|
                0 <= i < k && #[trigger] counts_for_base(x, placed, i) ==> x.heard[i].start_s is None,
            Some(s) => {
                &&& exists|i: int|
                    0 <= i < k && #[trigger] counts_for_base(x, placed, i) && x.heard[i].start_s == Some(s)
                &&& forall|i: int|
                    0 <= i < k && #[trigger] counts_for_base(x, placed, i) && x.heard[i].start_s is Some ==> s.rank()
                        <= x.heard[i].start_s->0.rank()
            },
        },
    decreases k,
{
    if k > 0 {
        lemma_earliest(x, placed, (k - 1) as nat);
        let before = earliest_start(x, placed, (k - 1) as nat);
        let now = earliest_start(x, placed, k);
        if now is Some {
            if now == before {
                let i = choose|i: int|
                    0 <= i < k - 1 && #[trigger] counts_for_base(x, placed, i) && x.heard[i].start_s == before;
                assert(counts_for_base(x, placed, i));
            } else {
                assert(counts_for_base(x, placed, k - 1));
                assert(x.heard[k - 1].start_s == now);
            }
        }
    }
}

/// Times count from the start of the audio, from the earliest start of any word, or from
/// the earliest start of a word that is paired within the recited range.
pub proof fn law_times_count_from_their_base<S: Scalar>(x: Mapping<S>)
    ensures
        base_time(x, TimeBase::Absolute) == S::whole_spec(0),
        forall|i: int|
            #![trigger x.heard[i]]
            0 <= i < x.heard.len() && x.heard[i].start_s is Some ==> base_time(x, TimeBase::FirstWord).rank()
                <= x.heard[i].start_s->0.rank(),
        (exists|i: int| #![trigger x.heard[i]] 0 <= i < x.heard.len() && x.heard[i].start_s is Some) ==> exists|i: int|
            #![trigger x.heard[i]]
            0 <= i < x.heard.len() && x.heard[i].start_s == Some(base_time(x, TimeBase::FirstWord)),
        forall|i: int|
            #![trigger x.heard[i]]
            0 <= i < x.heard.len() && x.to_ref[i] is Some && x.lo <= x.to_ref[i]->0 <= x.hi && x.heard[i].start_s is Some
                ==> base_time(x, TimeBase::FirstAyah).rank() <= x.heard[i].start_s->0.rank(),
        (exists|i: int|
            #![trigger x.heard[i]]
            0 <= i < x.heard.len() && x.to_ref[i] is Some && x.lo <= x.to_ref[i]->0 <= x.hi && x.heard[i].start_s is Some)
            ==> exists|i: int|
            #![trigger x.heard[i]]
            0 <= i < x.heard.len() && x.to_ref[i] is Some && x.lo <= x.to_ref[i]->0 <= x.hi && x.heard[i].start_s == Some(
                base_time(x, TimeBase::FirstAyah),
            ),
{
    let n = x.heard.len();
    lemma_earliest(x, false, n);
    lemma_earliest(x, true, n);
    assert forall|i: int| #![trigger x.heard[i]] 0 <= i < n && x.heard[i].start_s is Some implies base_time(
        x,
        TimeBase::FirstWord,
    ).rank() <= x.heard[i].start_s->0.rank() by {
        assert(counts_for_base(x, false, i));
    }
    if exists|i: int| #![trigger x.heard[i]] 0 <= i < n && x.heard[i].start_s is Some {
        let w = choose|i: int| #![trigger x.heard[i]] 0 <= i < n && x.heard[i].start_s is Some;
        assert(counts_for_base(x, false, w));
        let s = earliest_start(x, false, n);
        assert(s is Some);
        let i = choose|i: int| 0 <= i < n && #[trigger] counts_for_base(x, false, i) && x.heard[i].start_s == Some(s->0);
        assert(x.heard[i].start_s == Some(base_time(x, TimeBase::FirstWord)));
    }
    assert forall|i: int|
        #![trigger x.heard[i]]
        0 <= i < n && x.to_ref[i] is Some && x.lo <= x.to_ref[i]->0 <= x.hi && x.heard[i].start_s is Some implies base_time(
        x,
        TimeBase::FirstAyah,
    ).rank() <= x.heard[i].start_s->0.rank() by {
        assert(counts_for_base(x, true, i));
    }
    if exists|i: int|
        #![trigger x.heard[i]]
        0 <= i < n && x.to_ref[i] is Some && x.lo <= x.to_ref[i]->0 <= x.hi && x.heard[i].start_s is Some {
        let w = choose|i: int|
            #![trigger x.heard[i]]
            0 <= i < n && x.to_ref[i] is Some && x.lo <= x.to_ref[i]->0 <= x.hi && x.heard[i].start_s is Some;
        assert(counts_for_base(x, true, w));
        let s = earliest_start(x, true, n);
        assert(s is Some);
        let i = choose|i: int| 0 <= i < n && #[trigger] counts_for_base(x, true, i) && x.heard[i].start_s == Some(s->0);
        assert(x.heard[i].start_s == Some(base_time(x, TimeBase::FirstAyah)));
    }
}

/// The names of the bases of times; any other name means the start of the audio.
pub proof fn law_time_base_names(key: Seq<char>)
    ensures
        time_base_of(key) == TimeBase::FirstWord <==> key == "first_word"@,
        time_base_of(key) == TimeBase::FirstAyah <==> key == "first_ayah"@,
{
    reveal_strlit("first_word");
    reveal_strlit("first_ayah");
    assert("first_word"@[6] == 'w');
    assert("first_ayah"@[6] == 'a');
}

proof fn lemma_filled_len<S>(spans: Seq<AyahSpan<S>>, k: nat)
    requires
        k <= spans.len(),
    ensures
        filled_spans(spans, k).len() == k,
    decreases k,
{
    if k > 0 {
        lemma_filled_len(spans, (k - 1) as nat);
    }
}

/// A verse that has both times keeps them. A start that is missing is the end of the
/// verse in front, else the next start that is known; an end that is missing is the next
/// start that is known, else the verse's own start. Such a verse is told as estimated.
pub proof fn law_missing_times_are_filled<S>(spans: Seq<AyahSpan<S>>, k: nat)
    requires
        k < spans.len(),
    ensures
        ({
            let s = spans[k as int];
            let r = filled_spans(spans, k + 1)[k as int];
            let front = if k > 0 {
                filled_spans(spans, k)[k - 1].end_s
            } else {
                None
            };
            let next = next_start(spans, k as int);
            &&& filled_spans(spans, k + 1).len() == k + 1
            &&& filled_spans(spans, k + 1).take(k as int) == filled_spans(spans, k)
            &&& r.verse == s.verse && r.token_count == s.token_count && r.match_count == s.match_count
            &&& s.start_s is Some ==> r.start_s == s.start_s
            &&& s.end_s is Some ==> r.end_s == s.end_s
            &&& s.start_s is Some && s.end_s is Some ==> r == s
            &&& s.start_s is None || s.end_s is None ==> r.estimated_time
            &&& s.start_s is None && front is Some ==> r.start_s == front
            &&& s.start_s is None && front is None ==> r.start_s == next
            &&& s.end_s is None && next is Some ==> r.end_s == next
            &&& s.end_s is None && next is None ==> r.end_s == r.start_s
        }),
{
    lemma_filled_len(spans, k);
    assert(filled_spans(spans, k + 1).take(k as int) =~= filled_spans(spans, k));
}

/// The next start that is known is that of the nearest verse behind that has one.
pub proof fn law_next_start_is_the_nearest<S>(spans: Seq<AyahSpan<S>>, k: int, n: int)
    requires
        0 <= k < n < spans.len(),
        spans[n].start_s is Some,
        forall|q: int| k < q < n ==> (#[trigger] spans[q]).start_s is None,
    ensures
        next_start(spans, k) == spans[n].start_s,
    decreases n - k,
{
    if k + 1 < n {
        law_next_start_is_the_nearest(spans, k + 1, n);
    }
}

/// Verses are only moved as far as needed: a start in front of the last known end before
/// it is moved up to that end, and an end in front of its start to that start. What is
/// in order stays.
pub proof fn law_verses_move_no_further_than_needed<S: Scalar>(spans: Seq<AyahSpan<S>>, k: nat)
    requires
        k < spans.len(),
    ensures
        ({
            let s = spans[k as int];
            let r = ordered_spans(spans, k + 1)[k as int];
            let front = last_known_end(ordered_spans(spans, k));
            &&& r.verse == s.verse && r.estimated_time == s.estimated_time && r.token_count == s.token_count
                && r.match_count == s.match_count
            &&& s.start_s is None ==> r.start_s is None
            &&& s.start_s is Some && (front is None || front->0.rank() <= s.start_s->0.rank()) ==> r.start_s == s.start_s
            &&& s.start_s is Some && front is Some && s.start_s->0.rank() < front->0.rank() ==> r.start_s == front
            &&& s.end_s is None ==> r.end_s is None
            &&& s.end_s is Some && (r.start_s is None || r.start_s->0.rank() <= s.end_s->0.rank()) ==> r.end_s == s.end_s
            &&& s.end_s is Some && r.start_s is Some && s.end_s->0.rank() < r.start_s->0.rank() ==> r.end_s == r.start_s
        }),
{
    law_recited_verses_follow_each_other(spans, k);
}

} // verus!
