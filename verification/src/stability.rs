//! Which verse a listener is told, while guesses come and go.
//!
//! Every few seconds a stream gives a new guess of where the recitation is. A
//! chapter is locked and a verse is committed only after guesses agree, so that a
//! wrong guess does not make the display jump.

use vstd::prelude::*;

use crate::alignment_v2::{AlignError, AlignmentReport};
use crate::assets::AlignmentAssetsV2;
use crate::multispan;
use crate::scalar::Scalar;
use crate::spans::AyahRef;

verus! {

/// What is known of a stream's recitation.
pub struct StabilityState<S> {
    pub stable_surah_id: Option<u16>,
    pub streak_surah_id: Option<u16>,
    pub streak_len: usize,
    pub committed_end: Option<AyahRef>,
    pub committed_end_global: Option<u16>,
    pub committed_at_s: S,
    pub pending_end: Option<AyahRef>,
    pub pending_end_global: Option<u16>,
    pub pending_streak_len: usize,
    pub low_conf_streak_len: usize,
}

impl<S: Copy> Clone for StabilityState<S> {
    fn clone(&self) -> (r: Self)
        ensures
            r == *self,
    {
        *self
    }
}

impl<S: Copy> Copy for StabilityState<S> {

}

/// A guess: the chapter where it begins, the verse where it ends, and what it
/// rests on.
pub struct Hypothesis<S> {
    pub surah_id: Option<u16>,
    pub end: Option<AyahRef>,
    pub end_global: Option<u16>,
    pub conf: S,
    pub matches: usize,
    pub match_ratio: S,
    pub subs: usize,
}

impl<S: Copy> Clone for Hypothesis<S> {
    fn clone(&self) -> (r: Self)
        ensures
            r == *self,
    {
        *self
    }
}

impl<S: Copy> Copy for Hypothesis<S> {

}

#[derive(Clone, Copy, Debug, PartialEq, Eq, Structural)]
pub enum Action {
    Hold,
    IgnoreBackward,
    Commit,
    CommitSkip,
    ResetCommitted,
}

/// What a guess led to.
#[derive(Clone, Copy, Debug, PartialEq, Eq, Structural)]
pub struct Progress {
    pub action: Action,
    /// How many verses a commit passed over.
    pub skipped: Option<u16>,
    /// Guesses have been poor for so long that the audio should be heard anew.
    pub want_low_conf_refresh: bool,
}

/// The guess in the outcome of an alignment.
pub open spec fn hypothesis_of<S: Scalar>(
    a: AlignmentAssetsV2<S>,
    outcome: Option<Result<AlignmentReport<S>, AlignError>>,
) -> Hypothesis<S> {
    match outcome {
        Some(Ok(t)) => Hypothesis {
            surah_id: Some(t.start.surah),
            end: Some(t.end),
            end_global: multispan::global_of(a, t.end),
            conf: t.confidence,
            matches: t.best.matches,
            match_ratio: t.match_ratio,
            subs: t.best.substitutions,
        },
        _ => Hypothesis {
            surah_id: None,
            end: None,
            end_global: None,
            conf: S::whole_spec(0),
            matches: 0,
            match_ratio: S::whole_spec(0),
            subs: 0,
        },
    }
}

pub fn read_hypothesis<S: Scalar>(
    a: &AlignmentAssetsV2<S>,
    outcome: Option<&Result<AlignmentReport<S>, AlignError>>,
) -> (r: Hypothesis<S>)
    ensures
        r == hypothesis_of(
            *a,
            match outcome {
                None => None,
                Some(x) => Some(*x),
            },
        ),
{
    match outcome {
        Some(Ok(t)) => Hypothesis {
            surah_id: Some(t.start.surah),
            end: Some(t.end),
            end_global: multispan::find_global(a, t.end),
            conf: t.confidence,
            matches: t.best.matches,
            match_ratio: t.match_ratio,
            subs: t.best.substitutions,
        },
        _ => Hypothesis {
            surah_id: None,
            end: None,
            end_global: None,
            conf: S::whole(0),
            matches: 0,
            match_ratio: S::whole(0),
            subs: 0,
        },
    }
}

// ---------------------------------------------------------------------------
// How good a guess is

pub open spec fn reaches<S: Scalar>(h: Hypothesis<S>, conf: nat, subs: int, ratio: nat) -> bool {
    S::milli_spec(conf).rank() <= h.conf.rank() && h.subs >= subs && S::milli_spec(ratio).rank()
        <= h.match_ratio.rank()
}

/// Good enough on its own.
pub open spec fn is_strong<S: Scalar>(h: Hypothesis<S>) -> bool {
    reaches(h, 650, 10, 550)
}

/// Good enough when it comes twice.
pub open spec fn is_ok<S: Scalar>(h: Hypothesis<S>) -> bool {
    reaches(h, 320, 6, 400)
}

/// Good enough for a jump when it comes twice.
pub open spec fn is_jump_ok<S: Scalar>(h: Hypothesis<S>) -> bool {
    reaches(h, 450, 6, 550)
}

fn meets<S: Scalar>(h: &Hypothesis<S>, conf: u64, subs: usize, ratio: u64) -> (r: bool)
    ensures
        r == reaches(*h, conf as nat, subs as int, ratio as nat),
{
    !h.conf.below(S::milli(conf)) && h.subs >= subs && !h.match_ratio.below(S::milli(ratio))
}

pub open spec fn one_more(n: usize) -> usize {
    if n == usize::MAX {
        n
    } else {
        (n + 1) as usize
    }
}

// ---------------------------------------------------------------------------
// The chapter

/// The streak of guesses for the same chapter.
pub open spec fn with_streak<S: Scalar>(st: StabilityState<S>, h: Hypothesis<S>) -> StabilityState<S> {
    if st.streak_surah_id == h.surah_id {
        StabilityState { streak_len: one_more(st.streak_len), ..st }
    } else {
        StabilityState { streak_surah_id: h.surah_id, streak_len: 1, ..st }
    }
}

/// A chapter is locked after two guesses with some confidence, and exchanged
/// after two with more.
pub open spec fn with_lock<S: Scalar>(st: StabilityState<S>, h: Hypothesis<S>) -> StabilityState<S> {
    let need = if st.stable_surah_id is None {
        S::milli_spec(100)
    } else {
        S::milli_spec(250)
    };
    if st.stable_surah_id != h.surah_id && h.surah_id is Some && need.rank() <= h.conf.rank() && st.streak_len >= 2 {
        StabilityState { stable_surah_id: h.surah_id, ..st }
    } else {
        st
    }
}

// ---------------------------------------------------------------------------
// The verse

pub open spec fn without_pending<S>(st: StabilityState<S>) -> StabilityState<S> {
    StabilityState { pending_end: None, pending_end_global: None, pending_streak_len: 0, ..st }
}

/// The streak of guesses for the same verse.
pub open spec fn with_pending<S>(st: StabilityState<S>, end: AyahRef, global: u16) -> StabilityState<S> {
    if st.pending_end_global == Some(global) && st.pending_end == Some(end) {
        StabilityState { pending_streak_len: one_more(st.pending_streak_len), ..st }
    } else {
        StabilityState { pending_end: Some(end), pending_end_global: Some(global), pending_streak_len: 1, ..st }
    }
}

/// What is decided about a guess that verse `end` is the last one recited.
pub struct Verdict<S> {
    pub st: StabilityState<S>,
    pub action: Action,
    pub commit: bool,
    pub is_reset: bool,
    pub is_big_jump: bool,
    pub skipped: Option<u16>,
}

/// Nothing is committed yet: a strong guess is taken, another when it comes
/// twice.
pub open spec fn first_verdict<S: Scalar>(
    st: StabilityState<S>,
    h: Hypothesis<S>,
    end: AyahRef,
    global: u16,
) -> Verdict<S> {
    if is_strong(h) {
        Verdict { st, action: Action::Hold, commit: true, is_reset: false, is_big_jump: false, skipped: None }
    } else {
        let p = with_pending(st, end, global);
        Verdict {
            st: p,
            action: Action::Hold,
            commit: is_ok(h) && p.pending_streak_len >= 2,
            is_reset: false,
            is_big_jump: false,
            skipped: None,
        }
    }
}

/// Verse number `prev` is committed. More than two verses back only a strong
/// guess is taken, as a new start; nearer by, nothing changes. Forward, a guess is
/// taken as at first, but eight verses or more take more confidence.
pub open spec fn next_verdict<S: Scalar>(
    st: StabilityState<S>,
    h: Hypothesis<S>,
    end: AyahRef,
    global: u16,
    prev: u16,
) -> Verdict<S> {
    if global + 2 < prev {
        if is_strong(h) {
            Verdict { st, action: Action::Hold, commit: true, is_reset: true, is_big_jump: false, skipped: None }
        } else {
            Verdict {
                st: without_pending(st),
                action: Action::IgnoreBackward,
                commit: false,
                is_reset: false,
                is_big_jump: false,
                skipped: None,
            }
        }
    } else if global <= prev {
        Verdict {
            st: without_pending(st),
            action: Action::Hold,
            commit: false,
            is_reset: false,
            is_big_jump: false,
            skipped: None,
        }
    } else {
        let p = with_pending(st, end, global);
        let big = global - prev >= 8;
        let commit = is_strong(h) || (is_ok(h) && p.pending_streak_len >= 2 && (!big || is_jump_ok(h)));
        Verdict {
            st: p,
            action: Action::Hold,
            commit,
            is_reset: false,
            is_big_jump: big,
            skipped: if commit && global > prev + 1 {
                Some((global - prev - 1) as u16)
            } else {
                None
            },
        }
    }
}

/// The state when the verdict is carried out at time `at_s`.
pub open spec fn carried_out<S: Scalar>(
    v: Verdict<S>,
    h: Hypothesis<S>,
    end: AyahRef,
    global: u16,
    at_s: S,
) -> (StabilityState<S>, Action, Option<u16>) {
    if !v.commit {
        (v.st, v.action, v.skipped)
    } else {
        let c = StabilityState {
            committed_end: Some(end),
            committed_end_global: Some(global),
            committed_at_s: at_s,
            ..without_pending(v.st)
        };
        let r = if (v.is_reset || v.is_big_jump) && h.surah_id is Some {
            StabilityState {
                stable_surah_id: h.surah_id,
                streak_surah_id: h.surah_id,
                streak_len: if c.streak_len < 2 {
                    2
                } else {
                    c.streak_len
                },
                ..c
            }
        } else {
            c
        };
        (
            r,
            if v.is_reset {
                Action::ResetCommitted
            } else if v.skipped is Some {
                Action::CommitSkip
            } else {
                Action::Commit
            },
            v.skipped,
        )
    }
}

/// The state after the verse of a guess was considered.
pub open spec fn with_verse<S: Scalar>(st: StabilityState<S>, h: Hypothesis<S>, at_s: S) -> (
    StabilityState<S>,
    Action,
    Option<u16>,
) {
    match (h.end, h.end_global) {
        (Some(end), Some(global)) => {
            let v = match st.committed_end_global {
                None => first_verdict(st, h, end, global),
                Some(prev) => next_verdict(st, h, end, global, prev),
            };
            carried_out(v, h, end, global, at_s)
        },
        _ => (without_pending(st), Action::Hold, None),
    }
}

/// The streak of poor guesses; the third asks for a refresh and starts over.
pub open spec fn with_low_conf<S: Scalar>(st: StabilityState<S>, h: Hypothesis<S>) -> (StabilityState<S>, bool) {
    let n = if h.conf.rank() < S::milli_spec(220).rank() {
        one_more(st.low_conf_streak_len)
    } else {
        0
    };
    if n >= 3 {
        (StabilityState { low_conf_streak_len: 0, ..st }, true)
    } else {
        (StabilityState { low_conf_streak_len: n, ..st }, false)
    }
}

/// The state after a guess at time `at_s`, and what the guess led to.
pub open spec fn updated<S: Scalar>(st: StabilityState<S>, h: Hypothesis<S>, at_s: S) -> (StabilityState<S>, Progress) {
    let (s1, action, skipped) = with_verse(with_lock(with_streak(st, h), h), h, at_s);
    let (s2, want) = with_low_conf(s1, h);
    (s2, Progress { action, skipped, want_low_conf_refresh: want })
}

impl<S: Scalar> StabilityState<S> {
    /// Nothing is known.
    pub open spec fn blank() -> Self {
        StabilityState {
            stable_surah_id: None,
            streak_surah_id: None,
            streak_len: 0,
            committed_end: None,
            committed_end_global: None,
            committed_at_s: S::whole_spec(0),
            pending_end: None,
            pending_end_global: None,
            pending_streak_len: 0,
            low_conf_streak_len: 0,
        }
    }

    pub fn new() -> (r: Self)
        ensures
            r == Self::blank(),
    {
        StabilityState {
            stable_surah_id: None,
            streak_surah_id: None,
            streak_len: 0,
            committed_end: None,
            committed_end_global: None,
            committed_at_s: S::whole(0),
            pending_end: None,
            pending_end_global: None,
            pending_streak_len: 0,
            low_conf_streak_len: 0,
        }
    }

    fn streak(&mut self, h: &Hypothesis<S>)
        ensures
            *final(self) == with_streak(*old(self), *h),
    {
        if self.streak_surah_id == h.surah_id {
            self.streak_len = self.streak_len.saturating_add(1);
        } else {
            self.streak_surah_id = h.surah_id;
            self.streak_len = 1;
        }
    }

    fn lock(&mut self, h: &Hypothesis<S>)
        ensures
            *final(self) == with_lock(*old(self), *h),
    {
        let need: S = if self.stable_surah_id.is_none() {
            S::milli(100)
        } else {
            S::milli(250)
        };
        if self.stable_surah_id != h.surah_id && h.surah_id.is_some() && !h.conf.below(need) && self.streak_len >= 2 {
            self.stable_surah_id = h.surah_id;
        }
    }

    fn clear_pending(&mut self)
        ensures
            *final(self) == without_pending(*old(self)),
    {
        self.pending_end = None;
        self.pending_end_global = None;
        self.pending_streak_len = 0;
    }

    fn pend(&mut self, end: AyahRef, global: u16)
        ensures
            *final(self) == with_pending(*old(self), end, global),
    {
        if self.pending_end_global == Some(global) && self.pending_end == Some(end) {
            self.pending_streak_len = self.pending_streak_len.saturating_add(1);
        } else {
            self.pending_end = Some(end);
            self.pending_end_global = Some(global);
            self.pending_streak_len = 1;
        }
    }

    fn verse(&mut self, h: &Hypothesis<S>, at_s: S) -> (r: (Action, Option<u16>))
        ensures
            (*final(self), r.0, r.1) == with_verse(*old(self), *h, at_s),
    {
        let (end, global) = match (h.end, h.end_global) {
            (Some(e), Some(g)) => (e, g),
            _ => {
                self.clear_pending();
                return (Action::Hold, None);
            },
        };
        let strong: bool = meets(h, 650, 10, 550);
        let ok: bool = meets(h, 320, 6, 400);
        let jump_ok: bool = meets(h, 450, 6, 550);
        let mut action = Action::Hold;
        let mut skipped: Option<u16> = None;
        let mut commit: bool = false;
        let mut is_reset: bool = false;
        let mut is_big_jump: bool = false;
        match self.committed_end_global {
            None => {
                if strong {
                    commit = true;
                } else {
                    self.pend(end, global);
                    commit = ok && self.pending_streak_len >= 2;
                }
            },
            Some(prev) => {
                if (global as u32) + 2 < prev as u32 {
                    if strong {
                        commit = true;
                        is_reset = true;
                    } else {
                        action = Action::IgnoreBackward;
                        self.clear_pending();
                    }
                } else if global <= prev {
                    self.clear_pending();
                } else {
                    self.pend(end, global);
                    is_big_jump = global - prev >= 8;
                    commit = strong || (ok && self.pending_streak_len >= 2 && (!is_big_jump || jump_ok));
                    if commit && global as u32 > prev as u32 + 1 {
                        skipped = Some(global - prev - 1);
                    }
                }
            },
        }
        if commit {
            self.committed_end = Some(end);
            self.committed_end_global = Some(global);
            self.committed_at_s = at_s;
            self.clear_pending();
            action = if is_reset {
                Action::ResetCommitted
            } else if skipped.is_some() {
                Action::CommitSkip
            } else {
                Action::Commit
            };
            if (is_reset || is_big_jump) && h.surah_id.is_some() {
                self.stable_surah_id = h.surah_id;
                self.streak_surah_id = h.surah_id;
                if self.streak_len < 2 {
                    self.streak_len = 2;
                }
            }
        }
        (action, skipped)
    }

    /// Takes a guess into account.
    pub fn update(&mut self, h: &Hypothesis<S>, at_s: S) -> (r: Progress)
        ensures
            (*final(self), r) == updated(*old(self), *h, at_s),
    {
        self.streak(h);
        self.lock(h);
        let (action, skipped) = self.verse(h, at_s);
        if h.conf.below(S::milli(220)) {
            self.low_conf_streak_len = self.low_conf_streak_len.saturating_add(1);
        } else {
            self.low_conf_streak_len = 0;
        }
        let want: bool = self.low_conf_streak_len >= 3;
        if want {
            self.low_conf_streak_len = 0;
        }
        Progress { action, skipped, want_low_conf_refresh: want }
    }
}

// ---------------------------------------------------------------------------
// Laws

/// The committed verse only moves forward, except by a new start, which takes a
/// strong guess.
pub proof fn law_commits_move_forward<S: Scalar>(st: StabilityState<S>, h: Hypothesis<S>, at_s: S)
    requires
        st.committed_end_global is Some,
    ensures
        ({
            let (after, p) = updated(st, h, at_s);
            &&& after.committed_end_global is Some
            &&& after.committed_end_global->0 < st.committed_end_global->0 ==> p.action == Action::ResetCommitted
                && is_strong(h)
            &&& p.action == Action::ResetCommitted ==> is_strong(h) && after.committed_end_global->0 + 2
                < st.committed_end_global->0
        }),
{
}

/// A verse is committed only on a strong guess, or on a second guess in a row for
/// the same verse.
pub proof fn law_commits_need_agreement<S: Scalar>(st: StabilityState<S>, h: Hypothesis<S>, at_s: S)
    ensures
        ({
            let (after, p) = updated(st, h, at_s);
            after.committed_end_global != st.committed_end_global || after.committed_end != st.committed_end ==> {
                &&& after.committed_end == h.end && after.committed_end_global == h.end_global
                &&& is_strong(h) || (is_ok(h) && st.pending_end == h.end && st.pending_end_global == h.end_global
                    && st.pending_streak_len >= 1)
            }
        }),
{
}

/// A guess without a verse changes no commitment.
pub proof fn law_no_verse_no_commit<S: Scalar>(st: StabilityState<S>, h: Hypothesis<S>, at_s: S)
    requires
        h.end is None || h.end_global is None,
    ensures
        updated(st, h, at_s).0.committed_end == st.committed_end,
        updated(st, h, at_s).0.committed_end_global == st.committed_end_global,
        updated(st, h, at_s).1.action == Action::Hold,
{
}

/// The locked chapter changes only after two guesses in a row for the new one,
/// or together with a commit.
pub proof fn law_chapter_changes_need_agreement<S: Scalar>(st: StabilityState<S>, h: Hypothesis<S>, at_s: S)
    ensures
        ({
            let (after, p) = updated(st, h, at_s);
            after.stable_surah_id != st.stable_surah_id ==> {
                &&& after.stable_surah_id == h.surah_id && h.surah_id is Some
                &&& (st.streak_surah_id == h.surah_id && st.streak_len >= 1) || after.committed_end == h.end
            }
        }),
{
}

/// Progress is told: once a verse is committed, a guess with a confidence of 0.32, six
/// paired words and a share of hits of 0.40 commits the verse it names, if that is one
/// to seven verses further on and was pending from the guess before. The next verse is committed as such; else the verses in between are told
/// as skipped.
pub proof fn law_progress_is_committed<S: Scalar>(st: StabilityState<S>, h: Hypothesis<S>, at_s: S)
    requires
        st.committed_end_global is Some,
        h.end is Some && h.end_global is Some,
        st.committed_end_global->0 < h.end_global->0 <= st.committed_end_global->0 + 7,
        st.pending_end == h.end && st.pending_end_global == h.end_global && st.pending_streak_len >= 1,
        S::milli_spec(320).rank() <= h.conf.rank(),
        6 <= h.subs,
        S::milli_spec(400).rank() <= h.match_ratio.rank(),
    ensures
        ({
            let (after, p) = updated(st, h, at_s);
            let passed = h.end_global->0 - st.committed_end_global->0 - 1;
            &&& after.committed_end == h.end && after.committed_end_global == h.end_global
            &&& after.committed_at_s == at_s
            &&& after.pending_end is None && after.pending_end_global is None
            &&& passed == 0 ==> p.action == Action::Commit && p.skipped is None
            &&& passed > 0 ==> p.action == Action::CommitSkip && p.skipped == Some(passed as u16)
        }),
{
}

/// Two guesses in a row for a verse up to seven verses further on commit it, if the
/// second one has a confidence of 0.32, six paired words and a share of hits of 0.40,
/// however poor the first one is.
pub proof fn law_two_guesses_commit<S: Scalar>(
    st: StabilityState<S>,
    h1: Hypothesis<S>,
    h2: Hypothesis<S>,
    at1: S,
    at2: S,
)
    requires
        st.committed_end_global is Some,
        h1.end is Some && h1.end_global is Some,
        h2.end == h1.end && h2.end_global == h1.end_global,
        st.committed_end_global->0 < h1.end_global->0 <= st.committed_end_global->0 + 7,
        S::milli_spec(320).rank() <= h2.conf.rank(),
        6 <= h2.subs,
        S::milli_spec(400).rank() <= h2.match_ratio.rank(),
    ensures
        ({
            let first = updated(st, h1, at1).0;
            let second = updated(first, h2, at2).0;
            second.committed_end == h2.end && second.committed_end_global == h2.end_global
        }),
{
}

/// Where nothing is committed yet, two guesses in a row for a verse commit it, if the
/// second one has a confidence of 0.32, six paired words and a share of hits of 0.40.
pub proof fn law_two_guesses_begin<S: Scalar>(
    st: StabilityState<S>,
    h1: Hypothesis<S>,
    h2: Hypothesis<S>,
    at1: S,
    at2: S,
)
    requires
        st.committed_end_global is None,
        st.pending_end != h1.end || st.pending_end_global != h1.end_global,
        h1.end is Some && h1.end_global is Some,
        h2.end == h1.end && h2.end_global == h1.end_global,
        !(S::milli_spec(650).rank() <= h1.conf.rank() && 10 <= h1.subs && S::milli_spec(550).rank()
            <= h1.match_ratio.rank()),
        S::milli_spec(320).rank() <= h2.conf.rank(),
        6 <= h2.subs,
        S::milli_spec(400).rank() <= h2.match_ratio.rank(),
    ensures
        ({
            let (first, p1) = updated(st, h1, at1);
            let (second, p2) = updated(first, h2, at2);
            &&& p1.action == Action::Hold && first.committed_end_global is None
            &&& p2.action == Action::Commit && p2.skipped is None
            &&& second.committed_end == h2.end && second.committed_end_global == h2.end_global
            &&& second.committed_at_s == at2
        }),
{
}

/// A guess with a confidence of 0.65, ten paired words and a share of hits of 0.55 is
/// taken at once, unless it lies within the two verses up to the committed one.
/// Forward it is a commit, back a new start.
pub proof fn law_strong_guesses_are_taken<S: Scalar>(st: StabilityState<S>, h: Hypothesis<S>, at_s: S)
    requires
        h.end is Some && h.end_global is Some,
        S::milli_spec(650).rank() <= h.conf.rank(),
        10 <= h.subs,
        S::milli_spec(550).rank() <= h.match_ratio.rank(),
    ensures
        ({
            let (after, p) = updated(st, h, at_s);
            let to = h.end_global->0;
            let taken = after.committed_end == h.end && after.committed_end_global == h.end_global
                && after.committed_at_s == at_s && after.pending_end is None;
            match st.committed_end_global {
                None => taken && p.action == Action::Commit && p.skipped is None,
                Some(from) => if from + 1 < to {
                    taken && p.action == Action::CommitSkip && p.skipped == Some((to - from - 1) as u16)
                } else if from < to {
                    taken && p.action == Action::Commit && p.skipped is None
                } else if from <= to + 2 {
                    after.committed_end == st.committed_end && after.committed_end_global == Some(from)
                        && after.committed_at_s == st.committed_at_s && p.action == Action::Hold
                } else {
                    taken && p.action == Action::ResetCommitted && p.skipped is None
                },
            }
        }),
{
}

/// A guess that is not strong never moves back: more than two verses back it is told
/// as ignored, and any verse that waits is forgotten.
pub proof fn law_weak_guesses_do_not_go_back<S: Scalar>(st: StabilityState<S>, h: Hypothesis<S>, at_s: S)
    requires
        st.committed_end_global is Some,
        h.end is Some && h.end_global is Some,
        h.end_global->0 <= st.committed_end_global->0,
        h.conf.rank() < S::milli_spec(650).rank() || h.subs < 10 || h.match_ratio.rank() < S::milli_spec(550).rank(),
    ensures
        ({
            let (after, p) = updated(st, h, at_s);
            &&& after.committed_end == st.committed_end && after.committed_end_global == st.committed_end_global
            &&& after.committed_at_s == st.committed_at_s
            &&& after.pending_end is None && after.pending_end_global is None && after.pending_streak_len == 0
            &&& p.skipped is None
            &&& h.end_global->0 + 2 < st.committed_end_global->0 ==> p.action == Action::IgnoreBackward
            &&& h.end_global->0 + 2 >= st.committed_end_global->0 ==> p.action == Action::Hold
        }),
{
}

/// Unless it is strong, a guess with less than a confidence of 0.32, six paired words
/// or a share of hits of 0.40 commits nothing, nor does the first one for its verse;
/// the verse waits from then on.
pub proof fn law_first_guesses_wait<S: Scalar>(st: StabilityState<S>, h: Hypothesis<S>, at_s: S)
    requires
        h.end is Some && h.end_global is Some,
        st.committed_end_global matches Some(from) ==> from < h.end_global->0,
        h.conf.rank() < S::milli_spec(650).rank() || h.subs < 10 || h.match_ratio.rank() < S::milli_spec(550).rank(),
        h.conf.rank() < S::milli_spec(320).rank() || h.subs < 6 || h.match_ratio.rank() < S::milli_spec(400).rank()
            || st.pending_end != h.end || st.pending_end_global != h.end_global || st.pending_streak_len == 0,
    ensures
        ({
            let (after, p) = updated(st, h, at_s);
            &&& p.action == Action::Hold && p.skipped is None
            &&& after.committed_end == st.committed_end && after.committed_end_global == st.committed_end_global
            &&& after.committed_at_s == st.committed_at_s
            &&& after.pending_end == h.end && after.pending_end_global == h.end_global
            &&& after.pending_streak_len >= 1
        }),
{
}

/// A jump of eight verses or more is committed by a second guess in a row only from a
/// confidence of 0.45 and a share of hits of 0.55 on; then the chapter of the guess is
/// locked with it.
pub proof fn law_long_jumps_need_more<S: Scalar>(st: StabilityState<S>, h: Hypothesis<S>, at_s: S)
    requires
        st.committed_end_global is Some,
        h.end is Some && h.end_global is Some,
        st.committed_end_global->0 + 8 <= h.end_global->0,
        st.pending_end == h.end && st.pending_end_global == h.end_global && st.pending_streak_len >= 1,
        S::milli_spec(320).rank() <= S::milli_spec(450).rank() <= S::milli_spec(650).rank(),
        S::milli_spec(400).rank() <= S::milli_spec(550).rank(),
    ensures
        ({
            let (after, p) = updated(st, h, at_s);
            let passed = (h.end_global->0 - st.committed_end_global->0 - 1) as u16;
            if S::milli_spec(450).rank() <= h.conf.rank() && 6 <= h.subs && S::milli_spec(550).rank()
                <= h.match_ratio.rank() {
                &&& after.committed_end == h.end && after.committed_end_global == h.end_global
                &&& p.action == Action::CommitSkip && p.skipped == Some(passed)
                &&& h.surah_id is Some ==> after.stable_surah_id == h.surah_id
            } else {
                &&& after.committed_end == st.committed_end && after.committed_end_global == st.committed_end_global
                &&& p.action == Action::Hold && p.skipped is None
            }
        }),
{
}

/// A new start locks the chapter of the guess with it.
pub proof fn law_new_starts_lock_the_chapter<S: Scalar>(st: StabilityState<S>, h: Hypothesis<S>, at_s: S)
    requires
        updated(st, h, at_s).1.action == Action::ResetCommitted,
        h.surah_id is Some,
    ensures
        updated(st, h, at_s).0.stable_surah_id == h.surah_id,
{
}

/// Two guesses in a row for a chapter lock it, if the second has a confidence of at
/// least 0.10, or 0.25 where another chapter is locked. With less confidence, or after
/// a single guess, the locked chapter stays, but for a commit over eight verses or
/// more or a new start.
pub proof fn law_chapter_is_locked<S: Scalar>(st: StabilityState<S>, h: Hypothesis<S>, at_s: S)
    ensures
        ({
            let after = updated(st, h, at_s).0;
            let need = if st.stable_surah_id is None {
                S::milli_spec(100)
            } else {
                S::milli_spec(250)
            };
            let moved = after.committed_end_global != st.committed_end_global && st.committed_end_global is Some;
            &&& h.surah_id is Some && st.streak_surah_id == h.surah_id && st.streak_len >= 1 && need.rank()
                <= h.conf.rank() ==> after.stable_surah_id == h.surah_id
            &&& h.conf.rank() < need.rank() && !moved ==> after.stable_surah_id == st.stable_surah_id
            &&& (st.streak_surah_id != h.surah_id || st.streak_len == 0) && !moved ==> after.stable_surah_id
                == st.stable_surah_id
            &&& h.surah_id is None ==> after.stable_surah_id == st.stable_surah_id
            &&& after.streak_surah_id == h.surah_id
            &&& st.streak_surah_id == h.surah_id && st.streak_len < usize::MAX ==> after.streak_len >= st.streak_len
                + 1
            &&& after.streak_len >= 1
        }),
{
}

/// The third guess in a row with a confidence below 0.22 asks for a refresh, and the
/// count starts over. A guess with more confidence ends such a row.
pub proof fn law_poor_guesses_ask_for_a_refresh<S: Scalar>(
    st: StabilityState<S>,
    h1: Hypothesis<S>,
    h2: Hypothesis<S>,
    h3: Hypothesis<S>,
    at1: S,
    at2: S,
    at3: S,
)
    requires
        st.low_conf_streak_len == 0,
    ensures
        ({
            let poor = S::milli_spec(220).rank();
            let (s1, p1) = updated(st, h1, at1);
            let (s2, p2) = updated(s1, h2, at2);
            let (s3, p3) = updated(s2, h3, at3);
            &&& !p1.want_low_conf_refresh && !p2.want_low_conf_refresh
            &&& p3.want_low_conf_refresh <==> h1.conf.rank() < poor && h2.conf.rank() < poor && h3.conf.rank() < poor
            &&& p3.want_low_conf_refresh ==> s3.low_conf_streak_len == 0
            &&& poor <= h3.conf.rank() ==> s3.low_conf_streak_len == 0
        }),
{
}

/// A hypothesis is what the alignment found; without an alignment there is none.
pub proof fn law_hypotheses_come_from_alignments<S: Scalar>(
    a: AlignmentAssetsV2<S>,
    outcome: Option<Result<AlignmentReport<S>, AlignError>>,
)
    ensures
        ({
            let h = hypothesis_of(a, outcome);
            &&& outcome matches Some(Ok(t)) ==> {
                &&& h.surah_id == Some(t.start.surah) && h.end == Some(t.end)
                &&& h.conf == t.confidence && h.match_ratio == t.match_ratio
                &&& h.matches == t.best.matches && h.subs == t.best.substitutions
                &&& h.end_global == multispan::global_of(a, t.end)
            }
            &&& !(outcome matches Some(Ok(_))) ==> {
                &&& h.surah_id is None && h.end is None && h.end_global is None
                &&& h.conf == S::whole_spec(0) && h.matches == 0 && h.subs == 0
            }
        }),
{
}

/// At first nothing is committed, nothing waits and no chapter is locked.
pub proof fn law_nothing_is_committed_at_first<S: Scalar>()
    ensures
        ({
            let st = StabilityState::<S>::blank();
            &&& st.committed_end is None && st.committed_end_global is None
            &&& st.pending_end is None && st.pending_streak_len == 0
            &&& st.stable_surah_id is None && st.streak_surah_id is None && st.streak_len == 0
            &&& st.low_conf_streak_len == 0
        }),
{
}

} // verus!
