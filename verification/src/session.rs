//! A live session from the first frame to the last: audio comes in, steps go
//! out, and what was heard comes back.

use vstd::prelude::*;

use crate::alignment_v2::{AlignError, AlignmentReport};
use crate::assets::AlignmentAssetsV2;
use crate::grouping;
use crate::json::Json;
use crate::ring;
use crate::ring::RingBuf;
use crate::rolling;
use crate::scalar;
use crate::scalar::Scalar;
use crate::stability;
use crate::stability::{Hypothesis, Progress, StabilityState};
use crate::streaming;
use crate::streaming::{
    Alert, EndReason, Frame, FrameError, RollingTranscript, StepPlan, StreamConfig, StreamSizes, TranscribeMode,
    UxState, Watch,
};
use crate::timed;

verus! {

/// How a session listens.
pub struct SessionSettings<S> {
    pub cfg: StreamConfig<S>,
    pub sizes: StreamSizes,
    pub auth_grace_s: u64,
    pub no_audio_stop_after_s: S,
    pub silence_skip_after_s: S,
    pub silence_stop_after_s: S,
    pub full_refresh_every_s: S,
    /// How many bytes of audio are taken, if that is limited.
    pub max_pcm_bytes: Option<u64>,
}

impl<S: Copy> Clone for SessionSettings<S> {
    fn clone(&self) -> (r: Self)
        ensures
            r == *self,
    {
        *self
    }
}

impl<S: Copy> Copy for SessionSettings<S> {

}

/// The state of a session.
pub struct StreamSession<S> {
    pub id: String,
    pub settings: SessionSettings<S>,
    pub buffer: RingBuf,
    pub total_pcm_bytes: u64,
    pub last_processed_pcm_bytes: u64,
    pub stop_requested: bool,
    pub auth_expires_unix_s: u64,
    pub last_audio_unix_ms: u64,
    pub silence_since_unix_ms: u64,
    pub transcript: RollingTranscript<S>,
    pub stability: StabilityState<S>,
    pub seq: u64,
}

/// A step that is passed over in silence.
pub struct SilentStep<S> {
    pub seq: u64,
    pub at_s: S,
    pub silent_s: S,
}

/// A step whose audio is to be transcribed.
pub struct HearStep<S> {
    pub seq: u64,
    pub mode: TranscribeMode,
    pub pcm: Vec<u8>,
    pub transcribe_start_s: S,
    pub transcribe_end_s: S,
    pub process_end_byte: u64,
    pub process_end_s: S,
    pub total_pcm_bytes: u64,
    pub stop_requested: bool,
}

pub enum Step<S> {
    Stop,
    Wait,
    Silence(SilentStep<S>),
    Hear(HearStep<S>),
}

/// What a session tells after a step was heard.
pub struct Update<S> {
    pub hypothesis: Hypothesis<S>,
    pub stability: StabilityState<S>,
    pub progress: Progress,
    pub ux: UxState,
    pub alerts: Vec<Alert>,
    /// The session is over.
    pub done: bool,
}

pub open spec fn next_seq(seq: u64) -> u64 {
    if seq == u64::MAX {
        seq
    } else {
        (seq + 1) as u64
    }
}

/// Where the words that are aligned begin: a window before `end_s`.
pub open spec fn window_start<S: Scalar>(cfg: StreamConfig<S>, end_s: S) -> S {
    scalar::max_spec(end_s.minus_spec(cfg.window_s), S::whole_spec(0))
}

pub fn find_window_start<S: Scalar>(cfg: &StreamConfig<S>, end_s: S) -> (r: S)
    ensures
        r == window_start(*cfg, end_s),
{
    scalar::max_of(end_s.minus(cfg.window_s), S::whole(0))
}

impl<S: Scalar> StreamSession<S> {
    pub open spec fn wf(&self) -> bool {
        self.buffer.wf()
    }

    /// The bytes that came in so far are `all`, and the buffer keeps the last of
    /// them.
    pub open spec fn holds(&self, all: Seq<u8>) -> bool {
        self.total_pcm_bytes == all.len() && self.buffer@ == ring::last_bytes(all, self.buffer.room())
    }

    /// No more audio was taken than the session takes.
    pub open spec fn within_limit(&self) -> bool {
        streaming::has_room_for(self.total_pcm_bytes, 0, self.settings.max_pcm_bytes)
    }

    /// A session that has heard nothing yet, and takes audio without a limit.
    pub fn new(
        id: String,
        cfg: StreamConfig<S>,
        auth_grace_s: u64,
        no_audio_stop_after_s: S,
        silence_skip_after_s: S,
        silence_stop_after_s: S,
        tail_context_s: S,
        full_refresh_every_s: S,
    ) -> (r: Self)
        requires
            streaming::kept_bytes(cfg) <= isize::MAX,
        ensures
            r.wf(),
            r.holds(Seq::empty()),
            r.within_limit(),
            r.id == id,
            r.buffer.room() == (if streaming::kept_bytes(cfg) == 0 {
                1
            } else {
                streaming::kept_bytes(cfg)
            }),
            r.settings == (SessionSettings {
                cfg,
                sizes: streaming::sizes_of(cfg, scalar::max_spec(tail_context_s, S::whole_spec(0))),
                auth_grace_s,
                no_audio_stop_after_s,
                silence_skip_after_s,
                silence_stop_after_s,
                full_refresh_every_s: scalar::max_spec(full_refresh_every_s, S::whole_spec(0)),
                max_pcm_bytes: None,
            }),
            r.last_processed_pcm_bytes == 0,
            !r.stop_requested,
            r.auth_expires_unix_s == 0,
            r.last_audio_unix_ms == 0,
            r.silence_since_unix_ms == 0,
            r.seq == 0,
            r.stability == StabilityState::<S>::blank(),
            rolling::spoken(r.transcript.words@) == Seq::<rolling::Spoken<S>>::empty(),
            r.transcript.last_full_refresh_end_s == S::whole_spec(0),
            !r.transcript.force_refresh_next,
    {
        let sizes = streaming::stream_sizes(&cfg, scalar::max_of(tail_context_s, S::whole(0)));
        let buffer = RingBuf::new(streaming::ring_capacity(&cfg));
        StreamSession {
            id,
            settings: SessionSettings {
                cfg,
                sizes,
                auth_grace_s,
                no_audio_stop_after_s,
                silence_skip_after_s,
                silence_stop_after_s,
                full_refresh_every_s: scalar::max_of(full_refresh_every_s, S::whole(0)),
                max_pcm_bytes: None,
            },
            buffer,
            total_pcm_bytes: 0,
            last_processed_pcm_bytes: 0,
            stop_requested: false,
            auth_expires_unix_s: 0,
            last_audio_unix_ms: 0,
            silence_since_unix_ms: 0,
            transcript: RollingTranscript::new(),
            stability: StabilityState::new(),
            seq: 0,
        }
    }

    /// Lets the session take no more than so many seconds of audio.
    pub fn limit_audio(&mut self, max_audio_duration_s: usize)
        ensures
            *final(self) == (StreamSession {
                settings: SessionSettings {
                    max_pcm_bytes: Some(
                        streaming::bytes_in(max_audio_duration_s as nat, old(self).settings.sizes.bytes_per_s),
                    ),
                    ..old(self).settings
                },
                ..*old(self)
            }),
    {
        let rate: u64 = self.settings.sizes.bytes_per_s;
        self.settings.max_pcm_bytes = Some(streaming::find_bytes_in(max_audio_duration_s, rate));
    }

    /// Where the session's socket is.
    pub fn ws_path(&self) -> (r: String)
        ensures
            r@ == "/v1/sessions/"@ + self.id@ + "/stream"@,
    {
        streaming::ws_path(self.id.as_str())
    }

    pub fn request_stop(&mut self)
        ensures
            *final(self) == (StreamSession { stop_requested: true, ..*old(self) }),
    {
        self.stop_requested = true;
    }

    pub fn set_auth_expiry_unix_s(&mut self, exp: u64)
        ensures
            *final(self) == (StreamSession { auth_expires_unix_s: exp, ..*old(self) }),
    {
        self.auth_expires_unix_s = exp;
    }

    /// Takes a frame of 16-bit samples that came at `now_ms`, and whether it is
    /// silent. A frame that would exceed the limit is left out and ends the session.
    pub fn push_pcm16le(&mut self, bytes: &[u8], now_ms: u64, silent: bool) -> (r: Result<Frame, FrameError>)
        requires
            old(self).wf(),
        ensures
            final(self).wf(),
            r == (match streaming::frame_kind(bytes@.len() as int, old(self).settings.cfg.channels) {
                Ok(Frame::Audio) => if streaming::has_room_for(
                    old(self).total_pcm_bytes,
                    bytes@.len() as int,
                    old(self).settings.max_pcm_bytes,
                ) {
                    Ok::<Frame, FrameError>(Frame::Audio)
                } else {
                    Ok::<Frame, FrameError>(Frame::Over)
                },
                k => k,
            }),
            r == Ok::<Frame, FrameError>(Frame::Over) ==> *final(self) == (StreamSession {
                stop_requested: true,
                ..*old(self)
            }),
            r is Err || r == Ok::<Frame, FrameError>(Frame::Empty) ==> *final(self) == *old(self),
            r == Ok::<Frame, FrameError>(Frame::Audio) ==> {
                &&& final(self).buffer@ == ring::last_bytes(old(self).buffer@ + bytes@, old(self).buffer.room())
                &&& final(self).buffer.room() == old(self).buffer.room()
                &&& *final(self) == (StreamSession {
                    buffer: final(self).buffer,
                    total_pcm_bytes: old(self).total_pcm_bytes.wrapping_add(bytes@.len() as u64),
                    last_audio_unix_ms: now_ms,
                    silence_since_unix_ms: streaming::silence_from(old(self).silence_since_unix_ms, now_ms, silent),
                    ..*old(self)
                })
            },
            old(self).within_limit() ==> final(self).within_limit(),
            forall|all: Seq<u8>| #[trigger] old(self).holds(all) && r == Ok::<Frame, FrameError>(Frame::Audio)
                && all.len() + bytes@.len() <= u64::MAX ==> final(self).holds(all + bytes@),
    {
        let kind = streaming::check_frame(bytes.len(), self.settings.cfg.channels)?;
        match kind {
            Frame::Empty => {},
            Frame::Over => {},
            Frame::Audio => {
                if !streaming::takes_more(self.total_pcm_bytes, bytes.len(), self.settings.max_pcm_bytes) {
                    self.stop_requested = true;
                    return Ok(Frame::Over);
                }
                self.last_audio_unix_ms = now_ms;
                self.silence_since_unix_ms = streaming::silence_since(self.silence_since_unix_ms, now_ms, silent);
                self.buffer.push(bytes);
                self.total_pcm_bytes = self.total_pcm_bytes.wrapping_add(bytes.len() as u64);
                proof {
                    assert forall|all: Seq<u8>| #[trigger] old(self).holds(all) && all.len() + bytes@.len()
                        <= u64::MAX implies self.holds(all + bytes@) by {
                        let room = old(self).buffer.room();
                        ring::law_pushes_compose(Seq::empty(), all, bytes@, room);
                        assert(Seq::<u8>::empty() + all =~= all);
                        assert(Seq::<u8>::empty() + (all + bytes@) =~= all + bytes@);
                    }
                }
            },
        }
        Ok(kind)
    }

    /// Which step comes next at `now_ms`. A step in silence is passed over at once;
    /// the audio of another is handed out.
    pub fn next_step(&mut self, now_ms: u64) -> (r: Step<S>)
        requires
            old(self).wf(),
        ensures
            final(self).wf(),
            is_next_step(*old(self), now_ms, r, *final(self)),
    {
        let plan = streaming::plan_step(
            self.total_pcm_bytes,
            self.last_processed_pcm_bytes,
            self.settings.sizes.hop_bytes,
            self.settings.sizes.min_process_bytes,
            self.stop_requested,
        );
        let end: u64 = match plan {
            StepPlan::Stop => return Step::Stop,
            StepPlan::Wait => return Step::Wait,
            StepPlan::Process(end) => end,
        };
        let rate: u64 = self.settings.sizes.bytes_per_s;
        let at_s: S = streaming::seconds_at(end, rate);
        let seq: u64 = self.seq;
        match streaming::passed_limit(now_ms, self.silence_since_unix_ms, self.settings.silence_skip_after_s) {
            Some(silent_s) => {
                let keep_from: S = find_window_start(&self.settings.cfg, at_s);
                self.transcript.advance(keep_from);
                self.seq = seq.saturating_add(1);
                self.last_processed_pcm_bytes = end;
                Step::Silence(SilentStep { seq, at_s, silent_s })
            },
            None => {
                let mode = self.transcript.choose_mode(at_s, self.settings.full_refresh_every_s);
                let want: u64 = match mode {
                    TranscribeMode::Refresh => self.settings.sizes.window_bytes,
                    TranscribeMode::Tail => self.settings.sizes.tail_bytes,
                };
                let part = streaming::extract_pcm_range(&self.buffer, self.total_pcm_bytes, end, want);
                Step::Hear(
                    HearStep {
                        seq,
                        mode,
                        pcm: part.pcm,
                        transcribe_start_s: streaming::seconds_at(part.start_byte, rate),
                        transcribe_end_s: streaming::seconds_at(part.end_byte, rate),
                        process_end_byte: end,
                        process_end_s: at_s,
                        total_pcm_bytes: self.total_pcm_bytes,
                        stop_requested: self.stop_requested,
                    },
                )
            },
        }
    }

    /// Passes over a step that could not be transcribed.
    pub fn skip_step(&mut self, process_end_byte: u64)
        ensures
            *final(self) == (StreamSession { last_processed_pcm_bytes: process_end_byte, ..*old(self) }),
    {
        self.last_processed_pcm_bytes = process_end_byte;
    }

    /// Takes in the transcription of a step, whose times count from the start of
    /// its audio. Gives the words of the window as a transcription and as a text,
    /// and their number.
    pub fn take_words(&mut self, step: &HearStep<S>, transcription: Json<S>) -> (r: (Json<S>, String, usize))
        ensures
            exists|shifted: Json<S>|
                #![trigger words_in(shifted)]
                rolling::is_shifted_transcription(transcription, step.transcribe_start_s, shifted) && are_taken(
                    *old(self),
                    *step,
                    words_in(shifted),
                    r,
                    *final(self),
                ),
    {
        let shifted = rolling::offset_transcription_times(transcription, step.transcribe_start_s);
        let new_words = rolling::extract_timed_words(&shifted);
        assert(rolling::spoken(new_words@) == words_in(shifted));
        let from: S = find_window_start(&self.settings.cfg, step.process_end_s);
        let words = self.transcript.ingest(
            step.mode,
            new_words,
            step.transcribe_start_s,
            step.transcribe_end_s,
            from,
            step.process_end_s,
        );
        assert(rolling::spoken(words@).len() == words@.len());
        let (t, text) = grouping::build_transcription_from_words(&words);
        (t, text, words.len())
    }

    /// Takes in the alignment of a step's words, and ends the step.
    pub fn take_outcome(
        &mut self,
        step: &HearStep<S>,
        assets: &AlignmentAssetsV2<S>,
        outcome: Option<&Result<AlignmentReport<S>, AlignError>>,
        rolling_words: usize,
    ) -> (r: Update<S>)
        ensures
            is_update(
                *old(self),
                *step,
                stability::hypothesis_of(
                    *assets,
                    match outcome {
                        None => None,
                        Some(x) => Some(*x),
                    },
                ),
                rolling_words as int,
                r,
                *final(self),
            ),
    {
        let h = stability::read_hypothesis(assets, outcome);
        let progress = self.stability.update(&h, step.process_end_s);
        let window_s: S = self.settings.cfg.window_s;
        self.transcript.react(&progress, step.mode, step.process_end_s, window_s);
        let ux = streaming::ux_state(self.stability.stable_surah_id.is_some(), h.conf);
        let alerts = streaming::list_alerts(&progress, step.mode, step.process_end_s, window_s, rolling_words, h.conf);
        self.seq = self.seq.saturating_add(1);
        self.last_processed_pcm_bytes = step.process_end_byte;
        Update {
            hypothesis: h,
            stability: self.stability,
            progress,
            ux,
            alerts,
            done: streaming::is_done(
                step.stop_requested,
                step.total_pcm_bytes,
                step.process_end_byte,
                self.settings.sizes.hop_bytes,
            ),
        }
    }

    /// Whether the session ends now, why, and after how many seconds.
    pub fn watch(&self, now_s: u64, now_ms: u64) -> (r: Option<(EndReason, Option<S>)>)
        ensures
            r == streaming::end_reason(self.watched(now_s, now_ms)),
    {
        streaming::check_session(
            &Watch {
                now_s,
                now_ms,
                auth_expires_s: self.auth_expires_unix_s,
                auth_grace_s: self.settings.auth_grace_s,
                last_audio_ms: self.last_audio_unix_ms,
                no_audio_stop_after_s: self.settings.no_audio_stop_after_s,
                silent_since_ms: self.silence_since_unix_ms,
                silence_stop_after_s: self.settings.silence_stop_after_s,
            },
        )
    }

    pub open spec fn watched(&self, now_s: u64, now_ms: u64) -> Watch<S> {
        Watch {
            now_s,
            now_ms,
            auth_expires_s: self.auth_expires_unix_s,
            auth_grace_s: self.settings.auth_grace_s,
            last_audio_ms: self.last_audio_unix_ms,
            no_audio_stop_after_s: self.settings.no_audio_stop_after_s,
            silent_since_ms: self.silence_since_unix_ms,
            silence_stop_after_s: self.settings.silence_stop_after_s,
        }
    }
}

/// The words of a transcription in time.
pub open spec fn words_in<S: Scalar>(transcription: Json<S>) -> Seq<rolling::Spoken<S>> {
    let segs = timed::segments_in(transcription);
    rolling::in_time(rolling::segments_spoken(segs, segs.len()))
}

/// The step at `now_ms` in state `s`, and the state after it was handed out.
pub open spec fn is_next_step<S: Scalar>(s: StreamSession<S>, now_ms: u64, r: Step<S>, t: StreamSession<S>) -> bool {
    let sizes = s.settings.sizes;
    match streaming::planned_step(
        s.total_pcm_bytes,
        s.last_processed_pcm_bytes,
        sizes.hop_bytes,
        sizes.min_process_bytes,
        s.stop_requested,
    ) {
        StepPlan::Stop => r is Stop && t == s,
        StepPlan::Wait => r is Wait && t == s,
        StepPlan::Process(end) => {
            let at_s = streaming::byte_time::<S>(end, sizes.bytes_per_s);
            if streaming::has_passed(now_ms, s.silence_since_unix_ms, s.settings.silence_skip_after_s) {
                &&& r matches Step::Silence(x)
                &&& x.seq == s.seq
                &&& x.at_s == at_s
                &&& x.silent_s == streaming::seconds_since::<S>(now_ms, s.silence_since_unix_ms)
                &&& t == (StreamSession {
                    transcript: t.transcript,
                    seq: next_seq(s.seq),
                    last_processed_pcm_bytes: end,
                    ..s
                })
                &&& t.transcript == (RollingTranscript { words: t.transcript.words, ..s.transcript })
                &&& rolling::spoken(t.transcript.words@) == rolling::recent(
                    rolling::spoken(s.transcript.words@),
                    window_start(s.settings.cfg, at_s),
                )
            } else {
                &&& r matches Step::Hear(x)
                &&& is_hear_step(s, end, at_s, x)
                &&& t == (StreamSession {
                    transcript: RollingTranscript { force_refresh_next: false, ..s.transcript },
                    ..s
                })
            }
        },
    }
}

/// The step that ends at byte `end`, and its audio.
pub open spec fn is_hear_step<S: Scalar>(s: StreamSession<S>, end: u64, at_s: S, x: HearStep<S>) -> bool {
    let sizes = s.settings.sizes;
    let refresh = s.transcript.refresh_due(at_s, s.settings.full_refresh_every_s);
    let want = if refresh {
        sizes.window_bytes
    } else {
        sizes.tail_bytes
    };
    let bounds = streaming::slice_bounds(s.buffer@.len(), s.total_pcm_bytes, end, want);
    &&& x.seq == s.seq
    &&& x.mode == (if refresh {
        TranscribeMode::Refresh
    } else {
        TranscribeMode::Tail
    })
    &&& x.pcm@ == streaming::slice_samples(s.buffer@, s.total_pcm_bytes, end, want)
    &&& x.transcribe_start_s == streaming::byte_time::<S>(bounds.0 as u64, sizes.bytes_per_s)
    &&& x.transcribe_end_s == streaming::byte_time::<S>(bounds.1 as u64, sizes.bytes_per_s)
    &&& x.process_end_byte == end
    &&& x.process_end_s == at_s
    &&& x.total_pcm_bytes == s.total_pcm_bytes
    &&& x.stop_requested == s.stop_requested
}

/// The state after the words `new_words` of a step were taken in, and what is
/// given out: the words of the window as a transcription and as a text, and their
/// number.
pub open spec fn are_taken<S: Scalar>(
    s: StreamSession<S>,
    step: HearStep<S>,
    new_words: Seq<rolling::Spoken<S>>,
    r: (Json<S>, String, usize),
    t: StreamSession<S>,
) -> bool {
    let from = window_start(s.settings.cfg, step.process_end_s);
    let words = rolling::words_within(rolling::spoken(t.transcript.words@), from, step.process_end_s);
    &&& t == (StreamSession { transcript: t.transcript, ..s })
    &&& rolling::spoken(t.transcript.words@) == (if step.mode == TranscribeMode::Refresh {
        new_words
    } else {
        rolling::rolled(
            rolling::spoken(s.transcript.words@),
            new_words,
            step.transcribe_start_s,
            step.transcribe_end_s,
            from,
        )
    })
    &&& t.transcript.last_full_refresh_end_s == (if step.mode == TranscribeMode::Refresh {
        step.process_end_s
    } else {
        s.transcript.last_full_refresh_end_s
    })
    &&& t.transcript.force_refresh_next == s.transcript.force_refresh_next
    &&& grouping::is_transcription_of(r.0, words)
    &&& r.1@ == grouping::full_text(words)
    &&& r.2 == words.len()
}

/// What is told after a guess, and the state after it.
pub open spec fn is_update<S: Scalar>(
    s: StreamSession<S>,
    step: HearStep<S>,
    h: Hypothesis<S>,
    rolling_words: int,
    r: Update<S>,
    t: StreamSession<S>,
) -> bool {
    let (st, progress) = stability::updated(s.stability, h, step.process_end_s);
    let window_s = s.settings.cfg.window_s;
    &&& t == (StreamSession {
        transcript: t.transcript,
        stability: st,
        seq: next_seq(s.seq),
        last_processed_pcm_bytes: step.process_end_byte,
        ..s
    })
    &&& streaming::is_reaction(s.transcript, progress, step.mode, step.process_end_s, window_s, t.transcript)
    &&& r.hypothesis == h
    &&& r.stability == st
    &&& r.progress == progress
    &&& r.ux == streaming::ux_of(st.stable_surah_id is Some, h.conf)
    &&& r.alerts@ == streaming::alerts_of(progress, step.mode, step.process_end_s, window_s, rolling_words, h.conf)
    &&& r.done == (step.stop_requested && streaming::saturating_diff(step.total_pcm_bytes, step.process_end_byte)
        < s.settings.sizes.hop_bytes)
}

/// While the buffer holds the end of the stream, the audio of a step is the part
/// of the stream that its times name.
pub proof fn law_step_audio_is_part_of_the_stream<S: Scalar>(
    s: StreamSession<S>,
    all: Seq<u8>,
    now_ms: u64,
    r: Step<S>,
    t: StreamSession<S>,
)
    requires
        s.holds(all),
        is_next_step(s, now_ms, r, t),
    ensures
        r matches Step::Hear(x) ==> exists|from: int, to: int|
            #![trigger all.subrange(from, to)]
            {
                &&& 0 <= from <= to <= all.len()
                &&& x.pcm@ == streaming::whole_samples(all.subrange(from, to))
                &&& x.transcribe_start_s == streaming::byte_time::<S>(from as u64, s.settings.sizes.bytes_per_s)
                &&& x.transcribe_end_s == streaming::byte_time::<S>(to as u64, s.settings.sizes.bytes_per_s)
            },
{
    match r {
        Step::Hear(x) => {
            let want = if x.mode == TranscribeMode::Refresh {
                s.settings.sizes.window_bytes
            } else {
                s.settings.sizes.tail_bytes
            };
            streaming::law_slice_is_part_of_the_stream(all, s.buffer.room(), x.process_end_byte, want);
            let b = streaming::slice_bounds(s.buffer@.len(), s.total_pcm_bytes, x.process_end_byte, want);
            assert(x.pcm@ == streaming::whole_samples(all.subrange(b.0, b.1)));
        },
        _ => {},
    }
}

/// Steps go through the stream in order: a step begins where the one before it
/// ended, ends further on, and stays within the stream.
pub proof fn law_steps_follow_each_other<S: Scalar>(s: StreamSession<S>, now_ms: u64, r: Step<S>, t: StreamSession<S>)
    requires
        s.last_processed_pcm_bytes <= s.total_pcm_bytes,
        s.settings.sizes.hop_bytes > 0,
        is_next_step(s, now_ms, r, t),
    ensures
        t.total_pcm_bytes == s.total_pcm_bytes,
        t.last_processed_pcm_bytes <= t.total_pcm_bytes,
        r is Silence ==> s.last_processed_pcm_bytes < t.last_processed_pcm_bytes,
        r matches Step::Hear(x) ==> s.last_processed_pcm_bytes < x.process_end_byte <= s.total_pcm_bytes,
{
}

/// A step hears a window of audio where a full hearing is due, and else the tail: as many
/// bytes up to its end as are kept.
pub proof fn law_steps_hear_window_or_tail<S: Scalar>(s: StreamSession<S>, now_ms: u64, x: HearStep<S>, t: StreamSession<S>)
    requires
        is_next_step(s, now_ms, Step::Hear(x), t),
        s.buffer@.len() == s.total_pcm_bytes,
        s.last_processed_pcm_bytes <= s.total_pcm_bytes,
    ensures
        ({
            let due = s.transcript.force_refresh_next || (s.settings.full_refresh_every_s.finite_spec() && S::whole_spec(
                0,
            ).rank() < s.settings.full_refresh_every_s.rank() && s.settings.full_refresh_every_s.rank()
                <= x.process_end_s.minus_spec(s.transcript.last_full_refresh_end_s).rank());
            let want = if due {
                s.settings.sizes.window_bytes
            } else {
                s.settings.sizes.tail_bytes
            };
            let end = x.process_end_byte;
            let from = if end < want {
                0
            } else {
                end - want
            };
            &&& x.mode == TranscribeMode::Refresh <==> due
            &&& end == s.last_processed_pcm_bytes + s.settings.sizes.hop_bytes || end == s.total_pcm_bytes
            &&& x.pcm@ == streaming::whole_samples(s.buffer@.subrange(from as int, end as int))
            &&& x.seq == s.seq
            &&& !t.transcript.force_refresh_next
        }),
{
}

/// Audio is passed over unheard while silence lasts for longer than it may, and only
/// then.
pub proof fn law_silence_is_passed_over<S: Scalar>(s: StreamSession<S>, now_ms: u64, r: Step<S>, t: StreamSession<S>)
    requires
        is_next_step(s, now_ms, r, t),
        s.last_processed_pcm_bytes + s.settings.sizes.hop_bytes <= s.total_pcm_bytes,
        s.settings.sizes.min_process_bytes <= s.total_pcm_bytes,
    ensures
        r is Silence <==> streaming::has_passed(now_ms, s.silence_since_unix_ms, s.settings.silence_skip_after_s),
        r is Silence || r is Hear,
        r is Silence ==> t.last_processed_pcm_bytes == s.last_processed_pcm_bytes + s.settings.sizes.hop_bytes,
        r is Silence && s.seq < u64::MAX ==> t.seq == s.seq + 1,
{
}

/// After a step the audio up to its end counts as processed, the next step has the next
/// number, and the session is over if it was to stop and less than a hop is left.
pub proof fn law_updates_advance_the_session<S: Scalar>(
    s: StreamSession<S>,
    step: HearStep<S>,
    h: Hypothesis<S>,
    rolling_words: int,
    r: Update<S>,
    t: StreamSession<S>,
)
    requires
        is_update(s, step, h, rolling_words, r, t),
    ensures
        t.last_processed_pcm_bytes == step.process_end_byte,
        s.seq < u64::MAX ==> t.seq == s.seq + 1,
        t.total_pcm_bytes == s.total_pcm_bytes && t.stop_requested == s.stop_requested,
        step.process_end_byte <= step.total_pcm_bytes ==> (r.done <==> step.stop_requested && step.total_pcm_bytes
            - step.process_end_byte < s.settings.sizes.hop_bytes),
        r.stability == t.stability,
        t.stability == stability::updated(s.stability, h, step.process_end_s).0,
{
}

/// A full hearing replaces all words; a hearing of the tail replaces those of the tail.
/// What is aligned then are the words that touch the window.
pub proof fn law_heard_words_are_taken<S: Scalar>(
    s: StreamSession<S>,
    step: HearStep<S>,
    new_words: Seq<rolling::Spoken<S>>,
    r: (Json<S>, String, usize),
    t: StreamSession<S>,
)
    requires
        are_taken(s, step, new_words, r, t),
    ensures
        ({
            let now = rolling::spoken(t.transcript.words@);
            let from = window_start(s.settings.cfg, step.process_end_s);
            let heard = now.filter(
                |w: rolling::Spoken<S>| from.rank() <= w.end_s.rank() && w.start_s.rank() <= step.process_end_s.rank(),
            );
            &&& step.mode == TranscribeMode::Refresh ==> now == new_words && t.transcript.last_full_refresh_end_s
                == step.process_end_s
            &&& step.mode == TranscribeMode::Tail ==> t.transcript.last_full_refresh_end_s
                == s.transcript.last_full_refresh_end_s
            &&& r.2 == heard.len()
            &&& r.1@ == grouping::full_text(heard)
            &&& t.seq == s.seq && t.last_processed_pcm_bytes == s.last_processed_pcm_bytes && t.stability == s.stability
        }),
{
    rolling::law_words_within_touch_the_stretch(
        rolling::spoken(t.transcript.words@),
        window_start(s.settings.cfg, step.process_end_s),
        step.process_end_s,
    );
}

/// The window reaches back from its end by its length, to the beginning at most.
pub proof fn law_window_reaches_back(cfg: StreamConfig<scalar::Thousandths>, end_s: scalar::Thousandths)
    requires
        0 <= cfg.window_s.count <= 1_000_000_000_000,
        0 <= end_s.count <= 1_000_000_000_000,
    ensures
        cfg.window_s.count <= end_s.count ==> window_start(cfg, end_s).count == end_s.count - cfg.window_s.count,
        end_s.count < cfg.window_s.count ==> window_start(cfg, end_s).count == 0,
{
}

} // verus!
