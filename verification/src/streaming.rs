//! The decisions of a live session: what is heard when, what is told to the
//! client, and when the session ends.

use vstd::prelude::*;

use crate::chars;
use crate::json::Json;
use crate::ring;
use crate::ring::RingBuf;
use crate::rolling;
use crate::rolling::TimedWord;
use crate::scalar;
use crate::scalar::Scalar;
use crate::stability::{Action, Progress};
use crate::text;

verus! {

// ---------------------------------------------------------------------------
// Configuration

/// How a stream is cut into pieces.
pub struct StreamConfig<S> {
    pub sample_rate_hz: u32,
    pub channels: u16,
    pub window_s: S,
    pub hop_s: S,
    pub buffer_s: S,
    pub min_process_s: S,
}

impl<S: Copy> Clone for StreamConfig<S> {
    fn clone(&self) -> (r: Self)
        ensures
            r == *self,
    {
        *self
    }
}

impl<S: Copy> Copy for StreamConfig<S> {

}

#[derive(Clone, Copy, Debug, PartialEq, Eq, Structural)]
pub enum StreamCfgError {
    /// Only 16 kHz are supported.
    SampleRate,
    /// Only mono is supported.
    Channels,
}

impl StreamCfgError {
    /// What a client is told of a refused configuration.
    pub open spec fn text(self) -> Seq<char> {
        match self {
            StreamCfgError::SampleRate => "only 16kHz supported for now"@,
            StreamCfgError::Channels => "only mono supported for now"@,
        }
    }

    pub fn message(self) -> (r: &'static str)
        ensures
            r@ == self.text(),
    {
        match self {
            StreamCfgError::SampleRate => "only 16kHz supported for now",
            StreamCfgError::Channels => "only mono supported for now",
        }
    }
}

impl<S: Scalar> StreamConfig<S> {
    pub open spec fn standard() -> Self {
        StreamConfig {
            sample_rate_hz: 16_000,
            channels: 1,
            window_s: S::whole_spec(20),
            hop_s: S::whole_spec(2),
            buffer_s: S::whole_spec(90),
            min_process_s: S::whole_spec(2),
        }
    }

    /// Bytes per second of 16-bit samples.
    pub open spec fn byte_rate(self) -> int {
        self.sample_rate_hz * self.channels * 2
    }
}

impl<S: Scalar> Default for StreamConfig<S> {
    fn default() -> (r: Self)
        ensures
            r == Self::standard(),
    {
        StreamConfig {
            sample_rate_hz: 16_000,
            channels: 1,
            window_s: S::whole(20),
            hop_s: S::whole(2),
            buffer_s: S::whole(90),
            min_process_s: S::whole(2),
        }
    }
}

/// Finite, and more than `bound`.
pub open spec fn exceeds<S: Scalar>(x: S, bound: S) -> bool {
    x.finite_spec() && bound.rank() < x.rank()
}

/// The configuration with unusable durations replaced.
pub open spec fn usable<S: Scalar>(cfg: StreamConfig<S>) -> StreamConfig<S> {
    let window = if exceeds(cfg.window_s, S::milli_spec(500)) {
        cfg.window_s
    } else {
        S::whole_spec(20)
    };
    let hop0 = if exceeds(cfg.hop_s, S::milli_spec(100)) {
        cfg.hop_s
    } else {
        S::whole_spec(2)
    };
    let hop = if hop0.rank() < window.rank() {
        hop0
    } else {
        scalar::max_spec(window.over_spec(S::whole_spec(2)), S::milli_spec(500))
    };
    let buffer = if cfg.buffer_s.finite_spec() && window.rank() <= cfg.buffer_s.rank() {
        cfg.buffer_s
    } else {
        scalar::max_spec(window.times_spec(S::whole_spec(2)), S::whole_spec(30))
    };
    let min_process = if exceeds(cfg.min_process_s, S::whole_spec(0)) {
        cfg.min_process_s
    } else {
        S::whole_spec(2)
    };
    StreamConfig { window_s: window, hop_s: hop, buffer_s: buffer, min_process_s: min_process, ..cfg }
}

/// A usable configuration, if the samples are of the kind that is supported.
pub open spec fn validated<S: Scalar>(cfg: StreamConfig<S>) -> Result<StreamConfig<S>, StreamCfgError> {
    if cfg.sample_rate_hz != 16_000 {
        Err(StreamCfgError::SampleRate)
    } else if cfg.channels != 1 {
        Err(StreamCfgError::Channels)
    } else {
        Ok(usable(cfg))
    }
}

pub fn validate_stream_cfg<S: Scalar>(cfg: StreamConfig<S>) -> (r: Result<StreamConfig<S>, StreamCfgError>)
    ensures
        r == validated(cfg),
{
    if cfg.sample_rate_hz != 16_000 {
        return Err(StreamCfgError::SampleRate);
    }
    if cfg.channels != 1 {
        return Err(StreamCfgError::Channels);
    }
    let mut cfg = cfg;
    if !(cfg.window_s.is_finite() && S::milli(500).below(cfg.window_s)) {
        cfg.window_s = S::whole(20);
    }
    if !(cfg.hop_s.is_finite() && S::milli(100).below(cfg.hop_s)) {
        cfg.hop_s = S::whole(2);
    }
    if !cfg.hop_s.below(cfg.window_s) {
        cfg.hop_s = scalar::max_of(cfg.window_s.over(S::whole(2)), S::milli(500));
    }
    if !(cfg.buffer_s.is_finite() && !cfg.buffer_s.below(cfg.window_s)) {
        cfg.buffer_s = scalar::max_of(cfg.window_s.times(S::whole(2)), S::whole(30));
    }
    if !(cfg.min_process_s.is_finite() && S::whole(0).below(cfg.min_process_s)) {
        cfg.min_process_s = S::whole(2);
    }
    Ok(cfg)
}

/// A usable configuration stays as it is, once its hop is shorter than its
/// window.
pub proof fn law_usable_is_kept<S: Scalar>(cfg: StreamConfig<S>)
    requires
        exceeds(cfg.window_s, S::milli_spec(500)),
        exceeds(cfg.hop_s, S::milli_spec(100)),
        cfg.hop_s.rank() < cfg.window_s.rank(),
        cfg.buffer_s.finite_spec() && cfg.window_s.rank() <= cfg.buffer_s.rank(),
        exceeds(cfg.min_process_s, S::whole_spec(0)),
    ensures
        usable(cfg) == cfg,
{
}

/// Where numbers are ordered as usual, a configuration is refused exactly if its
/// samples are not of the supported kind. Else it becomes one with a window of more
/// than 0.5, a hop of more than 0.1 that is shorter than the window, a buffer no
/// shorter than the window and something to process, and that one stays as it is.
pub proof fn law_validated_is_usable<S: Scalar>(cfg: StreamConfig<S>)
    requires
        scalar::small_numbers_are_ordered::<S>(),
        scalar::halves_are_smaller::<S>(),
    ensures
        validated(cfg) is Err <==> cfg.sample_rate_hz != 16_000 || cfg.channels != 1,
        validated(cfg) matches Ok(r) ==> {
            &&& exceeds(r.window_s, S::milli_spec(500))
            &&& exceeds(r.hop_s, S::milli_spec(100))
            &&& r.hop_s.rank() < r.window_s.rank()
            &&& r.window_s.rank() <= r.buffer_s.rank()
            &&& exceeds(r.min_process_s, S::whole_spec(0))
            &&& validated(r) == Ok::<StreamConfig<S>, StreamCfgError>(r)
        },
{
    assert(S::milli_spec(100).rank() < S::milli_spec(500).rank());
    assert(S::whole_spec(20).rank() == S::milli_spec(20_000).rank());
    assert(S::whole_spec(2).rank() == S::milli_spec(2_000).rank());
    assert(S::whole_spec(0).rank() == S::milli_spec(0).rank());
    assert(S::milli_spec(500).rank() < S::milli_spec(20_000).rank());
    assert(S::milli_spec(100).rank() < S::milli_spec(2_000).rank());
    assert(S::milli_spec(0).rank() < S::milli_spec(2_000).rank());
    let w = usable(cfg).window_s;
    assert(exceeds(w, S::milli_spec(500)));
    assert(w.over_spec(S::whole_spec(2)).rank() < w.rank());
    assert(w.rank() <= w.times_spec(S::whole_spec(2)).rank());
    assert(usable(usable(cfg)) == usable(cfg));
}

/// What a client asks of a stream.
pub struct StreamRequest<S> {
    pub sample_rate_hz: Option<u32>,
    pub channels: Option<u16>,
    pub window_s: Option<S>,
    pub hop_s: Option<S>,
    pub buffer_s: Option<S>,
    pub min_process_s: Option<S>,
}

/// The asked-for value, or another.
pub open spec fn asked_or<T>(asked: Option<T>, other: T) -> T {
    match asked {
        Some(v) => v,
        None => other,
    }
}

/// The standard configuration with what is asked for.
pub open spec fn requested<S: Scalar>(q: StreamRequest<S>) -> StreamConfig<S> {
    let std = StreamConfig::<S>::standard();
    StreamConfig {
        sample_rate_hz: asked_or(q.sample_rate_hz, std.sample_rate_hz),
        channels: asked_or(q.channels, std.channels),
        window_s: asked_or(q.window_s, std.window_s),
        hop_s: asked_or(q.hop_s, std.hop_s),
        buffer_s: asked_or(q.buffer_s, std.buffer_s),
        min_process_s: asked_or(q.min_process_s, std.min_process_s),
    }
}

/// The configuration for what a client asks.
pub fn read_stream_request<S: Scalar>(q: &StreamRequest<S>) -> (r: Result<StreamConfig<S>, StreamCfgError>)
    ensures
        r == validated(requested(*q)),
{
    let mut cfg: StreamConfig<S> = StreamConfig::default();
    if let Some(v) = q.sample_rate_hz {
        cfg.sample_rate_hz = v;
    }
    if let Some(v) = q.channels {
        cfg.channels = v;
    }
    if let Some(v) = q.window_s {
        cfg.window_s = v;
    }
    if let Some(v) = q.hop_s {
        cfg.hop_s = v;
    }
    if let Some(v) = q.buffer_s {
        cfg.buffer_s = v;
    }
    if let Some(v) = q.min_process_s {
        cfg.min_process_s = v;
    }
    validate_stream_cfg(cfg)
}

/// The sizes in bytes that a configuration means.
#[derive(Clone, Copy, Debug, PartialEq, Eq, Structural)]
pub struct StreamSizes {
    pub bytes_per_s: u64,
    pub hop_bytes: u64,
    pub window_bytes: u64,
    pub min_process_bytes: u64,
    pub tail_bytes: u64,
}

/// The bytes of `s` seconds, of at least `least`.
pub open spec fn bytes_of<S: Scalar>(s: S, least: S, rate: nat) -> u64 {
    scalar::max_spec(s, least).times_spec(S::whole_spec(rate)).trunc_u64_spec()
}

/// The seconds that are heard anew at each hop, besides a full window.
pub open spec fn tail_seconds<S: Scalar>(cfg: StreamConfig<S>, tail_context_s: S) -> S {
    scalar::min_spec(
        scalar::max_spec(cfg.hop_s.plus_spec(tail_context_s), cfg.hop_s),
        scalar::max_spec(cfg.window_s, cfg.hop_s),
    )
}

pub open spec fn sizes_of<S: Scalar>(cfg: StreamConfig<S>, tail_context_s: S) -> StreamSizes {
    let rate = cfg.byte_rate() as nat;
    StreamSizes {
        bytes_per_s: rate as u64,
        hop_bytes: bytes_of(cfg.hop_s, S::milli_spec(100), rate),
        window_bytes: bytes_of(cfg.window_s, S::milli_spec(500), rate),
        min_process_bytes: bytes_of(cfg.min_process_s, S::milli_spec(100), rate),
        tail_bytes: bytes_of(tail_seconds(cfg, tail_context_s), S::milli_spec(100), rate),
    }
}

fn rate_of<S: Scalar>(cfg: &StreamConfig<S>) -> (r: u64)
    ensures
        r == cfg.byte_rate(),
        r <= 0x2_0000_0000_0000,
{
    assert(0 <= cfg.sample_rate_hz * cfg.channels <= 0xffff_ffff * 0xffff) by (nonlinear_arith)
        requires
            0 <= cfg.sample_rate_hz <= 0xffff_ffff,
            0 <= cfg.channels <= 0xffff,
    ;
    cfg.sample_rate_hz as u64 * cfg.channels as u64 * 2
}

fn count_bytes<S: Scalar>(s: S, least: S, rate: u64) -> (r: u64)
    ensures
        r == bytes_of(s, least, rate as nat),
{
    scalar::max_of(s, least).times(S::whole(rate)).trunc_u64()
}

pub fn stream_sizes<S: Scalar>(cfg: &StreamConfig<S>, tail_context_s: S) -> (r: StreamSizes)
    ensures
        r == sizes_of(*cfg, tail_context_s),
{
    let rate: u64 = rate_of(cfg);
    let tail: S = scalar::min_of(
        scalar::max_of(cfg.hop_s.plus(tail_context_s), cfg.hop_s),
        scalar::max_of(cfg.window_s, cfg.hop_s),
    );
    StreamSizes {
        bytes_per_s: rate,
        hop_bytes: count_bytes(cfg.hop_s, S::milli(100), rate),
        window_bytes: count_bytes(cfg.window_s, S::milli(500), rate),
        min_process_bytes: count_bytes(cfg.min_process_s, S::milli(100), rate),
        tail_bytes: count_bytes(tail, S::milli(100), rate),
    }
}

/// How many bytes of audio are kept: those of the longer of buffer and window in
/// whole seconds, at least one; cut to what a `usize` holds.
pub open spec fn kept_bytes<S: Scalar>(cfg: StreamConfig<S>) -> int {
    let rate = if cfg.byte_rate() > usize::MAX {
        usize::MAX as int
    } else {
        cfg.byte_rate()
    };
    let up = scalar::max_spec(cfg.buffer_s, cfg.window_s).ceil_u64_spec();
    let secs = if up < 1 {
        1
    } else if up > usize::MAX {
        usize::MAX as int
    } else {
        up as int
    };
    if rate * secs > usize::MAX {
        usize::MAX as int
    } else {
        rate * secs
    }
}

pub fn ring_capacity<S: Scalar>(cfg: &StreamConfig<S>) -> (r: usize)
    ensures
        r == kept_bytes(*cfg),
{
    let wide: u64 = rate_of(cfg);
    let rate: usize = if wide > usize::MAX as u64 {
        usize::MAX
    } else {
        wide as usize
    };
    let up: u64 = scalar::max_of(cfg.buffer_s, cfg.window_s).ceil_u64();
    let secs: usize = if up < 1 {
        1
    } else if up > usize::MAX as u64 {
        usize::MAX
    } else {
        up as usize
    };
    let all: Option<usize> = rate.checked_mul(secs);
    match all {
        Some(n) => n,
        None => usize::MAX,
    }
}

// ---------------------------------------------------------------------------
// Incoming audio

#[derive(Clone, Copy, Debug, PartialEq, Eq, Structural)]
pub enum FrameError {
    /// A frame holds whole samples of two bytes.
    OddLength,
    NotMono,
}

#[derive(Clone, Copy, Debug, PartialEq, Eq, Structural)]
pub enum Frame {
    Empty,
    Audio,
    /// It would make the stream longer than it may be.
    Over,
}

pub open spec fn frame_kind(len: int, channels: u16) -> Result<Frame, FrameError> {
    if len == 0 {
        Ok(Frame::Empty)
    } else if len % 2 != 0 {
        Err(FrameError::OddLength)
    } else if channels != 1 {
        Err(FrameError::NotMono)
    } else {
        Ok(Frame::Audio)
    }
}

/// Whether a frame can be taken.
pub fn check_frame(len: usize, channels: u16) -> (r: Result<Frame, FrameError>)
    ensures
        r == frame_kind(len as int, channels),
{
    if len == 0 {
        Ok(Frame::Empty)
    } else if len % 2 != 0 {
        Err(FrameError::OddLength)
    } else if channels != 1 {
        Err(FrameError::NotMono)
    } else {
        Ok(Frame::Audio)
    }
}

/// A stream of `total` bytes can take `len` more without exceeding `max`.
pub open spec fn has_room_for(total: u64, len: int, max: Option<u64>) -> bool {
    max matches Some(m) ==> total + len <= m
}

pub fn takes_more(total: u64, len: usize, max: Option<u64>) -> (r: bool)
    ensures
        r == has_room_for(total, len as int, max),
{
    match max {
        None => true,
        Some(m) => total <= m && len as u64 <= m - total,
    }
}

/// How many bytes so many seconds have at `bytes_per_s`, up to what a `u64` holds.
pub open spec fn bytes_in(seconds: nat, bytes_per_s: u64) -> u64 {
    if seconds * bytes_per_s > u64::MAX {
        u64::MAX
    } else {
        (seconds * bytes_per_s) as u64
    }
}

pub fn find_bytes_in(seconds: usize, bytes_per_s: u64) -> (r: u64)
    ensures
        r == bytes_in(seconds as nat, bytes_per_s),
{
    match (seconds as u64).checked_mul(bytes_per_s) {
        Some(n) => n,
        None => u64::MAX,
    }
}

/// Since when it has been silent, zero for not silent, after a frame at `now_ms`.
pub open spec fn silence_from(prev_ms: u64, now_ms: u64, silent: bool) -> u64 {
    if !silent {
        0
    } else if prev_ms == 0 {
        now_ms
    } else {
        prev_ms
    }
}

pub fn silence_since(prev_ms: u64, now_ms: u64, silent: bool) -> (r: u64)
    ensures
        r == silence_from(prev_ms, now_ms, silent),
{
    if !silent {
        0
    } else if prev_ms == 0 {
        now_ms
    } else {
        prev_ms
    }
}

/// The magnitude of the `i`-th 16-bit sample.
pub open spec fn magnitude(bytes: Seq<u8>, i: int) -> nat {
    let raw = bytes[2 * i] + 256 * bytes[2 * i + 1];
    if raw < 0x8000 {
        raw as nat
    } else {
        (0x1_0000 - raw) as nat
    }
}

/// The sum of the squares of the first `n` samples, added up in their order.
pub open spec fn square_sum<S: Scalar>(bytes: Seq<u8>, n: nat) -> S
    decreases n,
{
    if n == 0 {
        S::whole_spec(0)
    } else {
        let m = S::whole_spec(magnitude(bytes, n - 1));
        square_sum::<S>(bytes, (n - 1) as nat).plus_spec(m.times_spec(m))
    }
}

/// The mean of the squares of 16-bit samples, if there are any.
pub fn mean_square<S: Scalar>(bytes: &[u8]) -> (r: Option<S>)
    ensures
        r == (if bytes@.len() < 2 {
            None::<S>
        } else {
            Some(
                square_sum::<S>(bytes@, bytes@.len() / 2).over_spec(S::whole_spec(bytes@.len() / 2)),
            )
        }),
{
    let total: usize = bytes.len();
    let n: usize = total / 2;
    if n == 0 {
        return None;
    }
    let mut sum: S = S::whole(0);
    let mut i: usize = 0;
    while i < n
        invariant
            i <= n,
            2 * n <= total == bytes@.len(),
            sum == square_sum::<S>(bytes@, i as nat),
        decreases n - i,
    {
        let raw: u64 = bytes[2 * i] as u64 + 256 * bytes[2 * i + 1] as u64;
        let m: S = S::whole(
            if raw < 0x8000 {
                raw
            } else {
                0x1_0000 - raw
            },
        );
        sum = sum.plus(m.times(m));
        i = i + 1;
    }
    Some(sum.over(S::whole(n as u64)))
}

// ---------------------------------------------------------------------------
// Steps through the audio

#[derive(Clone, Copy, Debug, PartialEq, Eq, Structural)]
pub enum StepPlan {
    /// The session is over.
    Stop,
    /// There is too little audio.
    Wait,
    /// The next step ends at this byte.
    Process(u64),
}

pub open spec fn saturating_diff(a: u64, b: u64) -> int {
    if a < b {
        0
    } else {
        a - b
    }
}

/// A step of `hop` bytes behind the last one, once there are that many and at
/// least `min` in all.
pub open spec fn planned_step(total: u64, last: u64, hop: u64, min: u64, stop: bool) -> StepPlan {
    if saturating_diff(total, last) >= hop && total >= min {
        StepPlan::Process(
            if last + hop < total {
                (last + hop) as u64
            } else {
                total
            },
        )
    } else if stop {
        StepPlan::Stop
    } else {
        StepPlan::Wait
    }
}

pub fn plan_step(total: u64, last: u64, hop: u64, min: u64, stop: bool) -> (r: StepPlan)
    ensures
        r == planned_step(total, last, hop, min, stop),
{
    let fresh: u64 = total.saturating_sub(last);
    if fresh >= hop && total >= min {
        let end: u64 = last.saturating_add(hop);
        StepPlan::Process(
            if end < total {
                end
            } else {
                total
            },
        )
    } else if stop {
        StepPlan::Stop
    } else {
        StepPlan::Wait
    }
}

/// A step never goes back and never beyond the audio; with a hop it goes on.
pub proof fn law_steps_advance(total: u64, last: u64, hop: u64, min: u64, stop: bool)
    requires
        last <= total,
    ensures
        planned_step(total, last, hop, min, stop) matches StepPlan::Process(end) ==> last <= end <= total && (hop > 0
            ==> last < end),
{
}

/// Whether a session that was asked to stop is done after a step that ended at
/// `last`.
pub fn is_done(stop: bool, total: u64, last: u64, hop: u64) -> (r: bool)
    ensures
        r == (stop && saturating_diff(total, last) < hop),
{
    stop && total.saturating_sub(last) < hop
}

/// Milliseconds from `since` to `now`, in seconds.
pub open spec fn seconds_since<S: Scalar>(now_ms: u64, since_ms: u64) -> S {
    S::whole_spec(saturating_diff(now_ms, since_ms) as nat).over_spec(S::whole_spec(1000))
}

pub fn elapsed_s<S: Scalar>(now_ms: u64, since_ms: u64) -> (r: S)
    ensures
        r == seconds_since::<S>(now_ms, since_ms),
{
    S::whole(now_ms.saturating_sub(since_ms)).over(S::whole(1000))
}

/// A limit that is set (finite and positive) has passed since `since_ms`, which
/// is zero for never.
pub open spec fn has_passed<S: Scalar>(now_ms: u64, since_ms: u64, limit_s: S) -> bool {
    since_ms > 0 && exceeds(limit_s, S::whole_spec(0)) && limit_s.rank() <= seconds_since::<S>(
        now_ms,
        since_ms,
    ).rank()
}

/// The seconds since `since_ms`, if a limit has passed.
pub fn passed_limit<S: Scalar>(now_ms: u64, since_ms: u64, limit_s: S) -> (r: Option<S>)
    ensures
        r == (if has_passed(now_ms, since_ms, limit_s) {
            Some(seconds_since::<S>(now_ms, since_ms))
        } else {
            None
        }),
{
    if since_ms > 0 && limit_s.is_finite() && S::whole(0).below(limit_s) {
        let s: S = elapsed_s(now_ms, since_ms);
        if !s.below(limit_s) {
            return Some(s);
        }
    }
    None
}

#[derive(Clone, Copy, Debug, PartialEq, Eq, Structural)]
pub enum EndReason {
    /// The stream is as long as it may be.
    AudioLimit,
    AuthExpired,
    NoAudio,
    Silence,
}

/// Whether the permission to stream has run out, or will within `grace_s`. Zero
/// stands for no expiry.
pub open spec fn is_expired(now_s: u64, expires_s: u64, grace_s: u64) -> bool {
    expires_s > 0 && (if now_s + grace_s > u64::MAX {
        u64::MAX as int
    } else {
        now_s + grace_s
    }) > expires_s
}

/// What a session is watched for.
pub struct Watch<S> {
    pub now_s: u64,
    pub now_ms: u64,
    pub auth_expires_s: u64,
    pub auth_grace_s: u64,
    pub last_audio_ms: u64,
    pub no_audio_stop_after_s: S,
    pub silent_since_ms: u64,
    pub silence_stop_after_s: S,
}

/// Why a session ends now, and after how many seconds.
pub open spec fn end_reason<S: Scalar>(w: Watch<S>) -> Option<(EndReason, Option<S>)> {
    if is_expired(w.now_s, w.auth_expires_s, w.auth_grace_s) {
        Some((EndReason::AuthExpired, None))
    } else if has_passed(w.now_ms, w.last_audio_ms, w.no_audio_stop_after_s) {
        Some((EndReason::NoAudio, Some(seconds_since::<S>(w.now_ms, w.last_audio_ms))))
    } else if has_passed(w.now_ms, w.silent_since_ms, w.silence_stop_after_s) {
        Some((EndReason::Silence, Some(seconds_since::<S>(w.now_ms, w.silent_since_ms))))
    } else {
        None
    }
}

pub fn check_session<S: Scalar>(w: &Watch<S>) -> (r: Option<(EndReason, Option<S>)>)
    ensures
        r == end_reason(*w),
{
    if w.auth_expires_s > 0 && w.now_s.saturating_add(w.auth_grace_s) > w.auth_expires_s {
        return Some((EndReason::AuthExpired, None));
    }
    match passed_limit(w.now_ms, w.last_audio_ms, w.no_audio_stop_after_s) {
        Some(s) => return Some((EndReason::NoAudio, Some(s))),
        None => {},
    }
    match passed_limit(w.now_ms, w.silent_since_ms, w.silence_stop_after_s) {
        Some(s) => Some((EndReason::Silence, Some(s))),
        None => None,
    }
}

/// A byte count in seconds.
pub open spec fn byte_time<S: Scalar>(bytes: u64, bytes_per_s: u64) -> S {
    S::whole_spec(bytes as nat).over_spec(S::whole_spec(bytes_per_s as nat))
}

pub fn seconds_at<S: Scalar>(bytes: u64, bytes_per_s: u64) -> (r: S)
    ensures
        r == byte_time::<S>(bytes, bytes_per_s),
{
    S::whole(bytes).over(S::whole(bytes_per_s))
}

// ---------------------------------------------------------------------------
// The audio of a step

/// A piece of the stream: its samples, and where it begins and ends.
pub struct PcmSlice {
    pub pcm: Vec<u8>,
    pub start_byte: u64,
    pub end_byte: u64,
}

/// Where a piece of `window` bytes that ends at `end` begins and ends, as far as
/// the last `kept` bytes of `total` reach.
pub open spec fn slice_bounds(kept: nat, total: u64, end: u64, window: u64) -> (int, int) {
    let first = if total < kept {
        0
    } else {
        total - kept
    };
    let to0 = if end < total {
        end as int
    } else {
        total as int
    };
    let to = if to0 < first {
        first
    } else {
        to0
    };
    let from0 = if to < window {
        0
    } else {
        to - window
    };
    let from = if from0 < first {
        first
    } else {
        from0
    };
    (from, to)
}

/// A sequence without its last byte, if that is half a sample.
pub open spec fn whole_samples(s: Seq<u8>) -> Seq<u8> {
    if s.len() % 2 != 0 {
        s.drop_last()
    } else {
        s
    }
}

/// The samples of a piece among the kept bytes.
pub open spec fn slice_samples(kept: Seq<u8>, total: u64, end: u64, window: u64) -> Seq<u8> {
    let first = if total < kept.len() {
        0
    } else {
        total - kept.len()
    };
    let b = slice_bounds(kept.len(), total, end, window);
    let from = min_len(b.0 - first, kept.len() as int);
    let to = min_len(b.1 - first, kept.len() as int);
    whole_samples(kept.subrange(from, to))
}

pub open spec fn min_len(a: int, b: int) -> int {
    if a < b {
        a
    } else {
        b
    }
}

/// The last `window` bytes in front of byte `end` of a stream of `total` bytes.
pub fn extract_pcm_range(buf: &RingBuf, total: u64, end: u64, window: u64) -> (r: PcmSlice)
    requires
        buf.wf(),
    ensures
        (r.start_byte as int, r.end_byte as int) == slice_bounds(buf@.len(), total, end, window),
        r.pcm@ == slice_samples(buf@, total, end, window),
{
    let kept: u64 = buf.len() as u64;
    let first: u64 = total.saturating_sub(kept);
    let to0: u64 = if end < total {
        end
    } else {
        total
    };
    let to: u64 = if to0 < first {
        first
    } else {
        to0
    };
    let from0: u64 = to.saturating_sub(window);
    let from: u64 = if from0 < first {
        first
    } else {
        from0
    };
    let a: u64 = from - first;
    let b: u64 = to - first;
    let lo: usize = if a < kept {
        a as usize
    } else {
        buf.len()
    };
    let hi: usize = if b < kept {
        b as usize
    } else {
        buf.len()
    };
    let mut pcm = buf.copy_range(lo, hi - lo);
    assert(pcm@ =~= buf@.subrange(lo as int, hi as int));
    if pcm.len() % 2 != 0 {
        pcm.pop();
        assert(pcm@ =~= buf@.subrange(lo as int, hi as int).drop_last());
    }
    PcmSlice { pcm, start_byte: from, end_byte: to }
}

/// While the buffer holds the end of the stream, a piece is that part of the
/// stream which its bounds name, in whole samples.
pub proof fn law_slice_is_part_of_the_stream(all: Seq<u8>, cap: nat, end: u64, window: u64)
    requires
        all.len() <= u64::MAX,
    ensures
        ({
            let total = all.len() as u64;
            let kept = ring::last_bytes(all, cap);
            let b = slice_bounds(kept.len(), total, end, window);
            &&& 0 <= b.0 <= b.1 <= all.len()
            &&& slice_samples(kept, total, end, window) == whole_samples(all.subrange(b.0, b.1))
        }),
{
    let total = all.len() as u64;
    let kept = ring::last_bytes(all, cap);
    let first = total - kept.len();
    let b = slice_bounds(kept.len(), total, end, window);
    assert(kept.subrange(b.0 - first, b.1 - first) =~= all.subrange(b.0, b.1));
}

// ---------------------------------------------------------------------------
// The transcript

#[derive(Clone, Copy, Debug, PartialEq, Eq, Structural)]
pub enum TranscribeMode {
    /// The whole window is heard anew.
    Refresh,
    /// Only its end is heard.
    Tail,
}

/// The words of the window, and when it was last heard as a whole.
pub struct RollingTranscript<S> {
    pub words: Vec<TimedWord<S>>,
    pub last_full_refresh_end_s: S,
    pub force_refresh_next: bool,
}

impl<S: Scalar> RollingTranscript<S> {
    pub fn new() -> (r: Self)
        ensures
            rolling::spoken(r.words@) == Seq::<rolling::Spoken<S>>::empty(),
            r.last_full_refresh_end_s == S::whole_spec(0),
            !r.force_refresh_next,
    {
        let r = RollingTranscript {
            words: Vec::new(),
            last_full_refresh_end_s: S::whole(0),
            force_refresh_next: false,
        };
        assert(rolling::spoken(r.words@) =~= Seq::<rolling::Spoken<S>>::empty());
        r
    }

    /// A refresh is due: it was asked for, or `every_s` is set and has passed.
    pub open spec fn refresh_due(self, end_s: S, every_s: S) -> bool {
        self.force_refresh_next || (exceeds(every_s, S::whole_spec(0)) && every_s.rank() <= end_s.minus_spec(
            self.last_full_refresh_end_s,
        ).rank())
    }

    /// How the step that ends at `end_s` is heard. A refresh that was asked for is
    /// asked for once.
    pub fn choose_mode(&mut self, end_s: S, every_s: S) -> (r: TranscribeMode)
        ensures
            r == (if old(self).refresh_due(end_s, every_s) {
                TranscribeMode::Refresh
            } else {
                TranscribeMode::Tail
            }),
            final(self).words == old(self).words,
            final(self).last_full_refresh_end_s == old(self).last_full_refresh_end_s,
            !final(self).force_refresh_next,
    {
        if self.force_refresh_next {
            self.force_refresh_next = false;
            TranscribeMode::Refresh
        } else if every_s.is_finite() && S::whole(0).below(every_s) && !end_s.minus(
            self.last_full_refresh_end_s,
        ).below(every_s) {
            TranscribeMode::Refresh
        } else {
            TranscribeMode::Tail
        }
    }

    /// Takes in the words of the step that ends at `process_end_s` and was heard
    /// from `start_s` to `end_s`. Gives the words to align.
    pub fn ingest(
        &mut self,
        mode: TranscribeMode,
        new_words: Vec<TimedWord<S>>,
        start_s: S,
        end_s: S,
        align_start_s: S,
        process_end_s: S,
    ) -> (r: Vec<TimedWord<S>>)
        ensures
            rolling::spoken(final(self).words@) == (if mode == TranscribeMode::Refresh {
                rolling::spoken(new_words@)
            } else {
                rolling::rolled(
                    rolling::spoken(old(self).words@),
                    rolling::spoken(new_words@),
                    start_s,
                    end_s,
                    align_start_s,
                )
            }),
            final(self).last_full_refresh_end_s == (if mode == TranscribeMode::Refresh {
                process_end_s
            } else {
                old(self).last_full_refresh_end_s
            }),
            final(self).force_refresh_next == old(self).force_refresh_next,
            rolling::spoken(r@) == rolling::words_within(
                rolling::spoken(final(self).words@),
                align_start_s,
                process_end_s,
            ),
    {
        match mode {
            TranscribeMode::Refresh => {
                self.words = new_words;
                self.last_full_refresh_end_s = process_end_s;
            },
            TranscribeMode::Tail => {
                rolling::ingest_words_into_rolling(&mut self.words, new_words, start_s, end_s, align_start_s);
            },
        }
        rolling::select_words(&self.words, align_start_s, process_end_s)
    }

    /// Forgets words while the stream is silent.
    pub fn advance(&mut self, keep_start_s: S)
        ensures
            rolling::spoken(final(self).words@) == rolling::recent(rolling::spoken(old(self).words@), keep_start_s),
            final(self).last_full_refresh_end_s == old(self).last_full_refresh_end_s,
            final(self).force_refresh_next == old(self).force_refresh_next,
    {
        let kept = rolling::prune_words(&self.words, keep_start_s);
        self.words = kept;
    }

    /// Reacts to what a guess led to. After a far jump the words in front of it are
    /// forgotten; after poor guesses a refresh is asked for, if the last one is at
    /// least eight seconds ago.
    pub fn react(&mut self, p: &Progress, mode: TranscribeMode, process_end_s: S, window_s: S)
        ensures
            is_reaction(*old(self), *p, mode, process_end_s, window_s, *final(self)),
    {
        if far_jump(p) {
            self.words.clear();
            self.last_full_refresh_end_s = S::whole(0);
            self.force_refresh_next = true;
            assert(rolling::spoken(self.words@) =~= Seq::<rolling::Spoken<S>>::empty());
        } else if asks_refresh(p, mode, process_end_s, window_s) {
            if !process_end_s.minus(self.last_full_refresh_end_s).below(S::whole(8)) {
                self.force_refresh_next = true;
            }
        }
    }
}

pub open spec fn skipped_count(p: Progress) -> u16 {
    match p.skipped {
        Some(n) => n,
        None => 0,
    }
}

/// A new start, or a jump over 20 verses or more.
pub open spec fn is_far_jump(p: Progress) -> bool {
    p.action == Action::ResetCommitted || (p.action == Action::CommitSkip && skipped_count(p) >= 20)
}

/// Poor guesses ask for a refresh, unless this was one or the stream is shorter
/// than a window.
pub open spec fn wants_refresh<S: Scalar>(p: Progress, mode: TranscribeMode, process_end_s: S, window_s: S) -> bool {
    p.want_low_conf_refresh && mode != TranscribeMode::Refresh && window_s.rank() <= process_end_s.rank()
}

/// The transcript after what a guess led to.
pub open spec fn is_reaction<S: Scalar>(
    t: RollingTranscript<S>,
    p: Progress,
    mode: TranscribeMode,
    process_end_s: S,
    window_s: S,
    r: RollingTranscript<S>,
) -> bool {
    if is_far_jump(p) {
        &&& rolling::spoken(r.words@) == Seq::<rolling::Spoken<S>>::empty()
        &&& r.last_full_refresh_end_s == S::whole_spec(0)
        &&& r.force_refresh_next
    } else {
        &&& r.words == t.words
        &&& r.last_full_refresh_end_s == t.last_full_refresh_end_s
        &&& r.force_refresh_next == (t.force_refresh_next || (wants_refresh(p, mode, process_end_s, window_s)
            && S::whole_spec(8).rank() <= process_end_s.minus_spec(t.last_full_refresh_end_s).rank()))
    }
}

fn count_skipped(p: &Progress) -> (r: u16)
    ensures
        r == skipped_count(*p),
{
    match p.skipped {
        Some(n) => n,
        None => 0,
    }
}

fn far_jump(p: &Progress) -> (r: bool)
    ensures
        r == is_far_jump(*p),
{
    p.action == Action::ResetCommitted || (p.action == Action::CommitSkip && count_skipped(p) >= 20)
}

fn asks_refresh<S: Scalar>(p: &Progress, mode: TranscribeMode, process_end_s: S, window_s: S) -> (r: bool)
    ensures
        r == wants_refresh(*p, mode, process_end_s, window_s),
{
    p.want_low_conf_refresh && mode != TranscribeMode::Refresh && !process_end_s.below(window_s)
}

// ---------------------------------------------------------------------------
// What the client is told

#[derive(Clone, Copy, Debug, PartialEq, Eq, Structural)]
pub enum UxState {
    Tracking,
    Uncertain,
    Seeking,
}

#[derive(Clone, Copy, Debug, PartialEq, Eq, Structural)]
pub enum Alert {
    SurahJump(u16),
    AyahSkip(u16),
    ResetDetected,
    IgnoredBackwardGuess,
    JumpPruned(u16),
    RefreshScheduled,
    FullRefresh,
    NeedMoreAudio,
}

/// How sure the display may be.
pub open spec fn ux_of<S: Scalar>(stable: bool, conf: S) -> UxState {
    if stable && S::milli_spec(320).rank() <= conf.rank() {
        UxState::Tracking
    } else if stable {
        UxState::Uncertain
    } else {
        UxState::Seeking
    }
}

pub fn ux_state<S: Scalar>(stable: bool, conf: S) -> (r: UxState)
    ensures
        r == ux_of(stable, conf),
{
    if stable && !conf.below(S::milli(320)) {
        UxState::Tracking
    } else if stable {
        UxState::Uncertain
    } else {
        UxState::Seeking
    }
}

pub open spec fn maybe(on: bool, a: Alert) -> Seq<Alert> {
    if on {
        seq![a]
    } else {
        Seq::empty()
    }
}

/// The alerts of a step, in the order in which they are told.
pub open spec fn alerts_of<S: Scalar>(
    p: Progress,
    mode: TranscribeMode,
    process_end_s: S,
    window_s: S,
    rolling_words: int,
    conf: S,
) -> Seq<Alert> {
    let n = skipped_count(p);
    maybe(
        p.action == Action::CommitSkip && n > 0,
        if n >= 20 {
            Alert::SurahJump(n)
        } else {
            Alert::AyahSkip(n)
        },
    ) + maybe(p.action == Action::ResetCommitted, Alert::ResetDetected) + maybe(
        p.action == Action::IgnoreBackward,
        Alert::IgnoredBackwardGuess,
    ) + maybe(is_far_jump(p), Alert::JumpPruned(n)) + maybe(
        wants_refresh(p, mode, process_end_s, window_s),
        Alert::RefreshScheduled,
    ) + maybe(mode == TranscribeMode::Refresh, Alert::FullRefresh) + maybe(
        rolling_words < 8 && conf.rank() < S::milli_spec(250).rank() && S::whole_spec(4).rank()
            <= process_end_s.rank(),
        Alert::NeedMoreAudio,
    )
}

pub fn list_alerts<S: Scalar>(
    p: &Progress,
    mode: TranscribeMode,
    process_end_s: S,
    window_s: S,
    rolling_words: usize,
    conf: S,
) -> (r: Vec<Alert>)
    ensures
        r@ == alerts_of(*p, mode, process_end_s, window_s, rolling_words as int, conf),
{
    let n: u16 = count_skipped(p);
    let mut out: Vec<Alert> = Vec::new();
    if p.action == Action::CommitSkip && n > 0 {
        out.push(
            if n >= 20 {
                Alert::SurahJump(n)
            } else {
                Alert::AyahSkip(n)
            },
        );
    }
    if p.action == Action::ResetCommitted {
        out.push(Alert::ResetDetected);
    }
    if p.action == Action::IgnoreBackward {
        out.push(Alert::IgnoredBackwardGuess);
    }
    if far_jump(p) {
        out.push(Alert::JumpPruned(n));
    }
    if asks_refresh(p, mode, process_end_s, window_s) {
        out.push(Alert::RefreshScheduled);
    }
    if mode == TranscribeMode::Refresh {
        out.push(Alert::FullRefresh);
    }
    if rolling_words < 8 && conf.below(S::milli(250)) && !process_end_s.below(S::whole(4)) {
        out.push(Alert::NeedMoreAudio);
    }
    assert(out@ =~= alerts_of(*p, mode, process_end_s, window_s, rolling_words as int, conf));
    out
}

/// The end of a long text: as many characters are left out in front as its bytes
/// exceed 400.
pub open spec fn text_tail_of(s: Seq<char>) -> Seq<char> {
    let n = vstd::utf8::encode_utf8(s).len();
    if n > 400 {
        if n - 400 <= s.len() {
            s.skip(n - 400)
        } else {
            Seq::empty()
        }
    } else {
        s
    }
}

pub fn text_tail(s: &str) -> (r: String)
    ensures
        r@ == text_tail_of(s@),
{
    let n: usize = s.as_bytes().len();
    if n > 400 {
        let cs = chars::to_chars(s);
        let from: usize = if n - 400 <= cs.len() {
            n - 400
        } else {
            cs.len()
        };
        let r = chars::from_chars(&cs, from, cs.len());
        assert(r@ =~= text_tail_of(s@));
        r
    } else {
        s.to_owned()
    }
}

// ---------------------------------------------------------------------------
// Messages of the client

pub enum Control {
    Stop,
    AuthRefresh(String),
    Ignore,
}

/// What a message of the client asks for.
pub open spec fn is_control<S: Scalar>(msg: Json<S>, r: Control) -> bool {
    let ty = Json::text_or_empty(msg.field("type"@));
    if ty == "stop"@ || ty == "end"@ {
        r is Stop
    } else if ty == "auth_refresh"@ {
        r matches Control::AuthRefresh(t) && t@ == Json::text_or_empty(msg.field("token"@))
    } else {
        r is Ignore
    }
}

pub fn read_control<S: Scalar>(msg: &Json<S>) -> (r: Control)
    ensures
        is_control(*msg, r),
{
    let ty = msg.text_field("type");
    if chars::same_text(ty, "stop") || chars::same_text(ty, "end") {
        Control::Stop
    } else if chars::same_text(ty, "auth_refresh") {
        Control::AuthRefresh(msg.text_field("token").to_owned())
    } else {
        Control::Ignore
    }
}

#[derive(Clone, Copy, Debug, PartialEq, Eq, Structural)]
pub enum TokenError {
    Missing,
    NotConfigured,
    SidMismatch,
    AdminRequired,
}

/// What a client is told of a refused token.
pub open spec fn token_message(e: TokenError) -> Seq<char> {
    match e {
        TokenError::Missing => "missing token"@,
        TokenError::NotConfigured => "server not configured for stream jwt"@,
        TokenError::SidMismatch => "sid mismatch"@,
        TokenError::AdminRequired => "admin role required"@,
    }
}

impl TokenError {
    pub fn message(self) -> (r: &'static str)
        ensures
            r@ == token_message(self),
    {
        match self {
            TokenError::Missing => "missing token",
            TokenError::NotConfigured => "server not configured for stream jwt",
            TokenError::SidMismatch => "sid mismatch",
            TokenError::AdminRequired => "admin role required",
        }
    }
}

/// What is refused before a token is decoded.
pub fn check_token_setup(token: &str, secret: &str) -> (r: Option<TokenError>)
    ensures
        r == (if chars::trimmed(token@).len() == 0 {
            Some(TokenError::Missing)
        } else if chars::trimmed(secret@).len() == 0 {
            Some(TokenError::NotConfigured)
        } else {
            None
        }),
{
    if text::is_blank(chars::trim(token).as_str()) {
        Some(TokenError::Missing)
    } else if text::is_blank(chars::trim(secret).as_str()) {
        Some(TokenError::NotConfigured)
    } else {
        None
    }
}

/// The text of an optional claim is `t`.
pub open spec fn claims(claim: Option<&str>, t: Seq<char>) -> bool {
    claim matches Some(s) && s@ == t
}

/// What is refused of the claims of a decoded token for session `id`.
pub fn check_token_claims(sid: Option<&str>, role: Option<&str>, id: &str) -> (r: Option<TokenError>)
    ensures
        r == (if !claims(sid, id@) {
            Some(TokenError::SidMismatch)
        } else if !claims(role, "admin"@) {
            Some(TokenError::AdminRequired)
        } else {
            None
        }),
{
    let sid_ok: bool = match sid {
        Some(s) => chars::same_text(s, id),
        None => false,
    };
    if !sid_ok {
        return Some(TokenError::SidMismatch);
    }
    let role_ok: bool = match role {
        Some(s) => chars::same_text(s, "admin"),
        None => false,
    };
    if !role_ok {
        return Some(TokenError::AdminRequired);
    }
    None
}

// ---------------------------------------------------------------------------
// Addresses

/// The path of a session's stream.
pub fn ws_path(id: &str) -> (r: String)
    ensures
        r@ == "/v1/sessions/"@ + id@ + "/stream"@,
{
    let mut out = "/v1/sessions/".to_owned();
    out.append(id);
    out.append("/stream");
    assert(out@ =~= "/v1/sessions/"@ + id@ + "/stream"@);
    out
}

/// Without the slashes behind.
pub open spec fn without_slashes(s: Seq<char>) -> Seq<char>
    decreases s.len(),
{
    if s.len() > 0 && s.last() == '/' {
        without_slashes(s.drop_last())
    } else {
        s
    }
}

/// The address of a socket: the server's address with the scheme of sockets, and
/// the path.
pub open spec fn socket_address(http_base: Seq<char>, path: Seq<char>) -> Seq<char> {
    let base = without_slashes(http_base);
    (if chars::starts_with(base, "https://"@) {
        "wss://"@ + base.skip(8)
    } else if chars::starts_with(base, "http://"@) {
        "ws://"@ + base.skip(7)
    } else {
        base
    }) + path
}

pub fn trim_slashes(s: &str) -> (r: String)
    ensures
        r@ == without_slashes(s@),
{
    let cs = chars::to_chars(s);
    let mut n: usize = cs.len();
    assert(cs@.take(n as int) =~= cs@);
    while n > 0 && cs[n - 1] == '/'
        invariant
            n <= cs@.len(),
            without_slashes(cs@) == without_slashes(cs@.take(n as int)),
        ensures
            n <= cs@.len(),
            without_slashes(cs@) == cs@.take(n as int),
        decreases n,
    {
        assert(cs@.take(n as int).drop_last() =~= cs@.take(n - 1));
        assert(cs@.take(n as int).last() == cs@[n - 1]);
        n = n - 1;
    }
    assert(cs@.subrange(0, n as int) =~= cs@.take(n as int));
    chars::from_chars(&cs, 0, n)
}

pub fn ws_url_from_http_base(http_base: &str, ws_path: &str) -> (r: String)
    ensures
        r@ == socket_address(http_base@, ws_path@),
{
    let base = trim_slashes(http_base);
    let cs = chars::to_chars(base.as_str());
    let secure = chars::to_chars("https://");
    let plain = chars::to_chars("http://");
    proof {
        reveal_strlit("https://");
        reveal_strlit("http://");
        assert(cs@.skip(0) =~= cs@);
    }
    let mut out: String;
    if chars::text_at(&cs, 0, &secure) {
        out = "wss://".to_owned();
        let rest = chars::from_chars(&cs, 8, cs.len());
        assert(rest@ =~= cs@.skip(8));
        out.append(rest.as_str());
    } else if chars::text_at(&cs, 0, &plain) {
        out = "ws://".to_owned();
        let rest = chars::from_chars(&cs, 7, cs.len());
        assert(rest@ =~= cs@.skip(7));
        out.append(rest.as_str());
    } else {
        out = base;
    }
    out.append(ws_path);
    assert(out@ =~= socket_address(http_base@, ws_path@));
    out
}

/// Where a client finds the socket of a session: at the host that it asked, under
/// the scheme that it used; without a host, at the path alone.
pub open spec fn session_address(host: Option<&str>, proto: Option<&str>, ws_path: Seq<char>) -> Seq<char> {
    match host {
        None => ws_path,
        Some(h) => socket_address(
            (match proto {
                Some(p) => p@,
                None => "http"@,
            }) + "://"@ + h@,
            ws_path,
        ),
    }
}

pub fn session_ws_url(host: Option<&str>, proto: Option<&str>, ws_path: &str) -> (r: String)
    ensures
        r@ == session_address(host, proto, ws_path@),
{
    match host {
        None => ws_path.to_owned(),
        Some(h) => {
            let mut base = match proto {
                Some(p) => p.to_owned(),
                None => "http".to_owned(),
            };
            base.append("://");
            base.append(h);
            ws_url_from_http_base(base.as_str(), ws_path)
        },
    }
}

/// Where a transcriber takes audio.
pub fn transcribe_url(base: &str) -> (r: String)
    ensures
        r@ == without_slashes(base@) + "/v1/transcribe"@,
{
    let mut out = trim_slashes(base);
    out.append("/v1/transcribe");
    out
}

// ---------------------------------------------------------------------------
// Laws on streams

/// What a client asks for is taken; what it leaves open is 16 kHz, mono, a window of 20
/// seconds, a hop of two, a buffer of 90 and two seconds to begin with.
pub proof fn law_requests_override_the_standard<S: Scalar>(q: StreamRequest<S>)
    ensures
        ({
            let r = requested(q);
            &&& r.sample_rate_hz == (if q.sample_rate_hz is Some {
                q.sample_rate_hz->0
            } else {
                16_000
            })
            &&& r.channels == (if q.channels is Some {
                q.channels->0
            } else {
                1
            })
            &&& r.window_s == (if q.window_s is Some {
                q.window_s->0
            } else {
                S::whole_spec(20)
            })
            &&& r.hop_s == (if q.hop_s is Some {
                q.hop_s->0
            } else {
                S::whole_spec(2)
            })
            &&& r.buffer_s == (if q.buffer_s is Some {
                q.buffer_s->0
            } else {
                S::whole_spec(90)
            })
            &&& r.min_process_s == (if q.min_process_s is Some {
                q.min_process_s->0
            } else {
                S::whole_spec(2)
            })
        }),
{
}

/// Values that cannot be used are replaced one by one: a window of up to half a second by
/// 20 seconds, a hop of up to a tenth by two, one that is not shorter than the window by
/// half of it but at least half a second, a buffer shorter than the window by twice the
/// window but at least 30 seconds, and nothing to begin with by two seconds.
pub proof fn law_unusable_values_are_replaced<S: Scalar>(cfg: StreamConfig<S>)
    ensures
        ({
            let r = usable(cfg);
            let w_ok = cfg.window_s.finite_spec() && S::milli_spec(500).rank() < cfg.window_s.rank();
            let h_ok = cfg.hop_s.finite_spec() && S::milli_spec(100).rank() < cfg.hop_s.rank();
            let half = r.window_s.over_spec(S::whole_spec(2));
            let double = r.window_s.times_spec(S::whole_spec(2));
            &&& r.sample_rate_hz == cfg.sample_rate_hz && r.channels == cfg.channels
            &&& w_ok ==> r.window_s == cfg.window_s
            &&& !w_ok ==> r.window_s == S::whole_spec(20)
            &&& h_ok && cfg.hop_s.rank() < r.window_s.rank() ==> r.hop_s == cfg.hop_s
            &&& !h_ok && S::whole_spec(2).rank() < r.window_s.rank() ==> r.hop_s == S::whole_spec(2)
            &&& h_ok && r.window_s.rank() <= cfg.hop_s.rank() ==> half.rank() <= r.hop_s.rank() && S::milli_spec(500).rank()
                <= r.hop_s.rank() && (r.hop_s == half || r.hop_s == S::milli_spec(500))
            &&& cfg.buffer_s.finite_spec() && r.window_s.rank() <= cfg.buffer_s.rank() ==> r.buffer_s == cfg.buffer_s
            &&& !(cfg.buffer_s.finite_spec() && r.window_s.rank() <= cfg.buffer_s.rank()) ==> double.rank()
                <= r.buffer_s.rank() && S::whole_spec(30).rank() <= r.buffer_s.rank() && (r.buffer_s == double
                || r.buffer_s == S::whole_spec(30))
            &&& cfg.min_process_s.finite_spec() && S::whole_spec(0).rank() < cfg.min_process_s.rank() ==> r.min_process_s
                == cfg.min_process_s
            &&& !(cfg.min_process_s.finite_spec() && S::whole_spec(0).rank() < cfg.min_process_s.rank())
                ==> r.min_process_s == S::whole_spec(2)
        }),
{
}

/// The tail that is heard is the hop and the context before it, no shorter than the hop
/// and no longer than the window, or the hop where that is longer.
pub proof fn law_tail_lies_between_hop_and_window<S: Scalar>(cfg: StreamConfig<S>, context: S)
    ensures
        ({
            let r = tail_seconds(cfg, context);
            let both = cfg.hop_s.plus_spec(context);
            &&& cfg.hop_s.rank() <= r.rank()
            &&& r.rank() <= cfg.window_s.rank() || r.rank() <= cfg.hop_s.rank()
            &&& cfg.hop_s.rank() <= both.rank() <= cfg.window_s.rank() ==> r == both || r.rank() == both.rank()
            &&& cfg.hop_s.rank() <= cfg.window_s.rank() < both.rank() ==> r == cfg.window_s || r.rank()
                == cfg.window_s.rank()
        }),
{
}

/// A stretch of audio has as many bytes as it has seconds times bytes per second, of which
/// every sample has two for each channel. Stretches below the least one count as that.
pub proof fn law_sizes_follow_the_rate(cfg: StreamConfig<scalar::Thousandths>, context: scalar::Thousandths)
    requires
        cfg.sample_rate_hz == 16_000 && cfg.channels == 1,
        500 <= cfg.window_s.count <= 1_000_000_000,
        100 <= cfg.hop_s.count <= 1_000_000_000,
        100 <= cfg.min_process_s.count <= 1_000_000_000,
    ensures
        ({
            let r = sizes_of(cfg, context);
            &&& r.bytes_per_s == 32_000
            &&& r.hop_bytes == 32 * cfg.hop_s.count
            &&& r.window_bytes == 32 * cfg.window_s.count
            &&& r.min_process_bytes == 32 * cfg.min_process_s.count
        }),
{
    assert(cfg.byte_rate() == 32_000);
    lemma_bytes_of(cfg.hop_s, scalar::Thousandths::milli_spec(100));
    lemma_bytes_of(cfg.window_s, scalar::Thousandths::milli_spec(500));
    lemma_bytes_of(cfg.min_process_s, scalar::Thousandths::milli_spec(100));
}

proof fn lemma_bytes_of(s: scalar::Thousandths, least: scalar::Thousandths)
    requires
        0 <= least.count <= s.count <= 1_000_000_000,
    ensures
        bytes_of(s, least, 32_000) == 32 * s.count,
{
    let rate = scalar::Thousandths::whole_spec(32_000);
    assert(rate.count == 32_000_000);
    let x = scalar::max_spec(s, least).count;
    assert(x == s.count);
    assert(x * rate.count == x * 32_000_000) by (nonlinear_arith)
        requires
            rate.count == 32_000_000,
    ;
    assert((x * 32_000_000) / 1000 == x * 32_000);
}

/// Audio is processed as soon as a hop of it has come since the last time and there is
/// enough to begin with: up to the end of that hop. Else a stream that is to stop stops,
/// and another one waits.
pub proof fn law_audio_is_processed_hop_by_hop(total: u64, last: u64, hop: u64, min: u64, stop: bool)
    ensures
        last + hop <= total && min <= total ==> planned_step(total, last, hop, min, stop) == StepPlan::Process(
            (last + hop) as u64,
        ),
        total < min || (last <= total < last + hop) ==> planned_step(total, last, hop, min, stop) == (if stop {
            StepPlan::Stop
        } else {
            StepPlan::Wait
        }),
{
}

/// A limit is passed when as many seconds have gone by since a time that is known. One
/// that is not positive is never passed.
pub proof fn law_limits_pass_with_time(now_ms: u64, since_ms: u64, limit_s: scalar::Thousandths)
    requires
        now_ms <= 1_000_000_000_000_000,
    ensures
        has_passed(now_ms, since_ms, limit_s) <==> since_ms > 0 && limit_s.count > 0 && (if since_ms <= now_ms {
            now_ms - since_ms
        } else {
            0
        }) >= limit_s.count,
        since_ms <= now_ms ==> seconds_since::<scalar::Thousandths>(now_ms, since_ms).count == now_ms - since_ms,
{
    let d = saturating_diff(now_ms, since_ms);
    assert((d * 1000 * 1000) / 1_000_000 == d);
}

/// A session ends when its token is to expire within the grace time, when no audio came
/// for too long, or when there was silence for too long, in this order.
pub proof fn law_sessions_end<S: Scalar>(w: Watch<S>)
    ensures
        ({
            let r = end_reason(w);
            let expired = w.auth_expires_s > 0 && (w.now_s + w.auth_grace_s > w.auth_expires_s) && w.auth_expires_s
                < u64::MAX;
            let quiet = has_passed(w.now_ms, w.last_audio_ms, w.no_audio_stop_after_s);
            let silent = has_passed(w.now_ms, w.silent_since_ms, w.silence_stop_after_s);
            &&& r is None <==> !expired && !quiet && !silent
            &&& expired ==> r == Some((EndReason::AuthExpired, None::<S>))
            &&& !expired && quiet ==> r == Some(
                (EndReason::NoAudio, Some(seconds_since::<S>(w.now_ms, w.last_audio_ms))),
            )
            &&& !expired && !quiet && silent ==> r == Some(
                (EndReason::Silence, Some(seconds_since::<S>(w.now_ms, w.silent_since_ms))),
            )
        }),
{
}

/// Silence counts from the first silent frame of a row; a frame that is not silent ends
/// the row.
pub proof fn law_silence_counts_from_its_first_frame(prev: u64, t1: u64, t2: u64)
    requires
        0 < t1,
    ensures
        silence_from(0, t1, true) == t1,
        silence_from(silence_from(0, t1, true), t2, true) == t1,
        prev > 0 ==> silence_from(prev, t2, true) == prev,
        silence_from(prev, t2, false) == 0,
{
}

/// A listener is told that the recitation is tracked, if a chapter is locked and the
/// confidence is at least 0.32; uncertain with less; and sought where none is locked.
pub proof fn law_listeners_are_told_the_state<S: Scalar>(stable: bool, conf: S)
    ensures
        ux_of(stable, conf) == UxState::Tracking <==> stable && S::milli_spec(320).rank() <= conf.rank(),
        ux_of(stable, conf) == UxState::Uncertain <==> stable && conf.rank() < S::milli_spec(320).rank(),
        ux_of(stable, conf) == UxState::Seeking <==> !stable,
{
}

proof fn lemma_maybe(on: bool, a: Alert, x: Alert)
    ensures
        maybe(on, a).contains(x) <==> on && a == x,
{
    if on {
        assert(maybe(on, a)[0] == a);
    }
}

proof fn lemma_either(s: Seq<Alert>, t: Seq<Alert>, x: Alert)
    ensures
        (s + t).contains(x) <==> s.contains(x) || t.contains(x),
{
    let u = s + t;
    if s.contains(x) {
        let k = choose|k: int| 0 <= k < s.len() && s[k] == x;
        assert(u[k] == x);
    }
    if t.contains(x) {
        let k = choose|k: int| 0 <= k < t.len() && t[k] == x;
        assert(u[s.len() + k] == x);
    }
    if u.contains(x) {
        let k = choose|k: int| 0 <= k < u.len() && u[k] == x;
        if k < s.len() {
            assert(s[k] == x);
        } else {
            assert(t[k - s.len()] == x);
        }
    }
}

/// Listeners are alerted of what happened: a skip of up to 19 verses, or a jump over
/// more; a new start; a guess that was ignored; that words were dropped after a jump over
/// 20 verses or a new start; that the audio is or will be heard anew; and that more audio
/// is needed, where after four seconds fewer than eight words are heard with a confidence
/// below 0.25.
pub proof fn law_listeners_are_alerted<S: Scalar>(
    p: Progress,
    mode: TranscribeMode,
    process_end_s: S,
    window_s: S,
    rolling_words: int,
    conf: S,
    x: Alert,
)
    ensures
        ({
            let n = if p.skipped is Some {
                p.skipped->0
            } else {
                0
            };
            let far = p.action == Action::ResetCommitted || (p.action == Action::CommitSkip && n >= 20);
            alerts_of(p, mode, process_end_s, window_s, rolling_words, conf).contains(x) <==> match x {
                Alert::SurahJump(k) => p.action == Action::CommitSkip && n >= 20 && k == n,
                Alert::AyahSkip(k) => p.action == Action::CommitSkip && 0 < n < 20 && k == n,
                Alert::ResetDetected => p.action == Action::ResetCommitted,
                Alert::IgnoredBackwardGuess => p.action == Action::IgnoreBackward,
                Alert::JumpPruned(k) => far && k == n,
                Alert::RefreshScheduled => p.want_low_conf_refresh && mode != TranscribeMode::Refresh && window_s.rank()
                    <= process_end_s.rank(),
                Alert::FullRefresh => mode == TranscribeMode::Refresh,
                Alert::NeedMoreAudio => rolling_words < 8 && conf.rank() < S::milli_spec(250).rank() && S::whole_spec(
                    4,
                ).rank() <= process_end_s.rank(),
            }
        }),
{
    let n = skipped_count(p);
    let skip = if n >= 20 {
        Alert::SurahJump(n)
    } else {
        Alert::AyahSkip(n)
    };
    let a1 = maybe(p.action == Action::CommitSkip && n > 0, skip);
    let a2 = maybe(p.action == Action::ResetCommitted, Alert::ResetDetected);
    let a3 = maybe(p.action == Action::IgnoreBackward, Alert::IgnoredBackwardGuess);
    let a4 = maybe(is_far_jump(p), Alert::JumpPruned(n));
    let a5 = maybe(wants_refresh(p, mode, process_end_s, window_s), Alert::RefreshScheduled);
    let a6 = maybe(mode == TranscribeMode::Refresh, Alert::FullRefresh);
    let more = rolling_words < 8 && conf.rank() < S::milli_spec(250).rank() && S::whole_spec(4).rank()
        <= process_end_s.rank();
    let a7 = maybe(more, Alert::NeedMoreAudio);
    lemma_maybe(p.action == Action::CommitSkip && n > 0, skip, x);
    lemma_maybe(p.action == Action::ResetCommitted, Alert::ResetDetected, x);
    lemma_maybe(p.action == Action::IgnoreBackward, Alert::IgnoredBackwardGuess, x);
    lemma_maybe(is_far_jump(p), Alert::JumpPruned(n), x);
    lemma_maybe(wants_refresh(p, mode, process_end_s, window_s), Alert::RefreshScheduled, x);
    lemma_maybe(mode == TranscribeMode::Refresh, Alert::FullRefresh, x);
    lemma_maybe(more, Alert::NeedMoreAudio, x);
    lemma_either(a1, a2, x);
    lemma_either(a1 + a2, a3, x);
    lemma_either(a1 + a2 + a3, a4, x);
    lemma_either(a1 + a2 + a3 + a4, a5, x);
    lemma_either(a1 + a2 + a3 + a4 + a5, a6, x);
    lemma_either(a1 + a2 + a3 + a4 + a5 + a6, a7, x);
}

/// After a new start or a jump over 20 verses the words so far are dropped, and the audio
/// is heard anew. Else the words stay, and it is heard anew if guesses were poor, the
/// last full hearing lies eight seconds back, and a window of audio has come.
pub proof fn law_jumps_drop_the_words<S: Scalar>(
    t: RollingTranscript<S>,
    p: Progress,
    mode: TranscribeMode,
    process_end_s: S,
    window_s: S,
    r: RollingTranscript<S>,
)
    requires
        is_reaction(t, p, mode, process_end_s, window_s, r),
    ensures
        ({
            let far = p.action == Action::ResetCommitted || (p.action == Action::CommitSkip && (p.skipped matches Some(n)
                && n >= 20));
            &&& far ==> rolling::spoken(r.words@).len() == 0 && r.force_refresh_next && r.last_full_refresh_end_s
                == S::whole_spec(0)
            &&& !far ==> r.words == t.words && r.last_full_refresh_end_s == t.last_full_refresh_end_s
            &&& !far ==> (r.force_refresh_next <==> t.force_refresh_next || (p.want_low_conf_refresh && mode
                == TranscribeMode::Tail && window_s.rank() <= process_end_s.rank() && S::whole_spec(8).rank()
                <= process_end_s.minus_spec(t.last_full_refresh_end_s).rank()))
        }),
{
}

/// A sample is the number whose low byte comes first, below zero from half its range on.
pub proof fn law_samples_are_signed(bytes: Seq<u8>, i: int)
    requires
        0 <= i,
        2 * i + 1 < bytes.len(),
    ensures
        ({
            let raw = bytes[2 * i] as int + 256 * (bytes[2 * i + 1] as int);
            &&& raw < 32_768 ==> magnitude(bytes, i) == raw
            &&& raw >= 32_768 ==> magnitude(bytes, i) == 65_536 - raw
        }),
{
}

/// A frame is refused if it has half a sample or more than one channel; an empty one is
/// passed over.
pub proof fn law_frames_hold_whole_samples(len: int, channels: u16)
    requires
        0 <= len,
    ensures
        frame_kind(len, channels) == Ok::<Frame, FrameError>(Frame::Audio) <==> len > 0 && len % 2 == 0 && channels == 1,
        frame_kind(len, channels) == Ok::<Frame, FrameError>(Frame::Empty) <==> len == 0,
        frame_kind(len, channels) == Err::<Frame, FrameError>(FrameError::OddLength) <==> len % 2 == 1,
{
}

/// The buffer keeps the audio of its seconds and of a window, whichever is longer.
pub proof fn law_buffer_holds_its_seconds(cfg: StreamConfig<scalar::Thousandths>)
    requires
        cfg.sample_rate_hz == 16_000 && cfg.channels == 1,
        0 < cfg.window_s.count <= 10_000_000,
        0 < cfg.buffer_s.count <= 10_000_000,
    ensures
        32 * cfg.buffer_s.count <= kept_bytes(cfg),
        32 * cfg.window_s.count <= kept_bytes(cfg),
        cfg.window_s.count <= cfg.buffer_s.count ==> kept_bytes(cfg) < 32 * cfg.buffer_s.count + 32_000,
{
    let most = scalar::max_spec(cfg.buffer_s, cfg.window_s).count as int;
    let up = (most + 999) / 1000;
    assert(32_000 * up <= 400_000_000);
}

/// The tail of a short text is the text; that of a long one is an end of it, of four
/// hundred characters if each has one byte.
pub proof fn law_tail_is_the_end_of_the_text(s: Seq<char>)
    ensures
        ({
            let n = vstd::utf8::encode_utf8(s).len();
            let t = text_tail_of(s);
            &&& n <= 400 ==> t == s
            &&& t.len() <= s.len() && t == s.skip(s.len() - t.len())
            &&& n > 400 && n == s.len() ==> t.len() == 400
        }),
{
    let t = text_tail_of(s);
    assert(t =~= s.skip(s.len() - t.len()));
}

/// A socket is reached over the scheme that belongs to the server's, at the server's
/// address without slashes at its end.
pub proof fn law_sockets_have_their_scheme(host: Seq<char>, path: Seq<char>)
    requires
        host.len() > 0 && host.last() != '/',
    ensures
        socket_address("https://"@ + host, path) == "wss://"@ + host + path,
        socket_address("http://"@ + host, path) == "ws://"@ + host + path,
        socket_address(("https://"@ + host).push('/'), path) == socket_address("https://"@ + host, path),
        !chars::starts_with(host, "https://"@) && !chars::starts_with(host, "http://"@) ==> socket_address(host, path)
            == host + path,
{
    reveal_strlit("https://");
    reveal_strlit("http://");
    reveal_with_fuel(without_slashes, 2);
    let a = "https://"@ + host;
    let b = "http://"@ + host;
    assert(a.last() == host.last() && b.last() == host.last());
    assert(a.take(8) =~= "https://"@);
    assert(a.skip(8) =~= host);
    assert(b.take(7) =~= "http://"@);
    assert(b.skip(7) =~= host);
    assert(b[4] == ':' && "https://"@[4] == 's');
    assert(!chars::starts_with(b, "https://"@)) by {
        if chars::starts_with(b, "https://"@) {
            assert(b.take(8)[4] == b[4]);
        }
    }
    assert(a.push('/').drop_last() =~= a);
}

/// A client may stop a session, or bring a new token; anything else is ignored.
pub proof fn law_clients_control_the_session<S: Scalar>(msg: Json<S>, r: Control)
    requires
        is_control(msg, r),
    ensures
        ({
            let ty = Json::text_or_empty(msg.field("type"@));
            &&& r is Stop <==> ty == "stop"@ || ty == "end"@
            &&& r is AuthRefresh <==> ty == "auth_refresh"@
            &&& r matches Control::AuthRefresh(t) ==> t@ == Json::text_or_empty(msg.field("token"@))
        }),
{
    reveal_strlit("stop");
    reveal_strlit("end");
    reveal_strlit("auth_refresh");
    assert("stop"@.len() == 4 && "end"@.len() == 3 && "auth_refresh"@.len() == 12);
}

} // verus!
