use quran_asr_api::grouping::build_transcription_from_words;
use quran_asr_api::json::Json;
use quran_asr_api::ring::RingBuf;
use quran_asr_api::rolling::{
    extract_timed_words, ingest_words_into_rolling, offset_transcription_times, prune_words, select_words, TimedWord,
};
use quran_asr_api::scalar::Scalar;
use quran_asr_api::session::{Step, StreamSession};
use quran_asr_api::spans::AyahRef;
use quran_asr_api::stability::{Action, Hypothesis, Progress, StabilityState};
use quran_asr_api::streaming::{
    check_session, check_token_claims, check_token_setup, extract_pcm_range, is_done, list_alerts, mean_square,
    passed_limit, plan_step, read_control, read_stream_request, ring_capacity, session_ws_url, silence_since,
    stream_sizes, text_tail, transcribe_url, ux_state, validate_stream_cfg, ws_path, ws_url_from_http_base, Alert,
    Control, EndReason, Frame, FrameError, RollingTranscript, StepPlan, StreamCfgError, StreamConfig, StreamRequest,
    TokenError, TranscribeMode, UxState, Watch,
};
use quran_asr_api::wav::wav_bytes_pcm16le;

#[derive(Clone, Copy, Debug, PartialEq)]
struct Real(f64);

impl Scalar for Real {
    fn whole(n: u64) -> Self {
        Real(n as f64)
    }
    fn milli(n: u64) -> Self {
        Real(n as f64 / 1000.0)
    }
    fn plus(self, other: Self) -> Self {
        Real(self.0 + other.0)
    }
    fn minus(self, other: Self) -> Self {
        Real(self.0 - other.0)
    }
    fn times(self, other: Self) -> Self {
        Real(self.0 * other.0)
    }
    fn over(self, other: Self) -> Self {
        Real(self.0 / other.0)
    }
    fn below(self, other: Self) -> bool {
        self.0 < other.0
    }
    fn is_finite(self) -> bool {
        self.0.is_finite()
    }
    fn trunc_u64(self) -> u64 {
        self.0 as u64
    }
    fn ceil_u64(self) -> u64 {
        self.0.ceil() as u64
    }
    fn round_i64(self) -> i64 {
        self.0.round() as i64
    }
}

fn r(x: f64) -> Real {
    Real(x)
}

fn number(x: f64) -> Json<Real> {
    Json::Number { unsigned: None, signed: None, value: Real(x) }
}

fn text(s: &str) -> Json<Real> {
    Json::Text { text: s.to_string(), spelled: None }
}

fn object(entries: Vec<(&str, Json<Real>)>) -> Json<Real> {
    Json::Object(entries.into_iter().map(|(k, v)| (k.to_string(), v)).collect())
}

fn entry(word: &str, start: f64, end: f64) -> Json<Real> {
    object(vec![("word", text(word)), ("start_s", number(start)), ("end_s", number(end))])
}

fn word(word: &str, start: f64, end: f64) -> TimedWord<Real> {
    TimedWord { start_s: Real(start), end_s: Real(end), word: word.to_string() }
}

fn plain(words: &[TimedWord<Real>]) -> Vec<(String, f64, f64)> {
    words.iter().map(|w| (w.word.clone(), w.start_s.0, w.end_s.0)).collect()
}

fn w(s: &str, a: f64, b: f64) -> (String, f64, f64) {
    (s.to_string(), a, b)
}

#[test]
fn ring_keeps_the_last_bytes() {
    let mut ring = RingBuf::new(4);
    ring.push(&[1, 2, 3]);
    assert_eq!((ring.len(), ring.copy_from_offset_to_end(0)), (3, vec![1, 2, 3]));
    ring.push(&[4, 5]);
    assert_eq!(ring.copy_from_offset_to_end(0), vec![2, 3, 4, 5]);
    assert_eq!(ring.copy_from_offset_to_end(3), vec![5]);
    assert_eq!(ring.copy_from_offset_to_end(9), Vec::<u8>::new());
    assert_eq!(ring.copy_range(1, 2), vec![3, 4]);
    assert_eq!(ring.copy_range(2, 9), vec![4, 5]);
    ring.push(&[6, 7, 8, 9, 10, 11]);
    assert_eq!(ring.copy_from_offset_to_end(0), vec![8, 9, 10, 11]);
    ring.push(&[]);
    assert_eq!(ring.len(), 4);
    let mut one = RingBuf::new(0);
    one.push(&[1, 2]);
    assert_eq!(one.copy_range(0, 5), vec![2]);
}

#[test]
fn pushes_compose() {
    let (mut a, mut b) = (RingBuf::new(5), RingBuf::new(5));
    a.push(&[1, 2, 3, 4]);
    a.push(&[5, 6, 7]);
    b.push(&[1, 2, 3, 4, 5, 6, 7]);
    assert_eq!(a.copy_range(0, 5), b.copy_range(0, 5));
}

#[test]
fn wav_headers_describe_the_samples() {
    let wav = wav_bytes_pcm16le(&[1, 2, 3, 4], 16_000, 1);
    let mut wanted: Vec<u8> = b"RIFF".to_vec();
    wanted.extend_from_slice(&40u32.to_le_bytes());
    wanted.extend_from_slice(b"WAVEfmt ");
    wanted.extend_from_slice(&16u32.to_le_bytes());
    wanted.extend_from_slice(&1u16.to_le_bytes());
    wanted.extend_from_slice(&1u16.to_le_bytes());
    wanted.extend_from_slice(&16_000u32.to_le_bytes());
    wanted.extend_from_slice(&32_000u32.to_le_bytes());
    wanted.extend_from_slice(&2u16.to_le_bytes());
    wanted.extend_from_slice(&16u16.to_le_bytes());
    wanted.extend_from_slice(b"data");
    wanted.extend_from_slice(&4u32.to_le_bytes());
    wanted.extend_from_slice(&[1, 2, 3, 4]);
    assert_eq!(wav, wanted);
}

#[test]
fn times_are_shifted_into_the_session() {
    let seg = object(vec![
        ("start_s", number(1.0)),
        ("end_s", text("2.0")),
        ("words", Json::List(vec![entry(" a ", 1.25, 1.5), text("x"), entry("", 1.5, 2.0), entry("b", 1.0, 1.25)])),
    ]);
    let t = object(vec![("segments", Json::List(vec![seg, Json::Null])), ("dedupe", text("d"))]);
    let shifted = offset_transcription_times(t, r(10.0));
    assert_eq!(plain(&extract_timed_words(&shifted)), vec![w("b", 11.0, 11.25), w("a", 11.25, 11.5)]);
    match shifted.get("segments") {
        Some(Json::List(items)) => {
            assert!(matches!(items[0].get("start_s").and_then(|v| v.as_f64()), Some(Real(x)) if x == 11.0));
            assert_eq!(items[0].text_field("end_s"), "2.0");
        },
        _ => panic!("the segments stay"),
    }
    assert_eq!(shifted.text_field("dedupe"), "d");
}

#[test]
fn words_roll_through_the_window() {
    let mut rolling = vec![word("old", 0.0, 1.0), word("keep", 3.0, 3.5), word("gone", 5.0, 5.5)];
    let new = vec![word("b", 6.0, 6.2), word("a", 5.2, 5.4), word("a", 5.22, 5.6)];
    ingest_words_into_rolling(&mut rolling, new, r(5.0), r(7.0), r(2.0));
    assert_eq!(plain(&rolling), vec![w("keep", 3.0, 3.5), w("a", 5.2, 5.6), w("b", 6.0, 6.2)]);
    assert_eq!(plain(&prune_words(&rolling, r(5.6))), vec![w("a", 5.2, 5.6), w("b", 6.0, 6.2)]);
    assert_eq!(plain(&select_words(&rolling, r(3.5), r(5.2))), vec![w("keep", 3.0, 3.5), w("a", 5.2, 5.6)]);
}

#[test]
fn repeated_words_are_merged() {
    let mut rolling = Vec::new();
    let new = vec![word("a", 1.0, 1.2), word("a", 1.02, 1.1), word("a", 1.04, 1.3), word("b", 1.05, 1.4)];
    ingest_words_into_rolling(&mut rolling, new, r(0.0), r(2.0), r(0.0));
    // The third one lies too far behind the first.
    assert_eq!(plain(&rolling), vec![w("a", 1.0, 1.2), w("a", 1.04, 1.3), w("b", 1.05, 1.4)]);
}

#[test]
fn words_are_grouped_into_segments() {
    let mut words: Vec<TimedWord<Real>> = (0..20).map(|i| word("x", i as f64 * 0.5, i as f64 * 0.5 + 0.25)).collect();
    words.push(word("y", 20.0, 20.5));
    let (t, text) = build_transcription_from_words(&words);
    let segs = match t.get("segments") {
        Some(Json::List(items)) => items,
        _ => panic!("there are segments"),
    };
    let sizes: Vec<usize> = segs.iter().map(|s| s.get("words").and_then(|v| v.as_array()).unwrap().len()).collect();
    assert_eq!(sizes, vec![18, 2, 1]);
    assert_eq!(text, vec!["x"; 20].join(" ") + " y");
    assert!(matches!(segs[1].get("end_s").and_then(|v| v.as_f64()), Some(Real(x)) if x == 9.75));
    assert_eq!(plain(&extract_timed_words(&t)), plain(&words));
}

fn guess(surah: u16, ayah: u16, global: u16, conf: f64, subs: usize, ratio: f64) -> Hypothesis<Real> {
    Hypothesis {
        surah_id: Some(surah),
        end: Some(AyahRef { surah, ayah }),
        end_global: Some(global),
        conf: Real(conf),
        matches: subs,
        match_ratio: Real(ratio),
        subs,
    }
}

#[test]
fn verses_are_committed_after_agreement() {
    let mut st: StabilityState<Real> = StabilityState::new();
    let p = st.update(&guess(1, 1, 1, 0.4, 6, 0.5), r(1.0));
    assert_eq!((p.action, st.stable_surah_id, st.pending_streak_len), (Action::Hold, None, 1));
    let p = st.update(&guess(1, 1, 1, 0.4, 6, 0.5), r(2.0));
    assert_eq!((p.action, st.stable_surah_id), (Action::Commit, Some(1)));
    assert_eq!(st.committed_end, Some(AyahRef { surah: 1, ayah: 1 }));
    // One strong guess is enough, and tells what was passed over.
    let p = st.update(&guess(1, 4, 4, 0.7, 10, 0.6), r(3.0));
    assert_eq!((p.action, p.skipped), (Action::CommitSkip, Some(2)));
    // Back again: ignored, unless it is strong.
    let p = st.update(&guess(1, 1, 1, 0.6, 10, 0.6), r(4.0));
    assert_eq!(p.action, Action::IgnoreBackward);
    let p = st.update(&guess(1, 1, 1, 0.7, 10, 0.6), r(5.0));
    assert_eq!((p.action, st.committed_at_s), (Action::ResetCommitted, r(5.0)));
    // Jitter around the committed verse changes nothing.
    let p = st.update(&guess(1, 1, 1, 0.7, 10, 0.6), r(6.0));
    assert_eq!((p.action, st.committed_at_s), (Action::Hold, r(5.0)));
}

#[test]
fn far_jumps_need_more() {
    let mut st: StabilityState<Real> = StabilityState::new();
    st.update(&guess(1, 1, 1, 0.7, 10, 0.6), r(1.0));
    for at in 2..4 {
        let p = st.update(&guess(2, 5, 12, 0.4, 6, 0.6), r(at as f64));
        assert_eq!(p.action, Action::Hold);
    }
    let p = st.update(&guess(2, 5, 12, 0.45, 6, 0.55), r(4.0));
    assert_eq!((p.action, p.skipped, st.stable_surah_id), (Action::CommitSkip, Some(10), Some(2)));
}

#[test]
fn poor_guesses_ask_for_a_refresh() {
    let mut st: StabilityState<Real> = StabilityState::new();
    let none = Hypothesis {
        surah_id: None,
        end: None,
        end_global: None,
        conf: Real(0.0),
        matches: 0,
        match_ratio: Real(0.0),
        subs: 0,
    };
    let wants: Vec<bool> = (0..6).map(|i| st.update(&none, r(i as f64)).want_low_conf_refresh).collect();
    assert_eq!(wants, vec![false, false, true, false, false, true]);
    assert_eq!((st.committed_end, st.stable_surah_id), (None, None));
}

#[test]
fn stream_configurations_are_mended() {
    let cfg: StreamConfig<Real> = StreamConfig::default();
    assert_eq!((cfg.sample_rate_hz, cfg.channels, cfg.window_s, cfg.hop_s), (16_000, 1, r(20.0), r(2.0)));
    assert_eq!((cfg.buffer_s, cfg.min_process_s), (r(90.0), r(2.0)));
    assert!(matches!(
        validate_stream_cfg(StreamConfig { sample_rate_hz: 8_000, ..cfg }),
        Err(StreamCfgError::SampleRate)
    ));
    assert!(matches!(validate_stream_cfg(StreamConfig { channels: 2, ..cfg }), Err(StreamCfgError::Channels)));
    let odd = StreamConfig {
        window_s: r(1.0),
        hop_s: r(5.0),
        buffer_s: r(f64::INFINITY),
        min_process_s: r(0.0),
        ..cfg
    };
    let v = validate_stream_cfg(odd).ok().unwrap();
    assert_eq!((v.window_s, v.hop_s, v.buffer_s, v.min_process_s), (r(1.0), r(0.5), r(30.0), r(2.0)));
    let v = validate_stream_cfg(StreamConfig { window_s: r(0.5), hop_s: r(0.1), ..cfg }).ok().unwrap();
    assert_eq!((v.window_s, v.hop_s), (r(20.0), r(2.0)));
    let q = StreamRequest {
        sample_rate_hz: None,
        channels: None,
        window_s: Some(r(12.0)),
        hop_s: None,
        buffer_s: Some(r(60.0)),
        min_process_s: None,
    };
    let v = read_stream_request(&q).ok().unwrap();
    assert_eq!((v.window_s, v.hop_s, v.buffer_s), (r(12.0), r(2.0), r(60.0)));
}

#[test]
fn sizes_follow_the_configuration() {
    let cfg: StreamConfig<Real> = StreamConfig::default();
    let s = stream_sizes(&cfg, r(4.0));
    assert_eq!((s.bytes_per_s, s.hop_bytes, s.window_bytes), (32_000, 64_000, 640_000));
    assert_eq!((s.min_process_bytes, s.tail_bytes), (64_000, 192_000));
    assert_eq!(stream_sizes(&cfg, r(100.0)).tail_bytes, 640_000);
    assert_eq!(ring_capacity(&cfg), 2_880_000);
    assert_eq!(ring_capacity(&StreamConfig { buffer_s: r(90.1), ..cfg }), 2_912_000);
}

#[test]
fn steps_wait_for_enough_audio() {
    assert_eq!(plan_step(5, 0, 10, 4, false), StepPlan::Wait);
    assert_eq!(plan_step(5, 0, 10, 4, true), StepPlan::Stop);
    assert_eq!(plan_step(10, 0, 10, 12, false), StepPlan::Wait);
    assert_eq!(plan_step(25, 10, 10, 4, false), StepPlan::Process(20));
    assert!(is_done(true, 25, 20, 10) && !is_done(true, 35, 20, 10) && !is_done(false, 20, 20, 10));
}

#[test]
fn silence_is_measured() {
    assert_eq!(silence_since(0, 7, true), 7);
    assert_eq!(silence_since(3, 7, true), 3);
    assert_eq!(silence_since(3, 7, false), 0);
    assert_eq!(passed_limit(2500, 1000, r(1.5)), Some(r(1.5)));
    assert_eq!(passed_limit(2499, 1000, r(1.5)), None);
    assert_eq!(passed_limit(2500, 0, r(1.5)), None);
    assert_eq!(passed_limit(2500, 1000, r(0.0)), None);
    assert_eq!(mean_square::<Real>(&[0, 128, 3, 0]), Some(r((32768.0 * 32768.0 + 9.0) / 2.0)));
    assert_eq!(mean_square::<Real>(&[255, 255, 9]), Some(r(1.0)));
    assert_eq!(mean_square::<Real>(&[5]), None);
}

#[test]
fn sessions_end_for_a_reason() {
    let watch = |now_s, exp, audio, silent| Watch {
        now_s,
        now_ms: 100_000,
        auth_expires_s: exp,
        auth_grace_s: 10,
        last_audio_ms: audio,
        no_audio_stop_after_s: r(30.0),
        silent_since_ms: silent,
        silence_stop_after_s: r(60.0),
    };
    assert_eq!(check_session(&watch(91, 100, 1, 1)), Some((EndReason::AuthExpired, None)));
    assert_eq!(check_session(&watch(90, 100, 70_000, 1)), Some((EndReason::NoAudio, Some(r(30.0)))));
    assert_eq!(check_session(&watch(0, 0, 0, 40_000)), Some((EndReason::Silence, Some(r(60.0)))));
    assert_eq!(check_session(&watch(u64::MAX, 0, 0, 0)), None);
}

#[test]
fn audio_is_cut_out_of_the_stream() {
    let mut ring = RingBuf::new(6);
    ring.push(&[0, 1, 2, 3, 4, 5, 6, 7]);
    let p = extract_pcm_range(&ring, 8, 6, 3);
    assert_eq!((p.pcm, p.start_byte, p.end_byte), (vec![3, 4], 3, 6));
    let p = extract_pcm_range(&ring, 8, 99, 100);
    assert_eq!((p.pcm, p.start_byte, p.end_byte), (vec![2, 3, 4, 5, 6, 7], 2, 8));
    let p = extract_pcm_range(&ring, 8, 1, 4);
    assert_eq!((p.pcm, p.start_byte, p.end_byte), (vec![], 2, 2));
}

#[test]
fn refreshes_come_when_due() {
    let mut t: RollingTranscript<Real> = RollingTranscript::new();
    assert_eq!(t.choose_mode(r(59.0), r(60.0)), TranscribeMode::Tail);
    assert_eq!(t.choose_mode(r(60.0), r(60.0)), TranscribeMode::Refresh);
    assert_eq!(t.choose_mode(r(60.0), r(0.0)), TranscribeMode::Tail);
    t.force_refresh_next = true;
    assert_eq!(t.choose_mode(r(0.0), r(0.0)), TranscribeMode::Refresh);
    assert_eq!(t.choose_mode(r(0.0), r(0.0)), TranscribeMode::Tail);
    let words = t.ingest(TranscribeMode::Refresh, vec![word("a", 1.0, 2.0)], r(0.0), r(5.0), r(0.0), r(5.0));
    assert_eq!((words.len(), t.last_full_refresh_end_s), (1, r(5.0)));
    let low = Progress { action: Action::Hold, skipped: None, want_low_conf_refresh: true };
    t.react(&low, TranscribeMode::Tail, r(12.0), r(10.0));
    assert!(!t.force_refresh_next);
    t.react(&low, TranscribeMode::Tail, r(13.0), r(10.0));
    assert!(t.force_refresh_next);
    let jump = Progress { action: Action::CommitSkip, skipped: Some(20), want_low_conf_refresh: false };
    t.react(&jump, TranscribeMode::Tail, r(14.0), r(10.0));
    assert_eq!((t.words.len(), t.last_full_refresh_end_s), (0, r(0.0)));
}

#[test]
fn alerts_come_in_order() {
    let p = Progress { action: Action::CommitSkip, skipped: Some(25), want_low_conf_refresh: true };
    let alerts = list_alerts(&p, TranscribeMode::Tail, r(30.0), r(20.0), 3, r(0.1));
    assert_eq!(
        alerts,
        vec![Alert::SurahJump(25), Alert::JumpPruned(25), Alert::RefreshScheduled, Alert::NeedMoreAudio]
    );
    let p = Progress { action: Action::CommitSkip, skipped: Some(2), want_low_conf_refresh: false };
    assert_eq!(list_alerts(&p, TranscribeMode::Refresh, r(3.0), r(20.0), 3, r(0.1)), vec![Alert::AyahSkip(2), Alert::FullRefresh]);
    let p = Progress { action: Action::ResetCommitted, skipped: None, want_low_conf_refresh: false };
    assert_eq!(list_alerts(&p, TranscribeMode::Tail, r(3.0), r(20.0), 9, r(0.9)), vec![Alert::ResetDetected, Alert::JumpPruned(0)]);
    let p = Progress { action: Action::IgnoreBackward, skipped: None, want_low_conf_refresh: false };
    assert_eq!(list_alerts(&p, TranscribeMode::Tail, r(3.0), r(20.0), 9, r(0.9)), vec![Alert::IgnoredBackwardGuess]);
    assert_eq!(ux_state(true, r(0.32)), UxState::Tracking);
    assert_eq!(ux_state(true, r(0.31)), UxState::Uncertain);
    assert_eq!(ux_state(false, r(1.0)), UxState::Seeking);
}

#[test]
fn long_texts_are_cut_in_front() {
    assert_eq!(text_tail("short"), "short");
    let long = "a".repeat(450);
    assert_eq!(text_tail(&long), "a".repeat(400));
    // Two bytes to a letter: more letters are left out than are too many.
    let arabic = "\u{628}".repeat(300);
    assert_eq!(text_tail(&arabic), "\u{628}".repeat(100));
    assert_eq!(text_tail(&"\u{628}".repeat(500)), "");
}

#[test]
fn clients_control_the_session() {
    let msg = |ty: &str| object(vec![("type", text(ty)), ("token", text("tok"))]);
    assert!(matches!(read_control(&msg("stop")), Control::Stop));
    assert!(matches!(read_control(&msg("end")), Control::Stop));
    assert!(matches!(read_control(&msg("auth_refresh")), Control::AuthRefresh(t) if t == "tok"));
    assert!(matches!(read_control(&msg("other")), Control::Ignore));
    assert_eq!(check_token_setup(" ", "s"), Some(TokenError::Missing));
    assert_eq!(check_token_setup("t", " "), Some(TokenError::NotConfigured));
    assert_eq!(check_token_setup("t", "s"), None);
    assert_eq!(check_token_claims(Some("x"), Some("admin"), "id"), Some(TokenError::SidMismatch));
    assert_eq!(check_token_claims(Some("id"), None, "id"), Some(TokenError::AdminRequired));
    assert_eq!(check_token_claims(Some("id"), Some("admin"), "id"), None);
}

#[test]
fn addresses_of_sockets() {
    assert_eq!(ws_path("s1"), "/v1/sessions/s1/stream");
    assert_eq!(ws_url_from_http_base("https://h/", "/p"), "wss://h/p");
    assert_eq!(ws_url_from_http_base("http://h//", "/p"), "ws://h/p");
    assert_eq!(ws_url_from_http_base("h", "/p"), "h/p");
    assert_eq!(session_ws_url(Some("h:1"), Some("https"), "/p"), "wss://h:1/p");
    assert_eq!(session_ws_url(Some("h:1"), None, "/p"), "ws://h:1/p");
    assert_eq!(session_ws_url(None, Some("https"), "/p"), "/p");
    assert_eq!(transcribe_url("http://t:9000//"), "http://t:9000/v1/transcribe");
}

fn session() -> StreamSession<Real> {
    let cfg = StreamConfig {
        sample_rate_hz: 16_000,
        channels: 1,
        window_s: r(4.0),
        hop_s: r(1.0),
        buffer_s: r(8.0),
        min_process_s: r(1.0),
    };
    StreamSession::new("id".to_string(), cfg, 10, r(30.0), r(1.2), r(60.0), r(1.0), r(60.0))
}

#[test]
fn sessions_step_through_their_audio() {
    let mut s = session();
    assert_eq!(s.ws_path(), "/v1/sessions/id/stream");
    assert!(matches!(s.next_step(0), Step::Wait));
    assert_eq!(s.push_pcm16le(&[1, 2, 3], 5, false), Err(FrameError::OddLength));
    assert_eq!(s.push_pcm16le(&[], 5, false), Ok(Frame::Empty));
    let audio: Vec<u8> = (0..80_000u32).map(|i| (i % 251) as u8).collect();
    assert_eq!(s.push_pcm16le(&audio, 5, false), Ok(Frame::Audio));
    assert_eq!((s.total_pcm_bytes, s.last_audio_unix_ms), (80_000, 5));
    let step = match s.next_step(6) {
        Step::Hear(x) => x,
        _ => panic!("there is enough audio"),
    };
    assert_eq!((step.mode, step.process_end_byte, step.process_end_s), (TranscribeMode::Tail, 32_000, r(1.0)));
    assert_eq!((step.transcribe_start_s, step.transcribe_end_s), (r(0.0), r(1.0)));
    assert_eq!(step.pcm, &audio[..32_000]);
    let seg = object(vec![("words", Json::List(vec![entry("a", 0.25, 0.5), entry("b", 0.5, 0.75)]))]);
    let (t, words, n) = s.take_words(&step, object(vec![("segments", Json::List(vec![seg]))]));
    assert_eq!((words.as_str(), n), ("a b", 2));
    assert_eq!(extract_timed_words(&t).len(), 2);
    s.skip_step(step.process_end_byte);
    let step = match s.next_step(6) {
        Step::Hear(x) => x,
        _ => panic!("there is enough audio"),
    };
    // A second of context in front of the second that is new.
    assert_eq!((step.transcribe_start_s, step.transcribe_end_s), (r(0.0), r(2.0)));
    s.skip_step(step.process_end_byte);
    assert!(matches!(s.next_step(6), Step::Wait));
    s.request_stop();
    assert!(matches!(s.next_step(6), Step::Stop));
}

#[test]
fn silent_steps_are_passed_over() {
    let mut s = session();
    s.push_pcm16le(&[0; 64_000], 1_000, true).unwrap();
    assert_eq!(s.silence_since_unix_ms, 1_000);
    match s.next_step(2_200) {
        Step::Silence(x) => assert_eq!((x.seq, x.at_s, x.silent_s), (0, r(1.0), r(1.2))),
        _ => panic!("it is silent"),
    }
    assert_eq!((s.last_processed_pcm_bytes, s.seq), (32_000, 1));
    s.set_auth_expiry_unix_s(50);
    assert_eq!(s.watch(41, 2_000), Some((EndReason::AuthExpired, None)));
    assert_eq!(s.watch(40, 2_000), None);
    assert_eq!(s.watch(0, 31_000), Some((EndReason::NoAudio, Some(r(30.0)))));
}

#[test]
fn limited_streams_end() {
    let mut s = session();
    s.limit_audio(2);
    assert_eq!(s.settings.max_pcm_bytes, Some(64_000));
    assert_eq!(s.push_pcm16le(&[0; 63_000], 1_000, false), Ok(Frame::Audio));
    assert_eq!(s.push_pcm16le(&[0; 1_000], 1_100, false), Ok(Frame::Audio));
    assert!(!s.stop_requested);
    assert_eq!(s.push_pcm16le(&[0; 2], 1_200, false), Ok(Frame::Over));
    assert!(s.stop_requested);
    assert_eq!((s.total_pcm_bytes, s.last_audio_unix_ms), (64_000, 1_100));
    assert_eq!(s.push_pcm16le(&[0; 3], 1_300, false), Err(FrameError::OddLength));
    // A single frame may be too long already.
    let mut s = session();
    s.limit_audio(1);
    assert_eq!(s.push_pcm16le(&[0; 32_002], 1_000, false), Ok(Frame::Over));
    assert_eq!(s.total_pcm_bytes, 0);
}

#[test]
fn validated_configurations_stay() {
    let odd = |window: f64, hop: f64, buffer: f64, least: f64| StreamConfig {
        window_s: r(window),
        hop_s: r(hop),
        buffer_s: r(buffer),
        min_process_s: r(least),
        ..StreamConfig::default()
    };
    for cfg in [odd(0.0, 9.0, 1.0, -1.0), odd(0.6, 0.7, 0.1, 0.0), odd(f64::INFINITY, 50.0, f64::INFINITY, 1.0)] {
        let v = validate_stream_cfg(cfg).ok().unwrap();
        assert!(v.window_s.0 > 0.5 && v.hop_s.0 > 0.1 && v.hop_s.0 < v.window_s.0);
        assert!(v.buffer_s.0 >= v.window_s.0 && v.min_process_s.0 > 0.0);
        let w = validate_stream_cfg(v).ok().unwrap();
        assert_eq!((w.window_s, w.hop_s, w.buffer_s, w.min_process_s), (v.window_s, v.hop_s, v.buffer_s, v.min_process_s));
    }
}
