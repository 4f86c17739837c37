use quran_asr_api::access::{
    authorize_stream, check_source_host, check_source_url, Denied, SourceCheck, StreamClaims,
};
use quran_asr_api::alignment_v2::{AlignError, AlignmentReport, DebugCounts};
use quran_asr_api::config::{load_settings, EnvVar, Settings};
use quran_asr_api::dp::{AlignmentResultV2, Source};
use quran_asr_api::events::{
    auth_error_value, auth_ok_value, end_value, failure_value, silence_value, update_value, HeardText, StepTiming,
};
use quran_asr_api::jobs::{find_input_name, find_input_path, JobMeta};
use quran_asr_api::json::Json;
use quran_asr_api::multispan::{JumpEvent, MultiSpanOutput, SpanCandidate, SpanReport};
use quran_asr_api::reports::{
    error_value, jumps_value, name_source, outcome_value, report_value, spans_value, wants_debug, write_error,
};
use quran_asr_api::results::{
    demo_health_value, demo_job_value, demo_request_value, demo_session_value, guess_value, health_value, job_value,
    queued_value, request_value, result_value, session_value, settled_value, stopped_value, GuessDoc, GuessOptions, GuessRow,
    GuessSearch, JobTiming, StoredInput, TranscribeOptions, Transcribed,
};
use quran_asr_api::retiming::{surah_value, write_reason, Reason, SurahReport};
use quran_asr_api::scalar::Scalar;
use quran_asr_api::session::{HearStep, SilentStep, StreamSession, Update};
use quran_asr_api::spans::{AyahRef, AyahSegment};
use quran_asr_api::stability::{Action, Hypothesis, Progress, StabilityState};
use quran_asr_api::streaming::{Alert, EndReason, StreamCfgError, StreamConfig, TokenError, TranscribeMode, UxState};
use quran_asr_api::timed::TimeMode;
use quran_asr_api::tokens::{decode_claims, read_claims, settle_claims, RefreshError, TokenFields};
use quran_asr_api::transcripts::{NumberFault, TimestampError, TranscriptError, TranscriptFault};
use quran_asr_api::tree::{copy_of, count, field_copy, int_value};

#[derive(Clone, Copy, Debug, PartialEq)]
struct Real(f64);

impl Scalar for Real {
    fn whole(n: u64) -> Self {
        Real(n as f64)
    }
    fn milli(n: u64) -> Self {
        Real(n as f64 / 1000.0)
    }
    fn plus(self, other: Self) -> Self {
        Real(self.0 + other.0)
    }
    fn minus(self, other: Self) -> Self {
        Real(self.0 - other.0)
    }
    fn times(self, other: Self) -> Self {
        Real(self.0 * other.0)
    }
    fn over(self, other: Self) -> Self {
        Real(self.0 / other.0)
    }
    fn below(self, other: Self) -> bool {
        self.0 < other.0
    }
    fn is_finite(self) -> bool {
        self.0.is_finite()
    }
    fn trunc_u64(self) -> u64 {
        self.0 as u64
    }
    fn ceil_u64(self) -> u64 {
        self.0.ceil() as u64
    }
    fn round_i64(self) -> i64 {
        self.0.round() as i64
    }
}

fn r(x: f64) -> Real {
    Real(x)
}

/// The document as a text, its entries in order.
fn show(v: &Json<Real>) -> String {
    match v {
        Json::Null => "null".to_string(),
        Json::Bool(b) => format!("{b}"),
        Json::Number { unsigned: Some(n), .. } => format!("{n}"),
        Json::Number { signed: Some(i), .. } => format!("{i}"),
        Json::Number { value, .. } => format!("{:?}", value.0),
        Json::Text { text, .. } => format!("{text:?}"),
        Json::List(items) => format!("[{}]", items.iter().map(show).collect::<Vec<_>>().join(",")),
        Json::Object(entries) => {
            let parts: Vec<String> = entries.iter().map(|(k, v)| format!("{k}:{}", show(v))).collect();
            format!("{{{}}}", parts.join(","))
        },
    }
}

fn text(s: &str) -> Json<Real> {
    Json::Text { text: s.to_string(), spelled: None }
}

fn object(entries: Vec<(&str, Json<Real>)>) -> Json<Real> {
    Json::Object(entries.into_iter().map(|(k, v)| (k.to_string(), v)).collect())
}

fn verse(surah: u16, ayah: u16) -> AyahRef {
    AyahRef { surah, ayah }
}

fn report(conf: f64, matches: usize, subs: usize) -> AlignmentReport<Real> {
    AlignmentReport {
        version: "v9".to_string(),
        confidence: Real(conf),
        start: verse(2, 1),
        end: verse(2, 3),
        time_base: "absolute".to_string(),
        time_base_s: Real(0.5),
        debug: DebugCounts {
            timed_tokens: 1,
            obs_nonzero: 2,
            obs_unknown: 3,
            obs_stop: 4,
            obs_effective: 5,
            obs_unique_effective: 6,
            query_words: 7,
            query_chars: 8,
        },
        candidates: 4,
        best_norm_cost: Real(0.25),
        second_norm_cost: Real(0.75),
        gap: Real(0.5),
        match_ratio: Real(0.8),
        best: AlignmentResultV2 {
            cost: Real(1.5),
            ref_start: 0,
            ref_end: 0,
            transcript_to_ref: vec![],
            transcript_is_match: vec![],
            matches,
            substitutions: subs,
            deletions: 3,
            insertions: 1,
            expected_offset: 0,
            candidate_source: Some(Source::Embed),
            quick_score: Real(0.9),
        },
        segments: vec![AyahSegment {
            ayah_key: "2:1".to_string(),
            surah_id: 2,
            ayah_num: 1,
            start_s: Some(Real(1.0)),
            end_s: None,
            start_ts: Some("00:00:01.000".to_string()),
            end_ts: None,
            token_count: 5,
            match_count: 4,
            estimated_time: true,
        }],
        total_s: Real(0.125),
    }
}

const VERSES: &str = "start:{ayah_key:\"2:1\",surah_id:2,ayah_num:1},end:{ayah_key:\"2:3\",surah_id:2,ayah_num:3}";

fn wanted_report(debug: &str) -> String {
    format!(
        "{{method:\"v2_embedding+anchors+noisy_dp\",version:\"v9\",confidence:0.7,{VERSES},time_base:\"absolute\",\
         time_base_s:0.5,debug:{debug},query:{{candidates:4,best_norm_cost:0.25,second_norm_cost:0.75,gap:0.5,\
         quick_score:0.9,candidate_source:\"embed\"}},alignment:{{cost:1.5,norm_cost:0.25,matches:8,substitutions:10,\
         deletions:3,insertions:1,match_ratio:0.8}},timing:{{total_s:0.125}},segments:[{{ayah_key:\"2:1\",surah_id:2,\
         ayah_num:1,start_s:1.0,end_s:null,start_ts:\"00:00:01.000\",end_ts:null,token_count:5,match_count:4,\
         estimated_time:true}}]}}"
    )
}

#[test]
fn alignments_are_written() {
    assert_eq!(show(&report_value(&report(0.7, 8, 10), false)), wanted_report("null"));
    let counts = "{timed_tokens:1,obs_nonzero:2,obs_unknown:3,obs_stop:4,obs_effective:5,obs_unique_effective:6,\
                  query_words:7,query_chars:8}";
    let ok = Ok(report(0.7, 8, 10));
    assert_eq!(show(&outcome_value(Some(&ok), "smooth", true)), wanted_report(counts));
    assert_eq!(show(&outcome_value(None, "smooth", true)), "null");
    assert!(wants_debug(Some(" YES ")) && !wants_debug(Some("no")) && !wants_debug(None));
    assert_eq!(
        [Some(Source::Anchor), Some(Source::Embed), Some(Source::Simhash), None].map(name_source),
        ["anchor", "embed", "simhash", ""]
    );
}

#[test]
fn alignment_errors_are_told() {
    let long = AlignError::TooLong { transcript_tokens: 9, max_transcript_tokens: 8 };
    assert_eq!(
        show(&error_value(long, "x")),
        "{error:\"transcript too long for alignment\",transcript_tokens:9,max_transcript_tokens:8}"
    );
    assert_eq!(show(&error_value(AlignError::NoTokens, "x")), "{error:\"no tokens found in transcription\"}");
    assert_eq!(write_error(AlignError::NoCandidates, "x"), "no candidates generated");
    assert_eq!(write_error(AlignError::NoMappedTokens, "x"), "alignment produced no mapped tokens");
    assert_eq!(
        write_error(AlignError::TimeMode(TimeMode::Unknown), "odd"),
        "word_time_upgrade failed: unknown word_time_upgrade mode: odd"
    );
    assert_eq!(
        write_error(AlignError::TimeMode(TimeMode::Forced), "odd"),
        "word_time_upgrade failed: word_time_upgrade=whisperx is not implemented"
    );
}

fn output() -> MultiSpanOutput<Real> {
    MultiSpanOutput {
        alignments: vec![Ok(report(0.7, 8, 10)), Err(AlignError::NoCandidates)],
        spans: Some(vec![SpanReport {
            start: Some(verse(2, 1)),
            end: None,
            start_s: Real(0.0),
            end_s: Real(4.5),
            confidence: Real(0.7),
            segments: SpanCandidate { start_seg_index: 1, end_seg_index: 3 },
        }]),
        jumps: Some(vec![JumpEvent {
            at_s: Real(4.5),
            at_segment_index: 4,
            from_span_index: 0,
            to_span_index: 1,
            distance_ayahs: -90,
        }]),
        active_span_index: Some(0),
    }
}

const SPANS: &str = "[{start:{ayah_key:\"2:1\",surah_id:2,ayah_num:1},end:null,start_s:0.0,end_s:4.5,confidence:0.7,\
                     segment_indexes:[1,2,3]}]";
const JUMPS: &str = "[{at_s:4.5,at_segment_index:4,from_span_index:0,to_span_index:1,distance_ayahs:-90}]";

#[test]
fn spans_and_jumps_are_written() {
    let out = output();
    assert_eq!(show(&spans_value(&out.spans)), SPANS);
    assert_eq!(show(&jumps_value(&out.jumps)), JUMPS);
    assert_eq!(show(&spans_value::<Real>(&None)), "null");
    assert_eq!(show(&jumps_value::<Real>(&None)), "null");
    let back = Some(vec![SpanReport {
        start: None,
        end: None,
        start_s: Real(0.0),
        end_s: Real(0.0),
        confidence: Real(0.0),
        segments: SpanCandidate { start_seg_index: 2, end_seg_index: 1 },
    }]);
    assert!(show(&spans_value(&back)).contains("segment_indexes:[]"));
}

#[test]
fn documents_are_copied() {
    let v = object(vec![
        ("a", Json::List(vec![Json::Null, Json::Bool(true), text("x"), count(7), int_value(-3)])),
        ("b", object(vec![("c", Json::Number { unsigned: None, signed: None, value: Real(1.5) })])),
    ]);
    assert_eq!(show(&copy_of(&v)), "{a:[null,true,\"x\",7,-3],b:{c:1.5}}");
    assert_eq!(show(&field_copy(&v, "b")), "{c:1.5}");
    assert_eq!(show(&field_copy(&v, "z")), "null");
    assert_eq!(int_value::<Real>(-3).as_f64(), Some(r(-3.0)));
    assert_eq!((count::<Real>(u64::MAX).as_i64(), count::<Real>(5).as_i64()), (None, Some(5)));
}

#[test]
fn sessions_tell_what_happens() {
    let silent = SilentStep { seq: 3, at_s: r(6.0), silent_s: r(1.5) };
    assert_eq!(
        show(&silence_value("s", &silent, r(-45.0))),
        "{type:\"silence\",session_id:\"s\",seq:3,at_s:6.0,silent_s:1.5,threshold_dbfs:-45.0}"
    );
    assert_eq!(show(&failure_value::<Real>(4, "down")), "{type:\"error\",stage:\"transcribe\",seq:4,error:\"down\"}");
    assert_eq!(
        show(&end_value("s", EndReason::AuthExpired, None, r(-45.0))),
        "{type:\"session_end\",reason:\"auth_expired\",session_id:\"s\"}"
    );
    assert_eq!(
        show(&end_value("s", EndReason::AudioLimit, None, r(-45.0))),
        "{type:\"session_end\",reason:\"audio_limit\",session_id:\"s\"}"
    );
    assert_eq!(
        show(&end_value("s", EndReason::NoAudio, Some(r(30.0)), r(-45.0))),
        "{type:\"session_end\",reason:\"no_audio_timeout\",session_id:\"s\",since_s:30.0}"
    );
    assert_eq!(
        show(&end_value("s", EndReason::Silence, Some(r(60.0)), r(-45.0))),
        "{type:\"session_end\",reason:\"silence_timeout\",session_id:\"s\",silent_s:60.0,threshold_dbfs:-45.0}"
    );
    assert_eq!(show(&auth_ok_value::<Real>("s", 99)), "{type:\"auth_ok\",session_id:\"s\",expires_at_unix_s:99}");
    assert_eq!(show(&auth_error_value::<Real>("s", "no")), "{type:\"auth_error\",session_id:\"s\",error:\"no\"}");
}

#[test]
fn updates_tell_the_whole_step() {
    let cfg = StreamConfig::default();
    let step = HearStep {
        seq: 5,
        mode: TranscribeMode::Tail,
        pcm: vec![],
        transcribe_start_s: r(24.0),
        transcribe_end_s: r(30.0),
        process_end_byte: 0,
        process_end_s: r(30.0),
        total_pcm_bytes: 0,
        stop_requested: false,
    };
    let mut st: StabilityState<Real> = StabilityState::new();
    st.committed_end = Some(verse(2, 3));
    st.committed_end_global = Some(10);
    st.committed_at_s = r(28.0);
    st.pending_end = Some(verse(2, 4));
    st.pending_streak_len = 1;
    st.stable_surah_id = Some(2);
    st.streak_surah_id = Some(2);
    st.streak_len = 6;
    let u = Update {
        hypothesis: Hypothesis {
            surah_id: Some(2),
            end: Some(verse(2, 3)),
            end_global: Some(10),
            conf: r(0.7),
            matches: 8,
            match_ratio: r(0.8),
            subs: 10,
        },
        stability: st,
        progress: Progress { action: Action::CommitSkip, skipped: Some(2), want_low_conf_refresh: false },
        ux: UxState::Tracking,
        alerts: vec![
            Alert::AyahSkip(2),
            Alert::SurahJump(20),
            Alert::ResetDetected,
            Alert::IgnoredBackwardGuess,
            Alert::JumpPruned(0),
            Alert::RefreshScheduled,
            Alert::FullRefresh,
            Alert::NeedMoreAudio,
        ],
        done: false,
    };
    let heard = HeardText { text: "abc".to_string(), dedupe: text("d"), repair: Json::Null, rolling_words: 12 };
    let timing = StepTiming { transcribe_s: r(0.25), align_s: r(0.125), loop_s: r(0.5) };
    let wanted = format!(
        "{{type:\"ayah_update\",session_id:\"s\",seq:5,at_s:30.0,window:{{start_s:10.0,end_s:30.0}},\
         transcribe_window:{{mode:\"tail\",start_s:24.0,end_s:30.0}},stability:{{stable:true,stable_surah_id:2,\
         predicted_surah_id:2,predicted_streak_surah_id:2,predicted_streak_len:6,confidence:0.7,min_conf:0.1,\
         switch_conf:0.25}},progress:{{action:\"commit_skip\",committed_end:{{surah_id:2,ayah_num:3,global:10,\
         at_s:28.0}},pending_end:{{surah_id:2,ayah_num:4,global:null,streak_len:1}},hypothesis_end:{{surah_id:2,\
         ayah_num:3}},hypothesis_end_global:10,confidence:0.7,matches:8,match_ratio:0.8,skipped_ayahs:2}},\
         ux:{{state:\"tracking\",alerts:[{{code:\"ayah_skip\",skipped_ayahs:2}},{{code:\"surah_jump\",\
         skipped_ayahs:20}},{{code:\"reset_detected\"}},{{code:\"ignored_backward_guess\"}},{{code:\"jump_pruned\",\
         skipped_ayahs:0}},{{code:\"refresh_scheduled\",reason:\"low_confidence\"}},{{code:\"full_refresh\"}},\
         {{code:\"need_more_audio\"}}]}},transcription:{{text_tail:\"abc\",rolling_words:12,dedupe:\"d\",\
         repair:null}},ayah_alignment:{},ayah_alignment_spans:{SPANS},ayah_alignment_jumps:{JUMPS},\
         ayah_alignment_active_span_index:0,timing:{{transcribe_s:0.25,align_s:0.125,loop_s:0.5}}}}",
        wanted_report("null")
    );
    assert_eq!(show(&update_value("s", &cfg, &step, &u, &heard, &output(), "smooth", false, &timing)), wanted);
}

fn input() -> StoredInput {
    StoredInput {
        filename: "a.m4a".to_string(),
        content_type: "audio/mp4".to_string(),
        path: "/data/jobs/j/input/a.m4a".to_string(),
        size_bytes: 12,
    }
}

const INPUT: &str = "{filename:\"a.m4a\",content_type:\"audio/mp4\",path:\"/data/jobs/j/input/a.m4a\",size_bytes:12}";

#[test]
fn requests_are_stored() {
    let o = TranscribeOptions {
        language: Some("ar".to_string()),
        beam_size: Some(5),
        patience: Some(r(1.5)),
        word_timestamps: Some(true),
        log_prob_threshold: None,
        no_speech_threshold: None,
        batch_size: None,
    };
    let g = GuessOptions {
        top_k: Some(-1),
        per_surah_top_n: None,
        query_operator: Some("OR".to_string()),
        rank_mode: None,
        max_query_tokens: None,
        max_hits: None,
    };
    assert_eq!(
        show(&request_value("j", r(1.0), &input(), &o, &g)),
        format!(
            "{{job_id:\"j\",created_at:1.0,input:{INPUT},transcription:{{language:\"ar\",beam_size:5,patience:1.5,\
             word_timestamps:true,log_prob_threshold:null,no_speech_threshold:null,batch_size:null}},\
             guess:{{top_k:-1,per_surah_top_n:null,query_operator:\"OR\",rank_mode:null,max_query_tokens:null,\
             max_hits:null}}}}"
        )
    );
    assert_eq!(
        show(&demo_request_value("j", r(1.0), &input())),
        format!("{{job_id:\"j\",created_at:1.0,demo:true,input:{INPUT},transcription:{{}},guess:{{}}}}")
    );
    let known = object(vec![("filename", text("../b.mp3"))]);
    assert_eq!(find_input_name(&known, "c.mp3"), "../b.mp3");
    assert_eq!(find_input_path("/data", "j", &known, "c.mp3"), "/data/jobs/j/input/b.mp3");
    assert_eq!(find_input_name(&Json::<Real>::Null, "c.mp3"), "c.mp3");
}

fn search() -> GuessDoc<Real> {
    GuessDoc::Found(GuessSearch {
        query_operator: "OR".to_string(),
        rank_mode: "hybrid".to_string(),
        max_query_tokens: 24,
        fts_query: "\"x\"".to_string(),
        query_tokens: vec!["x".to_string()],
        match_count: 3,
        top_k: 5,
        per_surah_top_n: 2,
        max_hits: 800,
        guesses: vec![GuessRow {
            surah_id: 9,
            surah_name_ar: "n".to_string(),
            surah_transliteration: "t".to_string(),
            best_score: r(2.0),
            sum_score: r(3.0),
            ayah_hits: 4,
            sum_top_score: r(2.5),
            top_hits: 1,
            best_ayah_key: "9:1".to_string(),
            probability: r(1.0),
        }],
    })
}

const SEARCH: &str = "query_operator:\"OR\",rank_mode:\"hybrid\",max_query_tokens:24,fts_query:\"\\\"x\\\"\",\
                      query_tokens:[\"x\"],match_count:3,top_k:5,per_surah_top_n:2,max_hits:800,guesses:[{surah_id:9,\
                      surah_name_ar:\"n\",surah_transliteration:\"t\",best_score:2.0,sum_score:3.0,ayah_hits:4,\
                      sum_top_score:2.5,top_hits:1,best_ayah_key:\"9:1\",probability:1.0}]";

#[test]
fn good_alignments_take_the_place_of_guesses() {
    assert_eq!(show(&guess_value::<Real>(&GuessDoc::Nothing)), "{guesses:[],predicted_surah_id:null}");
    assert_eq!(
        show(&guess_value::<Real>(&GuessDoc::Failed("e".to_string()))),
        "{guesses:[],error:\"e\",predicted_surah_id:null}"
    );
    assert_eq!(show(&guess_value(&search())), format!("{{{SEARCH},predicted_surah_id:9}}"));
    let good = Ok(report(0.7, 8, 10));
    assert_eq!(
        show(&settled_value(&search(), Some(&good))),
        format!(
            "{{{SEARCH},predicted_surah_id:2,predicted_surah_id_guess:9,aligned_range:{{{VERSES},confidence:0.7}}}}"
        )
    );
    for poor in [Ok(report(0.3, 8, 10)), Ok(report(0.7, 3, 5)), Err(AlignError::NoTokens)] {
        assert_eq!(show(&settled_value(&search(), Some(&poor))), show(&guess_value(&search())));
    }
    assert_eq!(show(&settled_value(&search(), None)), show(&guess_value(&search())));
}

#[test]
fn results_hold_all_parts() {
    let heard = Transcribed {
        transcription: object(vec![("language", text("ar")), ("segments", Json::List(vec![])), ("other", text("x"))]),
        text: "abc".to_string(),
        params: object(vec![]),
    };
    let timing = JobTiming { transcribe_s: r(1.0), guess_s: r(0.25), align_s: r(0.125), total_s: r(2.0) };
    let input = object(vec![("filename", text("a"))]);
    let doc = result_value("j", &input, &heard, &search(), &Some(output()), "smooth", false, &timing);
    let report = wanted_report("null");
    let wanted = format!(
        "{{job_id:\"j\",input:{{filename:\"a\"}},transcription:{{language:\"ar\",language_probability:null,\
         duration_s:null,segments:[],repair:null,dedupe:null,text:\"abc\",params:{{}}}},guess:{},\
         guess_full:{{{SEARCH},predicted_surah_id:9}},guess_tail:null,guess_tail_last_segment:null,\
         ayah_alignment:{report},ayah_alignment_full:{report},ayah_alignment_full_v2:{report},\
         ayah_alignment_spans:{SPANS},ayah_alignment_jumps:{JUMPS},ayah_alignment_active_span_index:0,\
         ayah_alignment_tail:null,ayah_alignment_tail_last_segment:null,tail_recovery:null,\
         timing:{{transcribe_s:1.0,guess_s:0.25,align_s:0.125,total_s:2.0}}}}",
        show(&settled_value(&search(), Some(&Ok(self::report(0.7, 8, 10)))))
    );
    assert_eq!(show(&doc), wanted);
    let bare = show(&result_value("j", &input, &heard, &GuessDoc::Nothing, &None, "smooth", false, &timing));
    assert!(bare.contains("ayah_alignment:null,ayah_alignment_full:null"));
    assert!(bare.contains("ayah_alignment_spans:null,ayah_alignment_jumps:null,ayah_alignment_active_span_index:null"));
}

#[test]
fn replies_are_written() {
    let mut m = JobMeta::queued("j", "a", "audio/x", 3, r(1.0));
    m.start(r(2.0));
    assert_eq!(
        show(&job_value(&m)),
        "{job_id:\"j\",status:\"running\",created_at:1.0,updated_at:2.0,started_at:2.0,finished_at:null,\
         filename:\"a\",content_type:\"audio/x\",size_bytes:3,error:null}"
    );
    m.fail(r(3.0), "bad");
    assert_eq!(show(&demo_job_value(&m)), "{job_id:\"j\",status:\"error\",error:\"bad\"}");
    assert_eq!(show(&queued_value::<Real>("j")), "{job_id:\"j\",status:\"queued\"}");
    let cfg: StreamConfig<Real> = StreamConfig::default();
    let config = "config:{sample_rate_hz:16000,channels:1,window_s:20.0,hop_s:2.0,buffer_s:90.0,min_process_s:2.0}";
    assert_eq!(
        show(&session_value("s", "/p", "ws://h/p", &cfg)),
        format!("{{session_id:\"s\",ws_path:\"/p\",ws_url:\"ws://h/p\",{config}}}")
    );
    assert_eq!(
        show(&demo_session_value("s", "/p", &cfg, 60)),
        format!("{{session_id:\"s\",ws_path:\"/p\",{config},max_duration_s:60}}")
    );
    assert_eq!(show(&stopped_value::<Real>("s")), "{ok:true,session_id:\"s\"}");
    assert_eq!(show(&health_value(r(9.0), 2, 3)), "{ok:true,time:9.0,queue_length_estimate:2,jobs_total:3}");
    assert_eq!(show(&demo_health_value::<Real>()), "{ok:true,demo:true}");
    assert_eq!(StreamCfgError::SampleRate.message(), "only 16kHz supported for now");
    assert_eq!(StreamCfgError::Channels.message(), "only mono supported for now");
}

#[test]
fn retiming_reports_are_written() {
    let x: SurahReport<Real> = SurahReport {
        surah: 7,
        ok: true,
        updated: true,
        reason: Reason::Updated,
        confidence: Some(r(0.75)),
        ayahs: 2,
        mae_ms: Some(r(1500.0)),
        median_abs_ms: None,
        p90_abs_ms: Some(r(2000.0)),
        max_abs_ms: Some(r(2000.0)),
    };
    assert_eq!(
        show(&surah_value(&x, "p", "smooth")),
        "{surah:7,ok:true,updated:true,reason:\"updated\",confidence:0.75,ayahs:2,mae_ms:1500.0,median_abs_ms:null,\
         p90_abs_ms:2000.0,max_abs_ms:2000.0}"
    );
    let word = |reason| write_reason(&reason, "\"p\"", "smooth");
    assert_eq!(word(Reason::Skipped), "skipped");
    assert_eq!(word(Reason::MissingTranscript), "missing transcript: \"p\"");
    assert_eq!(word(Reason::UnreadableTranscript), "transcript parse failed: read transcript \"p\"");
    let bad = |fault: TranscriptFault, text: &str| {
        word(Reason::BadTranscript(TranscriptError { fault, text: text.to_string() }))
    };
    assert_eq!(
        bad(TranscriptFault::Header, "[1\t\"] --> x"),
        "transcript parse failed: bad segment header: \"[1\\t\\\"] --> x\""
    );
    assert_eq!(
        bad(TranscriptFault::Time(TimestampError::Shape), "1:2"),
        "transcript parse failed: invalid timestamp: \"1:2\""
    );
    assert_eq!(
        bad(TranscriptFault::Time(TimestampError::Millis), "0:0:0.x"),
        "transcript parse failed: invalid ms in timestamp: \"0:0:0.x\""
    );
    let number = |f: NumberFault| bad(TranscriptFault::Time(TimestampError::Number(f)), "1:2:3.4");
    assert_eq!(number(NumberFault::Empty), "transcript parse failed: cannot parse integer from empty string");
    assert_eq!(number(NumberFault::Digit), "transcript parse failed: invalid digit found in string");
    assert_eq!(number(NumberFault::TooLarge), "transcript parse failed: number too large to fit in target type");
    assert_eq!(number(NumberFault::TooSmall), "transcript parse failed: number too small to fit in target type");
    assert_eq!(
        word(Reason::AlignmentError(AlignError::NoTokens)),
        "alignment error: \"no tokens found in transcription\""
    );
    assert_eq!(word(Reason::CountMismatch { db: 5, align: 12 }), "ayah count mismatch (db=5 align=12)");
    assert_eq!(word(Reason::NotConfined), "aligned range not confined to surah");
    assert_eq!(word(Reason::MissingSegments), "missing alignment.segments");
    assert_eq!(word(Reason::NoRows), "no db rows for surah");
    assert_eq!(word(Reason::Order), "partial update would break monotonicity");
    assert_eq!(word(Reason::LowConfidence), "low_confidence");
    assert_eq!(word(Reason::BelowThreshold), "below_threshold");
}

#[test]
fn sources_must_be_allowed() {
    let allow: Vec<String> = vec!["*.example.com".to_string(), "a.org".to_string()];
    assert_eq!(check_source_url("https://cdn.example.com/x.m4a?y", &allow), SourceCheck::Allowed);
    assert_eq!(check_source_url("http://user@A.org:8080/x", &allow), SourceCheck::Allowed);
    assert_eq!(check_source_url("https://other.net/example.com", &allow), SourceCheck::HostNotAllowed);
    assert_eq!(check_source_url("data:text/plain,x", &allow), SourceCheck::HostNotAllowed);
    assert_eq!(check_source_url("data:text/plain,x", &[]), SourceCheck::Allowed);
    assert_eq!(check_source_url("no address", &[]), SourceCheck::Invalid);
    assert_eq!(check_source_host(&Some(Some("a.org".to_string())), &allow), SourceCheck::Allowed);
    assert_eq!(check_source_host(&Some(None), &allow), SourceCheck::HostNotAllowed);
    assert_eq!(check_source_host(&None, &allow), SourceCheck::Invalid);
}

fn token(secret: &str, entries: Vec<(&str, serde_json::Value)>) -> String {
    let claims: serde_json::Map<String, serde_json::Value> =
        entries.into_iter().map(|(k, v)| (k.to_string(), v)).collect();
    let key = jsonwebtoken::EncodingKey::from_secret(secret.as_bytes());
    jsonwebtoken::encode(&jsonwebtoken::Header::default(), &serde_json::Value::Object(claims), &key).unwrap()
}

fn signed(secret: &str, sid: &str, role: &str, aud: &str, exp: u64) -> String {
    let v = |s: &str| serde_json::Value::from(s);
    token(secret, vec![("sid", v(sid)), ("role", v(role)), ("aud", v(aud)), ("exp", serde_json::Value::from(exp))])
}

const FAR: u64 = 9_999_999_999;

#[test]
fn tokens_are_decoded() {
    let t = signed("key", "s1", "admin", "aud", FAR);
    let c = decode_claims(&t, "key", "aud").unwrap();
    assert_eq!((c.sid.as_deref(), c.role.as_deref(), c.exp), (Some("s1"), Some("admin"), FAR));
    assert_eq!(decode_claims(&t, "other", "aud").err().as_deref(), Some("InvalidSignature"));
    assert_eq!(decode_claims(&t, "key", "else").err().as_deref(), Some("InvalidAudience"));
    assert_eq!(
        decode_claims(&signed("key", "s1", "admin", "aud", 1), "key", "aud").err().as_deref(),
        Some("ExpiredSignature")
    );
    assert!(decode_claims("no.token", "key", "aud").is_err());
    // Without a session or a role the token is read, but opens nothing.
    let bare = token("key", vec![("exp", serde_json::Value::from(FAR))]);
    let c = decode_claims(&bare, "key", "aud").unwrap();
    assert_eq!((c.sid, c.role, c.exp), (None, None, FAR));
    // Claims of the wrong kind are refused.
    let odd = token("key", vec![("exp", serde_json::Value::from(FAR)), ("sub", serde_json::Value::from(3))]);
    assert_eq!(decode_claims(&odd, "key", "aud").err().as_deref(), Some("JSON error: invalid claims"));
    let list = serde_json::Value::from(vec!["aud".to_string()]);
    let odd = token("key", vec![("exp", serde_json::Value::from(FAR)), ("aud", list)]);
    assert!(decode_claims(&odd, "key", "aud").is_err());
    // A token that no clock outlives.
    let last = decode_claims(&signed("key", "s1", "admin", "aud", u64::MAX), "key", "aud").unwrap();
    assert_eq!(last.exp, u64::MAX);
    assert_eq!(settle_claims(Err("late".to_string())).err().as_deref(), Some("late"));
    let fields = TokenFields { sub: Some(None), sid: Some(None), role: None, aud: Some(None), exp: Some(7) };
    assert_eq!(settle_claims(Ok(fields)).err().as_deref(), Some("JSON error: invalid claims"));
    let none = TokenFields { sub: Some(None), sid: Some(None), role: Some(None), aud: Some(None), exp: None };
    assert!(read_claims(none).is_none());
}

fn session() -> StreamSession<Real> {
    StreamSession::new("s1".to_string(), StreamConfig::default(), 10, r(30.0), r(1.2), r(60.0), r(4.0), r(60.0))
}

#[test]
fn tokens_prolong_their_session() {
    let mut s = session();
    let ok = s.validate_and_apply_stream_token(&signed("key", "s1", "admin", "aud", FAR), "key", "aud");
    assert!(matches!(ok, Ok(FAR)));
    assert_eq!(s.auth_expires_unix_s, FAR);
    let mut refuse = |t: &str, secret: &str| match s.validate_and_apply_stream_token(t, secret, "aud") {
        Err(RefreshError::Refused(e)) => e.message(),
        Err(RefreshError::Invalid(_)) => "invalid",
        Ok(_) => "ok",
    };
    assert_eq!(refuse(" ", "key"), "missing token");
    assert_eq!(refuse("x", " "), "server not configured for stream jwt");
    assert_eq!(refuse("x", "key"), "invalid");
    assert_eq!(refuse(&signed("key", "s2", "admin", "aud", FAR), "key"), "sid mismatch");
    assert_eq!(refuse(&signed("key", "s1", "user", "aud", FAR), "key"), "admin role required");
    let claims = StreamClaims { sid: Some("s1".to_string()), role: Some("admin".to_string()), exp: 77 };
    assert_eq!(s.apply_claims(&claims), Ok(77));
    assert_eq!(s.auth_expires_unix_s, 77);
    let claims = StreamClaims { sid: None, role: None, exp: 78 };
    assert_eq!(s.apply_claims(&claims), Err(TokenError::SidMismatch));
    assert_eq!(s.auth_expires_unix_s, 77);
}

fn var(name: &str, value: &str) -> EnvVar<Real> {
    EnvVar { name: name.to_string(), value: value.to_string(), number: None }
}

#[test]
fn streams_open_by_token_or_key() {
    let settings: Settings<Real> =
        load_settings(&[var("API_KEY", "k"), var("STREAM_JWT_SECRET", "key"), var("STREAM_JWT_AUDIENCE", "aud")]);
    let open = |header: &str| authorize_stream(Some(header), "s1", None, None, &settings);
    let bearer = |t: String| format!("Bearer {t}");
    assert_eq!(open(&bearer(signed("key", "s1", "admin", "aud", FAR))), Ok(Some(FAR)));
    assert_eq!(open(&bearer(signed("key", "s2", "admin", "aud", FAR))), Err(Denied::Unauthorized));
    assert_eq!(open(&bearer(signed("other", "s1", "admin", "aud", FAR))), Err(Denied::Unauthorized));
    assert_eq!(open("Bearer k"), Ok(None));
    assert_eq!(authorize_stream(None, "s1", None, None, &settings), Err(Denied::Unauthorized));
}
