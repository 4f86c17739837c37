use quran_asr_api::alignment_v2::{AlignError, AlignmentReport, DebugCounts};
use quran_asr_api::dp::AlignmentResultV2;
use quran_asr_api::json::{number_field, safe_bool, safe_f64, Json};
use quran_asr_api::retiming::{
    adjust_rows, build_rows, build_table, judge_surah, mean, median, most, open_surah, p90, parse_skip_surahs,
    reject_outcome, set_segments_first_ms, OldTime, Reason, RetimeLimits, Row, SurahReport,
};
use quran_asr_api::rolling::extract_timed_words;
use quran_asr_api::scalar::Scalar;
use quran_asr_api::spans::{AyahRef, AyahSegment};
use quran_asr_api::timed::{
    build_query_text, extract_timed_tokens_from_transcription, upgrade_word_timestamps, TimeMode, TimedToken,
};
use quran_asr_api::transcripts::{
    find_number_fault, parse_i64, parse_transcript_txt, parse_ts, sort_times, to_transcription, NumberFault,
    TimestampError, Transcript, TranscriptError, TranscriptFault,
};

#[derive(Clone, Copy, Debug, PartialEq)]
struct Real(f64);

impl Scalar for Real {
    fn whole(n: u64) -> Self {
        Real(n as f64)
    }
    fn milli(n: u64) -> Self {
        Real(n as f64 / 1000.0)
    }
    fn plus(self, other: Self) -> Self {
        Real(self.0 + other.0)
    }
    fn minus(self, other: Self) -> Self {
        Real(self.0 - other.0)
    }
    fn times(self, other: Self) -> Self {
        Real(self.0 * other.0)
    }
    fn over(self, other: Self) -> Self {
        Real(self.0 / other.0)
    }
    fn below(self, other: Self) -> bool {
        self.0 < other.0
    }
    fn is_finite(self) -> bool {
        self.0.is_finite()
    }
    fn trunc_u64(self) -> u64 {
        self.0 as u64
    }
    fn ceil_u64(self) -> u64 {
        self.0.ceil() as u64
    }
    fn round_i64(self) -> i64 {
        self.0.round() as i64
    }
}

fn r(x: f64) -> Real {
    Real(x)
}

fn time(s: &str) -> Result<Real, TimestampError> {
    parse_ts(s)
}

#[test]
fn numbers_are_read_with_their_sign() {
    assert_eq!(parse_i64("12"), Some(12));
    assert_eq!(parse_i64("+012"), Some(12));
    assert_eq!(parse_i64("-7"), Some(-7));
    assert_eq!(parse_i64("-9223372036854775808"), Some(i64::MIN));
    assert_eq!(parse_i64("9223372036854775807"), Some(i64::MAX));
    for s in ["9223372036854775808", "-9223372036854775809", "", "-", "+", "-+1", "+-1", "1 ", "x"] {
        assert_eq!(parse_i64(s), None, "{s}");
    }
}

#[test]
fn timestamps_are_read() {
    assert_eq!(time(" 01:02:03.250 "), Ok(r(3723.25)));
    assert_eq!(time("0:0:0.5"), Ok(r(0.005)));
    assert_eq!(time("00:00:-1.000"), Ok(r(-1.0)));
    assert_eq!(time("00:00:01"), Err(TimestampError::Shape));
    assert_eq!(time("00:01.5"), Err(TimestampError::Shape));
    assert_eq!(time("00:00:01.x"), Err(TimestampError::Millis));
    assert_eq!(time("00:00:01.5.5"), Err(TimestampError::Millis));
    assert_eq!(time("a:00:01.5"), Err(TimestampError::Number(NumberFault::Digit)));
    assert_eq!(time("0:0 :1.5"), Err(TimestampError::Number(NumberFault::Digit)));
}

const TRANSCRIPT: &str = "ignored 00:00:00.000 --> 00:00:01.000 x
[00:00:01.000 --> 00:00:03.000]  first part
  00:00:02.500 --> 00:00:03.000 late
  00:00:01.000 --> 00:00:02.000 two words
  00:00:01.500 --> 00:00:02.000

no arrow here
[00:00:04.000 --> 00:00:05.500]
\t00:00:04.250 --> 00:00:05.000 end
";

#[test]
fn transcripts_are_read() {
    let t: Transcript<Real> = parse_transcript_txt(TRANSCRIPT).ok().unwrap();
    assert_eq!((t.text.as_str(), t.segments.len()), ("first part", 2));
    assert_eq!(t.word_starts, vec![r(1.0), r(2.5), r(4.25)]);
    let words: Vec<&str> = t.segments[0].words.iter().map(|w| w.word.as_str()).collect();
    assert_eq!(words, vec!["late", "two words"]);
    assert_eq!((t.segments[0].start_ts.as_str(), t.segments[0].end_ts.as_str()), ("00:00:01.000", "00:00:03.000"));
    assert_eq!((t.segments[1].text.as_str(), t.segments[1].end_s), ("", r(5.5)));
    let v = to_transcription(&t.segments);
    assert_eq!(v.text_field("language"), "ar");
    assert!(number_field(&v, "language_probability") == Some(r(1.0)));
    assert!(number_field(&v, "duration_s") == Some(r(5.5)));
    let order: Vec<String> = extract_timed_words(&v).into_iter().map(|w| w.word).collect();
    assert_eq!(order, vec!["two words", "late", "end"]);
}

#[test]
fn bad_transcripts_are_refused() {
    let bad = |s: &str| parse_transcript_txt::<Real>(s).err().map(|e| (e.fault, e.text));
    let fault = |fault: TranscriptFault, text: &str| Some((fault, text.to_string()));
    let time = |e: TimestampError, text: &str| fault(TranscriptFault::Time(e), text);
    assert_eq!(bad("\n[00:00:01.000] --> x  \n"), fault(TranscriptFault::Header, "[00:00:01.000] --> x"));
    assert_eq!(bad("[0 --> 00:00:01.000] x"), time(TimestampError::Shape, "0"));
    assert_eq!(bad("[0:0:1.0 --> 0:0:2.y] x"), time(TimestampError::Millis, "0:0:2.y"));
    assert_eq!(
        bad("[0:0:1.0 --> 0:0:2.0] x\n a:0:0.0 --> 0:0:1.0 w"),
        time(TimestampError::Number(NumberFault::Digit), "a:0:0.0")
    );
    assert_eq!(
        bad("[0:0:1.0 --> 0:0:2.0] x\n 0:0:0.0 --> 0::x.0 w"),
        time(TimestampError::Number(NumberFault::Empty), "0::x.0")
    );
    assert_eq!(bad("plain\n\n"), None);
}

#[test]
fn faults_of_numbers_are_those_of_the_standard_parser() {
    let texts = [
        "", "+", "-", "0", "-0", "+7", "x", "1x", "-+1", "+-1", "9223372036854775807", "9223372036854775808",
        "-9223372036854775808", "-9223372036854775809", "99999999999999999999x", "x99999999999999999999",
        "9223372036854775807x", "\u{661}", "1 ",
    ];
    for t in texts {
        let found = find_number_fault(t).map(|f| match f {
            NumberFault::Empty => "cannot parse integer from empty string",
            NumberFault::Digit => "invalid digit found in string",
            NumberFault::TooLarge => "number too large to fit in target type",
            NumberFault::TooSmall => "number too small to fit in target type",
        });
        assert_eq!(found.map(|f| f.to_string()), t.parse::<i64>().err().map(|e| e.to_string()), "{t}");
    }
}

#[test]
fn chapters_are_opened_or_reported() {
    assert_eq!(parse_skip_surahs("1, 33,x,,-2"), vec![1, 33, -2]);
    let skip = [1i64, 33];
    let reason = |surah: i64, is_file: bool, raw: Option<&str>| {
        open_surah::<Real>(surah, &skip, is_file, raw).err().map(|x| (x.reason, x.ok))
    };
    assert_eq!(reason(33, true, Some(TRANSCRIPT)), Some((Reason::Skipped, true)));
    assert_eq!(reason(2, false, None), Some((Reason::MissingTranscript, false)));
    assert_eq!(reason(2, true, None), Some((Reason::UnreadableTranscript, false)));
    let header = TranscriptError { fault: TranscriptFault::Header, text: "[00:00:01.000] --> x".to_string() };
    assert_eq!(reason(2, true, Some("[00:00:01.000] --> x")), Some((Reason::BadTranscript(header), false)));
    assert_eq!(reason(2, true, Some(TRANSCRIPT)), None);
}

#[test]
fn figures_of_a_list() {
    let xs: Vec<Real> = [5.0, 1.0, 4.0, 2.0].iter().map(|x| r(*x)).collect();
    assert_eq!(sort_times(&xs), vec![r(1.0), r(2.0), r(4.0), r(5.0)]);
    assert_eq!(median(&xs), Some(r(3.0)));
    assert_eq!(median(&xs[..3]), Some(r(4.0)));
    assert_eq!(p90(&xs), Some(r(5.0)));
    let ten: Vec<Real> = (0..11).map(|x| r(x as f64)).collect();
    assert_eq!(p90(&ten), Some(r(9.0)));
    assert_eq!(mean(&xs), Some(r(3.0)));
    assert_eq!(most(&xs), r(5.0));
    let none: [Real; 0] = [];
    assert_eq!((median(&none), p90(&none), mean(&none), most(&none)), (None, None, None, r(0.0)));
}

#[test]
fn the_first_time_is_replaced() {
    assert_eq!(set_segments_first_ms("[[0, 120], [1, 480]]", 99), "[[0,99],[1,480]]");
    assert_eq!(set_segments_first_ms("[[0,1,2]]", 99), "[[0,1,2]]");
    assert_eq!(set_segments_first_ms("[]", 99), "[]");
    assert_eq!(set_segments_first_ms("{ }", 99), "{ }");
    assert_eq!(set_segments_first_ms("[[0,5]]", -3), "[[0,-3]]");
}

fn verse(ayah: u16, start: Option<f64>, end: Option<f64>) -> AyahSegment<Real> {
    AyahSegment {
        ayah_key: String::new(),
        surah_id: 7,
        ayah_num: ayah,
        start_s: start.map(Real),
        end_s: end.map(Real),
        start_ts: None,
        end_ts: None,
        token_count: 1,
        match_count: 1,
        estimated_time: false,
    }
}

fn plain(rows: &[Row]) -> Vec<(i64, i64, String)> {
    rows.iter().map(|x| (x.ayah, x.start_ms, x.segments.clone())).collect()
}

fn row(ayah: i64, start_ms: i64, segments: &str) -> Row {
    Row { ayah, start_ms, segments: segments.to_string() }
}

#[test]
fn words_are_shared_out_among_verses() {
    let starts: Vec<Real> = [0.5, 1.25, 2.0, 3.0].iter().map(|x| r(*x)).collect();
    let segs = [
        verse(1, Some(0.0), Some(2.0)),
        verse(0, Some(9.0), Some(9.0)),
        verse(2, Some(2.0), None),
        verse(3, Some(2.5), Some(2.75)),
        verse(4, None, None),
    ];
    let rows = build_rows(&segs, &starts);
    assert_eq!(
        plain(&rows),
        vec![
            (1, 500, "[[0,500],[1,1250]]".to_string()),
            (2, 2000, "[[0,2000]]".to_string()),
            // No word is left: the verse's own time.
            (3, 2500, "[[0,2500]]".to_string()),
            (4, 3000, "[[0,3000]]".to_string()),
        ]
    );
    // A time that lies before the one in front is moved up.
    let back = build_rows(&[verse(1, Some(5.0), Some(6.0)), verse(2, Some(1.0), Some(2.0))], &[]);
    assert_eq!(plain(&back), vec![(1, 5000, "[[0,5000]]".to_string()), (2, 5000, "[[0,5000]]".to_string())]);
}

#[test]
fn recorded_times_are_kept_in_order_of_verses() {
    let at = |ayah, start_ms| OldTime { ayah, start_ms };
    let table = build_table(&[at(3, 30), at(1, 10), at(3, 35), at(2, 20)]);
    assert_eq!(table.iter().map(|x| (x.ayah, x.start_ms)).collect::<Vec<_>>(), vec![(1, 10), (2, 20), (3, 35)]);
    // Verse 2 keeps its time; the new ones fit round it.
    let rows = [row(1, 15, "[[0,15]]"), row(3, 18, "[[0,18],[1,40]]")];
    let fit = adjust_rows(&table, &rows).unwrap();
    assert_eq!(plain(&fit), vec![(1, 15, "[[0,15]]".to_string()), (3, 20, "[[0,20],[1,40]]".to_string())]);
    assert!(adjust_rows(&table, &[row(1, 25, "[]")]).is_none());
}

fn report(surah: u16, conf: f64, segments: Vec<AyahSegment<Real>>) -> Result<AlignmentReport<Real>, AlignError> {
    Ok(AlignmentReport {
        version: "v".to_string(),
        confidence: Real(conf),
        start: AyahRef { surah, ayah: 1 },
        end: AyahRef { surah, ayah: 2 },
        time_base: "absolute".to_string(),
        time_base_s: Real(0.0),
        debug: DebugCounts {
            timed_tokens: 0,
            obs_nonzero: 0,
            obs_unknown: 0,
            obs_stop: 0,
            obs_effective: 0,
            obs_unique_effective: 0,
            query_words: 0,
            query_chars: 0,
        },
        candidates: 1,
        best_norm_cost: Real(0.0),
        second_norm_cost: Real(0.0),
        gap: Real(0.0),
        match_ratio: Real(1.0),
        best: AlignmentResultV2 {
            cost: Real(0.0),
            ref_start: 0,
            ref_end: 0,
            transcript_to_ref: vec![],
            transcript_is_match: vec![],
            matches: 0,
            substitutions: 0,
            deletions: 0,
            insertions: 0,
            expected_offset: 0,
            candidate_source: None,
            quick_score: Real(0.0),
        },
        segments,
        total_s: Real(0.0),
    })
}

#[test]
fn chapters_are_judged() {
    let limits = |force| RetimeLimits { threshold_ms: 1500, min_confidence: Real(0.6), max_missing_ayahs: 1, force };
    let old = [OldTime { ayah: 1, start_ms: 0 }, OldTime { ayah: 2, start_ms: 4000 }];
    let two = || vec![verse(1, Some(1.0), Some(2.0)), verse(2, Some(2.0), Some(3.0))];
    let judge = |out: Option<&Result<AlignmentReport<Real>, AlignError>>, old: &[OldTime], force| {
        let (x, rows): (SurahReport<Real>, Vec<Row>) = judge_surah(7, out, old, &[], &limits(force));
        (x.reason, x.ok, x.updated, x.ayahs, x.max_abs_ms.map(|m| m.0), rows.len())
    };
    assert_eq!(judge(None, &old, false), (Reason::NotConfined, false, false, 0, None, 0));
    let none = Err(AlignError::NoTokens);
    assert_eq!(judge(Some(&none), &old, false), (Reason::AlignmentError(AlignError::NoTokens), false, false, 0, None, 0));
    assert_eq!(judge(Some(&report(8, 0.9, two())), &old, false).0, Reason::NotConfined);
    assert_eq!(judge(Some(&report(7, 0.9, vec![])), &old, false).0, Reason::MissingSegments);
    assert_eq!(reject_outcome::<Real>(7, None).map(|x| x.reason), Some(Reason::NotConfined));
    assert_eq!(reject_outcome(7, Some(&report(7, 0.9, vec![]))).map(|x| x.confidence), Some(Some(r(0.9))));
    assert!(reject_outcome(7, Some(&report(7, 0.9, two()))).is_none());
    assert_eq!(judge(Some(&report(7, 0.9, two())), &[], false).0, Reason::NoRows);
    assert_eq!(judge(Some(&report(7, 0.9, two())), &old[..1], false), (Reason::CountMismatch { db: 1, align: 2 }, false, false, 1, None, 0));
    assert_eq!(judge(Some(&report(7, 0.9, vec![verse(0, None, None)])), &old, false).0, Reason::CountMismatch { db: 2, align: 0 });
    assert_eq!(judge(Some(&report(7, 0.9, vec![verse(1, Some(9.0), None)])), &old, false), (Reason::Order, false, false, 2, None, 0));
    assert_eq!(judge(Some(&report(7, 0.9, two())), &old, false), (Reason::Updated, true, true, 2, Some(2000.0), 2));
    assert_eq!(judge(Some(&report(7, 0.5, two())), &old, false), (Reason::LowConfidence, true, false, 2, Some(2000.0), 0));
    let near = [OldTime { ayah: 1, start_ms: 900 }, OldTime { ayah: 2, start_ms: 2100 }];
    assert_eq!(judge(Some(&report(7, 0.9, two())), &near, false), (Reason::BelowThreshold, true, false, 2, Some(100.0), 0));
    assert_eq!(judge(Some(&report(7, 0.5, two())), &near, true), (Reason::Updated, true, true, 2, Some(100.0), 2));
    let (x, _) = judge_surah(7, Some(&report(7, 0.9, two())), &old, &[], &limits(false));
    assert_eq!((x.mae_ms, x.median_abs_ms, x.p90_abs_ms), (Some(r(1500.0)), Some(r(1500.0)), Some(r(2000.0))));
}

fn token(word: &str, start: Option<f64>, end: Option<f64>) -> TimedToken<Real> {
    TimedToken {
        raw: word.to_string(),
        simplified: word.to_string(),
        start_s: start.map(Real),
        end_s: end.map(Real),
        estimated_time: false,
    }
}

#[test]
fn smoothed_words_follow_each_other() {
    let tokens = || {
        vec![
            token("a", Some(2.0), Some(1.0)),
            token("b", Some(1.0), Some(1.5)),
            token("c", None, Some(9.0)),
            token("d", Some(1.5), Some(3.0)),
        ]
    };
    let times = |v: Vec<TimedToken<Real>>| v.iter().map(|t| (t.start_s, t.end_s)).collect::<Vec<_>>();
    let smooth = upgrade_word_timestamps(tokens(), " Smooth ").ok().unwrap();
    assert_eq!(
        times(smooth),
        vec![
            (Some(r(2.0)), Some(r(2.0))),
            (Some(r(2.0)), Some(r(2.0))),
            (None, Some(r(9.0))),
            (Some(r(2.0)), Some(r(3.0))),
        ]
    );
    for mode in ["", "0", "FALSE", "off", "none"] {
        assert_eq!(times(upgrade_word_timestamps(tokens(), mode).ok().unwrap()), times(tokens()));
    }
    assert_eq!(upgrade_word_timestamps(tokens(), "forced").err(), Some(TimeMode::Forced));
    assert_eq!(upgrade_word_timestamps(tokens(), "WhisperX").err(), Some(TimeMode::Forced));
    assert_eq!(upgrade_word_timestamps(tokens(), "other").err(), Some(TimeMode::Unknown));
}

#[test]
fn queries_keep_both_ends() {
    let tokens: Vec<TimedToken<Real>> = ["a", "b", "", "c", "d", "e"].iter().map(|w| token(w, None, None)).collect();
    assert_eq!(build_query_text(&tokens, 5), "a b c d e");
    assert_eq!(build_query_text(&tokens, 4), "a b d e");
    assert_eq!(build_query_text(&tokens, 3), "a d e");
    assert_eq!(build_query_text(&tokens[2..3], 3), "");
}

#[test]
fn loose_values_are_read() {
    let text = |s: &str, spelled: Option<f64>| Json::Text { text: s.to_string(), spelled: spelled.map(Real) };
    let whole = |i: i64| Json::Number { unsigned: None, signed: Some(i), value: Real(i as f64) };
    assert_eq!(safe_f64(&whole(-3)), Some(r(-3.0)));
    assert_eq!(safe_f64(&text("2.5", Some(2.5))), Some(r(2.5)));
    assert_eq!(safe_f64(&text("x", None)), None);
    assert_eq!(safe_f64::<Real>(&Json::Bool(true)), None);
    assert_eq!(safe_bool::<Real>(&Json::Bool(true)), Some(true));
    assert_eq!(safe_bool(&whole(2)), Some(true));
    assert_eq!(safe_bool(&whole(0)), Some(false));
    assert_eq!(safe_bool(&Json::Number { unsigned: None, signed: None, value: r(0.5) }), None);
    assert_eq!(safe_bool(&text(" YES ", None)), Some(true));
    assert_eq!(safe_bool(&text("n", None)), Some(false));
    assert_eq!(safe_bool(&text("", None)), None);
    assert_eq!(safe_bool(&text("maybe", None)), None);
    assert_eq!(safe_bool::<Real>(&Json::Null), None);
}

#[test]
fn words_come_with_their_times() {
    let t: Transcript<Real> = parse_transcript_txt(TRANSCRIPT).ok().unwrap();
    let tokens = extract_timed_tokens_from_transcription(&to_transcription(&t.segments));
    let forms: Vec<(&str, Option<Real>, bool)> =
        tokens.iter().map(|x| (x.simplified.as_str(), x.start_s, x.estimated_time)).collect();
    let wanted = vec![
        ("late", Some(r(2.5)), false),
        ("twowords", Some(r(1.0)), false),
        ("end", Some(r(4.25)), false),
    ];
    assert_eq!(forms, wanted);
    assert!(extract_timed_tokens_from_transcription(&Json::<Real>::Null).is_empty());
}
