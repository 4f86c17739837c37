use quran_asr_api::alignment_v2::{guess_ayah_alignment_v2_from_transcription, AlignError, AlignmentReport};
use quran_asr_api::assets::{ayah_key, AlignmentAssetsV2, AssetsError, RawAssets};
use quran_asr_api::candidates::CandidateWindow;
use quran_asr_api::confusion::ConfusionModel;
use quran_asr_api::dp::{weighted_banded_dp, Source};
use quran_asr_api::json::Json;
use quran_asr_api::jobs::{choose_chapter, preferred_chapter};
use quran_asr_api::multispan::align_multi_span;
use quran_asr_api::npy::NpyMemmap;
use quran_asr_api::scalar::Scalar;
use quran_asr_api::scoring::{align_candidates, band_width};
use quran_asr_api::spans::AyahRef;
use quran_asr_api::text::{normalize_token, simhash64_from_char_ngrams};
use quran_asr_api::timed::TimeMode;

#[derive(Clone, Copy, Debug, PartialEq)]
struct Real(f64);

impl Scalar for Real {
    fn whole(n: u64) -> Self {
        Real(n as f64)
    }
    fn milli(n: u64) -> Self {
        Real(n as f64 / 1000.0)
    }
    fn plus(self, other: Self) -> Self {
        Real(self.0 + other.0)
    }
    fn minus(self, other: Self) -> Self {
        Real(self.0 - other.0)
    }
    fn times(self, other: Self) -> Self {
        Real(self.0 * other.0)
    }
    fn over(self, other: Self) -> Self {
        Real(self.0 / other.0)
    }
    fn below(self, other: Self) -> bool {
        self.0 < other.0
    }
    fn is_finite(self) -> bool {
        self.0.is_finite()
    }
    fn trunc_u64(self) -> u64 {
        self.0 as u64
    }
    fn ceil_u64(self) -> u64 {
        self.0.ceil() as u64
    }
    fn round_i64(self) -> i64 {
        self.0.round() as i64
    }
}

struct Random {
    x: u64,
}

impl Random {
    fn next(&mut self, n: u64) -> u64 {
        self.x = self.x.wrapping_mul(6364136223846793005).wrapping_add(1442695040888963407);
        (self.x >> 33) % n
    }
}

fn array<T: Copy>(values: Vec<T>) -> NpyMemmap<T> {
    let n = values.len();
    NpyMemmap::from_parts(values, vec![n])
}

fn text(s: &str) -> Json<Real> {
    Json::Text { text: s.to_string(), spelled: s.parse::<f64>().ok().map(Real) }
}

fn number(x: f64) -> Json<Real> {
    Json::Number { unsigned: None, signed: None, value: Real(x) }
}

fn whole(x: u64) -> Json<Real> {
    Json::Number { unsigned: Some(x), signed: Some(x as i64), value: Real(x as f64) }
}

fn object(entries: Vec<(&str, Json<Real>)>) -> Json<Real> {
    Json::Object(entries.into_iter().map(|(k, v)| (k.to_string(), v)).collect())
}

const VERSES: usize = 150;
const WORDS: usize = 300;

/// A made-up reference: random words in verses of four to fourteen, fifteen
/// verses to a chapter.
fn raw_assets(confusions: Option<Json<Real>>) -> RawAssets<Real> {
    let mut r = Random { x: 7 };
    let mut words: Vec<String> = vec![String::new()];
    while words.len() <= WORDS {
        let k = 3 + r.next(5);
        let w: String = (0..k).map(|_| (b'a' + r.next(20) as u8) as char).collect();
        if words.contains(&w) || normalize_token(&w) != w {
            continue;
        }
        words.push(w);
    }
    let (mut refs, mut surah, mut ayah, mut global, mut place) = (vec![], vec![], vec![], vec![], vec![]);
    let (mut starts, mut ends) = (vec![0u32], vec![0u32]);
    for g in 1..=VERSES {
        let n = 4 + r.next(11);
        starts.push(refs.len() as u32);
        for p in 0..n {
            let common = r.next(6) == 0;
            let t = 1 + if common { r.next(5) } else { r.next(WORDS as u64) };
            refs.push(t as u32);
            surah.push((1 + (g - 1) / 15) as u16);
            ayah.push((1 + (g - 1) % 15) as u16);
            global.push(g as u16);
            place.push(p as u16);
        }
        ends.push(refs.len() as u32);
    }
    starts.push(refs.len() as u32);
    let mut idf = vec![Real(0.0)];
    for t in 1..=WORDS {
        idf.push(Real((t * 37 % 401) as f64 / 64.0 + 0.5));
    }
    let (mut offsets, mut positions) = (vec![], vec![]);
    for t in 0..=WORDS {
        offsets.push(positions.len() as u32);
        for (i, &x) in refs.iter().enumerate() {
            if x as usize == t {
                positions.push(i as u32);
            }
        }
    }
    offsets.push(positions.len() as u32);
    let (mut from, mut to, mut hashes) = (vec![], vec![], vec![]);
    let mut g = 1;
    while g + 2 <= VERSES {
        from.push(g as u16);
        to.push((g + 2) as u16);
        let passage: Vec<&str> = refs[starts[g] as usize..ends[g + 2] as usize]
            .iter()
            .map(|&t| words[t as usize].as_str())
            .collect();
        hashes.push(simhash64_from_char_ngrams(&passage.join(" ")));
        g += 2;
    }
    RawAssets {
        assets_dir: "/assets/v2/test".to_string(),
        dir_name: "test".to_string(),
        meta: object(vec![("passages", object(vec![("embedding_model", text("none")), ("embedding_dim", whole(8))]))]),
        vocab: object(vec![("id_to_token", Json::List(words.iter().map(|w| text(w)).collect()))]),
        ref_token_ids: array(refs),
        ref_surah_id: array(surah),
        ref_ayah_num: array(ayah),
        ref_ayah_global: array(global),
        ref_word_pos: array(place),
        ayah_token_start: array(starts),
        ayah_token_end: array(ends),
        token_idf: array(idf),
        stop_token_ids: array(vec![1, 2, 3, 4, 5, 9999]),
        inv_offsets: array(offsets),
        inv_positions: array(positions),
        passages_start_ayah_global: array(from),
        passages_end_ayah_global: array(to),
        passages_simhash64: array(hashes),
        passages_emb_f16: array(vec![]),
        confusions,
    }
}

fn assets() -> AlignmentAssetsV2<Real> {
    match AlignmentAssetsV2::load(raw_assets(None), None, None) {
        Ok(a) => {
            assert!(a.is_consistent());
            a
        },
        Err(_) => panic!("the assets load"),
    }
}

fn costly_assets(sub: Vec<(&str, Json<Real>)>) -> AlignmentAssetsV2<Real> {
    let model = object(vec![
        ("defaults", object(vec![("global_obs_ins_cost", number(1.25))])),
        ("sub_cost", object(sub)),
    ]);
    match AlignmentAssetsV2::load(raw_assets(Some(model)), Some(Real(0.75)), None) {
        Ok(a) => {
            assert!(a.is_consistent());
            a
        },
        Err(_) => panic!("the assets load"),
    }
}

fn words_of(a: &AlignmentAssetsV2<Real>, from: usize, to: usize) -> Vec<String> {
    let lo = a.ayah_token_start.as_slice()[from] as usize;
    let hi = a.ayah_token_end.as_slice()[to] as usize;
    a.ref_token_ids.as_slice()[lo..hi].iter().map(|&t| a.id_to_token[t as usize].clone()).collect()
}

fn segment(words: &[String], t0: f64) -> Json<Real> {
    let entries = words
        .iter()
        .enumerate()
        .map(|(i, w)| {
            object(vec![
                ("word", text(w)),
                ("start_s", number(t0 + 0.5 * i as f64)),
                ("end_s", number(t0 + 0.5 * i as f64 + 0.4)),
            ])
        })
        .collect();
    object(vec![
        ("start_s", number(t0)),
        ("end_s", number(t0 + 0.5 * words.len() as f64)),
        ("text", text(&words.join(" "))),
        ("words", Json::List(entries)),
    ])
}

fn transcription(segs: Vec<Json<Real>>) -> Json<Real> {
    object(vec![("segments", Json::List(segs))])
}

fn close(a: Real, b: f64) -> bool {
    (a.0 - b).abs() < 1e-9
}

fn report(r: Result<AlignmentReport<Real>, AlignError>) -> AlignmentReport<Real> {
    match r {
        Ok(t) => {
            assert!(t.total_s.0 > 0.0);
            t
        },
        Err(e) => panic!("no alignment: {e:?}"),
    }
}

/// Verse, start, end, words, matched words, estimated.
fn check_segments(t: &AlignmentReport<Real>, wanted: &[(&str, f64, f64, usize, usize, bool)]) {
    assert_eq!(t.segments.len(), wanted.len());
    for (s, w) in t.segments.iter().zip(wanted) {
        assert_eq!(s.ayah_key, w.0);
        assert!(close(s.start_s.unwrap(), w.1), "{:?}", s.start_s);
        assert!(close(s.end_s.unwrap(), w.2), "{:?}", s.end_s);
        assert_eq!((s.token_count, s.match_count, s.estimated_time), (w.3, w.4, w.5));
    }
}

#[test]
fn reference_has_the_expected_shape() {
    let a = assets();
    assert_eq!(a.total_tokens(), 1358);
    assert_eq!(a.total_ayahs(), 150);
    assert_eq!(a.vocab_size(), 300);
    assert_eq!(&a.id_to_token[1..6], &["lnnfte", "tgppmaj", "ftqlq", "osneaf", "mmrkpn"]);
    assert_eq!(&a.ref_token_ids.as_slice()[..8], &[5, 5, 126, 159, 71, 195, 189, 300]);
    assert_eq!(a.passages_simhash64.as_slice()[0], 13476535425513953973);
    assert_eq!(a.version, "test");
    assert_eq!(a.embedding_model_name, "none");
    assert_eq!(a.embedding_dim, 8);
    assert!(a.stop_mask[5] && !a.stop_mask[6]);
    assert_eq!(a.ayah_key_to_global.get(&ayah_key(2, 1)), Some(&16));
    assert_eq!(a.ayah_global_to_key[16], (2, 1));
}

#[test]
fn assets_need_words() {
    let mut raw = raw_assets(None);
    raw.vocab = object(vec![]);
    assert!(matches!(AlignmentAssetsV2::load(raw, None, None), Err(AssetsError::MissingTokens)));
    let mut raw = raw_assets(None);
    raw.vocab = object(vec![("id_to_token", Json::List(vec![]))]);
    assert!(matches!(AlignmentAssetsV2::load(raw, None, None), Err(AssetsError::NoTokens)));
}

#[test]
fn inconsistent_tables_are_noticed() {
    let mut raw = raw_assets(None);
    raw.passages_start_ayah_global = array(vec![9999; 74]);
    match AlignmentAssetsV2::load(raw, None, None) {
        Ok(a) => assert!(!a.is_consistent()),
        Err(_) => panic!("the assets load"),
    }
}

#[test]
fn exact_recitation_is_found() {
    let a = assets();
    let w = words_of(&a, 40, 42);
    let t = transcription(vec![segment(&w, 1.0)]);
    let r = report(guess_ayah_alignment_v2_from_transcription(&t, &w.join(" "), &a, "absolute", "smooth", 10_000));
    assert_eq!(r.start, AyahRef { surah: 3, ayah: 10 });
    assert_eq!(r.end, AyahRef { surah: 3, ayah: 12 });
    assert!(close(r.confidence, 1.0));
    assert_eq!(r.candidates, 9);
    assert!(close(r.best_norm_cost, 0.0));
    assert!(close(r.second_norm_cost, 0.9130434782608695));
    assert!(close(r.gap, 0.9130434782608695));
    assert_eq!((r.best.ref_start, r.best.ref_end), (343, 366));
    assert_eq!((r.best.matches, r.best.substitutions, r.best.deletions, r.best.insertions), (23, 23, 0, 0));
    check_segments(
        &r,
        &[
            ("3:10", 1.0, 3.9, 6, 6, false),
            ("3:11", 4.0, 6.9, 6, 6, false),
            ("3:12", 7.0, 12.4, 11, 11, false),
        ],
    );
    assert_eq!(r.segments[0].start_ts.as_deref(), Some("00:00:01.000"));
    assert_eq!(r.segments[2].end_ts.as_deref(), Some("00:00:12.400"));
    assert_eq!(r.debug.timed_tokens, 23);
    assert_eq!(preferred_chapter(&Ok(r)), Some(3));
}

#[test]
fn noisy_recitation_is_found() {
    let plain = assets();
    let third = plain.ref_token_ids.as_slice()[plain.ayah_token_start.as_slice()[70] as usize + 2];
    let pair = Json::List(vec![whole(9), number(0.125)]);
    let a = costly_assets(vec![(&third.to_string(), Json::List(vec![pair]))]);
    let mut w = words_of(&a, 70, 73);
    w[2] = a.id_to_token[9].clone();
    w[5] = "zzzz".to_string();
    w.remove(9);
    let first = w[0].clone();
    w.insert(12, first);
    let t = transcription(vec![segment(&w, 2.0)]);
    let r = report(guess_ayah_alignment_v2_from_transcription(&t, &w.join(" "), &a, "absolute", "smooth", 10_000));
    assert_eq!(r.start, AyahRef { surah: 5, ayah: 10 });
    assert_eq!(r.end, AyahRef { surah: 5, ayah: 13 });
    assert!(close(r.confidence, 0.65));
    assert!(close(r.best.cost, 4.125));
    assert!(close(r.best_norm_cost, 0.11785714285714285));
    assert!(close(r.match_ratio, 0.9696969696969697));
    assert_eq!((r.best.matches, r.best.substitutions, r.best.deletions, r.best.insertions), (32, 33, 2, 2));
    check_segments(
        &r,
        &[
            ("5:10", 2.0, 6.4, 9, 7, false),
            ("5:11", 6.5, 8.9, 5, 4, false),
            ("5:12", 9.0, 13.9, 10, 10, false),
            ("5:13", 14.0, 19.4, 11, 11, false),
        ],
    );
}

#[test]
fn left_out_words_are_bridged() {
    let a = costly_assets(vec![]);
    let mut w: Vec<String> = words_of(&a, 55, 58)
        .into_iter()
        .enumerate()
        .filter(|(i, _)| i % 4 != 3)
        .map(|(_, x)| x)
        .collect();
    w.insert(6, "qqq".to_string());
    w.push(a.id_to_token[44].clone());
    let t = transcription(vec![segment(&w, 0.0)]);
    let r = report(guess_ayah_alignment_v2_from_transcription(&t, &w.join(" "), &a, "absolute", "smooth", 10_000));
    assert!(close(r.best.cost, 10.0));
    assert_eq!((r.best.matches, r.best.substitutions, r.best.deletions, r.best.insertions), (32, 32, 2, 10));
    assert_eq!((r.best.ref_start, r.best.ref_end), (495, 537));
    assert!(close(r.confidence, 0.65));
    check_segments(
        &r,
        &[
            ("4:10", 0.0, 3.9, 8, 7, false),
            ("4:11", 4.0, 8.9, 10, 10, false),
            ("4:12", 9.0, 11.4, 5, 5, false),
            ("4:13", 11.5, 16.4, 10, 10, false),
        ],
    );
}

#[test]
fn times_are_estimated_without_words() {
    let a = assets();
    let w = words_of(&a, 100, 101);
    let seg = object(vec![("start_s", number(10.0)), ("end_s", number(18.0)), ("text", text(&w.join(" ")))]);
    let t = transcription(vec![seg]);
    for base in ["first_word", " First_Ayah "] {
        let r = report(guess_ayah_alignment_v2_from_transcription(&t, &w.join(" "), &a, base, "smooth", 0));
        assert!(close(r.time_base_s, 10.0));
        assert!(close(r.confidence, 0.65));
        check_segments(
            &r,
            &[("7:10", 0.0, 4.727272727272727, 13, 13, true), ("7:11", 4.727272727272727, 8.0, 9, 9, true)],
        );
    }
}

#[test]
fn failures_are_told_apart() {
    let a = assets();
    let none = transcription(vec![]);
    let guess = |t: &Json<Real>, mode: &str, max: usize| {
        guess_ayah_alignment_v2_from_transcription(t, "", &a, "absolute", mode, max).err()
    };
    assert_eq!(guess(&none, "smooth", 0), Some(AlignError::NoTokens));
    let w = words_of(&a, 1, 1);
    let t = transcription(vec![segment(&w, 0.0)]);
    assert_eq!(guess(&t, "whisperx", 0), Some(AlignError::TimeMode(TimeMode::Forced)));
    assert_eq!(guess(&t, "odd", 0), Some(AlignError::TimeMode(TimeMode::Unknown)));
    let n = w.len();
    assert_eq!(
        guess(&t, "smooth", 2),
        Some(AlignError::TooLong { transcript_tokens: n, max_transcript_tokens: 2 })
    );
    // Unknown words, and no text to compare passages with: nothing to search by.
    let mut raw = raw_assets(None);
    raw.passages_simhash64 = array(vec![]);
    let bare = match AlignmentAssetsV2::load(raw, None, None) {
        Ok(a) => a,
        Err(_) => panic!("the assets load"),
    };
    let strange: Vec<String> = vec!["zzz".to_string(), "yyy".to_string()];
    let t = transcription(vec![segment(&strange, 0.0)]);
    let r = guess_ayah_alignment_v2_from_transcription(&t, "", &bare, "absolute", "off", 0);
    assert!(matches!(r, Err(AlignError::NoCandidates)));
}

#[test]
fn far_jump_splits_spans() {
    let a = assets();
    let mut t0 = 0.0;
    let mut segs = vec![];
    for g in [10, 11, 12, 130, 131, 132] {
        let w = words_of(&a, g, g);
        segs.push(segment(&w, t0));
        t0 += 0.5 * w.len() as f64 + 1.0;
    }
    let out = align_multi_span(&transcription(segs), "x y z", &a, "smooth");
    let spans = out.spans.as_ref().unwrap();
    let jumps = out.jumps.as_ref().unwrap();
    assert_eq!(spans.len(), 2);
    assert_eq!((spans[0].segments.start_seg_index, spans[0].segments.end_seg_index), (0, 2));
    assert_eq!((spans[1].segments.start_seg_index, spans[1].segments.end_seg_index), (3, 5));
    assert!(close(spans[0].confidence, 1.0) && close(spans[1].confidence, 0.65));
    assert_eq!(spans[0].start, Some(AyahRef { surah: 1, ayah: 10 }));
    assert_eq!(spans[1].end, Some(AyahRef { surah: 9, ayah: 12 }));
    assert_eq!(jumps.len(), 1);
    let j = &jumps[0];
    assert_eq!((j.at_segment_index, j.from_span_index, j.to_span_index, j.distance_ayahs), (3, 0, 1, 119));
    assert!(close(j.at_s, 28.5));
    assert_eq!(out.active_span_index, Some(1));
    match out.active_alignment() {
        Some(Ok(r)) => assert_eq!(r.start.surah, 9),
        _ => panic!("the second span is active"),
    }
}

#[test]
fn short_tail_does_not_become_active() {
    let a = assets();
    let mut t0 = 0.0;
    let mut segs = vec![];
    for g in [30, 31, 32, 33, 120] {
        let w = words_of(&a, g, g);
        let n = if g == 120 { 6 } else { w.len() };
        segs.push(segment(&w[..n], t0));
        t0 += 0.5 * w.len() as f64 + 1.0;
    }
    let out = align_multi_span(&transcription(segs), "x y z", &a, "smooth");
    let spans = out.spans.as_ref().unwrap();
    assert_eq!(spans.len(), 2);
    assert_eq!((spans[1].segments.start_seg_index, spans[1].segments.end_seg_index), (4, 4));
    assert!(close(spans[1].confidence, 0.325));
    assert!(close(out.jumps.as_ref().unwrap()[0].at_s, 21.5));
    assert_eq!(out.jumps.as_ref().unwrap()[0].distance_ayahs, 88);
    assert_eq!(out.active_span_index, Some(0));
}

#[test]
fn noise_in_front_stays_in_one_span() {
    let a = assets();
    let w = words_of(&a, 140, 140);
    let mut segs = vec![segment(&w[..4], 0.0)];
    let mut t0 = 4.0;
    for g in [20, 21, 22, 23] {
        let w = words_of(&a, g, g);
        segs.push(segment(&w, t0));
        t0 += 0.5 * w.len() as f64 + 1.0;
    }
    let out = align_multi_span(&transcription(segs), "x y z", &a, "smooth");
    assert_eq!(out.spans.as_ref().unwrap().len(), 1);
    assert!(close(out.spans.as_ref().unwrap()[0].confidence, 0.9930404869012968));
    assert_eq!(out.active_span_index, Some(0));
}

#[test]
fn nothing_to_split_gives_no_spans() {
    let a = assets();
    let out = align_multi_span(&object(vec![]), "some words here", &a, "smooth");
    assert!(out.spans.is_none() && out.jumps.is_none() && out.active_span_index.is_none());
    assert!(matches!(out.active_alignment(), Some(Err(AlignError::NoTokens))));
    assert_eq!(choose_chapter(Some(4), out.active_alignment()).predicted_surah_id, Some(4));
}

#[test]
fn edit_costs_follow_the_model() {
    let words: Vec<String> = ["", "abcde", "abcdx", "zzz"].iter().map(|s| s.to_string()).collect();
    // Two shared groups of letters out of four.
    let r = weighted_banded_dp::<Real>(&[2], &[1], 10, 10, 5, None, &words);
    assert!(close(r.cost, 1.0 * (1.0 - 0.6 * 0.5)));
    assert_eq!(r.transcript_to_ref, vec![Some(10)]);
    assert_eq!(r.transcript_is_match, vec![false]);
    let r = weighted_banded_dp::<Real>(&[], &[1], 0, 0, 5, None, &words);
    assert!(close(r.cost, 0.0));
    let r = weighted_banded_dp::<Real>(&[1, 3], &[], 0, 0, 5, None, &words);
    assert!(close(r.cost, 2.0));
    assert_eq!(r.deletions, 2);
}

#[test]
fn confusion_costs_are_read() {
    let model = object(vec![
        ("defaults", object(vec![("fallback_sub_cost", number(9.0)), ("global_ref_del_cost", number(1.5))])),
        (
            "sub_cost",
            object(vec![
                ("2", Json::List(vec![
                    Json::List(vec![whole(7), number(0.5)]),
                    Json::List(vec![whole(3), text("x")]),
                    Json::List(vec![whole(1)]),
                ])),
                ("99", Json::List(vec![Json::List(vec![whole(1), number(0.5)])])),
                ("x", Json::List(vec![])),
            ]),
        ),
    ]);
    let m = ConfusionModel::load(&model, 5, Some(Real(0.01)), Some(Real(-1.0)));
    assert_eq!(m.fallback_sub_cost, Real(5.0));
    assert_eq!(m.global_ref_del_cost, Real(0.05));
    assert_eq!(m.global_obs_ins_cost, Real(2.0));
    assert_eq!(m.sub_cost_by_ref.len(), 6);
    let row = m.sub_cost_by_ref[2].as_ref().unwrap();
    assert_eq!(row.len(), 2);
    assert_eq!((row[0].oid, row[0].cost), (3, Real(5.0)));
    assert_eq!((row[1].oid, row[1].cost), (7, Real(0.5)));
    assert!(m.sub_cost_by_ref[3].is_none());
}

#[test]
fn threads_give_the_same_alignments() {
    let a = assets();
    let refs = a.ref_token_ids.as_slice();
    let obs: Vec<u32> = refs[200..330].to_vec();
    let list: Vec<CandidateWindow<Real>> = (0..6)
        .map(|k| CandidateWindow {
            ref_start: k * 50,
            ref_end: k * 50 + 200,
            expected_offset: 200,
            source: if k % 2 == 0 { Source::Anchor } else { Source::Simhash },
            hint: None,
            quick_score: Real(k as f64),
        })
        .collect();
    let results = align_candidates(&a, &obs, list.clone());
    assert_eq!(results.len(), 6);
    for (r, c) in results.iter().zip(&list) {
        let stretch = &refs[c.ref_start..c.ref_end];
        let want = weighted_banded_dp(&obs, stretch, c.ref_start, 200, band_width(130), None, &a.id_to_token);
        assert_eq!((r.cost, r.ref_start, r.ref_end), (want.cost, want.ref_start, want.ref_end));
        assert_eq!(r.transcript_to_ref, want.transcript_to_ref);
        assert_eq!((r.candidate_source, r.quick_score), (Some(c.source), c.quick_score));
    }
    // The words are all found where the stretch holds them.
    assert_eq!((results[3].cost, results[3].matches, results[3].ref_start), (Real(0.0), 130, 200));
    // Few candidates are aligned one after the other, to the same end.
    let few = align_candidates(&a, &obs, list[2..5].to_vec());
    assert_eq!(few.len(), 3);
    assert_eq!(few[1].transcript_to_ref, results[3].transcript_to_ref);
}
