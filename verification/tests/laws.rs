use quran_asr_api::cleanup::{CleanupRun, Visit};
use quran_asr_api::clock::to_seconds;
use quran_asr_api::jobs::JobMeta;
use quran_asr_api::multispan::{split_segments, SegAlign};
use quran_asr_api::scalar::Thousandths;
use quran_asr_api::scoring::judge;
use quran_asr_api::text::{char_ngram_jaccard, clean_token, ngram_overlap, normalize_token, strip_arabic_diacritics};

fn t(count: i64) -> Thousandths {
    Thousandths { count }
}

fn seg(i: usize, surah: u16, global: u16, confidence: i64) -> Option<SegAlign<Thousandths>> {
    Some(SegAlign {
        seg_index: i,
        seg_start_s: t(i as i64 * 1000),
        seg_end_s: t(i as i64 * 1000 + 900),
        start_surah_id: surah,
        end_surah_id: surah,
        start_global: global,
        end_global: global,
        confidence: t(confidence),
    })
}

fn spans(aligns: &[Option<SegAlign<Thousandths>>]) -> Vec<(usize, usize)> {
    let starts: Vec<Thousandths> = (0..aligns.len()).map(|i| t(i as i64 * 1000)).collect();
    split_segments(aligns, &starts).spans.iter().map(|s| (s.start_seg_index, s.end_seg_index)).collect()
}

#[test]
fn spans_cover_all_segments() {
    assert_eq!(spans(&[seg(0, 1, 1, 500), None, seg(2, 1, 3, 500)]), vec![(0, 2)]);
    // A certain jump at once, an uncertain one after a second segment.
    let far = [seg(0, 1, 1, 500), seg(1, 1, 2, 500), seg(2, 9, 900, 950), seg(3, 9, 901, 500), seg(4, 50, 3000, 500), seg(5, 50, 3001, 500), None];
    assert_eq!(spans(&far), vec![(0, 1), (2, 3), (4, 6)]);
    // An uncertain jump in the last segment is taken too.
    assert_eq!(spans(&[seg(0, 1, 1, 500), seg(1, 1, 2, 500), seg(2, 9, 900, 500)]), vec![(0, 1), (2, 2)]);
    // One that nothing confirms is not.
    assert_eq!(spans(&[seg(0, 1, 1, 500), seg(1, 9, 900, 500), seg(2, 1, 2, 500)]), vec![(0, 2)]);
}

#[test]
fn doubled_letters_stay() {
    assert_eq!(normalize_token("\u{64a}\u{633}\u{633}\u{633}"), "\u{64a}\u{633}");
    assert_eq!(normalize_token("\u{64a}\u{633}\u{633}\u{633}\u{633}\u{633}"), "\u{64a}\u{633}");
    assert_eq!(normalize_token("\u{627}\u{644}\u{644}\u{647}"), "\u{627}\u{644}\u{644}\u{647}");
}

#[test]
fn words_in_normal_form_stay() {
    for word in [" !aabbbbc? ", "\u{64a}\u{633}\u{633}\u{633}", "a \u{64b} a  a", "?!", "", "_x_", "a a a"] {
        let form = normalize_token(word);
        assert_eq!(normalize_token(&form), form);
    }
    assert_eq!(normalize_token("b a a a"), "ba");
}

#[test]
fn likeness_is_symmetric() {
    assert_eq!(ngram_overlap("abcd", "bcde", 3), Some((1, 3)));
    assert_eq!(ngram_overlap("bcde", "abcd", 3), Some((1, 3)));
    assert_eq!(ngram_overlap("abcd", "abcd", 3), Some((2, 2)));
    assert_eq!(ngram_overlap("ab", "abcd", 3), None);
    assert_eq!(char_ngram_jaccard::<Thousandths>("abcd", "abcd", 3), t(1000));
}

#[test]
fn young_and_active_jobs_are_kept() {
    let mut run = CleanupRun::new(60, 10);
    let mut job = JobMeta::queued("j", "a", "b", 1, t(0));
    assert_eq!(run.visit(true, Some(&job), t(1_000_000)), Visit::Keep);
    job.finish(t(10_000));
    assert_eq!(run.visit(true, Some(&job), t(69_999)), Visit::Keep);
    assert_eq!(run.visit(true, Some(&job), t(70_000)), Visit::Delete);
    assert_eq!((run.stats.skipped_active, run.stats.skipped_young, run.stats.scanned), (1, 1, 3));
}

#[test]
fn cleaning_and_stripping_settle_at_once() {
    assert_eq!(clean_token("--ab, c!"), "ab, c");
    assert_eq!(clean_token("ab, c"), "ab, c");
    assert_eq!(strip_arabic_diacritics("\u{628}\u{650}\u{640}\u{633}\u{652}"), "\u{628}\u{633}");
    assert_eq!(strip_arabic_diacritics("\u{628}\u{633}"), "\u{628}\u{633}");
}

#[test]
fn likeness_counts_windows() {
    // Windows that repeat count once: abc bca cab against cab abd.
    assert_eq!(ngram_overlap("abcabc", "cabd", 3), Some((1, 4)));
    assert_eq!(ngram_overlap("aaaa", "aa", 2), Some((1, 1)));
    assert_eq!(ngram_overlap("abc", "cba", 1), Some((3, 3)));
    assert_eq!(char_ngram_jaccard::<Thousandths>("abcabc", "cabd", 3), t(250));
    assert_eq!(char_ngram_jaccard::<Thousandths>("abc", "xyz", 3), t(0));
}

#[test]
fn confidence_stays_between_zero_and_one() {
    assert_eq!(judge(30, 30, t(0), t(9_000), t(5_000)), t(1000));
    assert_eq!(judge(0, 30, t(9_000), t(0), t(-5_000)), t(0));
    // Three pairs give a quarter at most.
    assert_eq!(judge(3, 3, t(0), t(9_000), t(1_000)), t(250));
    assert_eq!(judge(0, 0, t(0), t(9_000), t(1_000)), t(0));
}

#[test]
fn elapsed_time_is_told_in_seconds() {
    assert_eq!(to_seconds::<Thousandths>(2_500_000_000), t(2_500));
    assert_eq!(to_seconds::<Thousandths>(999_999), t(0));
}
