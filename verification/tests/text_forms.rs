use quran_asr_api::chars::{is_before, join, parse_number, parse_usize, split, split_words, trim};
use quran_asr_api::scalar::{clamp_to, max_of, min_of, Scalar, Thousandths};
use quran_asr_api::text::{
    char_ngram_jaccard, clean_token, format_timestamp, hamming64, is_arabic_diacritic, keep_general_category,
    normalize_arabic, normalize_token, simhash64_from_char_ngrams, strip_arabic_diacritics, translate_arabic, Category,
};

fn t(count: i64) -> Thousandths {
    Thousandths { count }
}

#[test]
fn timestamps_have_hours_minutes_seconds_and_milliseconds() {
    assert_eq!(format_timestamp(t(0)), "00:00:00.000");
    assert_eq!(format_timestamp(t(3_723_004)), "01:02:03.004");
    assert_eq!(format_timestamp(t(360_000_000)), "100:00:00.000");
    assert_eq!(format_timestamp(t(-1_500)), "00:00:-1.-500");
    assert_eq!(format_timestamp(t(-61_005)), "00:-1:-1.-05");
}

#[test]
fn diacritics_and_stretchers_are_stripped() {
    let basmala = "\u{628}\u{650}\u{633}\u{652}\u{645}\u{650}";
    assert_eq!(strip_arabic_diacritics(basmala), "\u{628}\u{633}\u{645}");
    assert_eq!(strip_arabic_diacritics("\u{628}\u{640}\u{640}\u{633}"), "\u{628}\u{633}");
    assert!(is_arabic_diacritic('\u{6dd}') && is_arabic_diacritic('\u{670}'));
    assert!(!is_arabic_diacritic('\u{6e5}') && !is_arabic_diacritic('\u{6e9}'));
}

#[test]
fn written_forms_become_basic_letters() {
    for c in ['\u{622}', '\u{623}', '\u{625}', '\u{671}'] {
        assert_eq!(translate_arabic(c), '\u{627}');
    }
    assert_eq!(translate_arabic('\u{624}'), '\u{648}');
    assert_eq!(translate_arabic('\u{649}'), '\u{64a}');
    assert_eq!(translate_arabic('\u{629}'), '\u{647}');
    assert_eq!(translate_arabic('x'), 'x');
}

#[test]
fn normal_forms_keep_letters_and_single_spaces() {
    assert_eq!(normalize_arabic("a-b  c!\t d"), "ab c d");
    let verse = "\u{628}\u{650}\u{633}\u{652}\u{645}\u{650} \u{671}\u{644}\u{644}\u{651}\u{64e}\u{647}\u{650}";
    let plain = "\u{628}\u{633}\u{645} \u{627}\u{644}\u{644}\u{647}";
    assert_eq!(normalize_arabic(verse), plain);
    assert_eq!(normalize_arabic(plain), plain);
    assert_eq!(normalize_arabic("  .,; "), "");
    assert!(keep_general_category(Category::EnclosingMark) && !keep_general_category(Category::Other));
}

#[test]
fn normal_forms_are_stable() {
    for s in ["a  b", " x - y ", "\u{640}\u{64e}", "a\u{a0}\u{2003}b", "\u{623}\u{628}! 12"] {
        let once = normalize_arabic(s);
        assert_eq!(normalize_arabic(&once), once);
    }
}

#[test]
fn tokens_are_cleaned_at_both_ends() {
    assert_eq!(clean_token("\"(abc)-d!\""), "abc)-d");
    assert_eq!(clean_token("..."), "...");
    assert_eq!(clean_token("_x_"), "_x_");
    assert_eq!(clean_token(""), "");
}

#[test]
fn stretched_letters_collapse() {
    assert_eq!(normalize_token("\u{64a}\u{633}\u{633}\u{633}"), "\u{64a}\u{633}");
    let allah = "\u{627}\u{644}\u{644}\u{647}";
    assert_eq!(normalize_token(allah), allah);
    assert_eq!(normalize_token(" !aabbbbc? "), "aabc");
    assert_eq!(normalize_token("   "), "");
}

#[test]
fn jaccard_compares_letter_groups() {
    let same: Thousandths = char_ngram_jaccard("abcd", "a b c d", 3);
    assert_eq!(same.count, 1000);
    // abc, bcd against bcd, cde: one of three.
    let third: Thousandths = char_ngram_jaccard("abcd", "bcde", 3);
    assert_eq!(third.count, 333);
    let short: Thousandths = char_ngram_jaccard("ab", "abcd", 3);
    assert_eq!(short.count, 0);
    let apart: Thousandths = char_ngram_jaccard("abc", "xyz", 3);
    assert_eq!(apart.count, 0);
}

#[test]
fn simhash_has_known_values() {
    assert_eq!(simhash64_from_char_ngrams("ab"), 0);
    assert_eq!(simhash64_from_char_ngrams("abc"), 6455300059550759896);
    assert_eq!(simhash64_from_char_ngrams("hello world"), 11776442020459667012);
    let verse = "\u{628}\u{650}\u{633}\u{652}\u{645}\u{650} \u{671}\u{644}\u{644}\u{651}\u{64e}\u{647}\u{650}";
    assert_eq!(simhash64_from_char_ngrams(verse), 6602956819131868542);
}

#[test]
fn hamming_counts_differing_bits() {
    assert_eq!(hamming64(0, 0), 0);
    assert_eq!(hamming64(u64::MAX, 0), 64);
    assert_eq!(hamming64(0b1010, 0b0110), 2);
    assert_eq!(hamming64(0b0110, 0b1010), 2);
}

#[test]
fn white_space_splits_and_trims() {
    assert_eq!(trim("\u{a0} x y\n"), "x y");
    assert_eq!(split_words(" a\tb\u{2003}c "), vec!["a", "b", "c"]);
    assert_eq!(split("a,,b", ','), vec!["a", "", "b"]);
    assert_eq!(split("", ','), vec![""]);
    assert_eq!(join(&["a".to_string(), "b".to_string()], ", "), "a, b");
}

#[test]
fn numbers_are_read_as_digits() {
    assert_eq!(parse_usize("+17"), Some(17));
    assert_eq!(parse_usize(" 17"), None);
    assert_eq!(parse_usize("-1"), None);
    assert_eq!(parse_usize("18446744073709551616"), None);
    assert_eq!(parse_number("255", 255), Some(255));
    assert_eq!(parse_number("256", 255), None);
}

#[test]
fn texts_are_ordered_by_their_characters() {
    assert!(is_before("a", "b") && is_before("a", "aa") && is_before("", "a"));
    assert!(!is_before("b", "a") && !is_before("a", "a"));
    for (a, b) in [("z", "\u{627}"), ("\u{627}", "\u{628}"), ("ab", "b")] {
        assert_eq!(is_before(a, b), a < b);
        assert_eq!(is_before(b, a), b < a);
    }
}

#[test]
fn thousandths_round_down_and_saturate() {
    assert_eq!(t(1500).times(t(1500)).count, 2250);
    assert_eq!(t(-1).times(t(500)).count, -1);
    assert_eq!(t(1000).over(t(3000)).count, 333);
    assert_eq!(t(1000).over(t(0)).count, i64::MAX);
    assert_eq!(t(i64::MAX).plus(t(1)).count, i64::MAX);
    assert_eq!(t(1500).round_i64(), 2);
    assert_eq!(t(-1500).round_i64(), -2);
    assert_eq!(t(1001).ceil_u64(), 2);
    assert_eq!(t(1999).trunc_u64(), 1);
    assert_eq!(max_of(t(1), t(2)).count, 2);
    assert_eq!(min_of(t(1), t(2)).count, 1);
    assert_eq!(clamp_to(t(5), t(1), t(3)).count, 3);
}
