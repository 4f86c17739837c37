use quran_asr_api::guessing::{
    build_fts_query_from_transcript, expand_search_terms, fts_quote, max_score, order_clause, rank_score,
    read_rank_mode, shares, start_guess, GuessStart, RankMode,
};
use quran_asr_api::scalar::Thousandths;

fn t(count: i64) -> Thousandths {
    Thousandths { count }
}

#[test]
fn terms_are_quoted() {
    assert_eq!(fts_quote("abc"), "\"abc\"");
    assert_eq!(fts_quote("a\"b"), "\"a\"\"b\"");
    assert_eq!(fts_quote(""), "\"\"");
    assert_ne!(fts_quote("\""), fts_quote("\"\""));
}

#[test]
fn articles_and_joined_letters_are_taken_off() {
    // wa-al-kitab: the word, without the joined letter, and without the article too.
    let word = "\u{648}\u{627}\u{644}\u{643}\u{62a}\u{627}\u{628}";
    let wanted = "\u{648}\u{627}\u{644}\u{643}\u{62a}\u{627}\u{628} \u{627}\u{644}\u{643}\u{62a}\u{627}\u{628} \u{643}\u{62a}\u{627}\u{628}";
    assert_eq!(expand_search_terms(word), wanted);
    // With the article in front.
    assert_eq!(
        expand_search_terms("\u{627}\u{644}\u{62d}\u{645}\u{62f}"),
        "\u{627}\u{644}\u{62d}\u{645}\u{62f} \u{62d}\u{645}\u{62f}"
    );
    // The article alone is no prefix.
    assert_eq!(expand_search_terms("\u{627}\u{644}"), "\u{627}\u{644}");
    assert_eq!(expand_search_terms("\u{648}"), "\u{648}");
    assert_eq!(expand_search_terms(" x  y "), "x y");
    assert_eq!(expand_search_terms(""), "");
}

#[test]
fn queries_hold_the_longest_and_most_frequent_terms() {
    let (query, terms) = build_fts_query_from_transcript("bb aa cc aa dddd b", 3, "OR").unwrap();
    assert_eq!(terms, vec!["dddd", "aa", "bb"]);
    assert_eq!(query, "\"dddd\" OR \"aa\" OR \"bb\"");
    let (query, terms) = build_fts_query_from_transcript("bb aa", 0, " And ").unwrap();
    assert_eq!((query.as_str(), terms.len()), ("\"aa\"", 1));
    let (query, _) = build_fts_query_from_transcript("bb aa", 9, "and").unwrap();
    assert_eq!(query, "\"aa\" AND \"bb\"");
    let (query, _) = build_fts_query_from_transcript("bb aa", 9, "auto").unwrap();
    assert_eq!(query, "\"aa\" AND \"bb\"");
    let (query, _) = build_fts_query_from_transcript("aa bb cc dd ee ff gg hh ii", 9, "auto").unwrap();
    assert!(query.contains(" OR ") && !query.contains(" AND "));
    let (query, _) = build_fts_query_from_transcript("bb aa", 9, "strange").unwrap();
    assert_eq!(query, "\"aa\" OR \"bb\"");
}

#[test]
fn blank_transcripts_have_no_query() {
    assert!(build_fts_query_from_transcript("  ", 5, "or").is_none());
    assert!(build_fts_query_from_transcript("a . !", 5, "or").is_none());
    assert_eq!(start_guess(" ", true), GuessStart::Nothing);
    assert_eq!(start_guess("x", false), GuessStart::NoDatabase);
    assert_eq!(start_guess("x", true), GuessStart::Search);
}

#[test]
fn at_most_two_hundred_terms_are_considered() {
    let words: Vec<String> = (0..300).map(|i| format!("w{:03}", i)).collect();
    let (_, terms) = build_fts_query_from_transcript(&words.join(" "), 1000, "or").unwrap();
    assert_eq!(terms.len(), 200);
    assert_eq!((terms[0].as_str(), terms[199].as_str()), ("w000", "w199"));
}

#[test]
fn ranks_follow_the_mode() {
    assert_eq!(read_rank_mode(" Best_Score "), RankMode::BestScore);
    assert_eq!(read_rank_mode("hybrid"), RankMode::Hybrid);
    assert_eq!(read_rank_mode("anything"), RankMode::SumTopScore);
    assert_eq!(rank_score(Some(t(3000)), Some(t(4000)), RankMode::BestScore), t(3000));
    assert_eq!(rank_score(Some(t(3000)), Some(t(4000)), RankMode::Hybrid), t(4000));
    assert_eq!(rank_score(Some(t(3000)), Some(t(2000)), RankMode::SumTopScore), t(3000));
    assert_eq!(rank_score::<Thousandths>(None, None, RankMode::Hybrid), t(0));
    assert!(order_clause(RankMode::BestScore).starts_with("best_score DESC"));
    assert!(order_clause(RankMode::Hybrid).starts_with("(best_score + 0.25 * sum_top_score) DESC"));
    assert!(order_clause(RankMode::SumTopScore).starts_with("sum_top_score DESC"));
}

#[test]
fn shares_add_up() {
    assert_eq!(shares(&[t(1000), t(3000)]), vec![t(250), t(750)]);
    assert_eq!(shares(&[t(0), t(0)]), vec![t(0), t(0)]);
    assert_eq!(shares::<Thousandths>(&[]), vec![]);
    assert_eq!(max_score(&[t(1), t(5), t(5), t(2)]), Some(t(5)));
    assert_eq!(max_score::<Thousandths>(&[]), None);
}
