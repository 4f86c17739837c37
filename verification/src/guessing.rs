//! Guessing the chapter from the words of a transcript: what is searched for, and
//! how what is found is ranked.

use vstd::prelude::*;

use crate::chars;
use crate::scalar;
use crate::scalar::Scalar;
use crate::text;

verus! {

// ---------------------------------------------------------------------------
// Search terms

/// Every quotation mark twice.
pub open spec fn doubled(s: Seq<char>) -> Seq<char>
    decreases s.len(),
{
    if s.len() == 0 {
        Seq::empty()
    } else if s.last() == '"' {
        doubled(s.drop_last()).push('"').push('"')
    } else {
        doubled(s.drop_last()).push(s.last())
    }
}

/// A text as one term of a query.
pub open spec fn quoted(s: Seq<char>) -> Seq<char> {
    seq!['"'] + doubled(s) + seq!['"']
}

pub fn fts_quote(token: &str) -> (r: String)
    ensures
        r@ == quoted(token@),
{
    let cs = chars::to_chars(token);
    let mut out = String::new();
    out.push('"');
    let mut i: usize = 0;
    assert(out@ =~= seq!['"'] + doubled(cs@.take(0)));
    while i < cs.len()
        invariant
            i <= cs@.len(),
            out@ == seq!['"'] + doubled(cs@.take(i as int)),
        decreases cs@.len() - i,
    {
        let ghost before = out@;
        proof {
            assert(cs@.take(i as int + 1).drop_last() =~= cs@.take(i as int));
        }
        let c: char = cs[i];
        if c == '"' {
            out.push('"');
        }
        out.push(c);
        assert(out@ =~= seq!['"'] + doubled(cs@.take(i as int + 1)));
        i = i + 1;
    }
    assert(cs@.take(i as int) =~= cs@);
    out.push('"');
    assert(out@ =~= quoted(token@));
    out
}

proof fn lemma_doubled_differs(a: Seq<char>, b: Seq<char>)
    requires
        doubled(a) == doubled(b),
    ensures
        a == b,
    decreases a.len(),
{
    if a.len() == 0 {
        if b.len() > 0 {
            assert(doubled(b).len() > 0);
        }
        assert(a =~= b);
    } else if b.len() == 0 {
        assert(doubled(a).len() > 0);
    } else {
        let da = doubled(a);
        let db = doubled(b);
        assert(da.last() == a.last());
        assert(db.last() == b.last());
        if a.last() == '"' {
            assert(da.drop_last().drop_last() =~= doubled(a.drop_last()));
            assert(db.drop_last().drop_last() =~= doubled(b.drop_last()));
        } else {
            assert(da.drop_last() =~= doubled(a.drop_last()));
            assert(db.drop_last() =~= doubled(b.drop_last()));
        }
        lemma_doubled_differs(a.drop_last(), b.drop_last());
        assert(a =~= a.drop_last().push(a.last()));
        assert(b =~= b.drop_last().push(b.last()));
    }
}

/// Different texts are different terms.
pub proof fn law_quoting_keeps_texts_apart(a: Seq<char>, b: Seq<char>)
    requires
        quoted(a) == quoted(b),
    ensures
        a == b,
{
    let qa = quoted(a);
    let qb = quoted(b);
    assert(qa.drop_last().skip(1) =~= doubled(a));
    assert(qb.drop_last().skip(1) =~= doubled(b));
    lemma_doubled_differs(a, b);
}

/// The article.
pub open spec fn article() -> Seq<char> {
    seq!['\u{0627}', '\u{0644}']
}

/// A letter that may be joined to the front of a word.
pub open spec fn is_joined_letter(c: char) -> bool {
    c == '\u{0648}' || c == '\u{0641}' || c == '\u{0628}' || c == '\u{0643}' || c == '\u{0644}' || c == '\u{0633}'
}

/// A word without its article, if it has one.
pub open spec fn without_article(t: Seq<char>) -> Seq<Seq<char>> {
    if chars::starts_with(t, article()) && t.len() > 2 {
        seq![t.skip(2)]
    } else {
        Seq::empty()
    }
}

/// The terms for a word: the word, the word without its article, and both again
/// without a letter joined to its front.
pub open spec fn terms_of(t: Seq<char>) -> Seq<Seq<char>> {
    seq![t] + without_article(t) + (if t.len() > 1 && is_joined_letter(t[0]) {
        seq![t.skip(1)] + without_article(t.skip(1))
    } else {
        Seq::empty()
    })
}

pub open spec fn all_terms(words: Seq<Seq<char>>) -> Seq<Seq<char>>
    decreases words.len(),
{
    if words.len() == 0 {
        Seq::empty()
    } else {
        all_terms(words.drop_last()) + terms_of(words.last())
    }
}

fn push_without_article(out: &mut Vec<String>, cs: &[char], from: usize)
    requires
        from <= cs@.len(),
    ensures
        chars::views(final(out)@) == chars::views(old(out)@) + without_article(cs@.skip(from as int)),
{
    let ghost before = chars::views(out@);
    let ghost t = cs@.skip(from as int);
    if cs.len() - from > 2 && cs[from] == '\u{0627}' && cs[from + 1] == '\u{0644}' {
        let rest = chars::from_chars(cs, from + 2, cs.len());
        proof {
            assert(t[0] == cs@[from as int]);
            assert(t[1] == cs@[from + 1]);
            assert(t.take(2) =~= article());
            assert(rest@ =~= t.skip(2));
        }
        out.push(rest);
        assert(chars::views(out@) =~= before + seq![rest@]);
    } else {
        proof {
            if t.len() > 2 && chars::starts_with(t, article()) {
                assert(t.take(2)[0] == t[0]);
                assert(t.take(2)[1] == t[1]);
                assert(t[0] == cs@[from as int]);
                assert(t[1] == cs@[from + 1]);
            }
            assert(chars::views(out@) =~= before + without_article(t));
        }
    }
}

fn push_terms(out: &mut Vec<String>, word: &str)
    requires
        word@.len() > 0,
    ensures
        chars::views(final(out)@) == chars::views(old(out)@) + terms_of(word@),
{
    let ghost start = chars::views(out@);
    let cs = chars::to_chars(word);
    out.push(word.to_owned());
    assert(chars::views(out@) =~= start + seq![word@]);
    assert(cs@.skip(0) =~= word@);
    push_without_article(out, &cs, 0);
    let first: char = cs[0];
    if cs.len() > 1 && (first == '\u{0648}' || first == '\u{0641}' || first == '\u{0628}' || first == '\u{0643}'
        || first == '\u{0644}' || first == '\u{0633}') {
        let rest = chars::from_chars(&cs, 1, cs.len());
        let ghost before = chars::views(out@);
        assert(rest@ =~= word@.skip(1));
        out.push(rest);
        assert(chars::views(out@) =~= before + seq![word@.skip(1)]);
        push_without_article(out, &cs, 1);
    }
    assert(chars::views(out@) =~= start + terms_of(word@));
}

/// The terms for all words of a text, separated by spaces.
pub fn expand_search_terms(simplified_text: &str) -> (r: String)
    ensures
        r@ == chars::joined(all_terms(chars::words_of(simplified_text@)), " "@),
{
    let words = chars::split_words(simplified_text);
    let ghost all = chars::views(words@);
    let mut out: Vec<String> = Vec::new();
    let mut i: usize = 0;
    assert(chars::views(out@) =~= all_terms(all.take(0)));
    while i < words.len()
        invariant
            i <= words@.len(),
            all == chars::views(words@),
            all == chars::words_of(simplified_text@),
            chars::views(out@) == all_terms(all.take(i as int)),
        decreases words@.len() - i,
    {
        proof {
            assert(all.take(i as int + 1).drop_last() =~= all.take(i as int));
            assert(all[i as int] == words@[i as int]@);
            lemma_words_have_letters(simplified_text@);
            assert(all[i as int].len() > 0);
        }
        push_terms(&mut out, words[i].as_str());
        i = i + 1;
    }
    assert(all.take(i as int) =~= all);
    chars::join(&out, " ")
}

proof fn lemma_words_have_letters(s: Seq<char>)
    ensures
        forall|i: int| 0 <= i < chars::words_of(s).len() ==> (#[trigger] chars::words_of(s)[i]).len() > 0,
    decreases s.len(),
{
    chars::lemma_word_len(s);
    if s.len() == 0 {
        assert(chars::words_of(s).len() == 0);
    } else if chars::is_space_spec(s[0]) {
        lemma_words_have_letters(s.skip(1));
        assert(chars::words_of(s) == chars::words_of(s.skip(1)));
    } else {
        let k = chars::word_len(s) as int;
        lemma_words_have_letters(s.skip(k));
        assert forall|i: int| 0 <= i < chars::words_of(s).len() implies (#[trigger] chars::words_of(s)[i]).len()
            > 0 by {
            if i > 0 {
                assert(chars::words_of(s)[i] == chars::words_of(s.skip(k))[i - 1]);
            }
        }
    }
}

// ---------------------------------------------------------------------------
// Queries

/// The terms of at least two letters.
pub open spec fn long_terms(terms: Seq<Seq<char>>) -> Seq<Seq<char>>
    decreases terms.len(),
{
    if terms.len() == 0 {
        Seq::empty()
    } else {
        let before = long_terms(terms.drop_last());
        if terms.last().len() < 2 {
            before
        } else {
            before.push(terms.last())
        }
    }
}

/// The terms for a transcript.
pub open spec fn search_tokens(transcript: Seq<char>) -> Seq<Seq<char>> {
    let expanded = chars::joined(all_terms(chars::words_of(text::normalized(chars::trimmed(transcript)))), " "@);
    long_terms(chars::words_of(expanded))
}

/// How often `t` occurs.
pub open spec fn occurrences(tokens: Seq<Seq<char>>, t: Seq<char>) -> nat
    decreases tokens.len(),
{
    if tokens.len() == 0 {
        0
    } else {
        occurrences(tokens.drop_last(), t) + (if tokens.last() == t {
            1nat
        } else {
            0nat
        })
    }
}

/// At most this many different terms are considered.
pub const MAX_TERMS: usize = 200;

/// The different terms in the order in which they first occur, as many as are
/// considered.
pub open spec fn distinct_terms(tokens: Seq<Seq<char>>) -> Seq<Seq<char>>
    decreases tokens.len(),
{
    if tokens.len() == 0 {
        Seq::empty()
    } else {
        let before = distinct_terms(tokens.drop_last());
        if before.len() >= MAX_TERMS || before.contains(tokens.last()) {
            before
        } else {
            before.push(tokens.last())
        }
    }
}

/// A term and how often it occurs.
pub struct Term {
    pub text: String,
    pub count: usize,
}

/// Longer terms come first, then those that occur more often, then by their text.
pub open spec fn term_before(tokens: Seq<Seq<char>>, a: Seq<char>, b: Seq<char>) -> bool {
    let ca = occurrences(tokens, a);
    let cb = occurrences(tokens, b);
    a.len() > b.len() || (a.len() == b.len() && (ca > cb || (ca == cb && chars::text_before(a, b))))
}

/// Enters a term at its place.
pub open spec fn entered_term(tokens: Seq<Seq<char>>, s: Seq<Seq<char>>, x: Seq<char>) -> Seq<Seq<char>>
    decreases s.len(),
{
    if s.len() == 0 {
        seq![x]
    } else if term_before(tokens, x, s.last()) {
        entered_term(tokens, s.drop_last(), x).push(s.last())
    } else {
        s.push(x)
    }
}

/// The terms in order.
pub open spec fn ranked_terms(tokens: Seq<Seq<char>>, terms: Seq<Seq<char>>) -> Seq<Seq<char>>
    decreases terms.len(),
{
    if terms.len() == 0 {
        Seq::empty()
    } else {
        entered_term(tokens, ranked_terms(tokens, terms.drop_last()), terms.last())
    }
}

pub open spec fn at_most<T>(s: Seq<T>, n: usize) -> Seq<T> {
    if s.len() <= n {
        s
    } else {
        s.take(n as int)
    }
}

/// The terms that are searched for: the first in order, at least one.
pub open spec fn chosen_terms(tokens: Seq<Seq<char>>, max_query_tokens: usize) -> Seq<Seq<char>> {
    at_most(
        ranked_terms(tokens, distinct_terms(tokens)),
        if max_query_tokens == 0 {
            1
        } else {
            max_query_tokens
        },
    )
}

/// Whether all terms must occur: if that is asked for, or if it is left open and
/// there are few.
pub open spec fn wants_all(operator: Seq<char>, terms: nat) -> bool {
    operator == "and"@ || (operator == "auto"@ && terms <= 8)
}

pub open spec fn all_quoted(terms: Seq<Seq<char>>) -> Seq<Seq<char>> {
    terms.map_values(|t: Seq<char>| quoted(t))
}

/// The query for the chosen terms.
pub open spec fn query_of(terms: Seq<Seq<char>>, operator: Seq<char>) -> Seq<char> {
    chars::joined(
        all_quoted(terms),
        if wants_all(operator, terms.len()) {
            " AND "@
        } else {
            " OR "@
        },
    )
}

fn keep_long(words: &[String]) -> (r: Vec<String>)
    ensures
        chars::views(r@) == long_terms(chars::views(words@)),
{
    let ghost all = chars::views(words@);
    let mut out: Vec<String> = Vec::new();
    let mut i: usize = 0;
    assert(chars::views(out@) =~= long_terms(all.take(0)));
    while i < words.len()
        invariant
            i <= words@.len(),
            all == chars::views(words@),
            chars::views(out@) == long_terms(all.take(i as int)),
        decreases words@.len() - i,
    {
        let ghost before = out@;
        proof {
            assert(all.take(i as int + 1).drop_last() =~= all.take(i as int));
            assert(all.take(i as int + 1).last() == words@[i as int]@);
        }
        if chars::to_chars(words[i].as_str()).len() >= 2 {
            out.push(words[i].as_str().to_owned());
            assert(chars::views(out@) =~= chars::views(before).push(all[i as int]));
        }
        i = i + 1;
    }
    assert(all.take(i as int) =~= all);
    out
}

fn count_occurrences(tokens: &[String], t: &str) -> (r: usize)
    ensures
        r == occurrences(chars::views(tokens@), t@),
{
    let ghost all = chars::views(tokens@);
    let total: usize = tokens.len();
    let mut n: usize = 0;
    let mut i: usize = 0;
    while i < total
        invariant
            i <= total == tokens@.len(),
            all == chars::views(tokens@),
            n <= i,
            n == occurrences(all.take(i as int), t@),
        decreases total - i,
    {
        proof {
            assert(all.take(i as int + 1).drop_last() =~= all.take(i as int));
            assert(all.take(i as int + 1).last() == tokens@[i as int]@);
        }
        if chars::same_text(tokens[i].as_str(), t) {
            n = n + 1;
        }
        i = i + 1;
    }
    assert(all.take(i as int) =~= all);
    n
}

fn find_distinct(tokens: &[String]) -> (r: Vec<String>)
    ensures
        chars::views(r@) == distinct_terms(chars::views(tokens@)),
{
    let ghost all = chars::views(tokens@);
    let mut out: Vec<String> = Vec::new();
    let mut i: usize = 0;
    assert(chars::views(out@) =~= distinct_terms(all.take(0)));
    while i < tokens.len()
        invariant
            i <= tokens@.len(),
            all == chars::views(tokens@),
            chars::views(out@) == distinct_terms(all.take(i as int)),
        decreases tokens@.len() - i,
    {
        let ghost before = chars::views(out@);
        proof {
            assert(all.take(i as int + 1).drop_last() =~= all.take(i as int));
            assert(all.take(i as int + 1).last() == tokens@[i as int]@);
        }
        if out.len() < MAX_TERMS && !holds_text(&out, tokens[i].as_str()) {
            out.push(tokens[i].as_str().to_owned());
            assert(chars::views(out@) =~= before.push(all[i as int]));
        }
        i = i + 1;
    }
    assert(all.take(i as int) =~= all);
    out
}

fn holds_text(list: &[String], t: &str) -> (r: bool)
    ensures
        r == chars::views(list@).contains(t@),
{
    let ghost all = chars::views(list@);
    let mut i: usize = 0;
    while i < list.len()
        invariant
            i <= list@.len(),
            all == chars::views(list@),
            forall|j: int| 0 <= j < i ==> #[trigger] all[j] != t@,
        decreases list@.len() - i,
    {
        assert(all[i as int] == list@[i as int]@);
        if chars::same_text(list[i].as_str(), t) {
            assert(all.contains(t@));
            return true;
        }
        i = i + 1;
    }
    false
}

/// The texts of terms.
pub open spec fn term_texts(terms: Seq<Term>) -> Seq<Seq<char>> {
    terms.map_values(|t: Term| t.text@)
}

/// Every count is that of its term.
pub open spec fn are_counted(tokens: Seq<Seq<char>>, terms: Seq<Term>) -> bool {
    forall|i: int| 0 <= i < terms.len() ==> (#[trigger] terms[i]).count == occurrences(tokens, terms[i].text@)
}

fn is_term_before(a: &Term, b: &Term, Ghost(tokens): Ghost<Seq<Seq<char>>>) -> (r: bool)
    requires
        a.count == occurrences(tokens, a.text@),
        b.count == occurrences(tokens, b.text@),
    ensures
        r == term_before(tokens, a.text@, b.text@),
{
    let la: usize = chars::to_chars(a.text.as_str()).len();
    let lb: usize = chars::to_chars(b.text.as_str()).len();
    if la != lb {
        return la > lb;
    }
    if a.count != b.count {
        return a.count > b.count;
    }
    chars::is_before(a.text.as_str(), b.text.as_str())
}

fn enter_term(terms: &mut Vec<Term>, x: Term, Ghost(tokens): Ghost<Seq<Seq<char>>>)
    requires
        are_counted(tokens, old(terms)@),
        x.count == occurrences(tokens, x.text@),
    ensures
        are_counted(tokens, final(terms)@),
        term_texts(final(terms)@) == entered_term(tokens, term_texts(old(terms)@), x.text@),
{
    let ghost all = term_texts(terms@);
    let mut pos: usize = terms.len();
    proof {
        assert(all.take(pos as int) =~= all);
        assert(entered_term(tokens, all.take(pos as int), x.text@) + all.skip(pos as int) =~= entered_term(
            tokens,
            all,
            x.text@,
        ));
    }
    while pos > 0 && is_term_before(&x, &terms[pos - 1], Ghost(tokens))
        invariant
            pos <= terms@.len(),
            terms@ == old(terms)@,
            all == term_texts(terms@),
            are_counted(tokens, terms@),
            x.count == occurrences(tokens, x.text@),
            entered_term(tokens, all, x.text@) == entered_term(tokens, all.take(pos as int), x.text@) + all.skip(
                pos as int,
            ),
        ensures
            pos <= terms@.len(),
            pos > 0 ==> !term_before(tokens, x.text@, all[pos - 1]),
        decreases pos,
    {
        proof {
            let t = all.take(pos as int);
            assert(t.drop_last() =~= all.take(pos - 1));
            assert(t.last() == all[pos - 1]);
            assert(entered_term(tokens, t, x.text@) + all.skip(pos as int) =~= entered_term(
                tokens,
                all.take(pos - 1),
                x.text@,
            ) + all.skip(pos - 1));
        }
        pos = pos - 1;
    }
    proof {
        let t = all.take(pos as int);
        if pos > 0 {
            assert(t.last() == all[pos - 1]);
        }
        assert(entered_term(tokens, t, x.text@) =~= t.push(x.text@));
    }
    let ghost text = x.text@;
    terms.insert(pos, x);
    proof {
        assert(term_texts(terms@) =~= all.take(pos as int).push(text) + all.skip(pos as int));
    }
}

/// Puts terms in order.
fn rank_terms(tokens: &[String], terms: Vec<String>) -> (r: Vec<String>)
    ensures
        chars::views(r@) == ranked_terms(chars::views(tokens@), chars::views(terms@)),
{
    let ghost toks = chars::views(tokens@);
    let ghost all = chars::views(terms@);
    let mut ranked: Vec<Term> = Vec::new();
    let mut i: usize = 0;
    assert(term_texts(ranked@) =~= ranked_terms(toks, all.take(0)));
    while i < terms.len()
        invariant
            i <= terms@.len(),
            toks == chars::views(tokens@),
            all == chars::views(terms@),
            are_counted(toks, ranked@),
            term_texts(ranked@) == ranked_terms(toks, all.take(i as int)),
        decreases terms@.len() - i,
    {
        proof {
            assert(all.take(i as int + 1).drop_last() =~= all.take(i as int));
            assert(all.take(i as int + 1).last() == terms@[i as int]@);
        }
        let count: usize = count_occurrences(tokens, terms[i].as_str());
        let t = Term { text: terms[i].as_str().to_owned(), count };
        enter_term(&mut ranked, t, Ghost(toks));
        i = i + 1;
    }
    assert(all.take(i as int) =~= all);
    let ghost texts = term_texts(ranked@);
    let mut out: Vec<String> = Vec::new();
    let mut k: usize = 0;
    while k < ranked.len()
        invariant
            k <= ranked@.len(),
            texts == term_texts(ranked@),
            chars::views(out@) == texts.take(k as int),
        decreases ranked@.len() - k,
    {
        let ghost before = chars::views(out@);
        out.push(ranked[k].text.as_str().to_owned());
        proof {
            assert(chars::views(out@) =~= before.push(texts[k as int]));
            assert(texts.take(k as int + 1) =~= texts.take(k as int).push(texts[k as int]));
        }
        k = k + 1;
    }
    assert(texts.take(k as int) =~= texts);
    out
}

/// The query for chosen terms; `operator` is in lower case.
pub fn write_query(chosen: &[String], operator: &str) -> (r: String)
    ensures
        r@ == query_of(chars::views(chosen@), operator@),
{
    let ghost all = chars::views(chosen@);
    let mut parts: Vec<String> = Vec::new();
    let mut i: usize = 0;
    assert(chars::views(parts@) =~= all_quoted(all).take(0));
    while i < chosen.len()
        invariant
            i <= chosen@.len(),
            all == chars::views(chosen@),
            chars::views(parts@) == all_quoted(all).take(i as int),
        decreases chosen@.len() - i,
    {
        let ghost before = chars::views(parts@);
        let q = fts_quote(chosen[i].as_str());
        let ghost text = q@;
        parts.push(q);
        proof {
            assert(chars::views(parts@) =~= before.push(text));
            assert(all_quoted(all).take(i as int + 1) =~= all_quoted(all).take(i as int).push(
                all_quoted(all)[i as int],
            ));
        }
        i = i + 1;
    }
    assert(all_quoted(all).take(i as int) =~= all_quoted(all));
    let all_must: bool = chars::same_text(operator, "and") || (chars::same_text(operator, "auto") && chosen.len()
        <= 8);
    if all_must {
        chars::join(&parts, " AND ")
    } else {
        chars::join(&parts, " OR ")
    }
}

/// The query for a transcript and its terms, if there is anything to search for.
pub fn build_fts_query_from_transcript(
    transcript_text: &str,
    max_query_tokens: usize,
    query_operator: &str,
) -> (r: Option<(String, Vec<String>)>)
    ensures
        r is None <==> chars::trimmed(transcript_text@).len() == 0 || search_tokens(transcript_text@).len() == 0,
        r matches Some((query, terms)) ==> {
            &&& chars::views(terms@) == chosen_terms(search_tokens(transcript_text@), max_query_tokens)
            &&& query@ == query_of(chars::views(terms@), chars::lowercase(chars::trimmed(query_operator@)))
        },
{
    let trimmed = chars::trim(transcript_text);
    if trimmed.as_str().is_empty() {
        return None;
    }
    let normalized = text::normalize_arabic(trimmed.as_str());
    let expanded = expand_search_terms(normalized.as_str());
    let tokens = keep_long(&chars::split_words(expanded.as_str()));
    if tokens.len() == 0 {
        return None;
    }
    let ghost toks = chars::views(tokens@);
    let mut chosen = rank_terms(&tokens, find_distinct(&tokens));
    let ghost ranked = chars::views(chosen@);
    let limit: usize = if max_query_tokens == 0 {
        1
    } else {
        max_query_tokens
    };
    if chosen.len() > limit {
        chosen.truncate(limit);
    }
    assert(chars::views(chosen@) =~= chosen_terms(toks, max_query_tokens));
    let operator = chars::to_lower(chars::trim(query_operator).as_str());
    let query = write_query(&chosen, operator.as_str());
    Some((query, chosen))
}

proof fn lemma_term_order(tokens: Seq<Seq<char>>, a: Seq<char>, b: Seq<char>, c: Seq<char>)
    ensures
        term_before(tokens, a, b) ==> !term_before(tokens, b, a),
        a != b ==> term_before(tokens, a, b) || term_before(tokens, b, a),
        term_before(tokens, a, b) && term_before(tokens, b, c) ==> term_before(tokens, a, c),
{
    chars::law_texts_are_ordered(a, b);
    if chars::text_before(a, b) && chars::text_before(b, c) {
        chars::law_text_order_chains(a, b, c);
    }
}

/// No term comes after one that it precedes.
pub open spec fn in_term_order(tokens: Seq<Seq<char>>, s: Seq<Seq<char>>) -> bool {
    forall|i: int, j: int| 0 <= i < j < s.len() ==> !term_before(tokens, #[trigger] s[j], #[trigger] s[i])
}

proof fn lemma_entered(tokens: Seq<Seq<char>>, s: Seq<Seq<char>>, x: Seq<char>)
    requires
        in_term_order(tokens, s),
    ensures
        in_term_order(tokens, entered_term(tokens, s, x)),
        entered_term(tokens, s, x).len() == s.len() + 1,
        forall|t: Seq<char>| #[trigger] entered_term(tokens, s, x).contains(t) <==> s.contains(t) || t == x,
    decreases s.len(),
{
    let e = entered_term(tokens, s, x);
    if s.len() == 0 {
        assert(e == seq![x]);
        assert(e[0] == x);
        assert forall|t: Seq<char>| #[trigger] e.contains(t) implies t == x by {}
        assert(e.contains(x));
    } else if term_before(tokens, x, s.last()) {
        let d = s.drop_last();
        assert forall|i: int, j: int| 0 <= i < j < d.len() implies !term_before(
            tokens,
            #[trigger] d[j],
            #[trigger] d[i],
        ) by {
            assert(d[i] == s[i] && d[j] == s[j]);
        }
        lemma_entered(tokens, d, x);
        let f = entered_term(tokens, d, x);
        assert(e == f.push(s.last()));
        assert forall|i: int, j: int| 0 <= i < j < e.len() implies !term_before(
            tokens,
            #[trigger] e[j],
            #[trigger] e[i],
        ) by {
            if j < f.len() {
                assert(e[i] == f[i] && e[j] == f[j]);
            } else {
                assert(e[i] == f[i]);
                assert(f.contains(f[i]));
                lemma_term_order(tokens, x, s.last(), x);
                if f[i] != x {
                    let k = choose|k: int| 0 <= k < d.len() && d[k] == f[i];
                    assert(s[k] == f[i]);
                    assert(!term_before(tokens, s[s.len() - 1], s[k]));
                }
            }
        }
        assert forall|t: Seq<char>| #[trigger] e.contains(t) <==> s.contains(t) || t == x by {
            if e.contains(t) {
                let k = choose|k: int| 0 <= k < e.len() && e[k] == t;
                if k < f.len() {
                    assert(f[k] == t);
                    assert(f.contains(t));
                    if d.contains(t) {
                        let m = choose|m: int| 0 <= m < d.len() && d[m] == t;
                        assert(s[m] == t);
                    }
                } else {
                    assert(s[s.len() - 1] == t);
                }
            }
            if s.contains(t) {
                let k = choose|k: int| 0 <= k < s.len() && s[k] == t;
                if k < d.len() {
                    assert(d[k] == t);
                    assert(f.contains(t));
                    let m = choose|m: int| 0 <= m < f.len() && f[m] == t;
                    assert(e[m] == t);
                } else {
                    assert(e[e.len() - 1] == t);
                }
            }
            if t == x {
                assert(f.contains(x));
                let m = choose|m: int| 0 <= m < f.len() && f[m] == x;
                assert(e[m] == x);
            }
        }
    } else {
        assert(e == s.push(x));
        assert forall|i: int, j: int| 0 <= i < j < e.len() implies !term_before(
            tokens,
            #[trigger] e[j],
            #[trigger] e[i],
        ) by {
            if j == s.len() && term_before(tokens, x, s[i]) {
                lemma_term_order(tokens, x, s[i], s.last());
                lemma_term_order(tokens, s.last(), s[i], s[i]);
                if i < s.len() - 1 {
                    assert(!term_before(tokens, s[s.len() - 1], s[i]));
                    if s[i] != s.last() {
                        assert(term_before(tokens, s[i], s.last()));
                    }
                }
            }
        }
        assert forall|t: Seq<char>| #[trigger] e.contains(t) <==> s.contains(t) || t == x by {
            if s.contains(t) {
                let k = choose|k: int| 0 <= k < s.len() && s[k] == t;
                assert(e[k] == t);
            }
            assert(e[s.len() as int] == x);
        }
    }
}

proof fn lemma_ranked(tokens: Seq<Seq<char>>, terms: Seq<Seq<char>>)
    ensures
        in_term_order(tokens, ranked_terms(tokens, terms)),
        ranked_terms(tokens, terms).len() == terms.len(),
        forall|t: Seq<char>| #[trigger] ranked_terms(tokens, terms).contains(t) <==> terms.contains(t),
    decreases terms.len(),
{
    if terms.len() > 0 {
        let d = terms.drop_last();
        lemma_ranked(tokens, d);
        let r = ranked_terms(tokens, d);
        lemma_entered(tokens, r, terms.last());
        assert forall|t: Seq<char>| #[trigger] ranked_terms(tokens, terms).contains(t) <==> terms.contains(t) by {
            if terms.contains(t) {
                let k = choose|k: int| 0 <= k < terms.len() && terms[k] == t;
                if k < d.len() {
                    assert(d[k] == t);
                    assert(r.contains(t));
                }
            }
            if r.contains(t) {
                assert(d.contains(t));
                let k = choose|k: int| 0 <= k < d.len() && d[k] == t;
                assert(terms[k] == t);
            }
            assert(terms[terms.len() - 1] == terms.last());
        }
    }
}

proof fn lemma_distinct(tokens: Seq<Seq<char>>)
    ensures
        distinct_terms(tokens).len() <= MAX_TERMS,
        tokens.len() > 0 ==> distinct_terms(tokens).len() > 0,
        forall|i: int, j: int|
            0 <= i < j < distinct_terms(tokens).len() ==> #[trigger] distinct_terms(tokens)[i]
                != #[trigger] distinct_terms(tokens)[j],
        forall|t: Seq<char>| #[trigger] distinct_terms(tokens).contains(t) ==> tokens.contains(t),
    decreases tokens.len(),
{
    if tokens.len() > 0 {
        let d = tokens.drop_last();
        lemma_distinct(d);
        let before = distinct_terms(d);
        let now = distinct_terms(tokens);
        if before.len() == 0 && before.contains(tokens.last()) {
            assert(false);
        }
        assert forall|i: int, j: int| 0 <= i < j < now.len() implies #[trigger] now[i] != #[trigger] now[j] by {
            if j == before.len() {
                assert(before[i] == now[i]);
                assert(before.contains(before[i]));
            }
        }
        assert forall|t: Seq<char>| #[trigger] now.contains(t) implies tokens.contains(t) by {
            let k = choose|k: int| 0 <= k < now.len() && now[k] == t;
            if k < before.len() {
                assert(before[k] == t);
                assert(before.contains(t));
                let m = choose|m: int| 0 <= m < d.len() && d[m] == t;
                assert(tokens[m] == t);
            } else {
                assert(tokens[tokens.len() - 1] == t);
            }
        }
    }
}

/// What is searched for occurs in the transcript, is no more than was asked for,
/// and stands in order: longer terms first, then more frequent ones.
pub proof fn law_chosen_terms_are_the_best(tokens: Seq<Seq<char>>, max_query_tokens: usize)
    ensures
        ({
            let chosen = chosen_terms(tokens, max_query_tokens);
            &&& tokens.len() > 0 ==> chosen.len() > 0
            &&& chosen.len() <= max_query_tokens || chosen.len() <= 1
            &&& in_term_order(tokens, chosen)
            &&& forall|i: int| 0 <= i < chosen.len() ==> tokens.contains(#[trigger] chosen[i])
            &&& forall|t: Seq<char>, i: int|
                #![trigger distinct_terms(tokens).contains(t), chosen[i]]
                0 <= i < chosen.len() && distinct_terms(tokens).contains(t) && !chosen.contains(t) ==> !term_before(
                    tokens,
                    t,
                    chosen[i],
                )
        }),
{
    let terms = distinct_terms(tokens);
    lemma_distinct(tokens);
    lemma_ranked(tokens, terms);
    let ranked = ranked_terms(tokens, terms);
    let chosen = chosen_terms(tokens, max_query_tokens);
    assert forall|i: int| 0 <= i < chosen.len() implies tokens.contains(#[trigger] chosen[i]) by {
        assert(chosen[i] == ranked[i]);
        assert(ranked.contains(ranked[i]));
        assert(terms.contains(ranked[i]));
    }
    assert forall|i: int, j: int| 0 <= i < j < chosen.len() implies !term_before(
        tokens,
        #[trigger] chosen[j],
        #[trigger] chosen[i],
    ) by {
        assert(chosen[i] == ranked[i] && chosen[j] == ranked[j]);
    }
    assert forall|t: Seq<char>, i: int|
        #![trigger terms.contains(t), chosen[i]]
        0 <= i < chosen.len() && terms.contains(t) && !chosen.contains(t) implies !term_before(
        tokens,
        t,
        chosen[i],
    ) by {
        assert(ranked.contains(t));
        let k = choose|k: int| 0 <= k < ranked.len() && ranked[k] == t;
        if k < chosen.len() {
            assert(chosen[k] == t);
            assert(false);
        }
        assert(chosen[i] == ranked[i]);
        assert(!term_before(tokens, ranked[k], ranked[i]));
    }
}

/// How a guess begins.
#[derive(Clone, Copy, Debug, PartialEq, Eq, Structural)]
pub enum GuessStart {
    /// There is nothing to guess from.
    Nothing,
    /// There is nothing to search in.
    NoDatabase,
    Search,
}

pub fn start_guess(transcript_text: &str, has_database: bool) -> (r: GuessStart)
    ensures
        r == (if chars::trimmed(transcript_text@).len() == 0 {
            GuessStart::Nothing
        } else if !has_database {
            GuessStart::NoDatabase
        } else {
            GuessStart::Search
        }),
{
    if chars::trim(transcript_text).as_str().is_empty() {
        GuessStart::Nothing
    } else if !has_database {
        GuessStart::NoDatabase
    } else {
        GuessStart::Search
    }
}

// ---------------------------------------------------------------------------
// Ranking

#[derive(Clone, Copy, Debug, PartialEq, Eq, Structural)]
pub enum RankMode {
    BestScore,
    Hybrid,
    SumTopScore,
}

pub open spec fn rank_mode_of(w: Seq<char>) -> RankMode {
    if w == "best_score"@ {
        RankMode::BestScore
    } else if w == "hybrid"@ {
        RankMode::Hybrid
    } else {
        RankMode::SumTopScore
    }
}

/// What a word in lower case says as a way to rank.
pub fn rank_mode_word(w: &str) -> (r: RankMode)
    ensures
        r == rank_mode_of(w@),
{
    if chars::same_text(w, "best_score") {
        RankMode::BestScore
    } else if chars::same_text(w, "hybrid") {
        RankMode::Hybrid
    } else {
        RankMode::SumTopScore
    }
}

pub fn read_rank_mode(rank_mode: &str) -> (r: RankMode)
    ensures
        r == rank_mode_of(chars::lowercase(chars::trimmed(rank_mode@))),
{
    rank_mode_word(chars::to_lower(chars::trim(rank_mode).as_str()).as_str())
}

/// The score by which a chapter is ranked.
pub open spec fn score_of<S: Scalar>(best: S, sum_top: S, mode: RankMode) -> S {
    match mode {
        RankMode::BestScore => best,
        RankMode::Hybrid => best.plus_spec(S::milli_spec(250).times_spec(sum_top)),
        RankMode::SumTopScore => scalar::max_spec(sum_top, best),
    }
}

pub fn rank_score<S: Scalar>(best_score: Option<S>, sum_top_score: Option<S>, mode: RankMode) -> (r: S)
    ensures
        r == score_of(score_or_zero(best_score), score_or_zero(sum_top_score), mode),
{
    let best: S = match best_score {
        Some(x) => x,
        None => S::whole(0),
    };
    let sum_top: S = match sum_top_score {
        Some(x) => x,
        None => S::whole(0),
    };
    match mode {
        RankMode::BestScore => best,
        RankMode::Hybrid => best.plus(S::milli(250).times(sum_top)),
        RankMode::SumTopScore => scalar::max_of(sum_top, best),
    }
}

pub open spec fn score_or_zero<S: Scalar>(x: Option<S>) -> S {
    match x {
        Some(v) => v,
        None => S::whole_spec(0),
    }
}

/// By what chapters are ordered in a search.
pub fn order_clause(mode: RankMode) -> (r: &'static str)
    ensures
        r@ == (match mode {
            RankMode::BestScore => "best_score DESC, sum_top_score DESC, top_hits DESC, sum_score DESC, ayah_hits DESC"@,
            RankMode::Hybrid => "(best_score + 0.25 * sum_top_score) DESC, best_score DESC, sum_top_score DESC, top_hits DESC, sum_score DESC, ayah_hits DESC"@,
            RankMode::SumTopScore => "sum_top_score DESC, best_score DESC, top_hits DESC, sum_score DESC, ayah_hits DESC"@,
        }),
{
    match mode {
        RankMode::BestScore => "best_score DESC, sum_top_score DESC, top_hits DESC, sum_score DESC, ayah_hits DESC",
        RankMode::Hybrid => "(best_score + 0.25 * sum_top_score) DESC, best_score DESC, sum_top_score DESC, top_hits DESC, sum_score DESC, ayah_hits DESC",
        RankMode::SumTopScore => "sum_top_score DESC, best_score DESC, top_hits DESC, sum_score DESC, ayah_hits DESC",
    }
}

// ---------------------------------------------------------------------------
// Shares

/// The greatest of the first `n` scores.
pub open spec fn greatest<S: Scalar>(scores: Seq<S>, n: nat) -> S
    decreases n,
{
    if n <= 1 {
        scores[0]
    } else {
        let before = greatest(scores, (n - 1) as nat);
        if before.rank() < scores[n - 1].rank() {
            scores[n - 1]
        } else {
            before
        }
    }
}

pub fn max_score<S: Scalar>(scores: &[S]) -> (r: Option<S>)
    ensures
        r == (if scores@.len() == 0 {
            None
        } else {
            Some(greatest(scores@, scores@.len()))
        }),
{
    if scores.len() == 0 {
        return None;
    }
    let mut best: S = scores[0];
    let mut i: usize = 1;
    while i < scores.len()
        invariant
            1 <= i <= scores@.len(),
            best == greatest(scores@, i as nat),
        decreases scores@.len() - i,
    {
        if best.below(scores[i]) {
            best = scores[i];
        }
        i = i + 1;
    }
    Some(best)
}

/// The sum of the first `n` weights, added up in their order.
pub open spec fn weight_sum<S: Scalar>(weights: Seq<S>, n: nat) -> S
    decreases n,
{
    if n == 0 {
        S::whole_spec(0)
    } else {
        weight_sum(weights, (n - 1) as nat).plus_spec(weights[n - 1])
    }
}

/// What the weights are divided by: their sum, or one if that is not positive.
pub open spec fn divisor<S: Scalar>(weights: Seq<S>) -> S {
    let sum = weight_sum(weights, weights.len());
    if S::whole_spec(0).rank() < sum.rank() {
        sum
    } else {
        S::whole_spec(1)
    }
}

/// The share of each weight in all of them.
pub fn shares<S: Scalar>(weights: &[S]) -> (r: Vec<S>)
    ensures
        r@ == Seq::new(weights@.len(), |i: int| weights@[i].over_spec(divisor(weights@))),
{
    let mut sum: S = S::whole(0);
    let mut i: usize = 0;
    while i < weights.len()
        invariant
            i <= weights@.len(),
            sum == weight_sum(weights@, i as nat),
        decreases weights@.len() - i,
    {
        sum = sum.plus(weights[i]);
        i = i + 1;
    }
    let by: S = if S::whole(0).below(sum) {
        sum
    } else {
        S::whole(1)
    };
    let mut out: Vec<S> = Vec::new();
    let mut k: usize = 0;
    while k < weights.len()
        invariant
            k <= weights@.len(),
            by == divisor(weights@),
            out@.len() == k,
            forall|j: int| 0 <= j < k ==> #[trigger] out@[j] == weights@[j].over_spec(by),
        decreases weights@.len() - k,
    {
        out.push(weights[k].over(by));
        k = k + 1;
    }
    assert(out@ =~= Seq::new(weights@.len(), |i: int| weights@[i].over_spec(divisor(weights@))));
    out
}

// ---------------------------------------------------------------------------
// Laws on what is searched for

/// A word is searched for as it is, without the article, and without a letter of
/// waw, fa, ba, kaf, lam and sin that is joined to its front, and then also without
/// the article behind that letter. No other letter is taken off.
pub proof fn law_joined_letters_are_taken_off(t: Seq<char>, x: Seq<char>)
    requires
        t.len() > 0,
    ensures
        ({
            let joined = t[0] == '\u{0648}' || t[0] == '\u{0641}' || t[0] == '\u{0628}' || t[0] == '\u{0643}' || t[0]
                == '\u{0644}' || t[0] == '\u{0633}';
            let with_article = t.len() > 2 && t[0] == '\u{0627}' && t[1] == '\u{0644}';
            let then_article = t.len() > 3 && t[1] == '\u{0627}' && t[2] == '\u{0644}';
            &&& terms_of(t).contains(t)
            &&& joined && t.len() > 1 ==> terms_of(t).contains(t.skip(1))
            &&& with_article ==> terms_of(t).contains(t.skip(2))
            &&& joined && then_article ==> terms_of(t).contains(t.skip(3))
            &&& terms_of(t).contains(x) ==> {
                ||| x == t
                ||| joined && t.len() > 1 && x == t.skip(1)
                ||| with_article && x == t.skip(2)
                ||| joined && then_article && x == t.skip(3)
            }
        }),
{
    let first = without_article(t);
    let s = t.skip(1);
    let second = without_article(s);
    let all = terms_of(t);
    lemma_article(t);
    assert(all[0] == t);
    if first.len() > 0 {
        assert(all[1] == t.skip(2));
    }
    if t.len() > 1 && is_joined_letter(t[0]) {
        lemma_article(s);
        assert(all[1 + first.len() as int] == s);
        if second.len() > 0 {
            assert(all[2 + first.len() as int] == s.skip(2));
            assert(s.skip(2) =~= t.skip(3));
        }
    }
    if all.contains(x) {
        let k = choose|k: int| 0 <= k < all.len() && all[k] == x;
        if 1 <= k < 1 + first.len() {
            assert(all[k] == first[k - 1]);
        } else if k > 1 + first.len() {
            assert(all[k] == second[k - 2 - first.len()]);
        }
    }
}

proof fn lemma_article(t: Seq<char>)
    ensures
        t.len() > 2 && t[0] == '\u{0627}' && t[1] == '\u{0644}' ==> without_article(t) == seq![t.skip(2)],
        !(t.len() > 2 && t[0] == '\u{0627}' && t[1] == '\u{0644}') ==> without_article(t).len() == 0,
{
    if t.len() > 2 {
        if t[0] == '\u{0627}' && t[1] == '\u{0644}' {
            assert(t.take(2) =~= article());
        } else if chars::starts_with(t, article()) {
            assert(t.take(2)[0] == t[0]);
            assert(t.take(2)[1] == t[1]);
        }
    }
}

proof fn lemma_all_terms(words: Seq<Seq<char>>, x: Seq<char>)
    ensures
        all_terms(words).contains(x) <==> exists|i: int|
            0 <= i < words.len() && terms_of(#[trigger] words[i]).contains(x),
    decreases words.len(),
{
    if words.len() > 0 {
        let d = words.drop_last();
        let a = all_terms(d);
        let b = terms_of(words.last());
        let n = words.len() - 1;
        lemma_all_terms(d, x);
        if all_terms(words).contains(x) {
            let k = choose|k: int| 0 <= k < all_terms(words).len() && all_terms(words)[k] == x;
            if k < a.len() {
                assert(a[k] == x);
                let i = choose|i: int| 0 <= i < d.len() && terms_of(#[trigger] d[i]).contains(x);
                assert(terms_of(words[i]).contains(x));
            } else {
                assert(b[k - a.len()] == x);
                assert(terms_of(words[n]).contains(x));
            }
        }
        if exists|i: int| 0 <= i < words.len() && terms_of(#[trigger] words[i]).contains(x) {
            let i = choose|i: int| 0 <= i < words.len() && terms_of(#[trigger] words[i]).contains(x);
            if i < n {
                assert(terms_of(d[i]).contains(x));
                let k = choose|k: int| 0 <= k < a.len() && a[k] == x;
                assert(all_terms(words)[k] == x);
            } else {
                let k = choose|k: int| 0 <= k < b.len() && b[k] == x;
                assert(all_terms(words)[a.len() + k] == x);
            }
        }
    }
}

proof fn lemma_long_terms(terms: Seq<Seq<char>>, x: Seq<char>)
    ensures
        long_terms(terms).contains(x) <==> terms.contains(x) && x.len() >= 2,
    decreases terms.len(),
{
    let r = long_terms(terms);
    if terms.len() > 0 {
        let d = terms.drop_last();
        let b = long_terms(d);
        lemma_long_terms(d, x);
        if r.contains(x) {
            let k = choose|k: int| 0 <= k < r.len() && r[k] == x;
            if k < b.len() {
                assert(b[k] == x);
                let m = choose|m: int| 0 <= m < d.len() && d[m] == x;
                assert(terms[m] == x);
            } else {
                assert(terms[terms.len() - 1] == x);
            }
        }
        if terms.contains(x) && x.len() >= 2 {
            let k = choose|k: int| 0 <= k < terms.len() && terms[k] == x;
            if k < d.len() {
                assert(d[k] == x);
                let m = choose|m: int| 0 <= m < b.len() && b[m] == x;
                assert(r[m] == x);
            } else {
                assert(r[r.len() - 1] == x);
            }
        }
    }
}

proof fn lemma_terms_are_words(words: Seq<Seq<char>>)
    requires
        forall|i: int| 0 <= i < words.len() ==> chars::is_word(#[trigger] words[i]),
    ensures
        forall|k: int| 0 <= k < all_terms(words).len() ==> chars::is_word(#[trigger] all_terms(words)[k]),
{
    let all = all_terms(words);
    assert forall|k: int| 0 <= k < all.len() implies chars::is_word(#[trigger] all[k]) by {
        let x = all[k];
        assert(all.contains(x));
        lemma_all_terms(words, x);
        let i = choose|i: int| 0 <= i < words.len() && terms_of(#[trigger] words[i]).contains(x);
        let t = words[i];
        assert(chars::is_word(t));
        law_joined_letters_are_taken_off(t, x);
        assert forall|m: int| 0 <= m < x.len() implies !chars::is_space_spec(#[trigger] x[m]) by {
            let by = t.len() - x.len();
            assert(x[m] == t[by + m]);
        }
    }
}

/// What is searched for in a transcript are the terms of its words in normal form that
/// have two letters or more, and nothing else.
pub proof fn law_search_tokens_are_terms(transcript: Seq<char>, x: Seq<char>)
    ensures
        search_tokens(transcript).contains(x) <==> x.len() >= 2 && exists|i: int|
            0 <= i < chars::words_of(text::normalized(chars::trimmed(transcript))).len() && terms_of(
                #[trigger] chars::words_of(text::normalized(chars::trimmed(transcript)))[i],
            ).contains(x),
{
    let s = text::normalized(chars::trimmed(transcript));
    let words = chars::words_of(s);
    chars::law_words_are_words(s);
    lemma_terms_are_words(words);
    chars::law_joined_words_split(all_terms(words));
    lemma_all_terms(words, x);
    lemma_long_terms(all_terms(words), x);
}

/// A word of the transcript is found by its stem: with a joined letter in front, what
/// follows the letter is searched for too, and what follows an article behind it.
pub proof fn law_words_are_searched_by_their_stem(transcript: Seq<char>, i: int)
    requires
        0 <= i < chars::words_of(text::normalized(chars::trimmed(transcript))).len(),
    ensures
        ({
            let t = chars::words_of(text::normalized(chars::trimmed(transcript)))[i];
            let tokens = search_tokens(transcript);
            let joined = t[0] == '\u{0648}' || t[0] == '\u{0641}' || t[0] == '\u{0628}' || t[0] == '\u{0643}' || t[0]
                == '\u{0644}' || t[0] == '\u{0633}';
            &&& t.len() >= 2 ==> tokens.contains(t)
            &&& t.len() >= 3 && joined ==> tokens.contains(t.skip(1))
            &&& t.len() >= 4 && t[0] == '\u{0627}' && t[1] == '\u{0644}' ==> tokens.contains(t.skip(2))
            &&& t.len() >= 5 && joined && t[1] == '\u{0627}' && t[2] == '\u{0644}' ==> tokens.contains(t.skip(3))
        }),
{
    let words = chars::words_of(text::normalized(chars::trimmed(transcript)));
    let t = words[i];
    chars::law_words_are_words(text::normalized(chars::trimmed(transcript)));
    assert(chars::is_word(t));
    law_joined_letters_are_taken_off(t, t);
    law_search_tokens_are_terms(transcript, t);
    law_search_tokens_are_terms(transcript, t.skip(1));
    law_search_tokens_are_terms(transcript, t.skip(2));
    law_search_tokens_are_terms(transcript, t.skip(3));
}

/// How often a term occurs.
pub proof fn law_occurrences_count(tokens: Seq<Seq<char>>, t: Seq<char>)
    ensures
        occurrences(tokens, t) == tokens.to_multiset().count(t),
        occurrences(tokens, t) > 0 <==> tokens.contains(t),
    decreases tokens.len(),
{
    broadcast use vstd::seq_lib::group_to_multiset_ensures;

    if tokens.len() > 0 {
        let d = tokens.drop_last();
        law_occurrences_count(d, t);
        assert(tokens =~= d.push(tokens.last()));
        if tokens.contains(t) {
            let k = choose|k: int| 0 <= k < tokens.len() && tokens[k] == t;
            if k < d.len() {
                assert(d[k] == t);
            }
        }
        if d.contains(t) {
            let k = choose|k: int| 0 <= k < d.len() && d[k] == t;
            assert(tokens[k] == t);
        }
        assert(tokens[tokens.len() - 1] == tokens.last());
    } else {
        assert(tokens =~= Seq::<Seq<char>>::empty());
    }
}

/// Of the chosen terms the longer ones come first, among those of one length the more
/// frequent ones, and then those whose text comes first. None is chosen twice.
pub proof fn law_longer_terms_come_first(tokens: Seq<Seq<char>>, max_query_tokens: usize, i: int, j: int)
    requires
        0 <= i < j < chosen_terms(tokens, max_query_tokens).len(),
    ensures
        ({
            let a = chosen_terms(tokens, max_query_tokens)[i];
            let b = chosen_terms(tokens, max_query_tokens)[j];
            let na = tokens.to_multiset().count(a);
            let nb = tokens.to_multiset().count(b);
            &&& a.len() >= b.len()
            &&& a.len() == b.len() ==> na >= nb
            &&& a.len() == b.len() && na == nb ==> chars::text_before(a, b) || a == b
        }),
{
    law_chosen_terms_are_the_best(tokens, max_query_tokens);
    let chosen = chosen_terms(tokens, max_query_tokens);
    law_occurrences_count(tokens, chosen[i]);
    law_occurrences_count(tokens, chosen[j]);
    lemma_term_order(tokens, chosen[i], chosen[j], chosen[j]);
    assert(!term_before(tokens, chosen[j], chosen[i]));
    chars::law_texts_are_ordered(chosen[i], chosen[j]);
}

proof fn lemma_distinct_holds(tokens: Seq<Seq<char>>, t: Seq<char>)
    ensures
        tokens.contains(t) ==> distinct_terms(tokens).contains(t) || distinct_terms(tokens).len() == 200,
        distinct_terms(tokens).len() <= tokens.len(),
    decreases tokens.len(),
{
    if tokens.len() > 0 {
        let d = tokens.drop_last();
        let before = distinct_terms(d);
        let now = distinct_terms(tokens);
        lemma_distinct_holds(d, t);
        lemma_distinct(tokens);
        if tokens.contains(t) {
            let k = choose|k: int| 0 <= k < tokens.len() && tokens[k] == t;
            if k < d.len() {
                assert(d[k] == t);
                if before.contains(t) {
                    let m = choose|m: int| 0 <= m < before.len() && before[m] == t;
                    assert(now[m] == t);
                }
            } else if now != before {
                assert(now[now.len() - 1] == t);
            }
        }
    }
}

/// Every term of a transcript is searched for, if it has no more terms than were asked
/// for and no more than two hundred.
pub proof fn law_few_terms_are_all_searched(tokens: Seq<Seq<char>>, max_query_tokens: usize, t: Seq<char>)
    requires
        tokens.contains(t),
        tokens.len() <= max_query_tokens,
        tokens.len() < 200,
    ensures
        chosen_terms(tokens, max_query_tokens).contains(t),
{
    lemma_distinct_holds(tokens, t);
    lemma_ranked(tokens, distinct_terms(tokens));
}

/// As many terms are searched for as were asked for, at least one, if the transcript
/// has so many.
pub proof fn law_as_many_terms_as_asked_for(tokens: Seq<Seq<char>>, max_query_tokens: usize)
    ensures
        ({
            let want = if max_query_tokens == 0 {
                1
            } else {
                max_query_tokens as nat
            };
            let have = distinct_terms(tokens).len();
            &&& chosen_terms(tokens, max_query_tokens).len() == (if have < want {
                have
            } else {
                want
            })
            &&& have <= 200
            &&& tokens.len() > 0 ==> have > 0
        }),
{
    lemma_distinct(tokens);
    lemma_ranked(tokens, distinct_terms(tokens));
}

/// Every term of a query stands in quotation marks. With `and` all terms must occur,
/// with `auto` up to eight, and with any other word one of them suffices.
pub proof fn law_queries_join_terms(terms: Seq<Seq<char>>, t: Seq<char>, operator: Seq<char>)
    ensures
        query_of(seq![t], operator) == seq!['"'] + doubled(t) + seq!['"'],
        terms.len() > 0 ==> query_of(terms.push(t), "and"@) == query_of(terms, "and"@) + " AND "@ + (seq!['"'] + doubled(
            t,
        ) + seq!['"']),
        terms.len() > 0 && operator != "and"@ && operator != "auto"@ ==> query_of(terms.push(t), operator) == query_of(
            terms,
            operator,
        ) + " OR "@ + (seq!['"'] + doubled(t) + seq!['"']),
        terms.len() <= 8 ==> query_of(terms, "auto"@) == query_of(terms, "and"@),
        terms.len() > 8 ==> query_of(terms, "auto"@) == query_of(terms, "or"@),
{
    reveal_strlit("and");
    reveal_strlit("auto");
    reveal_strlit("or");
    assert("and"@.len() != "auto"@.len());
    assert("or"@.len() != "auto"@.len());
    assert("or"@.len() != "and"@.len());
    assert(all_quoted(seq![t])[0] == quoted(t));
    let more = all_quoted(terms.push(t));
    assert(more.drop_last() =~= all_quoted(terms));
    assert(more.last() == quoted(t));
}

/// The quotation marks in a term are doubled, and all its other characters stay.
pub proof fn law_quotation_marks_are_doubled(s: Seq<char>, c: char)
    ensures
        doubled(s.push('"')) == doubled(s) + seq!['"', '"'],
        c != '"' ==> doubled(s.push(c)) == doubled(s).push(c),
        doubled(Seq::<char>::empty()) == Seq::<char>::empty(),
{
    assert(s.push('"').drop_last() =~= s);
    assert(s.push(c).drop_last() =~= s);
    assert(doubled(s).push('"').push('"') =~= doubled(s) + seq!['"', '"']);
}

// ---------------------------------------------------------------------------
// Laws on how chapters are ranked

/// By its best score a chapter ranks as that; by its top scores as their sum, but no
/// lower than by its best score.
pub proof fn law_scores_rank_chapters<S: Scalar>(best: S, sum_top: S)
    ensures
        score_of(best, sum_top, RankMode::BestScore) == best,
        best.rank() <= score_of(best, sum_top, RankMode::SumTopScore).rank(),
        sum_top.rank() <= score_of(best, sum_top, RankMode::SumTopScore).rank(),
        score_of(best, sum_top, RankMode::SumTopScore) == best || score_of(best, sum_top, RankMode::SumTopScore)
            == sum_top,
{
}

/// In between, a quarter of the sum is added to the best score.
pub proof fn law_hybrid_adds_a_quarter(best: scalar::Thousandths, sum_top: scalar::Thousandths)
    requires
        -0x1000_0000_0000 <= best.count <= 0x1000_0000_0000,
        -0x1000_0000_0000 <= sum_top.count <= 0x1000_0000_0000,
    ensures
        ({
            let r = score_of(best, sum_top, RankMode::Hybrid);
            4 * (r.count - best.count) <= sum_top.count < 4 * (r.count - best.count) + 4
        }),
{
    let x = sum_top.count as int;
    assert(250 * x == x * 250);
    assert((x * 250) / 1000 == x / 4) by (nonlinear_arith);
}

/// The words for the three ways to rank; any other word means the sum of top scores.
pub proof fn law_rank_words(w: Seq<char>)
    ensures
        rank_mode_of(w) == RankMode::BestScore <==> w == "best_score"@,
        rank_mode_of(w) == RankMode::Hybrid <==> w == "hybrid"@,
{
    reveal_strlit("best_score");
    reveal_strlit("hybrid");
    assert("best_score"@.len() != "hybrid"@.len());
}

/// The greatest score is one of the scores, and none is greater.
pub proof fn law_greatest_is_greatest<S: Scalar>(scores: Seq<S>, n: nat)
    requires
        0 < n <= scores.len(),
    ensures
        scores.contains(greatest(scores, n)),
        forall|i: int| 0 <= i < n ==> (#[trigger] scores[i]).rank() <= greatest(scores, n).rank(),
    decreases n,
{
    if n > 1 {
        law_greatest_is_greatest(scores, (n - 1) as nat);
        assert(scores.contains(scores[n - 1]));
    } else {
        assert(scores.contains(scores[0]));
    }
}

spec fn count_sum(weights: Seq<scalar::Thousandths>, n: nat) -> int
    decreases n,
{
    if n == 0 {
        0
    } else {
        count_sum(weights, (n - 1) as nat) + weights[n - 1].count
    }
}

proof fn lemma_count_sum(weights: Seq<scalar::Thousandths>, n: nat)
    requires
        n <= weights.len() <= 1_000_000,
        forall|i: int| 0 <= i < weights.len() ==> 0 <= (#[trigger] weights[i]).count <= 1_000_000_000,
    ensures
        weight_sum(weights, n).count == count_sum(weights, n),
        0 <= count_sum(weights, n) <= n * 1_000_000_000,
        forall|i: int| 0 <= i < n ==> (#[trigger] weights[i]).count <= count_sum(weights, n),
    decreases n,
{
    if n > 0 {
        lemma_count_sum(weights, (n - 1) as nat);
        assert(0 <= weights[n - 1].count <= 1_000_000_000);
        assert(n * 1_000_000_000 <= 1_000_000_000_000_000) by (nonlinear_arith)
            requires
                n <= 1_000_000,
        ;
    }
}

/// A share is the weight over the sum of all weights: the shares of weights that are
/// not negative lie between zero and one, and a larger weight has no smaller share. A
/// weight that is all there is has all of it.
pub proof fn law_shares_follow_weights(weights: Seq<scalar::Thousandths>, i: int, j: int)
    requires
        0 < weights.len() <= 1_000_000,
        forall|k: int| 0 <= k < weights.len() ==> 0 <= (#[trigger] weights[k]).count <= 1_000_000_000,
        0 <= i < weights.len() && 0 <= j < weights.len(),
        weights[i].count > 0,
    ensures
        ({
            let a = weights[i].over_spec(divisor(weights)).count;
            let b = weights[j].over_spec(divisor(weights)).count;
            &&& 0 <= a <= 1000 && 0 <= b <= 1000
            &&& weights[j].count <= weights[i].count ==> b <= a
            &&& weights[j].count == weights[i].count ==> b == a
            &&& (forall|k: int| 0 <= k < weights.len() && k != i ==> (#[trigger] weights[k]).count == 0) ==> a == 1000
        }),
{
    let n = weights.len();
    lemma_count_sum(weights, n);
    assert(weights[i].count <= count_sum(weights, n));
    assert(weights[j].count <= count_sum(weights, n));
    let d = count_sum(weights, n);
    let x = weights[i].count as int;
    let y = weights[j].count as int;
    assert(0 <= (x * 1000) / d <= 1000) by (nonlinear_arith)
        requires
            0 <= x <= d,
            0 < d,
    ;
    assert(0 <= (y * 1000) / d <= 1000) by (nonlinear_arith)
        requires
            0 <= y <= d,
            0 < d,
    ;
    if y <= x {
        assert((y * 1000) / d <= (x * 1000) / d) by (nonlinear_arith)
            requires
                0 <= y <= x,
                0 < d,
        ;
    }
    if forall|k: int| 0 <= k < weights.len() && k != i ==> (#[trigger] weights[k]).count == 0 {
        lemma_sole_weight(weights, i, n);
        assert((d * 1000) / d == 1000) by (nonlinear_arith)
            requires
                0 < d,
        ;
    }
}

proof fn lemma_sole_weight(weights: Seq<scalar::Thousandths>, i: int, n: nat)
    requires
        n <= weights.len(),
        0 <= i < weights.len(),
        forall|k: int| 0 <= k < weights.len() && k != i ==> (#[trigger] weights[k]).count == 0,
    ensures
        count_sum(weights, n) == (if i < n {
            weights[i].count as int
        } else {
            0
        }),
    decreases n,
{
    if n > 0 {
        lemma_sole_weight(weights, i, (n - 1) as nat);
        assert(n - 1 == i || weights[n - 1].count == 0);
    }
}

/// A chapter without a score counts as one with a score of nothing.
pub proof fn law_no_score_counts_as_nothing<S: Scalar>(x: S, mode: RankMode)
    ensures
        score_or_zero(Some(x)) == x,
        score_of(score_or_zero::<S>(None), score_or_zero(Some(x)), RankMode::BestScore) == S::whole_spec(0),
        score_of(score_or_zero::<S>(None), score_or_zero::<S>(None), mode) == score_of(S::whole_spec(0), S::whole_spec(0), mode),
{
}

} // verus!
