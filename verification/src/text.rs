//! Normal forms of Arabic text, similarity of words, and hashes of passages.

use std::collections::HashSet;

use blake2::digest::{Update, VariableOutput};
use blake2::Blake2bVar;
use unicode_general_category::{get_general_category, GeneralCategory};
use vstd::prelude::*;

use crate::chars;
use crate::scalar;
use crate::scalar::Scalar;

verus! {

/// The general categories that a normal form tells apart.
#[derive(Clone, Copy, Debug, PartialEq, Eq, Structural)]
pub enum Category {
    UppercaseLetter,
    LowercaseLetter,
    TitlecaseLetter,
    ModifierLetter,
    OtherLetter,
    NonspacingMark,
    SpacingMark,
    EnclosingMark,
    DecimalNumber,
    Other,
}

/// The category that `get_general_category` finds for a character.
pub uninterp spec fn category_of(c: char) -> Category;

/// `unicode_general_category::get_general_category`: a table over the
/// characters alone. Categories that no rule names become `Other`.
#[verifier::external_body]
fn general_category(c: char) -> (r: Category)
    ensures
        r == category_of(c),
{
    match get_general_category(c) {
        GeneralCategory::UppercaseLetter => Category::UppercaseLetter,
        GeneralCategory::LowercaseLetter => Category::LowercaseLetter,
        GeneralCategory::TitlecaseLetter => Category::TitlecaseLetter,
        GeneralCategory::ModifierLetter => Category::ModifierLetter,
        GeneralCategory::OtherLetter => Category::OtherLetter,
        GeneralCategory::NonspacingMark => Category::NonspacingMark,
        GeneralCategory::SpacingMark => Category::SpacingMark,
        GeneralCategory::EnclosingMark => Category::EnclosingMark,
        GeneralCategory::DecimalNumber => Category::DecimalNumber,
        _ => Category::Other,
    }
}

/// The 64-bit BLAKE2b digest of a text's UTF-8 bytes, read in little-endian
/// order.
pub uninterp spec fn blake2b_64(s: Seq<char>) -> u64;

/// `Blake2bVar` with an output of eight bytes: a function of the bytes alone.
#[verifier::external_body]
fn digest_64(s: &str) -> (r: u64)
    ensures
        r == blake2b_64(s@),
{
    let mut hasher = Blake2bVar::new(8).expect("blake2b init");
    hasher.update(s.as_bytes());
    let mut out = [0u8; 8];
    hasher.finalize_variable(&mut out).expect("blake2b finalize");
    u64::from_le_bytes(out)
}

// ---------------------------------------------------------------------------
// Timestamps

/// A sign and a magnitude in decimal, filled with zeros behind the sign up to
/// `width` characters.
pub open spec fn padded(negative: bool, magnitude: nat, width: nat) -> Seq<char> {
    let body = chars::decimal(magnitude);
    let sign = if negative && magnitude > 0 {
        seq!['-']
    } else {
        Seq::<char>::empty()
    };
    let used = sign.len() + body.len();
    let fill = if used < width {
        (width - used) as nat
    } else {
        0
    };
    sign + chars::repeated('0', fill) + body
}

/// `hh:mm:ss.mmm`. For a time before zero each part carries its own sign.
pub open spec fn timestamp(total_ms: int) -> Seq<char> {
    let neg = total_ms < 0;
    let mag: nat = if neg {
        (-total_ms) as nat
    } else {
        total_ms as nat
    };
    padded(neg, mag / 3_600_000, 2) + seq![':'] + padded(neg, mag % 3_600_000 / 60_000, 2) + seq![':']
        + padded(neg, mag % 60_000 / 1_000, 2) + seq!['.'] + padded(neg, mag % 1_000, 3)
}

fn push_padded(out: &mut String, negative: bool, magnitude: u64, width: usize)
    requires
        width <= 3,
    ensures
        final(out)@ == old(out)@ + padded(negative, magnitude as nat, width as nat),
{
    let ghost start = out@;
    let signed: bool = negative && magnitude > 0;
    let mut used: usize = chars::decimal_len(magnitude);
    if signed {
        out.push('-');
        used = used + 1;
    }
    let ghost sign = if signed {
        seq!['-']
    } else {
        Seq::<char>::empty()
    };
    assert(out@ =~= start + sign);
    let mut filled: usize = 0;
    assert(start + sign =~= start + sign + chars::repeated('0', 0));
    while filled + used < width
        invariant
            width <= 3,
            used <= 21,
            filled == 0 || filled + used <= width,
            out@ == start + sign + chars::repeated('0', filled as nat),
        decreases width - filled,
    {
        out.push('0');
        filled = filled + 1;
        assert(out@ =~= start + sign + chars::repeated('0', filled as nat));
    }
    chars::push_decimal(out, magnitude);
    assert(out@ =~= start + padded(negative, magnitude as nat, width as nat));
}

/// The timestamp of a number of milliseconds.
pub fn format_millis(total_ms: i64) -> (r: String)
    ensures
        r@ == timestamp(total_ms as int),
{
    let neg: bool = total_ms < 0;
    let mag: u64 = if neg {
        (-(total_ms as i128)) as u64
    } else {
        total_ms as u64
    };
    let mut out = String::new();
    push_padded(&mut out, neg, mag / 3_600_000, 2);
    out.push(':');
    push_padded(&mut out, neg, mag % 3_600_000 / 60_000, 2);
    out.push(':');
    push_padded(&mut out, neg, mag % 60_000 / 1_000, 2);
    out.push('.');
    push_padded(&mut out, neg, mag % 1_000, 3);
    assert(out@ =~= timestamp(total_ms as int));
    out
}

/// The number of milliseconds nearest to a number of seconds.
pub open spec fn millis<S: Scalar>(seconds: S) -> i64 {
    seconds.times_spec(S::whole_spec(1000)).round_i64_spec()
}

/// The timestamp of a number of seconds.
pub fn format_timestamp<S: Scalar>(seconds: S) -> (r: String)
    ensures
        r@ == timestamp(millis(seconds) as int),
{
    format_millis(seconds.times(S::whole(1000)).round_i64())
}

// ---------------------------------------------------------------------------
// Normal forms

/// The vowel signs and recitation marks that a normal form leaves out.
pub open spec fn is_arabic_diacritic_spec(ch: char) -> bool {
    let c = ch as u32;
    ||| 0x0610 <= c <= 0x061a
    ||| 0x064b <= c <= 0x065f
    ||| c == 0x0670
    ||| 0x06d6 <= c <= 0x06e4
    ||| 0x06e7 <= c <= 0x06e8
    ||| 0x06ea <= c <= 0x06ed
}

pub fn is_arabic_diacritic(ch: char) -> (r: bool)
    ensures
        r == is_arabic_diacritic_spec(ch),
{
    let c: u32 = ch as u32;
    (0x0610 <= c && c <= 0x061a) || (0x064b <= c && c <= 0x065f) || c == 0x0670 || (0x06d6 <= c && c
        <= 0x06e4) || (0x06e7 <= c && c <= 0x06e8) || (0x06ea <= c && c <= 0x06ed)
}

/// The basic letter for the written forms of alef, waw, yeh and teh marbuta.
pub open spec fn translate_arabic_spec(ch: char) -> char {
    let c = ch as u32;
    if c == 0x0622 || c == 0x0623 || c == 0x0625 || c == 0x0671 {
        '\u{0627}'
    } else if c == 0x0624 {
        '\u{0648}'
    } else if c == 0x0626 || c == 0x0649 {
        '\u{064A}'
    } else if c == 0x0629 {
        '\u{0647}'
    } else {
        ch
    }
}

pub fn translate_arabic(ch: char) -> (r: char)
    ensures
        r == translate_arabic_spec(ch),
{
    let c: u32 = ch as u32;
    if c == 0x0622 || c == 0x0623 || c == 0x0625 || c == 0x0671 {
        '\u{0627}'
    } else if c == 0x0624 {
        '\u{0648}'
    } else if c == 0x0626 || c == 0x0649 {
        '\u{064A}'
    } else if c == 0x0629 {
        '\u{0647}'
    } else {
        ch
    }
}

/// Neither a diacritic nor the letter stretcher (tatweel).
pub open spec fn survives_strip(ch: char) -> bool {
    ch != '\u{0640}' && !is_arabic_diacritic_spec(ch)
}

/// A text without diacritics and stretchers.
pub open spec fn stripped(s: Seq<char>) -> Seq<char>
    decreases s.len(),
{
    if s.len() == 0 {
        Seq::empty()
    } else if survives_strip(s.last()) {
        stripped(s.drop_last()).push(s.last())
    } else {
        stripped(s.drop_last())
    }
}

/// Stripping a stripped text changes nothing.
pub proof fn law_stripping_twice_changes_nothing(s: Seq<char>)
    ensures
        stripped(stripped(s)) == stripped(s),
    decreases s.len(),
{
    if s.len() > 0 {
        law_stripping_twice_changes_nothing(s.drop_last());
        if survives_strip(s.last()) {
            assert(stripped(s).drop_last() =~= stripped(s.drop_last()));
        }
    }
}

pub fn strip_arabic_diacritics(text: &str) -> (r: String)
    ensures
        r@ == stripped(text@),
{
    let cs = chars::to_chars(text);
    let mut out = String::new();
    let mut i: usize = 0;
    while i < cs.len()
        invariant
            i <= cs@.len(),
            out@ == stripped(cs@.take(i as int)),
        decreases cs@.len() - i,
    {
        assert(cs@.take(i as int + 1).drop_last() =~= cs@.take(i as int));
        if cs[i] != '\u{0640}' && !is_arabic_diacritic(cs[i]) {
            out.push(cs[i]);
        }
        i = i + 1;
    }
    assert(cs@.take(cs@.len() as int) =~= cs@);
    out
}

/// Letters, marks and decimal digits.
pub open spec fn keep_general_category_spec(cat: Category) -> bool {
    !(cat is Other)
}

pub fn keep_general_category(cat: Category) -> (r: bool)
    ensures
        r == keep_general_category_spec(cat),
{
    !matches!(cat, Category::Other)
}

/// A letter, a mark or a digit, Arabic-Indic digits among them.
pub open spec fn is_kept(ch: char) -> bool {
    keep_general_category_spec(category_of(ch)) || '\u{0660}' <= ch <= '\u{0669}'
}

fn keeps(ch: char) -> (r: bool)
    ensures
        r == is_kept(ch),
{
    keep_general_category(general_category(ch)) || ('\u{0660}' <= ch && ch <= '\u{0669}')
}

/// Whether the last character of a text that is white space or kept is white
/// space.
pub open spec fn ends_in_space(s: Seq<char>) -> bool
    decreases s.len(),
{
    if s.len() == 0 {
        false
    } else {
        let c = translate_arabic_spec(s.last());
        if chars::is_space_spec(c) {
            true
        } else if is_kept(c) {
            false
        } else {
            ends_in_space(s.drop_last())
        }
    }
}

/// The kept characters in their basic form, with one space for each run of
/// white space.
pub open spec fn kept_chars(s: Seq<char>) -> Seq<char>
    decreases s.len(),
{
    if s.len() == 0 {
        Seq::empty()
    } else {
        let before = kept_chars(s.drop_last());
        let c = translate_arabic_spec(s.last());
        if chars::is_space_spec(c) {
            if ends_in_space(s.drop_last()) {
                before
            } else {
                before.push(' ')
            }
        } else if is_kept(c) {
            before.push(c)
        } else {
            before
        }
    }
}

/// The normal form of a text.
pub open spec fn normalized(s: Seq<char>) -> Seq<char> {
    chars::trimmed(kept_chars(stripped(s)))
}

pub fn normalize_arabic(text: &str) -> (r: String)
    ensures
        r@ == normalized(text@),
{
    let plain = strip_arabic_diacritics(text);
    let cs = chars::to_chars(plain.as_str());
    let mut kept = String::new();
    let mut prev_space: bool = false;
    let mut i: usize = 0;
    while i < cs.len()
        invariant
            i <= cs@.len(),
            kept@ == kept_chars(cs@.take(i as int)),
            prev_space == ends_in_space(cs@.take(i as int)),
        decreases cs@.len() - i,
    {
        assert(cs@.take(i as int + 1).drop_last() =~= cs@.take(i as int));
        let ch: char = translate_arabic(cs[i]);
        if chars::is_space(ch) {
            if !prev_space {
                kept.push(' ');
            }
            prev_space = true;
        } else if keeps(ch) {
            kept.push(ch);
            prev_space = false;
        }
        i = i + 1;
    }
    assert(cs@.take(cs@.len() as int) =~= cs@);
    chars::trim(kept.as_str())
}

/// A space, or a kept character in its basic form.
pub open spec fn is_normal_char(c: char) -> bool {
    c == ' ' || (!chars::is_space_spec(c) && is_kept(c) && translate_arabic_spec(c) == c && survives_strip(c))
}

/// Normal characters with single spaces between them.
pub open spec fn is_normal(s: Seq<char>) -> bool {
    &&& forall|i: int| 0 <= i < s.len() ==> is_normal_char(#[trigger] s[i])
    &&& forall|i: int, j: int| 0 <= i < s.len() && j == i + 1 && j < s.len() && #[trigger] s[i] == ' ' ==> #[trigger] s[j] != ' '
}

proof fn lemma_stripped_survives(s: Seq<char>)
    ensures
        forall|i: int| 0 <= i < stripped(s).len() ==> survives_strip(#[trigger] stripped(s)[i]),
    decreases s.len(),
{
    if s.len() > 0 {
        lemma_stripped_survives(s.drop_last());
        let before = stripped(s.drop_last());
        assert forall|i: int| 0 <= i < stripped(s).len() implies survives_strip(#[trigger] stripped(s)[i]) by {
            if i < before.len() {
                assert(stripped(s)[i] == before[i]);
            }
        }
    }
}

proof fn lemma_kept_is_normal(s: Seq<char>)
    requires
        forall|i: int| 0 <= i < s.len() ==> survives_strip(#[trigger] s[i]),
    ensures
        is_normal(kept_chars(s)),
        ends_in_space(s) <==> kept_chars(s).len() > 0 && kept_chars(s).last() == ' ',
    decreases s.len(),
{
    if s.len() > 0 {
        let d = s.drop_last();
        assert forall|i: int| 0 <= i < d.len() implies survives_strip(#[trigger] d[i]) by {
            assert(d[i] == s[i]);
        }
        lemma_kept_is_normal(d);
        assert(survives_strip(s[s.len() - 1]));
        let before = kept_chars(d);
        let now = kept_chars(s);
        let c = translate_arabic_spec(s.last());
        assert(survives_strip(c));
        assert(translate_arabic_spec(c) == c);
        assert(chars::is_space_spec(' '));
        assert forall|i: int| 0 <= i < now.len() implies is_normal_char(#[trigger] now[i]) by {
            if i < before.len() {
                assert(now[i] == before[i]);
            }
        }
        assert forall|i: int, j: int|
            0 <= i < now.len() && j == i + 1 && j < now.len() && #[trigger] now[i] == ' ' implies #[trigger] now[j]
            != ' ' by {
            if j < before.len() {
                assert(now[i] == before[i] && now[j] == before[j]);
            } else {
                assert(before.last() == now[i]);
            }
        }
    }
}

proof fn lemma_normal_stays(s: Seq<char>)
    requires
        is_normal(s),
    ensures
        stripped(s) == s,
        kept_chars(s) == s,
        ends_in_space(s) <==> s.len() > 0 && s.last() == ' ',
    decreases s.len(),
{
    if s.len() > 0 {
        let d = s.drop_last();
        assert forall|i: int| 0 <= i < d.len() implies is_normal_char(#[trigger] d[i]) by {
            assert(d[i] == s[i]);
        }
        assert forall|i: int, j: int|
            0 <= i < d.len() && j == i + 1 && j < d.len() && #[trigger] d[i] == ' ' implies #[trigger] d[j]
            != ' ' by {
            assert(d[i] == s[i] && d[j] == s[j]);
        }
        lemma_normal_stays(d);
        assert(is_normal_char(s[s.len() - 1]));
        assert(translate_arabic_spec(' ') == ' ');
        assert(survives_strip(' '));
        assert(chars::is_space_spec(' '));
        assert(s =~= d.push(s.last()));
        if s.last() == ' ' && d.len() > 0 {
            assert(s[d.len() - 1] == d.last());
            assert(s[s.len() - 1] == ' ');
        }
    } else {
        assert(stripped(s) =~= s);
        assert(kept_chars(s) =~= s);
    }
}

/// A normal form holds normal characters with single spaces between them, and
/// its own normal form is itself.
pub proof fn law_normal_form_is_stable(s: Seq<char>)
    ensures
        is_normal(normalized(s)),
        normalized(normalized(s)) == normalized(s),
{
    let k = kept_chars(stripped(s));
    lemma_stripped_survives(s);
    lemma_kept_is_normal(stripped(s));
    chars::lemma_trimmed_part(k);
    let n = normalized(s);
    let (a, b) = choose|a: int, b: int| 0 <= a <= b <= k.len() && chars::trimmed(k) == #[trigger] k.subrange(a, b);
    assert forall|i: int| 0 <= i < n.len() implies is_normal_char(#[trigger] n[i]) by {
        assert(n[i] == k[a + i]);
    }
    assert forall|i: int, j: int|
        0 <= i < n.len() && j == i + 1 && j < n.len() && #[trigger] n[i] == ' ' implies #[trigger] n[j] != ' ' by {
        assert(n[i] == k[a + i] && n[j] == k[a + j]);
    }
    lemma_normal_stays(n);
    chars::lemma_trimmed_stays(n);
}

/// An underscore, a letter, a mark or a digit.
pub open spec fn is_word_char_spec(ch: char) -> bool {
    ch == '_' || is_kept(ch)
}

pub fn is_word_char(ch: char) -> (r: bool)
    ensures
        r == is_word_char_spec(ch),
{
    ch == '_' || keeps(ch)
}

/// `r` is what remains of `t` when everything in front of its first word
/// character and behind its last one is cut off; a text without word
/// characters stays as it is.
pub open spec fn is_cleaned(t: Seq<char>, r: Seq<char>) -> bool {
    if forall|i: int| 0 <= i < t.len() ==> !is_word_char_spec(#[trigger] t[i]) {
        r == t
    } else {
        exists|a: int, b: int|
            {
                &&& 0 <= a < b <= t.len()
                &&& r == #[trigger] t.subrange(a, b)
                &&& is_word_char_spec(t[a])
                &&& is_word_char_spec(t[b - 1])
                &&& forall|i: int| 0 <= i < a ==> !is_word_char_spec(#[trigger] t[i])
                &&& forall|i: int| b <= i < t.len() ==> !is_word_char_spec(#[trigger] t[i])
            }
    }
}

/// The cleaned form of a text.
pub open spec fn cleaned(t: Seq<char>) -> Seq<char> {
    choose|r: Seq<char>| is_cleaned(t, r)
}

proof fn lemma_cleaned(t: Seq<char>, r: Seq<char>)
    requires
        is_cleaned(t, r),
    ensures
        r == cleaned(t),
{
    let q = cleaned(t);
    assert(is_cleaned(t, q));
    if forall|i: int| 0 <= i < t.len() ==> !is_word_char_spec(#[trigger] t[i]) {
    } else {
        let (a, b) = choose|a: int, b: int|
            {
                &&& 0 <= a < b <= t.len()
                &&& r == #[trigger] t.subrange(a, b)
                &&& is_word_char_spec(t[a])
                &&& is_word_char_spec(t[b - 1])
                &&& forall|i: int| 0 <= i < a ==> !is_word_char_spec(#[trigger] t[i])
                &&& forall|i: int| b <= i < t.len() ==> !is_word_char_spec(#[trigger] t[i])
            };
        let (c, d) = choose|a: int, b: int|
            {
                &&& 0 <= a < b <= t.len()
                &&& q == #[trigger] t.subrange(a, b)
                &&& is_word_char_spec(t[a])
                &&& is_word_char_spec(t[b - 1])
                &&& forall|i: int| 0 <= i < a ==> !is_word_char_spec(#[trigger] t[i])
                &&& forall|i: int| b <= i < t.len() ==> !is_word_char_spec(#[trigger] t[i])
            };
        assert(a == c);
        assert(b == d);
    }
}

/// The word characters of `t` end in front of `b`, and the first one is at `a`.
spec fn word_bounds(t: Seq<char>, a: int, b: int) -> bool {
    &&& 0 <= a < b <= t.len()
    &&& is_word_char_spec(t[a])
    &&& is_word_char_spec(t[b - 1])
    &&& forall|i: int| 0 <= i < a ==> !is_word_char_spec(#[trigger] t[i])
    &&& forall|i: int| b <= i < t.len() ==> !is_word_char_spec(#[trigger] t[i])
}

proof fn lemma_word_bounds(t: Seq<char>)
    ensures
        (forall|i: int| 0 <= i < t.len() ==> !is_word_char_spec(#[trigger] t[i])) || exists|a: int, b: int|
            word_bounds(t, a, b),
    decreases t.len(),
{
    if t.len() > 0 {
        let p = t.drop_last();
        let n = t.len() as int;
        lemma_word_bounds(p);
        if forall|i: int| 0 <= i < p.len() ==> !is_word_char_spec(#[trigger] p[i]) {
            assert forall|i: int| 0 <= i < n - 1 implies !is_word_char_spec(#[trigger] t[i]) by {
                assert(p[i] == t[i]);
            }
            if is_word_char_spec(t[n - 1]) {
                assert(word_bounds(t, n - 1, n));
            }
        } else {
            let (a, b) = choose|a: int, b: int| word_bounds(p, a, b);
            assert forall|i: int| 0 <= i < a implies !is_word_char_spec(#[trigger] t[i]) by {
                assert(p[i] == t[i]);
            }
            if is_word_char_spec(t[n - 1]) {
                assert(word_bounds(t, a, n));
            } else {
                assert forall|i: int| b <= i < n implies !is_word_char_spec(#[trigger] t[i]) by {
                    if i < n - 1 {
                        assert(p[i] == t[i]);
                    }
                }
                assert(word_bounds(t, a, b));
            }
        }
    }
}

/// Cleaning a cleaned text changes nothing.
pub proof fn law_cleaning_twice_changes_nothing(t: Seq<char>)
    ensures
        cleaned(cleaned(t)) == cleaned(t),
{
    lemma_word_bounds(t);
    if forall|i: int| 0 <= i < t.len() ==> !is_word_char_spec(#[trigger] t[i]) {
        lemma_cleaned(t, t);
    } else {
        let (a, b) = choose|a: int, b: int| word_bounds(t, a, b);
        let r = t.subrange(a, b);
        assert(is_cleaned(t, r));
        lemma_cleaned(t, r);
        assert(is_word_char_spec(r[0]));
        assert(is_word_char_spec(r[r.len() - 1]));
        assert(r == r.subrange(0, r.len() as int));
        assert(is_cleaned(r, r));
        lemma_cleaned(r, r);
    }
}

pub fn clean_token(token: &str) -> (r: String)
    ensures
        r@ == cleaned(token@),
        is_cleaned(token@, r@),
{
    let cs = chars::to_chars(token);
    let mut start: usize = 0;
    let mut end: usize = 0;
    let mut i: usize = 0;
    while i < cs.len()
        invariant
            i <= cs@.len(),
            start <= end <= i,
            start < end ==> is_word_char_spec(cs@[start as int]) && is_word_char_spec(cs@[end - 1]),
            start == end ==> end == 0 && forall|k: int| 0 <= k < i ==> !is_word_char_spec(#[trigger] cs@[k]),
            forall|k: int| 0 <= k < start ==> !is_word_char_spec(#[trigger] cs@[k]),
            forall|k: int| end <= k < i ==> !is_word_char_spec(#[trigger] cs@[k]),
        decreases cs@.len() - i,
    {
        if is_word_char(cs[i]) {
            if start == end {
                start = i;
            }
            end = i + 1;
        }
        i = i + 1;
    }
    if start < end {
        let r = chars::from_chars(&cs, start, end);
        proof {
            assert(is_word_char_spec(token@[start as int]));
            assert(is_cleaned(token@, r@));
            lemma_cleaned(token@, r@);
        }
        r
    } else {
        proof {
            lemma_cleaned(token@, token@);
        }
        token.to_owned()
    }
}

/// How many characters at the front equal the first one.
pub open spec fn run_len(s: Seq<char>) -> nat
    decreases s.len(),
{
    if s.len() == 0 {
        0
    } else if s.len() == 1 || s[1] != s[0] {
        1
    } else {
        1 + run_len(s.skip(1))
    }
}

/// A run of three or more equal characters becomes one character; shorter runs
/// stay.
pub open spec fn collapsed(s: Seq<char>) -> Seq<char>
    decreases s.len(),
    via collapsed_shrinks
{
    if s.len() == 0 {
        Seq::empty()
    } else {
        let n = run_len(s) as int;
        (if n >= 3 {
            s.take(1)
        } else {
            s.take(n)
        }) + collapsed(s.skip(n))
    }
}

#[via_fn]
proof fn collapsed_shrinks(s: Seq<char>) {
    lemma_run_len(s);
}

proof fn lemma_run_len(s: Seq<char>)
    ensures
        run_len(s) <= s.len(),
        s.len() > 0 ==> run_len(s) >= 1,
        forall|i: int| 0 <= i < run_len(s) ==> #[trigger] s[i] == s[0],
        run_len(s) < s.len() ==> s[run_len(s) as int] != s[0],
    decreases s.len(),
{
    if s.len() > 1 && s[1] == s[0] {
        let t = s.skip(1);
        lemma_run_len(t);
        assert forall|i: int| 0 <= i < run_len(s) implies #[trigger] s[i] == s[0] by {
            if i > 0 {
                assert(s[i] == t[i - 1]);
            }
        }
        if run_len(s) < s.len() {
            assert(s[run_len(s) as int] == t[run_len(t) as int]);
        }
    }
}

fn collapse_runs(s: &str) -> (r: String)
    ensures
        r@ == collapsed(s@),
{
    let cs = chars::to_chars(s);
    let mut out = String::new();
    let mut i: usize = 0;
    assert(cs@.skip(0) =~= cs@);
    assert(out@ + collapsed(cs@) =~= collapsed(cs@));
    while i < cs.len()
        invariant
            i <= cs@.len(),
            out@ + collapsed(cs@.skip(i as int)) == collapsed(cs@),
        decreases cs@.len() - i,
    {
        let ghost rest = cs@.skip(i as int);
        let ghost n = run_len(rest);
        proof {
            lemma_run_len(rest);
        }
        let start: usize = i;
        let first: char = cs[i];
        while i < cs.len()
            invariant
                start <= i <= cs@.len(),
                rest == cs@.skip(start as int),
                first == rest[0],
                n == run_len(rest),
                n <= rest.len(),
                i - start <= n,
                forall|k: int| 0 <= k < n ==> #[trigger] rest[k] == rest[0],
                n < rest.len() ==> rest[n as int] != rest[0],
            ensures
                i - start == n,
                i <= cs@.len(),
            decreases cs@.len() - i,
        {
            assert(rest[i - start] == cs@[i as int]);
            if cs[i] != first {
                break;
            }
            i = i + 1;
        }
        let ghost before = out@;
        out.push(first);
        if i - start == 2 {
            out.push(first);
        }
        proof {
            assert(rest.skip(n as int) =~= cs@.skip(i as int));
            let part = if n >= 3 {
                rest.take(1)
            } else {
                rest.take(n as int)
            };
            assert(n == 2 ==> rest[1] == rest[0]);
            assert(out@ =~= before + part);
            assert(out@ + collapsed(cs@.skip(i as int)) =~= before + (part + collapsed(rest.skip(n as int))));
        }
    }
    assert(out@ + collapsed(cs@.skip(i as int)) =~= out@);
    out
}

/// No character stands three times in a row.
pub open spec fn no_long_run(s: Seq<char>) -> bool {
    forall|i: int| 0 <= i && i + 2 < s.len() ==> !(#[trigger] s[i] == s[i + 1] && s[i] == s[i + 2])
}

proof fn lemma_collapsed_first(s: Seq<char>)
    requires
        s.len() > 0,
    ensures
        collapsed(s).len() > 0,
        collapsed(s)[0] == s[0],
{
    lemma_run_len(s);
}

/// Stretched letters are collapsed: no character is left three times in a row. A
/// text without such runs stays as it is, doubled letters and all.
pub proof fn law_stretched_letters_collapse(s: Seq<char>)
    ensures
        no_long_run(collapsed(s)),
        no_long_run(s) ==> collapsed(s) == s,
    decreases s.len(),
{
    if s.len() > 0 {
        lemma_run_len(s);
        let n = run_len(s) as int;
        let rest = s.skip(n);
        law_stretched_letters_collapse(rest);
        let head = if n >= 3 {
            s.take(1)
        } else {
            s.take(n)
        };
        let c = collapsed(s);
        assert(c =~= head + collapsed(rest));
        if rest.len() > 0 {
            lemma_collapsed_first(rest);
            assert(rest[0] == s[n]);
            assert(s[n] != s[0]);
        }
        assert forall|i: int| 0 <= i && i + 2 < c.len() implies !(#[trigger] c[i] == c[i + 1] && c[i] == c[i + 2]) by {
            let h = head.len() as int;
            if i >= h {
                assert(c[i] == collapsed(rest)[i - h]);
                assert(c[i + 1] == collapsed(rest)[i - h + 1]);
                assert(c[i + 2] == collapsed(rest)[i - h + 2]);
            } else {
                assert(c[i] == s[i]);
                assert(s[i] == s[0]);
                assert(c[h] == collapsed(rest)[0]);
            }
        }
        if no_long_run(s) {
            if n >= 3 {
                assert(s[0] == s[1] && s[0] == s[2]);
                assert(false);
            }
            assert forall|i: int| 0 <= i && i + 2 < rest.len() implies !(#[trigger] rest[i] == rest[i + 1] && rest[i]
                == rest[i + 2]) by {
                assert(rest[i] == s[i + n]);
                assert(rest[i + 1] == s[i + n + 1]);
                assert(rest[i + 2] == s[i + n + 2]);
            }
            assert(collapsed(s) =~= s);
        }
    }
}

/// The normal form of a word: cleaned, normalized, without spaces, and with
/// stretched letters collapsed.
pub open spec fn token_form(s: Seq<char>) -> Seq<char> {
    let t = cleaned(chars::trimmed(s));
    if t.len() == 0 {
        Seq::empty()
    } else {
        chars::trimmed(collapsed(chars::without(normalized(t), ' ')))
    }
}

/// Normal characters but spaces.
pub open spec fn is_unspaced(s: Seq<char>) -> bool {
    forall|i: int| 0 <= i < s.len() ==> is_normal_char(#[trigger] s[i]) && s[i] != ' '
}

proof fn lemma_without_spaces(s: Seq<char>)
    requires
        forall|i: int| 0 <= i < s.len() ==> is_normal_char(#[trigger] s[i]),
    ensures
        is_unspaced(chars::without(s, ' ')),
        is_unspaced(s) ==> chars::without(s, ' ') == s,
    decreases s.len(),
{
    let w = chars::without(s, ' ');
    if s.len() > 0 {
        let d = s.drop_last();
        assert forall|i: int| 0 <= i < d.len() implies is_normal_char(#[trigger] d[i]) by {
            assert(d[i] == s[i]);
        }
        lemma_without_spaces(d);
        let before = chars::without(d, ' ');
        assert(is_normal_char(s[s.len() - 1]));
        assert forall|i: int| 0 <= i < w.len() implies is_normal_char(#[trigger] w[i]) && w[i] != ' ' by {
            if i < before.len() {
                assert(w[i] == before[i]);
            }
        }
        if is_unspaced(s) {
            assert forall|i: int| 0 <= i < d.len() implies is_normal_char(#[trigger] d[i]) && d[i] != ' ' by {
                assert(d[i] == s[i]);
            }
            assert(s[s.len() - 1] != ' ');
            assert(w =~= s);
        }
    } else {
        assert(w =~= s);
    }
}

proof fn lemma_collapsed_unspaced(s: Seq<char>)
    requires
        is_unspaced(s),
    ensures
        is_unspaced(collapsed(s)),
    decreases s.len(),
{
    if s.len() > 0 {
        lemma_run_len(s);
        let n = run_len(s) as int;
        let rest = s.skip(n);
        assert forall|i: int| 0 <= i < rest.len() implies is_normal_char(#[trigger] rest[i]) && rest[i] != ' ' by {
            assert(rest[i] == s[n + i]);
        }
        lemma_collapsed_unspaced(rest);
        let c = collapsed(s);
        let h = c.len() - collapsed(rest).len();
        assert forall|i: int| 0 <= i < c.len() implies is_normal_char(#[trigger] c[i]) && c[i] != ' ' by {
            if i < h {
                assert(c[i] == s[i]);
            } else {
                assert(c[i] == collapsed(rest)[i - h]);
            }
        }
    }
}

proof fn lemma_unspaced_stays(s: Seq<char>)
    requires
        is_unspaced(s),
    ensures
        chars::trimmed(s) == s,
        cleaned(s) == s,
        normalized(s) == s,
        chars::without(s, ' ') == s,
{
    if s.len() > 0 {
        assert(is_normal_char(s[0]) && s[0] != ' ');
        assert(is_normal_char(s[s.len() - 1]) && s[s.len() - 1] != ' ');
        assert(is_word_char_spec(s[0]));
        assert(s == s.subrange(0, s.len() as int));
    }
    assert(is_cleaned(s, s));
    lemma_cleaned(s, s);
    chars::lemma_trimmed_stays(s);
    lemma_normal_stays(s);
    lemma_without_spaces(s);
}

/// The normal form of a word holds normal characters without spaces, none of them
/// three times in a row, and its own normal form is itself.
pub proof fn law_token_form_is_stable(s: Seq<char>)
    ensures
        is_unspaced(token_form(s)),
        no_long_run(token_form(s)),
        token_form(token_form(s)) == token_form(s),
{
    let t = cleaned(chars::trimmed(s));
    let u = token_form(s);
    if t.len() > 0 {
        let n = normalized(t);
        let w = chars::without(n, ' ');
        law_normal_form_is_stable(t);
        lemma_without_spaces(n);
        lemma_collapsed_unspaced(w);
        law_stretched_letters_collapse(w);
        lemma_unspaced_stays(collapsed(w));
    }
    lemma_unspaced_stays(u);
    law_stretched_letters_collapse(u);
}

pub fn normalize_token(token: &str) -> (r: String)
    ensures
        r@ == token_form(token@),
{
    let t = clean_token(chars::trim(token).as_str());
    if is_blank(t.as_str()) {
        return String::new();
    }
    let simplified = chars::remove_char(normalize_arabic(t.as_str()).as_str(), ' ');
    chars::trim(collapse_runs(simplified.as_str()).as_str())
}

/// Whether a text holds no character.
pub fn is_blank(s: &str) -> (r: bool)
    ensures
        r == (s@.len() == 0),
{
    s.unicode_len() == 0
}

// ---------------------------------------------------------------------------
// Similarity of words

/// The characters `s[i..i + n]` packed into a number, 21 bits each.
pub open spec fn gram_key(s: Seq<char>, i: int, n: nat) -> u64
    decreases n,
{
    if n == 0 {
        0
    } else {
        (gram_key(s, i, (n - 1) as nat) << 21u64) | (s[i + n - 1] as u64)
    }
}

/// The packed runs of `n` characters that occur in `s`.
pub open spec fn gram_keys(s: Seq<char>, n: nat) -> Set<u64> {
    Set::new(|k: u64| exists|i: int| 0 <= i <= s.len() - n && k == #[trigger] gram_key(s, i, n))
}

/// The form of a word whose runs of characters are compared.
pub open spec fn compact(s: Seq<char>) -> Seq<char> {
    chars::without(normalized(s), ' ')
}

/// How many packed runs of `n` characters the words share, and how many they
/// have together; `None` where one of them is shorter than `n`.
pub open spec fn overlap_of(a: Seq<char>, b: Seq<char>, n: nat) -> Option<(nat, nat)> {
    let p = compact(a);
    let q = compact(b);
    if p.len() < n || q.len() < n {
        None
    } else {
        Some(
            (
                gram_keys(p, n).intersect(gram_keys(q, n)).len(),
                gram_keys(p, n).union(gram_keys(q, n)).len(),
            ),
        )
    }
}

/// Likeness does not depend on the order of the words. What they share is no more
/// than what they have together, and all of it where they have the same form.
pub proof fn law_likeness_is_symmetric(a: Seq<char>, b: Seq<char>, n: nat)
    ensures
        overlap_of(a, b, n) == overlap_of(b, a, n),
        overlap_of(a, b, n) matches Some((shared, all)) ==> shared <= all,
        compact(a) == compact(b) ==> (overlap_of(a, b, n) matches Some((shared, all)) ==> shared == all),
{
    let p = compact(a);
    let q = compact(b);
    let x = gram_keys(p, n);
    let y = gram_keys(q, n);
    assert(x.intersect(y) =~= y.intersect(x));
    assert(x.union(y) =~= y.union(x));
    if p.len() >= n && q.len() >= n {
        lemma_keys_len(p, p.len() - n + 1, n);
        lemma_keys_len(q, q.len() - n + 1, n);
        assert(keys_before(p, p.len() - n + 1, n) =~= x);
        assert(keys_before(q, q.len() - n + 1, n) =~= y);
        vstd::set_lib::lemma_len_subset(x.intersect(y), x.union(y));
        assert(x == y ==> x.intersect(y) =~= x.union(y));
    }
}

/// The runs of `n` characters that occur in `s`.
pub open spec fn windows(s: Seq<char>, n: nat) -> Set<Seq<char>> {
    Set::new(|w: Seq<char>| exists|i: int| 0 <= i <= s.len() - n && w == #[trigger] s.subrange(i, i + n))
}

proof fn lemma_char_fits(c: char)
    ensures
        c as u64 <= 0x10ffff,
        c as u64 == c as int,
{
}

/// Up to three characters are told apart by their packed form.
proof fn lemma_keys_differ(v: Seq<char>, w: Seq<char>, n: nat)
    requires
        1 <= n <= 3,
        v.len() == n,
        w.len() == n,
        gram_key(v, 0, n) == gram_key(w, 0, n),
    ensures
        v == w,
{
    reveal_with_fuel(gram_key, 4);
    assert forall|i: int| 0 <= i < n implies (#[trigger] v[i]) as u64 <= 0x10ffff && w[i] as u64 <= 0x10ffff
        && v[i] as u64 == v[i] as int && w[i] as u64 == w[i] as int by {
        lemma_char_fits(v[i]);
        lemma_char_fits(w[i]);
    }
    let a = v[0] as u64;
    let x = w[0] as u64;
    if n == 1 {
        assert(a == x) by (bit_vector)
            requires
                (0u64 << 21u64) | a == (0u64 << 21u64) | x,
        ;
    } else if n == 2 {
        let b = v[1] as u64;
        let y = w[1] as u64;
        assert(a == x && b == y) by (bit_vector)
            requires
                (((0u64 << 21u64) | a) << 21u64) | b == (((0u64 << 21u64) | x) << 21u64) | y,
                a <= 0x10ffff,
                b <= 0x10ffff,
                x <= 0x10ffff,
                y <= 0x10ffff,
        ;
    } else {
        let b = v[1] as u64;
        let y = w[1] as u64;
        let c = v[2] as u64;
        let z = w[2] as u64;
        assert(a == x && b == y && c == z) by (bit_vector)
            requires
                (((((0u64 << 21u64) | a) << 21u64) | b) << 21u64) | c == (((((0u64 << 21u64) | x) << 21u64) | y)
                    << 21u64) | z,
                a <= 0x10ffff,
                b <= 0x10ffff,
                c <= 0x10ffff,
                x <= 0x10ffff,
                y <= 0x10ffff,
                z <= 0x10ffff,
        ;
    }
    assert forall|i: int| 0 <= i < n implies v[i] == w[i] by {
        assert(v[i] as int == w[i] as int);
    }
    assert(v =~= w);
}

proof fn lemma_key_of_window(s: Seq<char>, i: int, n: nat, k: nat)
    requires
        0 <= i,
        i + n <= s.len(),
        k <= n,
    ensures
        gram_key(s, i, k) == gram_key(s.subrange(i, i + n), 0, k),
    decreases k,
{
    if k > 0 {
        lemma_key_of_window(s, i, n, (k - 1) as nat);
    }
}

/// The packed runs are those of the windows.
proof fn lemma_keys_of_windows(s: Seq<char>, n: nat, k: u64)
    ensures
        gram_keys(s, n).contains(k) <==> exists|w: Seq<char>|
            #[trigger] windows(s, n).contains(w) && gram_key(w, 0, n) == k,
{
    if gram_keys(s, n).contains(k) {
        let i = choose|i: int| 0 <= i <= s.len() - n && k == #[trigger] gram_key(s, i, n);
        lemma_key_of_window(s, i, n, n);
        assert(windows(s, n).contains(s.subrange(i, i + n)));
    }
    if exists|w: Seq<char>| #[trigger] windows(s, n).contains(w) && gram_key(w, 0, n) == k {
        let w = choose|w: Seq<char>| #[trigger] windows(s, n).contains(w) && gram_key(w, 0, n) == k;
        let i = choose|i: int| 0 <= i <= s.len() - n && w == #[trigger] s.subrange(i, i + n);
        lemma_key_of_window(s, i, n, n);
    }
}

proof fn lemma_windows_finite(s: Seq<char>, n: nat)
    requires
        n <= s.len(),
    ensures
        windows(s, n).finite(),
{
    let places = vstd::set_lib::set_int_range(0, s.len() - n + 1);
    let f = |i: int| s.subrange(i, i + n);
    vstd::set_lib::lemma_int_range(0, s.len() - n + 1);
    assert forall|w: Seq<char>| windows(s, n).contains(w) == #[trigger] places.map(f).contains(w) by {
        if windows(s, n).contains(w) {
            let i = choose|i: int| 0 <= i <= s.len() - n && w == #[trigger] s.subrange(i, i + n);
            assert(places.contains(i) && f(i) == w);
        }
        if places.map(f).contains(w) {
            let i = choose|i: int| places.contains(i) && f(i) == w;
            assert(w == s.subrange(i, i + n));
        }
    }
    assert(windows(s, n) =~= places.map(f));
    vstd::set_lib::lemma_map_size_bound(places, windows(s, n), f);
}

/// Runs of up to three characters are counted as what they are: what two words share
/// and what they have together are the runs themselves, each once.
pub proof fn law_likeness_counts_windows(a: Seq<char>, b: Seq<char>, n: nat)
    requires
        1 <= n <= 3,
    ensures
        overlap_of(a, b, n) == (if compact(a).len() < n || compact(b).len() < n {
            None
        } else {
            Some(
                (
                    windows(compact(a), n).intersect(windows(compact(b), n)).len(),
                    windows(compact(a), n).union(windows(compact(b), n)).len(),
                ),
            )
        }),
{
    let p = compact(a);
    let q = compact(b);
    if p.len() >= n && q.len() >= n {
        let f = |w: Seq<char>| gram_key(w, 0, n);
        let x = windows(p, n);
        let y = windows(q, n);
        lemma_windows_finite(p, n);
        lemma_windows_finite(q, n);
        assert forall|v: Seq<char>, w: Seq<char>|
            x.union(y).contains(v) && x.union(y).contains(w) && #[trigger] f(v) == #[trigger] f(w) implies v == w by {
            lemma_keys_differ(v, w, n);
        }
        assert forall|k: u64| gram_keys(p, n).contains(k) == x.map(f).contains(k) by {
            lemma_keys_of_windows(p, n, k);
        }
        assert forall|k: u64| gram_keys(q, n).contains(k) == y.map(f).contains(k) by {
            lemma_keys_of_windows(q, n, k);
        }
        assert(x.intersect(y).map(f) =~= gram_keys(p, n).intersect(gram_keys(q, n))) by {
            assert forall|k: u64| gram_keys(p, n).intersect(gram_keys(q, n)).contains(k) implies x.intersect(y).map(
                f,
            ).contains(k) by {
                let v = choose|v: Seq<char>| x.contains(v) && f(v) == k;
                let w = choose|w: Seq<char>| y.contains(w) && f(w) == k;
                assert(v == w);
                assert(x.intersect(y).contains(v));
            }
        }
        assert forall|k: u64| gram_keys(p, n).union(gram_keys(q, n)).contains(k) == #[trigger] x.union(y).map(
            f,
        ).contains(k) by {
            if x.map(f).contains(k) {
                let v = choose|v: Seq<char>| x.contains(v) && f(v) == k;
                assert(x.union(y).contains(v));
            }
            if y.map(f).contains(k) {
                let v = choose|v: Seq<char>| y.contains(v) && f(v) == k;
                assert(x.union(y).contains(v));
            }
            if x.union(y).map(f).contains(k) {
                let v = choose|v: Seq<char>| x.union(y).contains(v) && f(v) == k;
                assert(x.map(f).contains(k) || y.map(f).contains(k));
            }
        }
        assert(x.union(y).map(f) =~= gram_keys(p, n).union(gram_keys(q, n)));
        vstd::set_lib::lemma_map_size(x.intersect(y), gram_keys(p, n).intersect(gram_keys(q, n)), f);
        vstd::set_lib::lemma_map_size(x.union(y), gram_keys(p, n).union(gram_keys(q, n)), f);
    }
}

/// Where counts make shares, likeness lies between zero and one, and words of the same
/// form that are long enough are wholly alike.
pub proof fn law_likeness_is_a_share<S: Scalar>(a: Seq<char>, b: Seq<char>, n: nat)
    requires
        scalar::counts_make_shares::<S>(),
        scalar::small_numbers_are_ordered::<S>(),
    ensures
        scalar::is_share(ratio_of::<S>(overlap_of(a, b, n))),
        compact(a) == compact(b) && n <= compact(a).len() ==> ratio_of::<S>(overlap_of(a, b, n)).rank()
            == S::whole_spec(1).rank(),
{
    law_likeness_is_symmetric(a, b, n);
    assert(S::whole_spec(0).rank() == S::milli_spec(0).rank());
    assert(S::whole_spec(1).rank() == S::milli_spec(1_000).rank());
    match overlap_of(a, b, n) {
        None => {},
        Some((shared, all)) => {
            let x = gram_keys(compact(a), n).union(gram_keys(compact(b), n));
            let p = compact(a);
            assert(gram_keys(p, n).contains(gram_key(p, 0, n)));
            lemma_keys_len(p, p.len() - n + 1, n);
            lemma_keys_len(compact(b), compact(b).len() - n + 1, n);
            assert(keys_before(p, p.len() - n + 1, n) =~= gram_keys(p, n));
            assert(keys_before(compact(b), compact(b).len() - n + 1, n) =~= gram_keys(compact(b), n));
            assert(x.contains(gram_key(p, 0, n)));
            if x.len() == 0 {
                vstd::set_lib::lemma_set_empty_equivalency_len(x);
            }
            assert(all > 0);
        },
    }
}

fn key_at(cs: &[char], i: usize, n: usize) -> (k: u64)
    requires
        i + n <= cs@.len(),
    ensures
        k == gram_key(cs@, i as int, n as nat),
{
    let total: usize = cs.len();
    let mut key: u64 = 0;
    let mut j: usize = 0;
    while j < n
        invariant
            j <= n,
            i + n <= total == cs@.len(),
            key == gram_key(cs@, i as int, j as nat),
        decreases n - j,
    {
        key = (key << 21u64) | (cs[i + j] as u64);
        j = j + 1;
    }
    key
}

/// The packed runs among the first `i` positions.
spec fn keys_before(s: Seq<char>, i: int, n: nat) -> Set<u64> {
    Set::new(|k: u64| exists|j: int| 0 <= j < i && k == #[trigger] gram_key(s, j, n))
}

proof fn lemma_keys_step(s: Seq<char>, i: int, n: nat)
    requires
        0 <= i,
    ensures
        keys_before(s, i + 1, n) == keys_before(s, i, n).insert(gram_key(s, i, n)),
{
    let a = keys_before(s, i + 1, n);
    let b = keys_before(s, i, n).insert(gram_key(s, i, n));
    assert forall|k: u64| a.contains(k) == b.contains(k) by {
        if a.contains(k) {
            let j = choose|j: int| 0 <= j < i + 1 && k == #[trigger] gram_key(s, j, n);
            if j < i {
                assert(keys_before(s, i, n).contains(k));
            }
        }
        if b.contains(k) {
            if keys_before(s, i, n).contains(k) {
                let j = choose|j: int| 0 <= j < i && k == #[trigger] gram_key(s, j, n);
                assert(0 <= j < i + 1 && k == gram_key(s, j, n));
            }
        }
    }
    assert(a =~= b);
}

fn collect_keys(cs: &[char], n: usize) -> (r: HashSet<u64>)
    requires
        n <= cs@.len(),
        cs@.len() < usize::MAX,
    ensures
        r@ == gram_keys(cs@, n as nat),
        r@.finite(),
{
    broadcast use vstd::std_specs::hash::group_hash_axioms;

    let mut set: HashSet<u64> = HashSet::new();
    let mut i: usize = 0;
    assert(keys_before(cs@, 0, n as nat) =~= Set::<u64>::empty());
    while i <= cs.len() - n
        invariant
            n <= cs@.len(),
            cs@.len() < usize::MAX,
            i <= cs@.len() - n + 1,
            set@ == keys_before(cs@, i as int, n as nat),
            set@.finite(),
        decreases cs@.len() + 1 - i,
    {
        proof {
            lemma_keys_step(cs@, i as int, n as nat);
        }
        set.insert(key_at(cs, i, n));
        i = i + 1;
    }
    assert(keys_before(cs@, i as int, n as nat) =~= gram_keys(cs@, n as nat));
    set
}

/// Counts of the shared and of all packed runs of `n` characters.
pub fn ngram_overlap(a: &str, b: &str, n: usize) -> (r: Option<(usize, usize)>)
    requires
        a@.len() + b@.len() < usize::MAX,
    ensures
        r is Some <==> overlap_of(a@, b@, n as nat) is Some,
        r matches Some(p) ==> overlap_of(a@, b@, n as nat) == Some((p.0 as nat, p.1 as nat)) && p.1 > 0,
{
    broadcast use vstd::std_specs::hash::group_hash_axioms;

    proof {
        lemma_compact_len(a@);
        lemma_compact_len(b@);
    }
    let p = chars::to_chars(chars::remove_char(normalize_arabic(a).as_str(), ' ').as_str());
    let q = chars::to_chars(chars::remove_char(normalize_arabic(b).as_str(), ' ').as_str());
    if p.len() < n || q.len() < n {
        return None;
    }
    let q_keys = collect_keys(&q, n);
    let ghost all = gram_keys(p@, n as nat);
    let ghost other = q_keys@;
    let mut seen: HashSet<u64> = HashSet::new();
    let mut shared: usize = 0;
    let mut i: usize = 0;
    assert(keys_before(p@, 0, n as nat) =~= Set::<u64>::empty());
    assert(Set::<u64>::empty().intersect(other) =~= Set::<u64>::empty());
    while i <= p.len() - n
        invariant
            n <= p@.len(),
            p@.len() < usize::MAX,
            i <= p@.len() - n + 1,
            other == q_keys@,
            other.finite(),
            seen@ == keys_before(p@, i as int, n as nat),
            seen@.finite(),
            shared == seen@.intersect(other).len(),
            shared <= i,
        decreases p@.len() + 1 - i,
    {
        proof {
            lemma_keys_step(p@, i as int, n as nat);
        }
        let key: u64 = key_at(&p, i, n);
        let ghost before = seen@;
        let fresh: bool = seen.insert(key);
        if fresh && q_keys.contains(&key) {
            shared = shared + 1;
            assert(before.insert(key).intersect(other) =~= before.intersect(other).insert(key));
            assert(!before.intersect(other).contains(key));
        } else {
            assert(before.insert(key).intersect(other) =~= before.intersect(other));
        }
        i = i + 1;
    }
    assert(keys_before(p@, i as int, n as nat) =~= all);
    proof {
        vstd::set_lib::lemma_set_intersect_union_lens(all, other);
        vstd::set_lib::lemma_len_subset(all.intersect(other), other);
        let k = gram_key(p@, 0, n as nat);
        assert(all.contains(k));
        assert(all.union(other).contains(k));
        lemma_keys_len(p@, p@.len() - n + 1, n as nat);
        lemma_keys_len(q@, q@.len() - n + 1, n as nat);
        assert(keys_before(q@, q@.len() - n + 1, n as nat) =~= other);
        if n == 0 {
            assert(all.subset_of(set![0u64])) by {
                assert forall|k: u64| all.contains(k) implies k == 0 by {
                }
            }
            assert(other.subset_of(set![0u64])) by {
                assert forall|k: u64| other.contains(k) implies k == 0 by {
                    let j = choose|j: int| 0 <= j <= q@.len() - n && k == #[trigger] gram_key(q@, j, n as nat);
                }
            }
            vstd::set_lib::lemma_len_subset(all, set![0u64]);
            vstd::set_lib::lemma_len_subset(other, set![0u64]);
        }
        if all.union(other).len() == 0 {
            assert(all.union(other) =~= Set::<u64>::empty());
        }
    }
    let both: usize = seen.len() + (q_keys.len() - shared);
    Some((shared, both))
}

proof fn lemma_keys_len(s: Seq<char>, i: int, n: nat)
    requires
        0 <= i,
    ensures
        keys_before(s, i, n).finite(),
        keys_before(s, i, n).len() <= i,
    decreases i,
{
    if i == 0 {
        assert(keys_before(s, 0, n) =~= Set::<u64>::empty());
    } else {
        lemma_keys_len(s, i - 1, n);
        lemma_keys_step(s, i - 1, n);
    }
}

/// A compact form is no longer than the text.
pub proof fn lemma_compact_len(s: Seq<char>)
    ensures
        compact(s).len() <= normalized(s).len() <= s.len(),
{
    lemma_stripped_len(s);
    lemma_kept_len(stripped(s));
    lemma_trimmed_len(kept_chars(stripped(s)));
    lemma_without_len(normalized(s), ' ');
}

proof fn lemma_stripped_len(s: Seq<char>)
    ensures
        stripped(s).len() <= s.len(),
    decreases s.len(),
{
    if s.len() > 0 {
        lemma_stripped_len(s.drop_last());
    }
}

proof fn lemma_kept_len(s: Seq<char>)
    ensures
        kept_chars(s).len() <= s.len(),
    decreases s.len(),
{
    if s.len() > 0 {
        lemma_kept_len(s.drop_last());
    }
}

proof fn lemma_without_len(s: Seq<char>, c: char)
    ensures
        chars::without(s, c).len() <= s.len(),
    decreases s.len(),
{
    if s.len() > 0 {
        lemma_without_len(s.drop_last(), c);
    }
}

proof fn lemma_trim_start_len(s: Seq<char>)
    ensures
        chars::trim_start(s).len() <= s.len(),
    decreases s.len(),
{
    if s.len() > 0 && chars::is_space_spec(s[0]) {
        lemma_trim_start_len(s.skip(1));
    }
}

proof fn lemma_trim_end_len(s: Seq<char>)
    ensures
        chars::trim_end(s).len() <= s.len(),
    decreases s.len(),
{
    if s.len() > 0 && chars::is_space_spec(s.last()) {
        lemma_trim_end_len(s.drop_last());
    }
}

pub proof fn lemma_trimmed_len(s: Seq<char>)
    ensures
        chars::trimmed(s).len() <= s.len(),
{
    lemma_trim_start_len(s);
    lemma_trim_end_len(chars::trim_start(s));
}

/// The share that two counts make; zero where there are none.
pub open spec fn ratio_of<S: Scalar>(counts: Option<(nat, nat)>) -> S {
    match counts {
        None => S::whole_spec(0),
        Some(p) => S::whole_spec(p.0).over_spec(S::whole_spec(p.1)),
    }
}

/// The share of packed runs of `n` characters that two words have in common.
pub fn char_ngram_jaccard<S: Scalar>(a: &str, b: &str, n: usize) -> (r: S)
    requires
        a@.len() + b@.len() < usize::MAX,
    ensures
        r == ratio_of::<S>(overlap_of(a@, b@, n as nat)),
{
    match ngram_overlap(a, b, n) {
        None => S::whole(0),
        Some(p) => S::whole(p.0 as u64).over(S::whole(p.1 as u64)),
    }
}

// ---------------------------------------------------------------------------
// Hashes of passages

/// Bit `b` of `x`.
pub open spec fn bit(x: u64, b: u64) -> bool {
    (x >> b) & 1u64 == 1
}

/// Among the first `i` runs of three characters of `s`, how many have bit `b`
/// set in their digest.
pub open spec fn votes(s: Seq<char>, b: u64, i: nat) -> nat
    decreases i,
{
    if i == 0 {
        0
    } else {
        votes(s, b, (i - 1) as nat) + (if bit(blake2b_64(s.subrange(i - 1, i as int + 2)), b) {
            1nat
        } else {
            0nat
        })
    }
}

/// At least half of the runs of three characters of `s` have bit `b` set.
pub open spec fn elected(s: Seq<char>, b: u64) -> bool {
    2 * votes(s, b, (s.len() - 2) as nat) >= s.len() - 2
}

/// The elected ones among the lowest `k` bits.
pub open spec fn elected_bits(s: Seq<char>, k: u64) -> u64
    decreases k,
{
    if k == 0 {
        0
    } else {
        let rest = elected_bits(s, (k - 1) as u64);
        if elected(s, (k - 1) as u64) {
            rest | (1u64 << ((k - 1) as u64))
        } else {
            rest
        }
    }
}

/// The hash of a text in which each bit is elected by the digests of its runs
/// of three characters; zero for texts without such a run.
pub open spec fn simhash_of(text: Seq<char>) -> u64 {
    let s = compact(text);
    if s.len() < 3 {
        0
    } else {
        elected_bits(s, 64)
    }
}

fn count_votes(cs: &[char]) -> (v: Vec<usize>)
    requires
        cs@.len() >= 3,
    ensures
        v@.len() == 64,
        forall|b: int| 0 <= b < 64 ==> #[trigger] v@[b] == votes(cs@, b as u64, (cs@.len() - 2) as nat),
        forall|b: int| 0 <= b < 64 ==> #[trigger] v@[b] <= cs@.len() - 2,
{
    let total: usize = cs.len();
    let mut v: Vec<usize> = vec![0; 64];
    let mut i: usize = 0;
    while i < total - 2
        invariant
            3 <= total == cs@.len(),
            i <= total - 2,
            v@.len() == 64,
            forall|b: int| 0 <= b < 64 ==> #[trigger] v@[b] == votes(cs@, b as u64, i as nat),
            forall|b: int| 0 <= b < 64 ==> #[trigger] v@[b] <= i,
        decreases total - i,
    {
        let h: u64 = digest_64(chars::from_chars(cs, i, i + 3).as_str());
        let mut b: u64 = 0;
        while b < 64
            invariant
                3 <= total == cs@.len(),
                i < total - 2,
                b <= 64,
                v@.len() == 64,
                h == blake2b_64(cs@.subrange(i as int, i as int + 3)),
                forall|c: int| 0 <= c < b ==> #[trigger] v@[c] == votes(cs@, c as u64, (i + 1) as nat),
                forall|c: int| b <= c < 64 ==> #[trigger] v@[c] == votes(cs@, c as u64, i as nat),
                forall|c: int| 0 <= c < b ==> #[trigger] v@[c] <= i + 1,
                forall|c: int| b <= c < 64 ==> #[trigger] v@[c] <= i,
            decreases 64 - b,
        {
            let at: usize = b as usize;
            if (h >> b) & 1u64 == 1 {
                let seen: usize = v[at];
                v.set(at, seen + 1);
            }
            b = b + 1;
        }
        i = i + 1;
    }
    v
}

pub fn simhash64_from_char_ngrams(text: &str) -> (r: u64)
    ensures
        r == simhash_of(text@),
{
    let cs = chars::to_chars(chars::remove_char(normalize_arabic(text).as_str(), ' ').as_str());
    if cs.len() < 3 {
        return 0;
    }
    let v = count_votes(&cs);
    let runs: usize = cs.len() - 2;
    let mut out: u64 = 0;
    let mut b: u64 = 0;
    while b < 64
        invariant
            b <= 64,
            cs@.len() >= 3,
            runs == cs@.len() - 2,
            v@.len() == 64,
            forall|c: int| 0 <= c < 64 ==> #[trigger] v@[c] == votes(cs@, c as u64, (cs@.len() - 2) as nat),
            forall|c: int| 0 <= c < 64 ==> #[trigger] v@[c] <= runs,
            out == elected_bits(cs@, b),
        decreases 64 - b,
    {
        let yes: usize = v[b as usize];
        if yes >= runs - yes {
            out = out | (1u64 << b);
        }
        b = b + 1;
    }
    out
}

/// Bit `b` of a hash is set exactly when it is elected.
pub proof fn law_simhash_bit_is_elected(text: Seq<char>, b: u64)
    requires
        b < 64,
        compact(text).len() >= 3,
    ensures
        bit(simhash_of(text), b) == elected(compact(text), b),
{
    lemma_elected_bits(compact(text), 64, b);
}

proof fn lemma_elected_bits(s: Seq<char>, k: u64, b: u64)
    requires
        k <= 64,
        b < 64,
    ensures
        bit(elected_bits(s, k), b) == (b < k && elected(s, b)),
    decreases k,
{
    if k == 0 {
        assert((0u64 >> b) & 1u64 == 0) by (bit_vector);
    } else {
        let p = (k - 1) as u64;
        let rest = elected_bits(s, p);
        lemma_elected_bits(s, p, b);
        assert(((rest | (1u64 << p)) >> b) & 1u64 == (if b == p {
            1u64
        } else {
            (rest >> b) & 1u64
        })) by (bit_vector)
            requires
                p < 64,
                b < 64,
        ;
    }
}

/// In how many of their lowest `k` bits two numbers differ.
pub open spec fn differing_bits(a: u64, b: u64, k: nat) -> nat
    decreases k,
{
    if k == 0 {
        0
    } else {
        differing_bits(a, b, (k - 1) as nat) + (if bit(a, (k - 1) as u64) != bit(b, (k - 1) as u64) {
            1nat
        } else {
            0nat
        })
    }
}

/// In how many bits two hashes differ.
pub fn hamming64(a: u64, b: u64) -> (r: u32)
    ensures
        r == differing_bits(a, b, 64),
        r <= 64,
{
    let mut n: u32 = 0;
    let mut k: u64 = 0;
    while k < 64
        invariant
            k <= 64,
            n <= k,
            n == differing_bits(a, b, k as nat),
        decreases 64 - k,
    {
        if ((a >> k) & 1u64 == 1) != ((b >> k) & 1u64 == 1) {
            n = n + 1;
        }
        k = k + 1;
    }
    n
}

/// The distance of hashes does not depend on their order.
pub proof fn law_hamming_is_symmetric(a: u64, b: u64, k: nat)
    ensures
        differing_bits(a, b, k) == differing_bits(b, a, k),
    decreases k,
{
    if k > 0 {
        law_hamming_is_symmetric(a, b, (k - 1) as nat);
    }
}

/// Two hashes have distance zero exactly when they are equal.
pub proof fn law_hamming_zero_means_equal(a: u64, b: u64)
    ensures
        differing_bits(a, b, 64) == 0 <==> a == b,
{
    if a == b {
        lemma_no_difference(a, 64);
    }
    if differing_bits(a, b, 64) == 0 {
        lemma_equal_bits(a, b, 64);
        assert forall|i: u64| i < 64 implies #[trigger] bit(a, i) == bit(b, i) by {
        }
        let x = a ^ b;
        assert(x == 0) by {
            if x != 0 {
                lemma_some_bit(x);
                let i = choose|i: u64| i < 64 && #[trigger] bit(x, i);
                assert(((a ^ b) >> i) & 1u64 == 1 ==> (a >> i) & 1u64 != (b >> i) & 1u64) by (bit_vector);
                assert((a >> i) & 1u64 == 0 || (a >> i) & 1u64 == 1) by (bit_vector);
                assert((b >> i) & 1u64 == 0 || (b >> i) & 1u64 == 1) by (bit_vector);
                assert(bit(a, i) == bit(b, i));
            }
        }
        assert(a ^ b == 0 ==> a == b) by (bit_vector);
    }
}

proof fn lemma_no_difference(a: u64, k: nat)
    ensures
        differing_bits(a, a, k) == 0,
    decreases k,
{
    if k > 0 {
        lemma_no_difference(a, (k - 1) as nat);
    }
}

proof fn lemma_equal_bits(a: u64, b: u64, k: nat)
    requires
        k <= 64,
        differing_bits(a, b, k) == 0,
    ensures
        forall|i: u64| i < k ==> #[trigger] bit(a, i) == bit(b, i),
    decreases k,
{
    if k > 0 {
        lemma_equal_bits(a, b, (k - 1) as nat);
    }
}

proof fn lemma_some_bit(x: u64)
    requires
        x != 0,
    ensures
        exists|i: u64| i < 64 && #[trigger] bit(x, i),
{
    if forall|i: u64| i < 64 ==> !#[trigger] bit(x, i) {
        lemma_high_bits_clear(x, 0);
        assert(x >> 0u64 == x) by (bit_vector);
    }
}

proof fn lemma_high_bits_clear(x: u64, k: u64)
    requires
        k <= 63,
        forall|i: u64| i < 64 ==> !#[trigger] bit(x, i),
    ensures
        x >> k == 0,
    decreases 63 - k,
{
    assert(!bit(x, k));
    if k == 63 {
        assert((x >> 63u64) & 1u64 == x >> 63u64) by (bit_vector);
        assert(x >> 63u64 <= 1) by (bit_vector);
    } else {
        let up = (k + 1) as u64;
        lemma_high_bits_clear(x, up);
        assert(x >> k == 0) by (bit_vector)
            requires
                k < 63,
                up == k + 1,
                x >> up == 0,
                (x >> k) & 1u64 != 1,
        ;
    }
}

// ---------------------------------------------------------------------------
// Laws of the normal form

/// The marks above and below letters are dropped, and the stretching sign; letters and
/// digits stay.
pub proof fn law_marks_are_stripped(s: Seq<char>, c: char)
    ensures
        stripped(s) == s.filter(|x: char| x != '\u{0640}' && !is_arabic_diacritic_spec(x)),
        '\u{064B}' <= c <= '\u{065F}' || c == '\u{0670}' ==> is_arabic_diacritic_spec(c),
        '\u{0610}' <= c <= '\u{061A}' ==> is_arabic_diacritic_spec(c),
        '\u{06D6}' <= c <= '\u{06ED}' ==> (is_arabic_diacritic_spec(c) <==> c != '\u{06E5}' && c != '\u{06E6}' && c
            != '\u{06E9}'),
        c < '\u{0610}' || '\u{061B}' <= c <= '\u{064A}' || '\u{0660}' <= c <= '\u{066F}' || '\u{0671}' <= c <= '\u{06D5}'
            || '\u{06EE}' <= c ==> !is_arabic_diacritic_spec(c),
    decreases s.len(),
{
    reveal(Seq::filter);
    if s.len() > 0 {
        law_marks_are_stripped(s.drop_last(), c);
    }
}

/// Forms of one letter become that letter, all other characters stay; and a letter that
/// stands for others stays itself.
pub proof fn law_forms_become_one_letter(c: char)
    ensures
        translate_arabic_spec(c) == '\u{0627}' <==> c == '\u{0627}' || c == '\u{0622}' || c == '\u{0623}' || c
            == '\u{0625}' || c == '\u{0671}',
        translate_arabic_spec(c) == '\u{0648}' <==> c == '\u{0648}' || c == '\u{0624}',
        translate_arabic_spec(c) == '\u{064A}' <==> c == '\u{064A}' || c == '\u{0626}' || c == '\u{0649}',
        translate_arabic_spec(c) == '\u{0647}' <==> c == '\u{0647}' || c == '\u{0629}',
        translate_arabic_spec(c) == c || translate_arabic_spec(c) == '\u{0627}' || translate_arabic_spec(c) == '\u{0648}'
            || translate_arabic_spec(c) == '\u{064A}' || translate_arabic_spec(c) == '\u{0647}',
        translate_arabic_spec(translate_arabic_spec(c)) == translate_arabic_spec(c),
{
}

/// Letters, marks and decimal digits are kept.
pub proof fn law_letters_and_digits_are_kept(c: char)
    ensures
        category_of(c) != Category::Other ==> is_kept(c),
        '\u{0660}' <= c <= '\u{0669}' ==> is_kept(c),
        category_of(c) == Category::Other && !('\u{0660}' <= c <= '\u{0669}') ==> !is_kept(c),
        is_word_char_spec('_'),
        c != '_' ==> (is_word_char_spec(c) <==> is_kept(c)),
{
}

/// But for spaces, the normal form holds each kept character in its place.
pub proof fn law_kept_characters_stay_in_order(s: Seq<char>)
    ensures
        chars::without(kept_chars(s), ' ') == s.map_values(|c: char| translate_arabic_spec(c)).filter(
            |c: char| !chars::is_space_spec(c) && is_kept(c),
        ),
    decreases s.len(),
{
    reveal(Seq::filter);
    let f = |c: char| translate_arabic_spec(c);
    if s.len() > 0 {
        law_kept_characters_stay_in_order(s.drop_last());
        assert(s.map_values(f).drop_last() =~= s.drop_last().map_values(f));
        let before = kept_chars(s.drop_last());
        let c = translate_arabic_spec(s.last());
        assert(before.push(' ').drop_last() =~= before);
        assert(before.push(c).drop_last() =~= before);
    }
}

/// White space in front of a kept character becomes one space, however much of it there
/// is.
pub proof fn law_white_space_becomes_one_space(s: Seq<char>, space: char, c: char)
    requires
        chars::is_space_spec(space),
        !chars::is_space_spec(translate_arabic_spec(c)),
        is_kept(translate_arabic_spec(c)),
    ensures
        ({
            let before = kept_chars(s);
            let after = kept_chars(s.push(space).push(c));
            let c = translate_arabic_spec(c);
            if before.len() > 0 && before.last() == ' ' {
                after == before.push(c)
            } else {
                after == before.push(' ').push(c)
            }
        }),
        kept_chars(s.push(c)) == kept_chars(s).push(translate_arabic_spec(c)),
{
    lemma_ends_in_space(s);
    assert(s.push(space).drop_last() =~= s);
    assert(s.push(c).drop_last() =~= s);
    assert(s.push(space).push(c).drop_last() =~= s.push(space));
    assert(translate_arabic_spec(space) == space);
    let spaced = kept_chars(s.push(space));
    assert(spaced == (if ends_in_space(s) {
        kept_chars(s)
    } else {
        kept_chars(s).push(' ')
    }));
    assert(kept_chars(s.push(space).push(c)) == spaced.push(translate_arabic_spec(c)));
}

proof fn lemma_ends_in_space(s: Seq<char>)
    ensures
        ends_in_space(s) <==> kept_chars(s).len() > 0 && kept_chars(s).last() == ' ',
    decreases s.len(),
{
    if s.len() > 0 {
        lemma_ends_in_space(s.drop_last());
    }
}

/// A padded number spells its magnitude, is as wide as it must be, and no wider than the
/// number needs.
pub proof fn law_padded_numbers_keep_their_value(n: nat, width: nat)
    ensures
        chars::digits_value(padded(false, n, width)) == Some(n),
        padded(false, n, width).len() >= width,
        padded(false, n, width).len() > width ==> padded(false, n, width) == chars::decimal(n),
        n > 0 && width <= chars::decimal(n).len() ==> padded(true, n, width) == seq!['-'] + padded(false, n, width),
{
    chars::law_decimal_spells_the_number(n);
    let body = chars::decimal(n);
    let fill = if body.len() < width {
        (width - body.len()) as nat
    } else {
        0
    };
    lemma_zeros_in_front(fill, body);
    assert(padded(false, n, width) =~= chars::repeated('0', fill) + body);
    if n > 0 && width <= body.len() {
        assert(padded(true, n, width) =~= seq!['-'] + body);
    }
}

proof fn lemma_zeros_in_front(k: nat, body: Seq<char>)
    requires
        chars::digits_value(body) is Some,
    ensures
        chars::digits_value(chars::repeated('0', k) + body) == chars::digits_value(body),
    decreases body.len(),
{
    let s = chars::repeated('0', k) + body;
    if body.len() > 0 {
        lemma_zeros_in_front(k, body.drop_last());
        assert(s.drop_last() =~= chars::repeated('0', k) + body.drop_last());
    } else {
        lemma_only_zeros(k);
        assert(s =~= chars::repeated('0', k));
    }
}

proof fn lemma_only_zeros(k: nat)
    ensures
        chars::digits_value(chars::repeated('0', k)) == Some(0nat),
    decreases k,
{
    if k > 0 {
        lemma_only_zeros((k - 1) as nat);
        assert(chars::repeated('0', k).drop_last() =~= chars::repeated('0', (k - 1) as nat));
    }
}

/// A time from its start on is told in hours, minutes below sixty, seconds below sixty
/// and thousandths, which together make it up.
pub proof fn law_times_are_told_in_hours(total_ms: int) -> (r: (nat, nat, nat, nat))
    requires
        total_ms >= 0,
    ensures
        total_ms == ((r.0 * 60 + r.1) * 60 + r.2) * 1000 + r.3,
        r.1 < 60 && r.2 < 60 && r.3 < 1000,
        timestamp(total_ms) == padded(false, r.0, 2) + seq![':'] + padded(false, r.1, 2) + seq![':'] + padded(
            false,
            r.2,
            2,
        ) + seq!['.'] + padded(false, r.3, 3),
{
    let n = total_ms as nat;
    (n / 3_600_000, n % 3_600_000 / 60_000, n % 60_000 / 1_000, n % 1_000)
}

/// A bit has as many votes as there are runs of three characters whose digest has it.
pub proof fn law_votes_count_runs(s: Seq<char>, b: u64, n: nat)
    ensures
        votes(s, b, n) == Seq::new(n, |i: int| bit(blake2b_64(s.subrange(i, i + 3)), b)).filter(|v: bool| v).len(),
    decreases n,
{
    reveal(Seq::filter);
    if n > 0 {
        law_votes_count_runs(s, b, (n - 1) as nat);
        let all = Seq::new(n, |i: int| bit(blake2b_64(s.subrange(i, i + 3)), b));
        assert(all.drop_last() =~= Seq::new((n - 1) as nat, |i: int| bit(blake2b_64(s.subrange(i, i + 3)), b)));
    }
}

/// A bit of the digest of a text is set if half of its runs of three characters or more
/// vote for it.
pub proof fn law_half_the_votes_set_a_bit(text: Seq<char>, b: u64)
    requires
        b < 64,
        chars::without(normalized(text), ' ').len() >= 3,
    ensures
        ({
            let s = chars::without(normalized(text), ' ');
            let runs = Seq::new((s.len() - 2) as nat, |i: int| bit(blake2b_64(s.subrange(i, i + 3)), b));
            bit(simhash_of(text), b) <==> 2 * runs.filter(|v: bool| v).len() >= runs.len()
        }),
{
    let s = compact(text);
    law_simhash_bit_is_elected(text, b);
    law_votes_count_runs(s, b, (s.len() - 2) as nat);
}

/// The distance of two digests counts the bits in which they differ.
pub proof fn law_distance_counts_bits(a: u64, b: u64, n: nat)
    ensures
        differing_bits(a, b, n) == Seq::new(n, |i: int| bit(a, i as u64) != bit(b, i as u64)).filter(|v: bool| v).len(),
    decreases n,
{
    reveal(Seq::filter);
    if n > 0 {
        law_distance_counts_bits(a, b, (n - 1) as nat);
        let all = Seq::new(n, |i: int| bit(a, i as u64) != bit(b, i as u64));
        assert(all.drop_last() =~= Seq::new((n - 1) as nat, |i: int| bit(a, i as u64) != bit(b, i as u64)));
    }
}

/// A letter three times or more in a row is left once; twice, it stays.
pub proof fn law_runs_collapse_to_one(c: char, k: nat, rest: Seq<char>)
    requires
        k > 0,
        rest.len() > 0 ==> rest[0] != c,
    ensures
        k >= 3 ==> collapsed(chars::repeated(c, k) + rest) == seq![c] + collapsed(rest),
        k < 3 ==> collapsed(chars::repeated(c, k) + rest) == chars::repeated(c, k) + collapsed(rest),
{
    let s = chars::repeated(c, k) + rest;
    lemma_repeated_run(c, k, rest);
    assert(s.skip(k as int) =~= rest);
    assert(s.take(1) =~= seq![c]);
    assert(s.take(k as int) =~= chars::repeated(c, k));
}

proof fn lemma_repeated_run(c: char, k: nat, rest: Seq<char>)
    requires
        k > 0,
        rest.len() > 0 ==> rest[0] != c,
    ensures
        run_len(chars::repeated(c, k) + rest) == k,
    decreases k,
{
    let s = chars::repeated(c, k) + rest;
    if k > 1 {
        lemma_repeated_run(c, (k - 1) as nat, rest);
        assert(s.skip(1) =~= chars::repeated(c, (k - 1) as nat) + rest);
        assert(s[0] == c && s[1] == c);
    } else if rest.len() > 0 {
        assert(s[1] == rest[0]);
    }
}

/// What is no part of a word is cut off in front of it and behind it.
pub proof fn law_words_are_cut_out(p: Seq<char>, w: Seq<char>, q: Seq<char>)
    requires
        forall|i: int| 0 <= i < p.len() ==> !is_word_char_spec(#[trigger] p[i]),
        forall|i: int| 0 <= i < q.len() ==> !is_word_char_spec(#[trigger] q[i]),
        w.len() > 0,
        is_word_char_spec(w[0]),
        is_word_char_spec(w.last()),
    ensures
        cleaned(p + w + q) == w,
{
    let t = p + w + q;
    let a = p.len() as int;
    let b = p.len() as int + w.len();
    assert(t.subrange(a, b) =~= w);
    assert(t[a] == w[0]);
    assert(t[b - 1] == w.last());
    assert forall|i: int| b <= i < t.len() implies !is_word_char_spec(#[trigger] t[i]) by {
        assert(t[i] == q[i - b]);
    }
    assert forall|i: int| 0 <= i < a implies !is_word_char_spec(#[trigger] t[i]) by {
        assert(t[i] == p[i]);
    }
    assert(is_cleaned(t, w));
    lemma_cleaned(t, w);
}

/// A word of normal characters, none three times in a row, is its own normal form.
pub proof fn law_plain_words_stay(s: Seq<char>)
    requires
        is_unspaced(s),
        no_long_run(s),
    ensures
        token_form(s) == s,
{
    lemma_unspaced_stays(s);
    law_stretched_letters_collapse(s);
}

} // verus!
