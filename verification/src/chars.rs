//! Character sequences: splitting, trimming, joining and decimal numbers.

use vstd::prelude::*;

verus! {

/// `String::push` appends one character.
pub assume_specification[ String::push ](s: &mut String, c: char)
    ensures
        final(s)@ == old(s)@.push(c),
;

/// The lower-case form that `str::to_lowercase` gives to a text.
pub uninterp spec fn lowercase(s: Seq<char>) -> Seq<char>;

/// `str::to_lowercase`: a function of the text alone.
#[verifier::external_body]
pub(crate) fn to_lower(s: &str) -> (r: String)
    ensures
        r@ == lowercase(s@),
{
    s.to_lowercase()
}

/// The form in which `Debug` writes a text: in quotes, with what is not printable
/// escaped.
pub uninterp spec fn debug_form(s: Seq<char>) -> Seq<char>;

/// `Debug` for `str`, through `format!`: a function of the text alone.
#[verifier::external_body]
pub(crate) fn write_debug(s: &str) -> (r: String)
    ensures
        r@ == debug_form(s@),
{
    format!("{s:?}")
}

/// The characters with the Unicode property `White_Space`.
pub open spec fn is_space_spec(c: char) -> bool {
    let u = c as u32;
    ||| 0x09 <= u <= 0x0d
    ||| u == 0x20
    ||| u == 0x85
    ||| u == 0xa0
    ||| u == 0x1680
    ||| 0x2000 <= u <= 0x200a
    ||| u == 0x2028
    ||| u == 0x2029
    ||| u == 0x202f
    ||| u == 0x205f
    ||| u == 0x3000
}

pub fn is_space(c: char) -> (r: bool)
    ensures
        r == is_space_spec(c),
{
    let u: u32 = c as u32;
    (0x09 <= u && u <= 0x0d) || u == 0x20 || u == 0x85 || u == 0xa0 || u == 0x1680
        || (0x2000 <= u && u <= 0x200a) || u == 0x2028 || u == 0x2029 || u == 0x202f || u == 0x205f
        || u == 0x3000
}

/// What the strings of a list hold.
pub open spec fn views(v: Seq<String>) -> Seq<Seq<char>> {
    v.map_values(|s: String| s@)
}

/// Without the white space in front.
pub open spec fn trim_start(s: Seq<char>) -> Seq<char>
    decreases s.len(),
{
    if s.len() > 0 && is_space_spec(s[0]) {
        trim_start(s.skip(1))
    } else {
        s
    }
}

/// Without the white space behind.
pub open spec fn trim_end(s: Seq<char>) -> Seq<char>
    decreases s.len(),
{
    if s.len() > 0 && is_space_spec(s.last()) {
        trim_end(s.drop_last())
    } else {
        s
    }
}

/// Without the white space at both ends.
pub open spec fn trimmed(s: Seq<char>) -> Seq<char> {
    trim_end(trim_start(s))
}

/// How many characters stand in front of the first white space.
pub open spec fn word_len(s: Seq<char>) -> nat
    decreases s.len(),
{
    if s.len() == 0 || is_space_spec(s[0]) {
        0
    } else {
        1 + word_len(s.skip(1))
    }
}

/// The words: the longest runs without white space, in order.
pub open spec fn words_of(s: Seq<char>) -> Seq<Seq<char>>
    decreases s.len(),
    via words_of_shrinks
{
    if s.len() == 0 {
        Seq::empty()
    } else if is_space_spec(s[0]) {
        words_of(s.skip(1))
    } else {
        seq![s.take(word_len(s) as int)] + words_of(s.skip(word_len(s) as int))
    }
}

#[via_fn]
proof fn words_of_shrinks(s: Seq<char>) {
    lemma_word_len(s);
}

pub proof fn lemma_word_len(s: Seq<char>)
    ensures
        word_len(s) <= s.len(),
        s.len() > 0 && !is_space_spec(s[0]) ==> word_len(s) > 0,
        forall|i: int| 0 <= i < word_len(s) ==> !is_space_spec(#[trigger] s[i]),
        word_len(s) < s.len() ==> is_space_spec(s[word_len(s) as int]),
    decreases s.len(),
{
    if s.len() == 0 || is_space_spec(s[0]) {
    } else {
        let t = s.skip(1);
        lemma_word_len(t);
        assert forall|i: int| 0 <= i < word_len(s) implies !is_space_spec(#[trigger] s[i]) by {
            if i > 0 {
                assert(s[i] == t[i - 1]);
            }
        }
        if word_len(s) < s.len() {
            assert(s[word_len(s) as int] == t[word_len(t) as int]);
        }
    }
}

/// The parts, with `sep` between neighbours.
pub open spec fn joined(parts: Seq<Seq<char>>, sep: Seq<char>) -> Seq<char>
    decreases parts.len(),
{
    if parts.len() == 0 {
        Seq::empty()
    } else if parts.len() == 1 {
        parts[0]
    } else {
        joined(parts.drop_last(), sep) + sep + parts.last()
    }
}

/// The characters of a text.
pub fn to_chars(s: &str) -> (r: Vec<char>)
    ensures
        r@ == s@,
{
    let mut out: Vec<char> = Vec::new();
    for c in it: s.chars()
        invariant
            it.seq() == s@,
            out@ == s@.take(it.index() as int),
    {
        assert(s@.take(it.index() as int + 1) =~= s@.take(it.index() as int).push(c));
        out.push(c);
    }
    assert(s@.take(s@.len() as int) =~= s@);
    out
}

/// The text of a run of characters.
pub fn from_chars(cs: &[char], lo: usize, hi: usize) -> (r: String)
    requires
        lo <= hi <= cs@.len(),
    ensures
        r@ == cs@.subrange(lo as int, hi as int),
{
    let mut out = String::new();
    let mut i: usize = lo;
    while i < hi
        invariant
            lo <= i <= hi <= cs@.len(),
            out@ == cs@.subrange(lo as int, i as int),
        decreases hi - i,
    {
        assert(cs@.subrange(lo as int, i as int + 1) =~= cs@.subrange(lo as int, i as int).push(cs@[i as int]));
        out.push(cs[i]);
        i = i + 1;
    }
    out
}

/// Whether two texts hold the same characters.
pub fn same_text(a: &str, b: &str) -> (r: bool)
    ensures
        r == (a@ == b@),
{
    a.to_owned() == b.to_owned()
}

/// A text without the white space at its ends.
pub fn trim(s: &str) -> (r: String)
    ensures
        r@ == trimmed(s@),
{
    let cs = to_chars(s);
    let mut lo: usize = 0;
    assert(cs@.skip(0) =~= cs@);
    while lo < cs.len() && is_space(cs[lo])
        invariant
            lo <= cs@.len(),
            trim_start(cs@) == trim_start(cs@.skip(lo as int)),
        ensures
            lo <= cs@.len(),
            trim_start(cs@) == cs@.skip(lo as int),
        decreases cs@.len() - lo,
    {
        assert(cs@.skip(lo as int).skip(1) =~= cs@.skip(lo as int + 1));
        lo = lo + 1;
    }
    let ghost t = cs@.skip(lo as int);
    let mut hi: usize = cs.len();
    assert(t.take(t.len() as int) =~= t);
    while lo < hi && is_space(cs[hi - 1])
        invariant
            lo <= hi <= cs@.len(),
            t == cs@.skip(lo as int),
            trim_end(t) == trim_end(t.take(hi - lo)),
        ensures
            lo <= hi <= cs@.len(),
            trim_end(t) == t.take(hi - lo),
        decreases hi,
    {
        assert(t.take(hi - lo).drop_last() =~= t.take(hi - lo - 1));
        assert(t.take(hi - lo).last() == cs@[hi - 1]);
        hi = hi - 1;
    }
    assert(cs@.subrange(lo as int, hi as int) =~= t.take(hi - lo));
    from_chars(&cs, lo, hi)
}

/// The words of a text.
pub fn split_words(s: &str) -> (r: Vec<String>)
    ensures
        views(r@) == words_of(s@),
{
    let cs = to_chars(s);
    let mut out: Vec<String> = Vec::new();
    let mut i: usize = 0;
    assert(cs@.skip(0) =~= cs@);
    assert(views(out@) + words_of(cs@) =~= words_of(cs@));
    while i < cs.len()
        invariant
            i <= cs@.len(),
            views(out@) + words_of(cs@.skip(i as int)) == words_of(cs@),
        decreases cs@.len() - i,
    {
        let ghost rest = cs@.skip(i as int);
        if is_space(cs[i]) {
            assert(rest.skip(1) =~= cs@.skip(i as int + 1));
            i = i + 1;
        } else {
            let start: usize = i;
            proof {
                lemma_word_len(rest);
            }
            let ghost w = word_len(rest);
            while i < cs.len()
                invariant
                    start <= i <= cs@.len(),
                    rest == cs@.skip(start as int),
                    w == word_len(rest),
                    w <= rest.len(),
                    i - start <= w,
                    forall|k: int| 0 <= k < w ==> !is_space_spec(#[trigger] rest[k]),
                    w < rest.len() ==> is_space_spec(rest[w as int]),
                ensures
                    i - start == w,
                    i <= cs@.len(),
                decreases cs@.len() - i,
            {
                assert(rest[i - start] == cs@[i as int]);
                if is_space(cs[i]) {
                    break;
                }
                i = i + 1;
            }
            let word = from_chars(&cs, start, i);
            let ghost before = views(out@);
            out.push(word);
            proof {
                assert(word@ =~= rest.take(w as int));
                assert(rest.skip(w as int) =~= cs@.skip(i as int));
                assert(views(out@) =~= before.push(word@));
                assert(views(out@) + words_of(cs@.skip(i as int)) =~= before + (seq![rest.take(w as int)]
                    + words_of(rest.skip(w as int))));
            }
        }
    }
    assert(words_of(cs@.skip(i as int)) =~= Seq::<Seq<char>>::empty());
    assert(views(out@) =~= words_of(cs@));
    out
}

/// The parts in one text, with `sep` between neighbours.
pub fn join(parts: &[String], sep: &str) -> (r: String)
    ensures
        r@ == joined(views(parts@), sep@),
{
    let mut out = String::new();
    let mut i: usize = 0;
    while i < parts.len()
        invariant
            i <= parts@.len(),
            out@ == joined(views(parts@.take(i as int)), sep@),
        decreases parts@.len() - i,
    {
        proof {
            let a = views(parts@.take(i as int));
            let b = views(parts@.take(i as int + 1));
            assert(b.drop_last() =~= a);
            assert(b.last() == parts@[i as int]@);
        }
        if i > 0 {
            out.append(sep);
        }
        out.append(parts[i].as_str());
        assert(out@ =~= joined(views(parts@.take(i as int + 1)), sep@));
        i = i + 1;
    }
    assert(parts@.take(parts@.len() as int) =~= parts@);
    out
}

/// Without the characters equal to `drop`.
pub open spec fn without(s: Seq<char>, drop: char) -> Seq<char>
    decreases s.len(),
{
    if s.len() == 0 {
        Seq::empty()
    } else if s.last() == drop {
        without(s.drop_last(), drop)
    } else {
        without(s.drop_last(), drop).push(s.last())
    }
}

pub fn remove_char(s: &str, drop: char) -> (r: String)
    ensures
        r@ == without(s@, drop),
{
    let cs = to_chars(s);
    let mut out = String::new();
    let mut i: usize = 0;
    while i < cs.len()
        invariant
            i <= cs@.len(),
            out@ == without(cs@.take(i as int), drop),
        decreases cs@.len() - i,
    {
        assert(cs@.take(i as int + 1).drop_last() =~= cs@.take(i as int));
        if cs[i] != drop {
            out.push(cs[i]);
        }
        i = i + 1;
    }
    assert(cs@.take(cs@.len() as int) =~= cs@);
    out
}

/// The decimal digit `d`.
pub open spec fn digit(d: int) -> char {
    (48 + d) as char
}

/// A number in decimal, without leading zeros.
pub open spec fn decimal(n: nat) -> Seq<char>
    decreases n,
{
    if n < 10 {
        seq![digit(n as int)]
    } else {
        decimal(n / 10).push(digit((n % 10) as int))
    }
}

/// `k` times the character `c`.
pub open spec fn repeated(c: char, k: nat) -> Seq<char> {
    Seq::new(k, |i: int| c)
}

fn digit_char(d: u64) -> (c: char)
    requires
        d < 10,
    ensures
        c == digit(d as int),
{
    (48 + d as u8) as char
}

/// Appends `n` in decimal.
pub fn push_decimal(out: &mut String, n: u64)
    ensures
        final(out)@ == old(out)@ + decimal(n as nat),
    decreases n,
{
    if n >= 10 {
        push_decimal(out, n / 10);
        out.push(digit_char(n % 10));
        assert(out@ =~= old(out)@ + decimal(n as nat));
    } else {
        out.push(digit_char(n));
        assert(out@ =~= old(out)@ + decimal(n as nat));
    }
}

/// How many digits `n` has in decimal.
pub fn decimal_len(n: u64) -> (k: usize)
    ensures
        k == decimal(n as nat).len(),
        1 <= k <= 20,
{
    proof {
        reveal_with_fuel(ten_to, 20);
        lemma_decimal_len(n as nat, 19);
    }
    let mut rest: u64 = n;
    let mut k: usize = 1;
    while rest >= 10
        invariant
            1 <= k,
            k - 1 + decimal(rest as nat).len() == decimal(n as nat).len(),
            decimal(n as nat).len() <= 20,
            decimal(rest as nat).len() >= 1,
        decreases rest,
    {
        rest = rest / 10;
        k = k + 1;
        proof {
            lemma_decimal_nonempty(rest as nat);
        }
    }
    k
}

pub proof fn lemma_decimal_nonempty(n: nat)
    ensures
        decimal(n).len() >= 1,
    decreases n,
{
    if n >= 10 {
        lemma_decimal_nonempty(n / 10);
    }
}

spec fn ten_to(k: nat) -> nat
    decreases k,
{
    if k == 0 {
        1
    } else {
        10 * ten_to((k - 1) as nat)
    }
}

proof fn lemma_decimal_len(n: nat, k: nat)
    requires
        n < 10 * ten_to(k),
    ensures
        1 <= decimal(n).len() <= k + 1,
    decreases k,
{
    lemma_decimal_nonempty(n);
    if n >= 10 {
        assert(k > 0);
        lemma_decimal_len(n / 10, (k - 1) as nat);
    }
}

/// Where `c` first occurs.
pub open spec fn index_of_char(s: Seq<char>, c: char) -> Option<nat>
    decreases s.len(),
{
    if s.len() == 0 {
        None
    } else if s[0] == c {
        Some(0)
    } else {
        match index_of_char(s.skip(1), c) {
            None => None,
            Some(k) => Some(k + 1),
        }
    }
}

/// `s` has `t` at its front.
pub open spec fn starts_with(s: Seq<char>, t: Seq<char>) -> bool {
    t.len() <= s.len() && s.take(t.len() as int) == t
}

/// `s` has `t` at its end.
pub open spec fn ends_with(s: Seq<char>, t: Seq<char>) -> bool {
    t.len() <= s.len() && s.skip(s.len() - t.len()) == t
}

/// Where `t` first occurs.
pub open spec fn index_of_text(s: Seq<char>, t: Seq<char>) -> Option<nat>
    decreases s.len(),
{
    if starts_with(s, t) {
        Some(0)
    } else if s.len() == 0 {
        None
    } else {
        match index_of_text(s.skip(1), t) {
            None => None,
            Some(k) => Some(k + 1),
        }
    }
}

/// The parts between the occurrences of `sep`.
pub open spec fn split_on(s: Seq<char>, sep: char) -> Seq<Seq<char>>
    decreases s.len(),
    via split_on_shrinks
{
    match index_of_char(s, sep) {
        None => seq![s],
        Some(k) => seq![s.take(k as int)] + split_on(s.skip(k as int + 1), sep),
    }
}

#[via_fn]
proof fn split_on_shrinks(s: Seq<char>, sep: char) {
    lemma_index_of_char(s, sep);
}

pub proof fn lemma_index_of_char(s: Seq<char>, c: char)
    ensures
        match index_of_char(s, c) {
            None => forall|i: int| 0 <= i < s.len() ==> #[trigger] s[i] != c,
            Some(k) => k < s.len() && s[k as int] == c && forall|i: int| 0 <= i < k ==> #[trigger] s[i] != c,
        },
    decreases s.len(),
{
    if s.len() > 0 && s[0] != c {
        let t = s.skip(1);
        lemma_index_of_char(t, c);
        match index_of_char(t, c) {
            None => {
                assert forall|i: int| 0 <= i < s.len() implies #[trigger] s[i] != c by {
                    if i > 0 {
                        assert(s[i] == t[i - 1]);
                    }
                }
            },
            Some(k) => {
                assert(s[k as int + 1] == t[k as int]);
                assert forall|i: int| 0 <= i < k + 1 implies #[trigger] s[i] != c by {
                    if i > 0 {
                        assert(s[i] == t[i - 1]);
                    }
                }
            },
        }
    }
}

/// Where `c` first occurs at or behind `from`, counted from `from`.
pub fn find_char(cs: &[char], from: usize, c: char) -> (r: Option<usize>)
    requires
        from <= cs@.len(),
    ensures
        r is Some <==> index_of_char(cs@.skip(from as int), c) is Some,
        r matches Some(k) ==> index_of_char(cs@.skip(from as int), c) == Some(k as nat) && from + k < cs@.len(),
{
    let ghost all = cs@.skip(from as int);
    let mut i: usize = from;
    assert(all.skip(0) =~= all);
    while i < cs.len()
        invariant
            from <= i <= cs@.len(),
            all == cs@.skip(from as int),
            index_of_char(all, c) == (match index_of_char(all.skip(i - from), c) {
                None => None,
                Some(k) => Some((k + (i - from)) as nat),
            }),
        decreases cs@.len() - i,
    {
        assert(all.skip(i - from)[0] == cs@[i as int]);
        if cs[i] == c {
            return Some(i - from);
        }
        assert(all.skip(i - from).skip(1) =~= all.skip(i + 1 - from));
        i = i + 1;
    }
    assert(all.skip(i - from).len() == 0);
    None
}

/// Whether `pat` stands at place `at`.
pub fn text_at(cs: &[char], at: usize, pat: &[char]) -> (r: bool)
    requires
        at <= cs@.len(),
    ensures
        r == starts_with(cs@.skip(at as int), pat@),
{
    let ghost rest = cs@.skip(at as int);
    let total: usize = cs.len();
    if total - at < pat.len() {
        return false;
    }
    let mut i: usize = 0;
    while i < pat.len()
        invariant
            at <= total == cs@.len(),
            rest == cs@.skip(at as int),
            pat@.len() <= rest.len(),
            i <= pat@.len(),
            forall|k: int| 0 <= k < i ==> #[trigger] pat@[k] == rest[k],
        decreases pat@.len() - i,
    {
        assert(rest[i as int] == cs@[at + i]);
        if cs[at + i] != pat[i] {
            assert(rest.take(pat@.len() as int)[i as int] != pat@[i as int]);
            return false;
        }
        i = i + 1;
    }
    assert(rest.take(pat@.len() as int) =~= pat@);
    true
}

/// Where `pat` first occurs.
pub fn find_text(cs: &[char], pat: &str) -> (r: Option<usize>)
    ensures
        r is Some <==> index_of_text(cs@, pat@) is Some,
        r matches Some(k) ==> index_of_text(cs@, pat@) == Some(k as nat) && k + pat@.len() <= cs@.len(),
{
    let p = to_chars(pat);
    let mut i: usize = 0;
    assert(cs@.skip(0) =~= cs@);
    loop
        invariant
            i <= cs@.len(),
            p@ == pat@,
            index_of_text(cs@, pat@) == (match index_of_text(cs@.skip(i as int), pat@) {
                None => None,
                Some(k) => Some((k + i) as nat),
            }),
        decreases cs@.len() - i,
    {
        if text_at(cs, i, &p) {
            return Some(i);
        }
        if i >= cs.len() {
            return None;
        }
        assert(cs@.skip(i as int).skip(1) =~= cs@.skip(i as int + 1));
        i = i + 1;
    }
}

/// The parts of a text between the occurrences of `sep`.
pub fn split(s: &str, sep: char) -> (r: Vec<String>)
    ensures
        views(r@) == split_on(s@, sep),
{
    let cs = to_chars(s);
    let total: usize = cs.len();
    let mut out: Vec<String> = Vec::new();
    let mut i: usize = 0;
    assert(cs@.skip(0) =~= cs@);
    assert(views(out@) + split_on(cs@, sep) =~= split_on(cs@, sep));
    loop
        invariant
            i <= total == cs@.len(),
            cs@ == s@,
            views(out@) + split_on(cs@.skip(i as int), sep) == split_on(cs@, sep),
        decreases cs@.len() - i,
    {
        let ghost rest = cs@.skip(i as int);
        let ghost before = views(out@);
        match find_char(&cs, i, sep) {
            None => {
                let part = from_chars(&cs, i, cs.len());
                out.push(part);
                proof {
                    assert(part@ =~= rest);
                    assert(views(out@) =~= before + seq![rest]);
                }
                return out;
            },
            Some(k) => {
                let part = from_chars(&cs, i, i + k);
                out.push(part);
                proof {
                    assert(part@ =~= rest.take(k as int));
                    assert(rest.skip(k as int + 1) =~= cs@.skip(i + k + 1));
                    assert(views(out@) =~= before.push(part@));
                    assert(views(out@) + split_on(cs@.skip(i + k + 1), sep) =~= before + (seq![rest.take(k as int)]
                        + split_on(rest.skip(k as int + 1), sep)));
                }
                i = i + k + 1;
            },
        }
    }
}

/// The number that decimal digits spell.
pub open spec fn digits_value(s: Seq<char>) -> Option<nat>
    decreases s.len(),
{
    if s.len() == 0 {
        Some(0)
    } else {
        let c = s.last();
        match digits_value(s.drop_last()) {
            None => None,
            Some(v) => if '0' <= c <= '9' {
                Some((10 * v + (c as u32 - 48)) as nat)
            } else {
                None
            },
        }
    }
}

/// The number up to `max` that a text spells: decimal digits, with a plus sign
/// in front or without.
pub open spec fn spelled_number(s: Seq<char>, max: nat) -> Option<nat> {
    let t = if s.len() > 0 && s[0] == '+' {
        s.skip(1)
    } else {
        s
    };
    if t.len() == 0 {
        None
    } else {
        match digits_value(t) {
            None => None,
            Some(v) => if v <= max {
                Some(v)
            } else {
                None
            },
        }
    }
}

pub proof fn lemma_digits_grow(s: Seq<char>, k: int)
    requires
        0 <= k <= s.len(),
        digits_value(s) is Some,
    ensures
        digits_value(s.take(k)) is Some,
        digits_value(s.take(k))->0 <= digits_value(s)->0,
    decreases s.len() - k,
{
    if k == s.len() {
        assert(s.take(k) =~= s);
    } else {
        lemma_digits_grow(s, k + 1);
        assert(s.take(k + 1).drop_last() =~= s.take(k));
    }
}

/// Reads an unsigned number up to `max`.
pub fn parse_number(s: &str, max: u64) -> (r: Option<u64>)
    ensures
        r is Some <==> spelled_number(s@, max as nat) is Some,
        r matches Some(v) ==> spelled_number(s@, max as nat) == Some(v as nat) && v <= max,
{
    let cs = to_chars(s);
    let start: usize = if cs.len() > 0 && cs[0] == '+' {
        1
    } else {
        0
    };
    if cs.len() == start {
        return None;
    }
    let ghost t = cs@.skip(start as int);
    assert(start == 0 ==> t =~= cs@);
    let mut v: u64 = 0;
    let mut i: usize = start;
    while i < cs.len()
        invariant
            start <= i <= cs@.len(),
            t == cs@.skip(start as int),
            t.len() > 0,
            spelled_number(s@, max as nat) == (match digits_value(t) {
                None => None,
                Some(x) => if x <= max {
                    Some(x)
                } else {
                    None
                },
            }),
            digits_value(t.take(i - start)) == Some(v as nat),
            v <= max,
        decreases cs@.len() - i,
    {
        let c: char = cs[i];
        assert(t[i - start] == c);
        assert(t.take(i + 1 - start).drop_last() =~= t.take(i - start));
        if c < '0' || c > '9' {
            proof {
                if digits_value(t) is Some {
                    lemma_digits_grow(t, i + 1 - start);
                }
            }
            return None;
        }
        let d: u64 = (c as u32 - 48) as u64;
        if v > max / 10 || d > max || v * 10 > max - d {
            proof {
                if digits_value(t) is Some {
                    lemma_digits_grow(t, i + 1 - start);
                }
            }
            return None;
        }
        v = v * 10 + d;
        i = i + 1;
    }
    assert(t.take(i - start) =~= t);
    Some(v)
}

pub fn parse_usize(s: &str) -> (r: Option<usize>)
    ensures
        r is Some <==> spelled_number(s@, usize::MAX as nat) is Some,
        r matches Some(v) ==> spelled_number(s@, usize::MAX as nat) == Some(v as nat),
{
    match parse_number(s, usize::MAX as u64) {
        None => None,
        Some(v) => Some(v as usize),
    }
}

/// `a` comes before `b` in the order of their characters.
pub open spec fn text_before(a: Seq<char>, b: Seq<char>) -> bool
    decreases b.len(),
{
    if b.len() == 0 {
        false
    } else if a.len() == 0 {
        true
    } else if a[0] != b[0] {
        a[0] < b[0]
    } else {
        text_before(a.skip(1), b.skip(1))
    }
}

pub fn is_before(a: &str, b: &str) -> (r: bool)
    ensures
        r == text_before(a@, b@),
{
    let x = to_chars(a);
    let y = to_chars(b);
    let mut i: usize = 0;
    assert(x@.skip(0) =~= x@);
    assert(y@.skip(0) =~= y@);
    while i < x.len() && i < y.len()
        invariant
            x@ == a@,
            y@ == b@,
            i <= x@.len(),
            i <= y@.len(),
            text_before(a@, b@) == text_before(x@.skip(i as int), y@.skip(i as int)),
        decreases x@.len() - i,
    {
        proof {
            assert(x@.skip(i as int)[0] == x@[i as int]);
            assert(y@.skip(i as int)[0] == y@[i as int]);
            assert(x@.skip(i as int).skip(1) =~= x@.skip(i as int + 1));
            assert(y@.skip(i as int).skip(1) =~= y@.skip(i as int + 1));
        }
        if x[i] != y[i] {
            return x[i] < y[i];
        }
        i = i + 1;
    }
    i < y.len()
}

/// Of two texts that differ, one comes before the other, and not the other way
/// round.
pub proof fn law_texts_are_ordered(a: Seq<char>, b: Seq<char>)
    ensures
        text_before(a, b) ==> !text_before(b, a),
        a != b ==> text_before(a, b) || text_before(b, a),
    decreases b.len(),
{
    if a.len() > 0 && b.len() > 0 && a[0] == b[0] {
        law_texts_are_ordered(a.skip(1), b.skip(1));
        if a.skip(1) == b.skip(1) {
            assert(a =~= seq![a[0]] + a.skip(1));
            assert(b =~= seq![b[0]] + b.skip(1));
        }
    } else if a.len() == 0 && b.len() == 0 {
        assert(a =~= b);
    }
}

/// The order of texts is transitive.
pub proof fn law_text_order_chains(a: Seq<char>, b: Seq<char>, c: Seq<char>)
    requires
        text_before(a, b),
        text_before(b, c),
    ensures
        text_before(a, c),
    decreases c.len(),
{
    if a.len() > 0 && a[0] == b[0] && b[0] == c[0] {
        law_text_order_chains(a.skip(1), b.skip(1), c.skip(1));
    }
}

pub proof fn lemma_trimmed_part(s: Seq<char>)
    ensures
        exists|a: int, b: int| 0 <= a <= b <= s.len() && trimmed(s) == #[trigger] s.subrange(a, b),
        trimmed(s).len() > 0 ==> !is_space_spec(trimmed(s)[0]) && !is_space_spec(
            trimmed(s).last(),
        ),
{
    lemma_trim_start_part(s);
    let t = trim_start(s);
    let a = choose|a: int| 0 <= a <= s.len() && t == #[trigger] s.skip(a);
    lemma_trim_end_part(t);
    let b = choose|b: int| 0 <= b <= t.len() && trim_end(t) == #[trigger] t.take(b);
    assert(t.take(b) =~= s.subrange(a, a + b));
}

proof fn lemma_trim_start_part(s: Seq<char>)
    ensures
        exists|a: int| 0 <= a <= s.len() && trim_start(s) == #[trigger] s.skip(a),
        trim_start(s).len() > 0 ==> !is_space_spec(trim_start(s)[0]),
    decreases s.len(),
{
    if s.len() > 0 && is_space_spec(s[0]) {
        let t = s.skip(1);
        lemma_trim_start_part(t);
        let a = choose|a: int| 0 <= a <= t.len() && trim_start(t) == #[trigger] t.skip(a);
        assert(t.skip(a) =~= s.skip(a + 1));
    } else {
        assert(s.skip(0) =~= s);
    }
}

proof fn lemma_trim_end_part(s: Seq<char>)
    ensures
        exists|b: int| 0 <= b <= s.len() && trim_end(s) == #[trigger] s.take(b),
        trim_end(s).len() > 0 ==> !is_space_spec(trim_end(s).last()) && trim_end(s)[0]
            == s[0],
    decreases s.len(),
{
    if s.len() > 0 && is_space_spec(s.last()) {
        let t = s.drop_last();
        lemma_trim_end_part(t);
        let b = choose|b: int| 0 <= b <= t.len() && trim_end(t) == #[trigger] t.take(b);
        assert(t.take(b) =~= s.take(b));
    } else {
        assert(s.take(s.len() as int) =~= s);
    }
}

/// A text without white space at its ends stays as it is.
pub proof fn lemma_trimmed_stays(s: Seq<char>)
    requires
        s.len() > 0 ==> !is_space_spec(s[0]) && !is_space_spec(s.last()),
    ensures
        trimmed(s) == s,
{
}

/// Without white space, and not empty.
pub open spec fn is_word(w: Seq<char>) -> bool {
    w.len() > 0 && forall|i: int| 0 <= i < w.len() ==> !is_space_spec(#[trigger] w[i])
}

/// Words are not empty and hold no white space.
pub proof fn law_words_are_words(s: Seq<char>)
    ensures
        forall|i: int| 0 <= i < words_of(s).len() ==> is_word(#[trigger] words_of(s)[i]),
    decreases s.len(),
{
    lemma_word_len(s);
    if s.len() > 0 && is_space_spec(s[0]) {
        law_words_are_words(s.skip(1));
        assert(words_of(s) == words_of(s.skip(1)));
    } else if s.len() == 0 {
        assert(words_of(s).len() == 0);
    } else {
        let k = word_len(s) as int;
        law_words_are_words(s.skip(k));
        assert forall|i: int| 0 <= i < words_of(s).len() implies is_word(#[trigger] words_of(s)[i]) by {
            if i > 0 {
                assert(words_of(s)[i] == words_of(s.skip(k))[i - 1]);
            } else {
                assert(words_of(s)[0] == s.take(k));
                assert forall|j: int| 0 <= j < k implies !is_space_spec(#[trigger] s.take(k)[j]) by {
                    assert(s.take(k)[j] == s[j]);
                }
            }
        }
    }
}

proof fn lemma_one_word(w: Seq<char>, rest: Seq<char>)
    requires
        is_word(w),
        rest.len() > 0 ==> is_space_spec(rest[0]),
    ensures
        words_of(w + rest) == seq![w] + words_of(rest),
{
    let s = w + rest;
    lemma_word_len(s);
    assert(s[0] == w[0]);
    let k = word_len(s) as int;
    if k < w.len() {
        assert(s[k] == w[k]);
        assert(false);
    }
    if k > w.len() {
        assert(s[w.len() as int] == rest[0]);
        assert(false);
    }
    assert(s.take(k) =~= w);
    assert(s.skip(k) =~= rest);
}

proof fn lemma_words_of_both(a: Seq<char>, b: Seq<char>)
    requires
        b.len() > 0 ==> is_space_spec(b[0]),
    ensures
        words_of(a + b) == words_of(a) + words_of(b),
    decreases a.len(),
{
    let s = a + b;
    if a.len() == 0 {
        assert(s =~= b);
        assert(words_of(a) =~= Seq::<Seq<char>>::empty());
        assert(words_of(a) + words_of(b) =~= words_of(b));
    } else if is_space_spec(a[0]) {
        assert(s[0] == a[0]);
        assert(s.skip(1) =~= a.skip(1) + b);
        lemma_words_of_both(a.skip(1), b);
    } else {
        lemma_word_len(a);
        let k = word_len(a) as int;
        let w = a.take(k);
        assert forall|i: int| 0 <= i < w.len() implies !is_space_spec(#[trigger] w[i]) by {
            assert(w[i] == a[i]);
        }
        let rest = a.skip(k) + b;
        if k < a.len() {
            assert(rest[0] == a[k]);
        } else if b.len() > 0 {
            assert(rest[0] == b[0]);
        }
        lemma_one_word(w, rest);
        assert(s =~= w + rest);
        lemma_words_of_both(a.skip(k), b);
        assert(seq![w] + (words_of(a.skip(k)) + words_of(b)) =~= (seq![w] + words_of(a.skip(k))) + words_of(b));
    }
}

/// Words that are joined by a space are split into the same words.
pub proof fn law_joined_words_split(words: Seq<Seq<char>>)
    requires
        forall|i: int| 0 <= i < words.len() ==> is_word(#[trigger] words[i]),
    ensures
        words_of(joined(words, " "@)) == words,
    decreases words.len(),
{
    reveal_strlit(" ");
    if words.len() == 0 {
        assert(words_of(joined(words, " "@)) =~= words);
    } else {
        let w = words.last();
        assert(is_word(words[words.len() - 1]));
        lemma_one_word(w, Seq::empty());
        assert(w + Seq::<char>::empty() =~= w);
        assert(words_of(Seq::<char>::empty()) =~= Seq::<Seq<char>>::empty());
        assert(words_of(w) =~= seq![w]);
        if words.len() == 1 {
            assert(words =~= seq![w]);
        } else {
            let d = words.drop_last();
            assert forall|i: int| 0 <= i < d.len() implies is_word(#[trigger] d[i]) by {
                assert(d[i] == words[i]);
            }
            law_joined_words_split(d);
            let tail = " "@ + w;
            assert(" "@[0] == ' ');
            assert(is_space_spec(' '));
            assert(tail[0] == ' ');
            assert(tail.skip(1) =~= w);
            lemma_words_of_both(joined(d, " "@), tail);
            assert(joined(words, " "@) =~= joined(d, " "@) + tail);
            assert(words =~= d + seq![w]);
        }
    }
}

/// Trimming takes white space off both ends, and nothing else.
pub proof fn law_trimming_takes_only_space(s: Seq<char>) -> (r: (int, int))
    ensures
        0 <= r.0 <= r.1 <= s.len(),
        trimmed(s) == s.subrange(r.0, r.1),
        forall|i: int| 0 <= i < r.0 || r.1 <= i < s.len() ==> is_space_spec(#[trigger] s[i]),
        r.0 < r.1 ==> !is_space_spec(s[r.0]) && !is_space_spec(s[r.1 - 1]),
{
    let a = lemma_trim_start_takes(s);
    let t = trim_start(s);
    let b = lemma_trim_end_takes(t);
    assert(t.take(b) =~= s.subrange(a, a + b));
    assert forall|i: int| 0 <= i < a || a + b <= i < s.len() implies is_space_spec(#[trigger] s[i]) by {
        if a + b <= i {
            assert(t[i - a] == s[i]);
        }
    }
    if b > 0 {
        assert(s[a] == t[0]);
        assert(s[a + b - 1] == t[b - 1]);
    }
    (a, a + b)
}

proof fn lemma_trim_start_takes(s: Seq<char>) -> (a: int)
    ensures
        0 <= a <= s.len(),
        trim_start(s) == s.skip(a),
        forall|i: int| 0 <= i < a ==> is_space_spec(#[trigger] s[i]),
        a < s.len() ==> !is_space_spec(s[a]),
    decreases s.len(),
{
    if s.len() > 0 && is_space_spec(s[0]) {
        let t = s.skip(1);
        let a = lemma_trim_start_takes(t);
        assert(t.skip(a) =~= s.skip(a + 1));
        assert forall|i: int| 0 <= i < a + 1 implies is_space_spec(#[trigger] s[i]) by {
            if i > 0 {
                assert(t[i - 1] == s[i]);
            }
        }
        if a < t.len() {
            assert(t[a] == s[a + 1]);
        }
        a + 1
    } else {
        assert(s.skip(0) =~= s);
        0
    }
}

proof fn lemma_trim_end_takes(s: Seq<char>) -> (b: int)
    ensures
        0 <= b <= s.len(),
        trim_end(s) == s.take(b),
        forall|i: int| b <= i < s.len() ==> is_space_spec(#[trigger] s[i]),
        b > 0 ==> !is_space_spec(s[b - 1]),
    decreases s.len(),
{
    if s.len() > 0 && is_space_spec(s.last()) {
        let t = s.drop_last();
        let b = lemma_trim_end_takes(t);
        assert(t.take(b) =~= s.take(b));
        assert forall|i: int| b <= i < s.len() implies is_space_spec(#[trigger] s[i]) by {
            if i < t.len() {
                assert(t[i] == s[i]);
            }
        }
        b
    } else {
        assert(s.take(s.len() as int) =~= s);
        s.len() as int
    }
}

/// Splitting cuts a text at each separator: what stands in front of the first is the
/// first part, and what stands behind it is split on.
pub proof fn law_texts_are_split_at_separators(a: Seq<char>, b: Seq<char>, sep: char)
    requires
        forall|i: int| 0 <= i < a.len() ==> #[trigger] a[i] != sep,
    ensures
        split_on(a, sep) == seq![a],
        split_on(a.push(sep) + b, sep) == seq![a] + split_on(b, sep),
{
    lemma_index_of_char(a, sep);
    let s = a.push(sep) + b;
    lemma_index_of_char(s, sep);
    assert(s[a.len() as int] == sep);
    match index_of_char(s, sep) {
        None => {},
        Some(k) => {
            if k < a.len() {
                assert(s[k as int] == a[k as int]);
            }
            assert(k == a.len());
            assert(s.take(k as int) =~= a);
            assert(s.skip(k as int + 1) =~= b);
        },
    }
}

/// A number written in decimal spells that number.
pub proof fn law_decimal_spells_the_number(n: nat)
    ensures
        digits_value(decimal(n)) == Some(n),
        n <= u64::MAX ==> spelled_number(decimal(n), u64::MAX as nat) == Some(n),
        decimal(n).len() > 1 ==> decimal(n)[0] != '0',
    decreases n,
{
    lemma_decimal_nonempty(n);
    lemma_decimal_first(n);
    if n >= 10 {
        law_decimal_spells_the_number(n / 10);
        let c = digit((n % 10) as int);
        assert(decimal(n).drop_last() =~= decimal(n / 10));
        assert(decimal(n).last() == c);
        assert('0' <= c <= '9');
    } else {
        reveal_with_fuel(digits_value, 2);
        assert(decimal(n).drop_last() =~= Seq::empty());
        assert(decimal(n).last() == digit(n as int));
    }
}

proof fn lemma_decimal_first(n: nat)
    ensures
        decimal(n).len() > 0,
        '0' <= decimal(n)[0] <= '9',
        n > 0 ==> decimal(n)[0] != '0',
    decreases n,
{
    if n >= 10 {
        lemma_decimal_first(n / 10);
    }
}

/// A text is found where it first occurs.
pub proof fn law_texts_are_found_where_they_begin(s: Seq<char>, t: Seq<char>, j: int)
    requires
        0 <= j <= s.len(),
    ensures
        index_of_text(s, t) is None ==> !starts_with(s.skip(j), t),
        index_of_text(s, t) matches Some(k) ==> k <= s.len() && starts_with(s.skip(k as int), t) && (starts_with(
            s.skip(j),
            t,
        ) ==> k <= j),
    decreases s.len(),
{
    assert(s.skip(0) =~= s);
    if !starts_with(s, t) && s.len() > 0 {
        let rest = s.skip(1);
        let i = if j > 0 {
            j - 1
        } else {
            0
        };
        law_texts_are_found_where_they_begin(rest, t, i);
        if j > 0 {
            assert(rest.skip(j - 1) =~= s.skip(j));
        }
        match index_of_text(rest, t) {
            None => {},
            Some(k) => {
                assert(rest.skip(k as int) =~= s.skip(k as int + 1));
            },
        }
    }
}

/// Texts are ordered by the first character in which they differ, and a text comes
/// before any that goes on from it.
pub proof fn law_first_difference_decides(p: Seq<char>, a: char, x: Seq<char>, b: char, y: Seq<char>)
    ensures
        a != b ==> (text_before(p.push(a) + x, p.push(b) + y) <==> a < b),
        text_before(p, p + y) <==> y.len() > 0,
        !text_before(p + y, p),
    decreases p.len(),
{
    let s = p.push(a) + x;
    let t = p.push(b) + y;
    if p.len() > 0 {
        law_first_difference_decides(p.skip(1), a, x, b, y);
        assert(s.skip(1) =~= p.skip(1).push(a) + x);
        assert(t.skip(1) =~= p.skip(1).push(b) + y);
        assert((p + y).skip(1) =~= p.skip(1) + y);
        assert(s[0] == p[0] && t[0] == p[0] && (p + y)[0] == p[0]);
    } else {
        assert(s[0] == a && t[0] == b);
        assert(p + y =~= y);
    }
}

/// Without a character, the others of a text are left.
pub proof fn law_others_are_left(s: Seq<char>, drop: char)
    ensures
        without(s, drop) == s.filter(|c: char| c != drop),
    decreases s.len(),
{
    reveal(Seq::filter);
    if s.len() > 0 {
        law_others_are_left(s.drop_last(), drop);
    }
}

} // verus!
