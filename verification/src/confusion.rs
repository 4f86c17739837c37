//! What it costs to take one word for another.

use lru::LruCache;
use vstd::prelude::*;

use crate::scalar;
use crate::scalar::Scalar;
use crate::text;

verus! {

/// A heard word and what it costs.
pub struct HeardCost<S> {
    pub oid: u32,
    pub cost: S,
}

impl<S: Copy> Clone for HeardCost<S> {
    fn clone(&self) -> (r: Self)
        ensures
            r == *self,
    {
        *self
    }
}

impl<S: Copy> Copy for HeardCost<S> {

}

/// Learned costs of hearing one word where another stands. Words are numbered;
/// zero is no word of the vocabulary.
pub struct ConfusionModel<S> {
    pub vocab_size: usize,
    pub global_ref_del_cost: S,
    pub global_obs_ins_cost: S,
    pub fallback_sub_cost: S,
    /// For each reference word the heard words with a cost of their own, in
    /// ascending order.
    pub sub_cost_by_ref: Vec<Option<Vec<HeardCost<S>>>>,
}

/// In ascending order of the heard words.
pub open spec fn row_sorted<S>(row: Seq<HeardCost<S>>) -> bool {
    forall|i: int, j: int| 0 <= i <= j < row.len() ==> (#[trigger] row[i]).oid <= (#[trigger] row[j]).oid
}

/// The first cost that a row lists for `oid`.
pub open spec fn listed_in_row<S>(row: Seq<HeardCost<S>>, oid: u32) -> Option<S>
    decreases row.len(),
{
    if row.len() == 0 {
        None
    } else if row[0].oid == oid {
        Some(row[0].cost)
    } else {
        listed_in_row(row.skip(1), oid)
    }
}

proof fn lemma_listed_behind<S>(row: Seq<HeardCost<S>>, oid: u32, k: int)
    requires
        0 <= k <= row.len(),
        forall|i: int| 0 <= i < k ==> (#[trigger] row[i]).oid != oid,
    ensures
        listed_in_row(row, oid) == listed_in_row(row.skip(k), oid),
    decreases k,
{
    if k == 0 {
        assert(row.skip(0) =~= row);
    } else {
        assert(row[0].oid != oid);
        let t = row.skip(1);
        assert forall|i: int| 0 <= i < k - 1 implies (#[trigger] t[i]).oid != oid by {
            assert(t[i] == row[i + 1]);
        }
        lemma_listed_behind(t, oid, k - 1);
        assert(t.skip(k - 1) =~= row.skip(k));
    }
}

impl<S: Scalar> ConfusionModel<S> {
    pub open spec fn wf(self) -> bool {
        forall|r: int|
            0 <= r < self.sub_cost_by_ref@.len() ==> match #[trigger] self.sub_cost_by_ref@[r] {
                None => true,
                Some(row) => row_sorted(row@),
            }
    }

    /// The cost that the model lists for hearing `oid` where `rid` stands.
    pub open spec fn listed(self, rid: u32, oid: u32) -> Option<S> {
        if rid < self.sub_cost_by_ref@.len() {
            match self.sub_cost_by_ref@[rid as int] {
                None => None,
                Some(row) => listed_in_row(row@, oid),
            }
        } else {
            None
        }
    }

    pub fn listed_cost(&self, rid: u32, oid: u32) -> (r: Option<S>)
        requires
            self.wf(),
        ensures
            r == self.listed(rid, oid),
    {
        if rid as usize >= self.sub_cost_by_ref.len() {
            return None;
        }
        match &self.sub_cost_by_ref[rid as usize] {
            None => None,
            Some(row) => find_in_row(row, oid),
        }
    }
}

fn find_in_row<S: Scalar>(row: &Vec<HeardCost<S>>, oid: u32) -> (r: Option<S>)
    requires
        row_sorted(row@),
    ensures
        r == listed_in_row(row@, oid),
{
    let mut lo: usize = 0;
    let mut hi: usize = row.len();
    while lo < hi
        invariant
            lo <= hi <= row@.len(),
            row_sorted(row@),
            forall|i: int| 0 <= i < lo ==> (#[trigger] row@[i]).oid < oid,
            forall|i: int| hi <= i < row@.len() ==> (#[trigger] row@[i]).oid >= oid,
        decreases hi - lo,
    {
        let mid: usize = lo + (hi - lo) / 2;
        if row[mid].oid < oid {
            lo = mid + 1;
        } else {
            hi = mid;
        }
    }
    proof {
        lemma_listed_behind(row@, oid, lo as int);
    }
    if lo < row.len() && row[lo].oid == oid {
        assert(row@.skip(lo as int)[0] == row@[lo as int]);
        Some(row[lo].cost)
    } else {
        proof {
            lemma_listed_behind(row@, oid, row@.len() as int);
        }
        None
    }
}

// ---------------------------------------------------------------------------
// Words without a listed cost

/// The word with the number `id`; empty where there is none.
pub open spec fn word_of(words: Seq<String>, id: u32) -> Seq<char> {
    if id < words.len() {
        words[id as int]@
    } else {
        Seq::empty()
    }
}

/// No word is too long to be counted in an `i32`.
pub open spec fn words_fit(words: Seq<String>) -> bool {
    forall|i: int| 0 <= i < words.len() ==> (#[trigger] words[i])@.len() <= i32::MAX
}

/// How alike two words look that begin with the same character and differ by
/// at most three characters in length; `None` for all others.
pub open spec fn likeness(words: Seq<String>, rid: u32, oid: u32) -> Option<Option<(nat, nat)>> {
    let r = word_of(words, rid);
    let o = word_of(words, oid);
    if r.len() == 0 || o.len() == 0 {
        None
    } else if r[0] != o[0] {
        None
    } else if r.len() - o.len() > 3 || o.len() - r.len() > 3 {
        None
    } else {
        Some(text::overlap_of(r, o, 3))
    }
}

/// What a likeness leaves of the cost of an arbitrary exchange.
pub open spec fn likeness_cost<S: Scalar>(fallback: S, like: Option<Option<(nat, nat)>>) -> S {
    match like {
        None => fallback,
        Some(counts) => scalar::max_spec(
            fallback.times_spec(
                S::whole_spec(1).minus_spec(S::milli_spec(600).times_spec(text::ratio_of::<S>(counts))),
            ),
            S::whole_spec(0),
        ),
    }
}

/// Three costs: of leaving out a reference word, of an additional heard word,
/// and of an arbitrary exchange.
pub open spec fn base_costs<S: Scalar>(conf: Option<ConfusionModel<S>>) -> (S, S, S) {
    match conf {
        None => (S::whole_spec(1), S::whole_spec(1), S::whole_spec(1)),
        Some(c) => (c.global_ref_del_cost, c.global_obs_ins_cost, c.fallback_sub_cost),
    }
}

/// The same word, and one of the vocabulary.
pub open spec fn is_hit(oid: u32, rid: u32) -> bool {
    oid == rid && oid != 0
}

/// The cost of hearing `oid` where `rid` stands.
pub open spec fn exchange_cost<S: Scalar>(
    conf: Option<ConfusionModel<S>>,
    words: Seq<String>,
    oid: u32,
    rid: u32,
) -> S {
    if is_hit(oid, rid) {
        S::whole_spec(0)
    } else {
        let listed = match conf {
            None => None,
            Some(c) => c.listed(rid, oid),
        };
        match listed {
            Some(cost) => cost,
            None => if oid == 0 || rid == 0 {
                base_costs(conf).2
            } else {
                likeness_cost(base_costs(conf).2, likeness(words, rid, oid))
            },
        }
    }
}

/// `lru::DefaultHasher`, the hasher of a cache. Nothing is claimed of it.
#[verifier::external_type_specification]
#[verifier::external_body]
pub struct ExDefaultHasher(lru::DefaultHasher);

/// `lru::LruCache`, a map that forgets the entry used least lately when it is
/// full. [`cache_contents`] and [`cache_room`] say what is known of one.
#[verifier::external_type_specification]
#[verifier::external_body]
#[verifier::reject_recursive_types(K)]
#[verifier::reject_recursive_types(V)]
#[verifier::reject_recursive_types(S)]
pub struct ExLruCache<K, V, S>(lru::LruCache<K, V, S>);

/// Likenesses that were worked out lately, by word numbers.
pub type LikenessCache = LruCache<u64, Option<Option<(usize, usize)>>>;

/// What a cache holds.
pub uninterp spec fn cache_contents(c: LikenessCache) -> Map<u64, Option<Option<(usize, usize)>>>;

/// How many entries a cache was made for.
pub uninterp spec fn cache_room(c: LikenessCache) -> nat;

/// `LruCache::new` gives an empty cache with room for `room` entries. It
/// allocates them at once, hence the bound.
#[verifier::external_body]
fn new_cache(room: usize) -> (c: LikenessCache)
    requires
        0 < room <= 1_000_000,
    ensures
        cache_contents(c).dom() == Set::<u64>::empty(),
        cache_room(c) == room,
{
    LruCache::new(std::num::NonZeroUsize::new(room).unwrap())
}

/// `LruCache::get` finds the value behind a key and leaves the contents as they
/// are.
#[verifier::external_body]
fn cache_get(c: &mut LikenessCache, key: u64) -> (r: Option<Option<Option<(usize, usize)>>>)
    ensures
        cache_contents(*final(c)) == cache_contents(*old(c)),
        cache_room(*final(c)) == cache_room(*old(c)),
        r is Some <==> cache_contents(*old(c)).dom().contains(key),
        r matches Some(v) ==> cache_contents(*old(c))[key] == v,
{
    c.get(&key).copied()
}

/// `LruCache::put` enters a value and keeps the other entries. Only when the
/// key is new and the cache is full does another entry leave.
#[verifier::external_body]
fn cache_put(c: &mut LikenessCache, key: u64, value: Option<Option<(usize, usize)>>)
    ensures
        cache_room(*final(c)) == cache_room(*old(c)),
        cache_contents(*final(c)).dom().contains(key),
        cache_contents(*final(c))[key] == value,
        cache_contents(*old(c)).dom().contains(key) || cache_contents(*old(c)).dom().len() < cache_room(*old(c)) ==>
            cache_contents(*final(c)) == cache_contents(*old(c)).insert(key, value),
        forall|q: u64| #[trigger] cache_contents(*final(c)).dom().contains(q) && q != key ==>
            cache_contents(*old(c)).dom().contains(q) && cache_contents(*final(c))[q] == cache_contents(*old(c))[q],
{
    c.put(key, value);
}

/// How many likenesses are remembered.
pub const REMEMBERED: usize = 200_000;

/// A pair of word numbers as one number.
pub open spec fn pair_key(rid: u32, oid: u32) -> int {
    rid * 0x1_0000_0000 + oid
}

spec fn as_counts(v: Option<Option<(usize, usize)>>) -> Option<Option<(nat, nat)>> {
    match v {
        None => None,
        Some(None) => Some(None),
        Some(Some(p)) => Some(Some((p.0 as nat, p.1 as nat))),
    }
}

/// Every entry is the likeness of the words that its key names.
pub closed spec fn cache_true(m: Map<u64, Option<Option<(usize, usize)>>>, words: Seq<String>) -> bool {
    forall|k: u64, rid: u32, oid: u32|
        #![trigger m.dom().contains(k), pair_key(rid, oid)]
        m.dom().contains(k) && k == pair_key(rid, oid) ==> as_counts(m[k]) == likeness(words, rid, oid)
}

/// Works out exchange costs, remembering likenesses.
pub struct ExchangeCosts {
    cache: LikenessCache,
}

impl ExchangeCosts {
    /// What is remembered is right for `words`.
    pub closed spec fn serves(self, words: Seq<String>) -> bool {
        cache_true(cache_contents(self.cache), words)
    }

    pub fn new(words: &[String]) -> (r: Self)
        ensures
            r.serves(words@),
    {
        ExchangeCosts { cache: new_cache(REMEMBERED) }
    }

    fn likeness_of(&mut self, words: &[String], rid: u32, oid: u32) -> (r: Option<Option<(usize, usize)>>)
        requires
            old(self).serves(words@),
            words_fit(words@),
        ensures
            final(self).serves(words@),
            as_counts(r) == likeness(words@, rid, oid),
    {
        let key: u64 = (rid as u64) * 0x1_0000_0000 + oid as u64;
        match cache_get(&mut self.cache, key) {
            Some(v) => {
                assert(key == pair_key(rid, oid));
                v
            },
            None => {
                let v = work_out_likeness(words, rid, oid);
                let ghost before = cache_contents(self.cache);
                cache_put(&mut self.cache, key, v);
                proof {
                    let after = cache_contents(self.cache);
                    assert forall|k: u64, r2: u32, o2: u32|
                        #![trigger after.dom().contains(k), pair_key(r2, o2)]
                        after.dom().contains(k) && k == pair_key(r2, o2) implies as_counts(after[k]) == likeness(
                        words@,
                        r2,
                        o2,
                    ) by {
                        if k == key {
                            assert(r2 == rid && o2 == oid);
                        } else {
                            assert(before.dom().contains(k));
                        }
                    }
                }
                v
            },
        }
    }

    /// The cost of hearing `oid` where `rid` stands.
    pub fn cost<S: Scalar>(
        &mut self,
        conf: Option<&ConfusionModel<S>>,
        words: &[String],
        oid: u32,
        rid: u32,
    ) -> (r: S)
        requires
            old(self).serves(words@),
            words_fit(words@),
            conf matches Some(c) ==> c.wf(),
        ensures
            final(self).serves(words@),
            r == exchange_cost(
                match conf {
                    None => None,
                    Some(c) => Some(*c),
                },
                words@,
                oid,
                rid,
            ),
    {
        if oid == rid && oid != 0 {
            return S::whole(0);
        }
        let listed = match conf {
            None => None,
            Some(c) => c.listed_cost(rid, oid),
        };
        let fallback: S = match conf {
            None => S::whole(1),
            Some(c) => c.fallback_sub_cost,
        };
        match listed {
            Some(cost) => cost,
            None => if oid == 0 || rid == 0 {
                fallback
            } else {
                match self.likeness_of(words, rid, oid) {
                    None => fallback,
                    Some(counts) => {
                        let share: S = match counts {
                            None => S::whole(0),
                            Some(p) => S::whole(p.0 as u64).over(S::whole(p.1 as u64)),
                        };
                        scalar::max_of(
                            fallback.times(S::whole(1).minus(S::milli(600).times(share))),
                            S::whole(0),
                        )
                    },
                }
            },
        }
    }
}

fn word_at(words: &[String], id: u32) -> (r: &str)
    ensures
        r@ == word_of(words@, id),
{
    if (id as usize) < words.len() {
        words[id as usize].as_str()
    } else {
        proof {
            reveal_strlit("");
        }
        assert(""@ =~= Seq::<char>::empty());
        ""
    }
}

fn work_out_likeness(words: &[String], rid: u32, oid: u32) -> (r: Option<Option<(usize, usize)>>)
    requires
        words_fit(words@),
    ensures
        as_counts(r) == likeness(words@, rid, oid),
{
    let rt = word_at(words, rid);
    let ot = word_at(words, oid);
    let rl: usize = rt.unicode_len();
    let ol: usize = ot.unicode_len();
    if rl == 0 || ol == 0 {
        return None;
    }
    if rt.get_char(0) != ot.get_char(0) {
        return None;
    }
    if (rl > ol && rl - ol > 3) || (ol > rl && ol - rl > 3) {
        return None;
    }
    Some(text::ngram_overlap(rt, ot, 3))
}

// ---------------------------------------------------------------------------
// Laws

/// Hearing a word of the vocabulary right costs nothing; only that is a hit.
pub proof fn law_hits_cost_nothing<S: Scalar>(conf: Option<ConfusionModel<S>>, words: Seq<String>, oid: u32, rid: u32)
    ensures
        oid == rid && oid != 0 ==> exchange_cost(conf, words, oid, rid) == S::whole_spec(0),
        is_hit(oid, rid) <==> oid == rid && oid != 0,
{
}

/// A listed exchange of two different words costs what is listed. Another one costs the
/// fallback in full where a word is unknown, where the words begin with different
/// letters, or where their lengths differ by more than three.
pub proof fn law_exchanges_cost<S: Scalar>(conf: Option<ConfusionModel<S>>, words: Seq<String>, oid: u32, rid: u32)
    requires
        oid != rid || oid == 0,
    ensures
        ({
            let fallback = match conf {
                None => S::whole_spec(1),
                Some(c) => c.fallback_sub_cost,
            };
            let listed = match conf {
                None => None,
                Some(c) => c.listed(rid, oid),
            };
            let r = word_of(words, rid);
            let o = word_of(words, oid);
            &&& listed matches Some(c) ==> exchange_cost(conf, words, oid, rid) == c
            &&& listed is None && (oid == 0 || rid == 0 || r.len() == 0 || o.len() == 0 || r[0] != o[0] || r.len()
                > o.len() + 3 || o.len() > r.len() + 3) ==> exchange_cost(conf, words, oid, rid) == fallback
        }),
{
}

/// Other words cost less than the fallback the more they are alike: six tenths less
/// where all their windows are shared, and nothing less where none is.
pub proof fn law_alike_words_cost_less(
    fallback: scalar::Thousandths,
    shared: nat,
    all: nat,
)
    requires
        0 <= fallback.count <= 1_000_000,
        shared <= all <= 1_000_000,
        0 < all,
    ensures
        ({
            let cost = likeness_cost(fallback, Some(Some((shared, all)))).count;
            &&& 0 <= cost <= fallback.count
            &&& shared == 0 ==> cost == fallback.count
            &&& shared == all ==> cost == (fallback.count * 400) / 1000
            &&& likeness_cost(fallback, Some(None)).count == fallback.count
            &&& likeness_cost(fallback, None).count == fallback.count
        }),
{
    let a = shared as int;
    let b = all as int;
    vstd::arithmetic::div_mod::lemma_div_multiples_vanish_quotient(1000, a * 1000, b);
    assert(1000 * (a * 1000) == a * 1000 * 1000 && 1000 * b == b * 1000);
    let q = (a * 1000) / b;
    assert(0 <= q <= 1000) by (nonlinear_arith)
        requires
            q == (a * 1000) / b,
            0 <= a <= b,
            0 < b,
    ;
    assert(a == b ==> q == 1000) by (nonlinear_arith)
        requires
            q == (a * 1000) / b,
            0 < b,
    ;
    assert(a == 0 ==> q == 0) by (nonlinear_arith)
        requires
            q == (a * 1000) / b,
            0 < b,
    ;
    let f = fallback.count as int;
    let cut = (600 * q) / 1000;
    let rest = 1000 - cut;
    assert(text::ratio_of::<scalar::Thousandths>(Some((shared, all))).count == q);
    assert(0 <= f * rest <= f * 1000) by (nonlinear_arith)
        requires
            0 <= f,
            400 <= rest <= 1000,
    ;
    assert(cut == 0 ==> (f * rest) / 1000 == f);
    assert(cut == 600 ==> f * rest == f * 400);
    let one = scalar::Thousandths::whole_spec(1).minus_spec(
        scalar::Thousandths::milli_spec(600).times_spec(text::ratio_of::<scalar::Thousandths>(Some((shared, all)))),
    );
    assert(one.count == rest);
    let none = scalar::Thousandths::whole_spec(1).minus_spec(
        scalar::Thousandths::milli_spec(600).times_spec(text::ratio_of::<scalar::Thousandths>(None)),
    );
    assert(none.count == 1000);
}

/// The more windows two words share, the less their exchange costs.
pub proof fn law_more_alike_is_cheaper(fallback: scalar::Thousandths, s1: nat, s2: nat, all: nat)
    requires
        0 <= fallback.count <= 1_000_000,
        s1 <= s2 <= all <= 1_000_000,
        0 < all,
    ensures
        likeness_cost(fallback, Some(Some((s2, all)))).count <= likeness_cost(fallback, Some(Some((s1, all)))).count,
{
    law_alike_words_cost_less(fallback, s1, all);
    law_alike_words_cost_less(fallback, s2, all);
    let b = all as int;
    vstd::arithmetic::div_mod::lemma_div_multiples_vanish_quotient(1000, s1 as int * 1000, b);
    vstd::arithmetic::div_mod::lemma_div_multiples_vanish_quotient(1000, s2 as int * 1000, b);
    assert(1000 * b == b * 1000);
    let q1 = (s1 as int * 1000) / b;
    let q2 = (s2 as int * 1000) / b;
    assert(0 <= q1 <= q2 <= 1000) by (nonlinear_arith)
        requires
            q1 == (s1 as int * 1000) / b,
            q2 == (s2 as int * 1000) / b,
            s1 <= s2 <= b,
            0 < b,
    ;
    let f = fallback.count as int;
    let r1 = 1000 - (600 * q1) / 1000;
    let r2 = 1000 - (600 * q2) / 1000;
    assert(text::ratio_of::<scalar::Thousandths>(Some((s1, all))).count == q1);
    assert(text::ratio_of::<scalar::Thousandths>(Some((s2, all))).count == q2);
    assert(0 <= f * r2 <= f * r1 <= f * 1000) by (nonlinear_arith)
        requires
            0 <= f,
            0 <= r2 <= r1 <= 1000,
    ;
    let one1 = scalar::Thousandths::whole_spec(1).minus_spec(
        scalar::Thousandths::milli_spec(600).times_spec(text::ratio_of::<scalar::Thousandths>(Some((s1, all)))),
    );
    let one2 = scalar::Thousandths::whole_spec(1).minus_spec(
        scalar::Thousandths::milli_spec(600).times_spec(text::ratio_of::<scalar::Thousandths>(Some((s2, all)))),
    );
    assert(one1.count == r1 && one2.count == r2);
}

/// Two words that begin alike and whose lengths differ by no more than three are compared
/// by their windows of three letters.
pub proof fn law_similar_words_are_compared(words: Seq<String>, rid: u32, oid: u32)
    ensures
        ({
            let r = word_of(words, rid);
            let o = word_of(words, oid);
            r.len() > 0 && o.len() > 0 && r[0] == o[0] && r.len() <= o.len() + 3 && o.len() <= r.len() + 3 ==> likeness(
                words,
                rid,
                oid,
            ) == Some(text::overlap_of(r, o, 3))
        }),
{
}

/// What is listed for a word in a row is the cost of its first entry.
pub proof fn law_first_listed_cost_counts<S>(row: Seq<HeardCost<S>>, oid: u32, i: int)
    requires
        0 <= i <= row.len(),
        forall|j: int| 0 <= j < i ==> (#[trigger] row[j]).oid != oid,
        i < row.len() ==> row[i].oid == oid,
    ensures
        i < row.len() ==> listed_in_row(row, oid) == Some(row[i].cost),
        i == row.len() ==> listed_in_row(row, oid) is None,
    decreases row.len(),
{
    if i > 0 {
        assert(row[0].oid != oid);
        let rest = row.skip(1);
        assert forall|j: int| 0 <= j < i - 1 implies (#[trigger] rest[j]).oid != oid by {
            assert(rest[j] == row[j + 1]);
        }
        law_first_listed_cost_counts(rest, oid, i - 1);
    }
}

/// A cost is listed in the row of the word that stands in the text.
pub proof fn law_costs_are_listed_by_word<S: Scalar>(c: ConfusionModel<S>, rid: u32, oid: u32)
    ensures
        rid >= c.sub_cost_by_ref@.len() ==> c.listed(rid, oid) is None,
        rid < c.sub_cost_by_ref@.len() && c.sub_cost_by_ref@[rid as int] is None ==> c.listed(rid, oid) is None,
        rid < c.sub_cost_by_ref@.len() ==> (c.sub_cost_by_ref@[rid as int] matches Some(row) ==> c.listed(rid, oid)
            == listed_in_row(row@, oid)),
{
}

} // verus!
