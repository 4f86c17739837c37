//! The reference text, its indexes and the costs of confusions, as they are put
//! together from the files of an asset directory.

use std::collections::HashMap;

use vstd::hash_map::StringHashMap;
use vstd::prelude::*;

use crate::chars;
use crate::confusion;
use crate::confusion::{ConfusionModel, HeardCost};
use crate::json::Json;
use crate::npy::NpyMemmap;
use crate::scalar;
use crate::scalar::Scalar;
use crate::sorting;
use crate::sorting::Keyed;

verus! {

impl<S: Scalar> Keyed for HeardCost<S> {
    open spec fn key(self) -> (int, int) {
        (self.oid as int, 0)
    }

    fn before(&self, other: &Self) -> (r: bool) {
        self.oid < other.oid
    }
}

// ---------------------------------------------------------------------------
// Costs of confusions

/// The number behind `name` among the defaults, or `other`.
pub open spec fn default_of<S: Scalar>(obj: Json<S>, name: Seq<char>, other: S) -> S {
    match obj.field2("defaults"@, name) {
        None => other,
        Some(v) => match v.real_spec() {
            None => other,
            Some(x) => x,
        },
    }
}

/// `x`, but no more than a positive cap, which counts for at least 0.05.
pub open spec fn capped<S: Scalar>(x: S, cap: Option<S>) -> S {
    match cap {
        None => x,
        Some(c) => if S::whole_spec(0).rank() < c.rank() {
            scalar::min_spec(x, scalar::max_spec(c, S::milli_spec(50)))
        } else {
            x
        },
    }
}

/// A heard word and its cost; `None` for what is no list of two.
pub open spec fn pair_of<S: Scalar>(v: Json<S>, fallback: S) -> Option<HeardCost<S>> {
    match v.list_spec() {
        None => None,
        Some(p) => if p.len() != 2 {
            None
        } else {
            Some(
                HeardCost {
                    oid: match p[0] {
                        Json::Number { unsigned: Some(n), signed, value } => n as u32,
                        _ => 0u32,
                    },
                    cost: match p[1].real_spec() {
                        Some(c) => c,
                        None => fallback,
                    },
                },
            )
        },
    }
}

/// The pairs among `items`.
pub open spec fn pairs_of<S: Scalar>(items: Seq<Json<S>>, fallback: S) -> Seq<HeardCost<S>>
    decreases items.len(),
{
    if items.len() == 0 {
        Seq::empty()
    } else {
        match pair_of(items.last(), fallback) {
            None => pairs_of(items.drop_last(), fallback),
            Some(p) => pairs_of(items.drop_last(), fallback).push(p),
        }
    }
}

/// The rows that the entries of `sub_cost` give for `n` reference words. Later
/// entries for a word replace earlier ones; entries without pairs are passed
/// over.
pub open spec fn rows_of<S: Scalar>(entries: Seq<(String, Json<S>)>, n: nat, fallback: S) -> Seq<
    Option<Seq<HeardCost<S>>>,
>
    decreases entries.len(),
{
    if entries.len() == 0 {
        Seq::new(n, |i: int| None)
    } else {
        let before = rows_of(entries.drop_last(), n, fallback);
        let e = entries.last();
        match chars::spelled_number(e.0@, usize::MAX as nat) {
            None => before,
            Some(rid) => if rid >= n {
                before
            } else {
                match e.1.list_spec() {
                    None => before,
                    Some(items) => {
                        let pairs = pairs_of(items, fallback);
                        if pairs.len() == 0 {
                            before
                        } else {
                            before.update(rid as int, Some(sorting::sorted(pairs)))
                        }
                    },
                }
            },
        }
    }
}

pub open spec fn sub_cost_entries<S: Scalar>(obj: Json<S>) -> Seq<(String, Json<S>)> {
    match obj.field("sub_cost"@) {
        Some(Json::Object(entries)) => entries@,
        _ => Seq::empty(),
    }
}

/// What the rows of a model hold.
pub open spec fn row_views<S>(rows: Seq<Option<Vec<HeardCost<S>>>>) -> Seq<Option<Seq<HeardCost<S>>>> {
    rows.map_values(
        |r: Option<Vec<HeardCost<S>>>|
            match r {
                None => None,
                Some(v) => Some(v@),
            },
    )
}

fn read_default<S: Scalar>(obj: &Json<S>, name: &str, other: S) -> (r: S)
    ensures
        r == default_of(*obj, name@, other),
{
    match obj.get("defaults") {
        None => other,
        Some(d) => match d.get(name) {
            None => other,
            Some(v) => match v.as_f64() {
                None => other,
                Some(x) => x,
            },
        },
    }
}

fn apply_cap<S: Scalar>(x: S, cap: Option<S>) -> (r: S)
    ensures
        r == capped(x, cap),
{
    match cap {
        None => x,
        Some(c) => if S::whole(0).below(c) {
            scalar::min_of(x, scalar::max_of(c, S::milli(50)))
        } else {
            x
        },
    }
}

fn read_pair<S: Scalar>(v: &Json<S>, fallback: S) -> (r: Option<HeardCost<S>>)
    ensures
        r == pair_of(*v, fallback),
{
    match v.as_array() {
        None => None,
        Some(p) => {
            if p.len() != 2 {
                return None;
            }
            let oid: u32 = match p[0].as_u64() {
                Some(n) => n as u32,
                None => 0,
            };
            let cost: S = match p[1].as_f64() {
                Some(c) => c,
                None => fallback,
            };
            Some(HeardCost { oid, cost })
        },
    }
}

fn read_pairs<S: Scalar>(items: &Vec<Json<S>>, fallback: S) -> (r: Vec<HeardCost<S>>)
    ensures
        r@ == pairs_of(items@, fallback),
{
    let mut out: Vec<HeardCost<S>> = Vec::new();
    let mut i: usize = 0;
    while i < items.len()
        invariant
            i <= items@.len(),
            out@ == pairs_of(items@.take(i as int), fallback),
        decreases items@.len() - i,
    {
        assert(items@.take(i as int + 1).drop_last() =~= items@.take(i as int));
        match read_pair(&items[i], fallback) {
            None => {},
            Some(p) => {
                out.push(p);
            },
        }
        i = i + 1;
    }
    assert(items@.take(items@.len() as int) =~= items@);
    out
}

impl<S: Scalar> ConfusionModel<S> {
    /// The model in a parsed `confusions.json`, for a vocabulary of
    /// `vocab_size` words. The caps bound the two global costs.
    pub fn load(
        obj: &Json<S>,
        vocab_size: usize,
        ref_del_cost_cap: Option<S>,
        obs_ins_cost_cap: Option<S>,
    ) -> (r: Self)
        requires
            vocab_size < usize::MAX,
        ensures
            r.wf(),
            r.vocab_size == vocab_size,
            r.global_ref_del_cost == capped(
                default_of(*obj, "global_ref_del_cost"@, S::whole_spec(2)),
                ref_del_cost_cap,
            ),
            r.global_obs_ins_cost == capped(
                default_of(*obj, "global_obs_ins_cost"@, S::whole_spec(2)),
                obs_ins_cost_cap,
            ),
            r.fallback_sub_cost == scalar::clamp_spec(
                default_of(*obj, "fallback_sub_cost"@, S::milli_spec(2500)),
                S::milli_spec(250),
                S::whole_spec(5),
            ),
            row_views(r.sub_cost_by_ref@) == rows_of(
                sub_cost_entries(*obj),
                (vocab_size + 1) as nat,
                r.fallback_sub_cost,
            ),
    {
        let fallback: S = scalar::clamp_to(
            read_default(obj, "fallback_sub_cost", S::milli(2500)),
            S::milli(250),
            S::whole(5),
        );
        let n: usize = vocab_size + 1;
        let mut rows: Vec<Option<Vec<HeardCost<S>>>> = Vec::new();
        let mut k: usize = 0;
        while k < n
            invariant
                k <= n,
                rows@.len() == k,
                forall|j: int| 0 <= j < k ==> #[trigger] rows@[j] is None,
            decreases n - k,
        {
            rows.push(None);
            k = k + 1;
        }
        let ghost entries = sub_cost_entries(*obj);
        assert(row_views(rows@) =~= rows_of(entries.take(0), n as nat, fallback));
        match obj.get("sub_cost") {
            Some(Json::Object(list)) => {
                assert(entries == list@);
                let mut i: usize = 0;
                while i < list.len()
                    invariant
                        i <= list@.len(),
                        entries == list@,
                        rows@.len() == n,
                        row_views(rows@) == rows_of(entries.take(i as int), n as nat, fallback),
                        forall|j: int|
                            0 <= j < rows@.len() ==> match #[trigger] rows@[j] {
                                None => true,
                                Some(row) => confusion::row_sorted(row@),
                            },
                    decreases list@.len() - i,
                {
                    proof {
                        assert(entries.take(i as int + 1).drop_last() =~= entries.take(i as int));
                        assert(entries.take(i as int + 1).last() == list@[i as int]);
                    }
                    let ghost before = rows@;
                    match chars::parse_usize(list[i].0.as_str()) {
                        None => {},
                        Some(rid) => {
                            if rid < n {
                                match list[i].1.as_array() {
                                    None => {},
                                    Some(items) => {
                                        let pairs = read_pairs(items, fallback);
                                        if pairs.len() > 0 {
                                            let row = sorting::sort(&pairs);
                                            proof {
                                                lemma_sorted_row(pairs@);
                                            }
                                            rows.set(rid, Some(row));
                                            assert(row_views(rows@) =~= row_views(before).update(
                                                rid as int,
                                                Some(row@),
                                            ));
                                        }
                                    },
                                }
                            }
                        },
                    }
                    i = i + 1;
                }
                assert(entries.take(i as int) =~= entries);
            },
            _ => {
                assert(entries.take(0) =~= entries);
            },
        }
        ConfusionModel {
            vocab_size,
            global_ref_del_cost: apply_cap(
                read_default(obj, "global_ref_del_cost", S::whole(2)),
                ref_del_cost_cap,
            ),
            global_obs_ins_cost: apply_cap(
                read_default(obj, "global_obs_ins_cost", S::whole(2)),
                obs_ins_cost_cap,
            ),
            fallback_sub_cost: fallback,
            sub_cost_by_ref: rows,
        }
    }
}

proof fn lemma_sorted_row<S: Scalar>(pairs: Seq<HeardCost<S>>)
    ensures
        confusion::row_sorted(sorting::sorted(pairs)),
{
    sorting::law_sorted_is_in_order(pairs);
    let row = sorting::sorted(pairs);
    assert forall|i: int, j: int| 0 <= i <= j < row.len() implies (#[trigger] row[i]).oid <= (#[trigger] row[j]).oid by {
        if i < j {
            assert(!sorting::key_before(row[j].key(), row[i].key()));
        }
    }
}

// ---------------------------------------------------------------------------
// The reference

/// The reference text word by word, and what is needed to find a transcript in
/// it. Words, verses and passages are numbered; verses are also known by the
/// numbers of their chapter and within it.
pub struct AlignmentAssetsV2<S> {
    pub assets_dir: String,
    pub version: String,
    pub id_to_token: Vec<String>,
    pub token_to_id: StringHashMap<u32>,
    pub ref_token_ids: NpyMemmap<u32>,
    pub ref_surah_id: NpyMemmap<u16>,
    pub ref_ayah_num: NpyMemmap<u16>,
    pub ref_ayah_global: NpyMemmap<u16>,
    pub ref_word_pos: NpyMemmap<u16>,
    pub ayah_token_start: NpyMemmap<u32>,
    pub ayah_token_end: NpyMemmap<u32>,
    pub token_idf: NpyMemmap<S>,
    pub stop_mask: Vec<bool>,
    pub inv_offsets: NpyMemmap<u32>,
    pub inv_positions: NpyMemmap<u32>,
    pub passages_start_ayah_global: NpyMemmap<u16>,
    pub passages_end_ayah_global: NpyMemmap<u16>,
    pub passages_simhash64: NpyMemmap<u64>,
    /// Half-precision numbers, as they are stored.
    pub passages_emb_f16: NpyMemmap<u16>,
    pub embedding_model_name: String,
    pub embedding_dim: usize,
    pub confusions: Option<ConfusionModel<S>>,
    /// Verse numbers by [`ayah_key`].
    pub ayah_key_to_global: HashMap<u32, u16>,
    pub ayah_global_to_key: Vec<(u16, u16)>,
}

/// What the elements of an array file are, and how many dimensions it has.
pub open spec fn format_of(name: Seq<char>) -> Option<(Seq<char>, nat)> {
    if name == "ref_ayah_global.npy"@
        || name == "ref_surah_id.npy"@
        || name == "ref_ayah_num.npy"@
        || name == "ref_word_pos.npy"@
        || name == "passages_start_ayah_global.npy"@
        || name == "passages_end_ayah_global.npy"@ {
        Some(("<u2"@, 1))
    } else if name == "ref_token_ids.npy"@
        || name == "ayah_token_start.npy"@
        || name == "ayah_token_end.npy"@
        || name == "stop_token_ids.npy"@
        || name == "inv_offsets.npy"@
        || name == "inv_positions.npy"@ {
        Some(("<u4"@, 1))
    } else if name == "passages_simhash64.npy"@ {
        Some(("<u8"@, 1))
    } else if name == "token_idf.npy"@ {
        Some(("<f4"@, 1))
    } else if name == "passages_emb_f16.npy"@ {
        Some(("<f2"@, 2))
    } else {
        None
    }
}

/// The format of an array file of an asset directory; none for other files.
pub fn array_format(name: &str) -> (r: Option<(&'static str, usize)>)
    ensures
        match r {
            None => format_of(name@) is None,
            Some((descr, ndim)) => format_of(name@) == Some((descr@, ndim as nat)),
        },
{
    if chars::same_text(name, "ref_ayah_global.npy")
        || chars::same_text(name, "ref_surah_id.npy")
        || chars::same_text(name, "ref_ayah_num.npy")
        || chars::same_text(name, "ref_word_pos.npy")
        || chars::same_text(name, "passages_start_ayah_global.npy")
        || chars::same_text(name, "passages_end_ayah_global.npy") {
        Some(("<u2", 1))
    } else if chars::same_text(name, "ref_token_ids.npy")
        || chars::same_text(name, "ayah_token_start.npy")
        || chars::same_text(name, "ayah_token_end.npy")
        || chars::same_text(name, "stop_token_ids.npy")
        || chars::same_text(name, "inv_offsets.npy")
        || chars::same_text(name, "inv_positions.npy") {
        Some(("<u4", 1))
    } else if chars::same_text(name, "passages_simhash64.npy") {
        Some(("<u8", 1))
    } else if chars::same_text(name, "token_idf.npy") {
        Some(("<f4", 1))
    } else if chars::same_text(name, "passages_emb_f16.npy") {
        Some(("<f2", 2))
    } else {
        None
    }
}

/// What the files of an asset directory hold.
pub struct RawAssets<S> {
    pub assets_dir: String,
    /// The last part of the directory's path.
    pub dir_name: String,
    pub meta: Json<S>,
    pub vocab: Json<S>,
    pub ref_token_ids: NpyMemmap<u32>,
    pub ref_surah_id: NpyMemmap<u16>,
    pub ref_ayah_num: NpyMemmap<u16>,
    pub ref_ayah_global: NpyMemmap<u16>,
    pub ref_word_pos: NpyMemmap<u16>,
    pub ayah_token_start: NpyMemmap<u32>,
    pub ayah_token_end: NpyMemmap<u32>,
    pub token_idf: NpyMemmap<S>,
    pub stop_token_ids: NpyMemmap<u32>,
    pub inv_offsets: NpyMemmap<u32>,
    pub inv_positions: NpyMemmap<u32>,
    pub passages_start_ayah_global: NpyMemmap<u16>,
    pub passages_end_ayah_global: NpyMemmap<u16>,
    pub passages_simhash64: NpyMemmap<u64>,
    pub passages_emb_f16: NpyMemmap<u16>,
    pub confusions: Option<Json<S>>,
}

#[derive(Clone, Copy, Debug, PartialEq, Eq, Structural)]
pub enum AssetsError {
    /// `vocab.json` has no list `id_to_token`.
    MissingTokens,
    /// The list is empty.
    NoTokens,
}

/// A verse's chapter and number within it as one number.
pub open spec fn ayah_key_spec(surah: u16, ayah: u16) -> u32 {
    (surah * 0x1_0000 + ayah) as u32
}

pub fn ayah_key(surah: u16, ayah: u16) -> (r: u32)
    ensures
        r == ayah_key_spec(surah, ayah),
{
    surah as u32 * 0x1_0000 + ayah as u32
}

/// Different verses have different keys.
pub proof fn law_ayah_keys_differ(s1: u16, a1: u16, s2: u16, a2: u16)
    requires
        ayah_key_spec(s1, a1) == ayah_key_spec(s2, a2),
    ensures
        s1 == s2 && a1 == a2,
{
}

/// The texts of a list; empty for what is no text.
pub open spec fn texts_of<S: Scalar>(items: Seq<Json<S>>) -> Seq<Seq<char>> {
    items.map_values(|v: Json<S>| Json::text_or_empty(Some(v)))
}

/// The numbers of the words. Of equal words the last number counts; empty words
/// have none.
pub open spec fn token_numbers(words: Seq<Seq<char>>) -> Map<Seq<char>, u32>
    decreases words.len(),
{
    if words.len() == 0 {
        Map::empty()
    } else {
        let before = token_numbers(words.drop_last());
        if words.last().len() == 0 {
            before
        } else {
            before.insert(words.last(), (words.len() - 1) as u32)
        }
    }
}

/// For each of `n` words whether `stops` names it.
pub open spec fn mask_of(n: nat, stops: Seq<u32>) -> Seq<bool> {
    Seq::new(n, |i: int| exists|k: int| 0 <= k < stops.len() && #[trigger] stops[k] == i)
}

/// How many verses there are: the table of first words has one entry more in
/// front and one behind.
pub open spec fn verse_count(starts: Seq<u32>) -> nat {
    if starts.len() < 2 {
        0
    } else {
        (starts.len() - 2) as nat
    }
}

/// Chapter and number of verse `g`, read off its first word.
pub open spec fn verse_name(starts: Seq<u32>, surahs: Seq<u16>, ayahs: Seq<u16>, g: int) -> Option<(u16, u16)> {
    let at = starts[g] as int;
    if at < surahs.len() && at < ayahs.len() {
        Some((surahs[at], ayahs[at]))
    } else {
        None
    }
}

/// The numbers of the first `k` verses by their keys. Of verses with the same
/// key the last counts.
pub open spec fn verse_numbers(starts: Seq<u32>, surahs: Seq<u16>, ayahs: Seq<u16>, k: nat) -> Map<u32, u16>
    decreases k,
{
    if k == 0 {
        Map::empty()
    } else {
        let before = verse_numbers(starts, surahs, ayahs, (k - 1) as nat);
        match verse_name(starts, surahs, ayahs, k as int) {
            None => before,
            Some(n) => before.insert(ayah_key_spec(n.0, n.1), k as u16),
        }
    }
}

/// Chapter and number of each verse; zeros where they are not known.
pub open spec fn verse_names(starts: Seq<u32>, surahs: Seq<u16>, ayahs: Seq<u16>) -> Seq<(u16, u16)> {
    Seq::new(
        verse_count(starts) + 1,
        |g: int|
            if g == 0 {
                (0u16, 0u16)
            } else {
                match verse_name(starts, surahs, ayahs, g) {
                    None => (0u16, 0u16),
                    Some(n) => n,
                }
            },
    )
}

fn read_words<S: Scalar>(items: &Vec<Json<S>>) -> (r: Vec<String>)
    ensures
        chars::views(r@) == texts_of(items@),
{
    let mut out: Vec<String> = Vec::new();
    let mut i: usize = 0;
    while i < items.len()
        invariant
            i <= items@.len(),
            chars::views(out@) == texts_of(items@).take(i as int),
        decreases items@.len() - i,
    {
        let word = match items[i].as_str() {
            None => String::new(),
            Some(t) => t.to_owned(),
        };
        let ghost before = chars::views(out@);
        out.push(word);
        proof {
            assert(word@ =~= texts_of(items@)[i as int]);
            assert(chars::views(out@) =~= before.push(word@));
            assert(texts_of(items@).take(i as int + 1) =~= texts_of(items@).take(i as int).push(word@));
        }
        i = i + 1;
    }
    assert(texts_of(items@).take(i as int) =~= texts_of(items@));
    out
}

fn number_words(words: &Vec<String>) -> (r: StringHashMap<u32>)
    ensures
        r@ == token_numbers(chars::views(words@)),
{
    let ghost all = chars::views(words@);
    let mut map: StringHashMap<u32> = StringHashMap::new();
    let mut i: usize = 0;
    assert(all.take(0) =~= Seq::<Seq<char>>::empty());
    while i < words.len()
        invariant
            i <= words@.len(),
            all == chars::views(words@),
            map@ == token_numbers(all.take(i as int)),
        decreases words@.len() - i,
    {
        assert(all.take(i as int + 1).drop_last() =~= all.take(i as int));
        assert(all.take(i as int + 1).last() == words@[i as int]@);
        if words[i].as_str().unicode_len() > 0 {
            map.insert(words[i].clone(), i as u32);
        }
        i = i + 1;
    }
    assert(all.take(i as int) =~= all);
    map
}

fn mark_stops(n: usize, stops: &[u32]) -> (r: Vec<bool>)
    ensures
        r@ == mask_of(n as nat, stops@),
{
    let mut mask: Vec<bool> = vec![false; n];
    let mut k: usize = 0;
    while k < stops.len()
        invariant
            k <= stops@.len(),
            mask@.len() == n,
            forall|i: int| 0 <= i < n ==> #[trigger] mask@[i] == (exists|j: int| 0 <= j < k && #[trigger] stops@[j] == i),
        decreases stops@.len() - k,
    {
        let id: usize = stops[k] as usize;
        let ghost before = mask@;
        if id < n {
            mask.set(id, true);
        }
        proof {
            assert forall|i: int| 0 <= i < n implies #[trigger] mask@[i] == (exists|j: int|
                0 <= j < k + 1 && #[trigger] stops@[j] == i) by {
                if i == id {
                    assert(stops@[k as int] == i);
                } else if before[i] {
                    let j = choose|j: int| 0 <= j < k && #[trigger] stops@[j] == i;
                    assert(0 <= j < k + 1 && stops@[j] == i);
                } else if exists|j: int| 0 <= j < k + 1 && #[trigger] stops@[j] == i {
                    let j = choose|j: int| 0 <= j < k + 1 && #[trigger] stops@[j] == i;
                    assert(j < k);
                }
            }
        }
        k = k + 1;
    }
    assert(mask@ =~= mask_of(n as nat, stops@));
    mask
}

fn name_verses(starts: &[u32], surahs: &[u16], ayahs: &[u16]) -> (r: (HashMap<u32, u16>, Vec<(u16, u16)>))
    ensures
        r.0@ == verse_numbers(starts@, surahs@, ayahs@, verse_count(starts@)),
        r.1@ == verse_names(starts@, surahs@, ayahs@),
{
    broadcast use vstd::std_specs::hash::group_hash_axioms;

    let total: usize = if starts.len() < 2 {
        0
    } else {
        starts.len() - 2
    };
    let mut numbers: HashMap<u32, u16> = HashMap::new();
    let mut names: Vec<(u16, u16)> = Vec::new();
    names.push((0, 0));
    let ghost all = verse_names(starts@, surahs@, ayahs@);
    assert(names@ =~= all.take(1));
    let mut g: usize = 1;
    while g <= total
        invariant
            total == verse_count(starts@),
            total == 0 || total + 2 == starts@.len(),
            total < usize::MAX,
            1 <= g <= total + 1,
            all == verse_names(starts@, surahs@, ayahs@),
            numbers@ == verse_numbers(starts@, surahs@, ayahs@, (g - 1) as nat),
            names@ == all.take(g as int),
        decreases total + 1 - g,
    {
        broadcast use vstd::std_specs::hash::group_hash_axioms;

        let at: usize = starts[g] as usize;
        if at < surahs.len() && at < ayahs.len() {
            numbers.insert(ayah_key(surahs[at], ayahs[at]), g as u16);
            names.push((surahs[at], ayahs[at]));
        } else {
            names.push((0, 0));
        }
        assert(names@ =~= all.take(g as int + 1));
        g = g + 1;
    }
    assert(all.take(g as int) =~= all);
    (numbers, names)
}

impl<S: Scalar> AlignmentAssetsV2<S> {
    pub fn total_tokens(&self) -> (r: usize)
        ensures
            r == self.ref_token_ids.items().len(),
    {
        self.ref_token_ids.len()
    }

    pub fn total_ayahs(&self) -> (r: usize)
        ensures
            r == verse_count(self.ayah_token_start.items()),
    {
        let n: usize = self.ayah_token_start.len();
        if n < 2 {
            0
        } else {
            n - 2
        }
    }

    /// How many words the vocabulary has; number zero is none of them.
    pub fn vocab_size(&self) -> (r: usize)
        ensures
            r == (if self.id_to_token@.len() == 0 {
                0
            } else {
                self.id_to_token@.len() - 1
            }),
    {
        let n: usize = self.id_to_token.len();
        if n == 0 {
            0
        } else {
            n - 1
        }
    }

    /// Puts the contents of an asset directory together.
    pub fn load(raw: RawAssets<S>, ref_del_cost_cap: Option<S>, obs_ins_cost_cap: Option<S>) -> (r: Result<
        Self,
        AssetsError,
    >)
        ensures
            match raw.vocab.field("id_to_token"@) {
                Some(Json::List(items)) => if items@.len() == 0 {
                    r == Err::<Self, AssetsError>(AssetsError::NoTokens)
                } else {
                    r matches Ok(a) && a.is_loaded_from(raw, ref_del_cost_cap, obs_ins_cost_cap)
                },
                _ => r == Err::<Self, AssetsError>(AssetsError::MissingTokens),
            },
    {
        let id_to_token: Vec<String> = match raw.vocab.get("id_to_token") {
            Some(Json::List(items)) => read_words(items),
            _ => return Err(AssetsError::MissingTokens),
        };
        if id_to_token.len() == 0 {
            assert(chars::views(id_to_token@).len() == 0);
            return Err(AssetsError::NoTokens);
        }
        assert(chars::views(id_to_token@).len() == id_to_token@.len());
        let token_to_id = number_words(&id_to_token);
        let version: String = match raw.meta.get("version") {
            None => raw.dir_name.clone(),
            Some(v) => match v.as_str() {
                None => raw.dir_name.clone(),
                Some(t) => t.to_owned(),
            },
        };
        let embedding_model_name: String = match raw.meta.get("passages") {
            None => String::new(),
            Some(p) => p.text_field("embedding_model").to_owned(),
        };
        let embedding_dim: usize = match raw.meta.get("passages") {
            None => 0,
            Some(p) => match p.get("embedding_dim") {
                None => 0,
                Some(d) => match d.as_u64() {
                    None => 0,
                    Some(n) => n as usize,
                },
            },
        };
        let vocab_size: usize = id_to_token.len() - 1;
        let stop_mask = mark_stops(vocab_size + 1, raw.stop_token_ids.as_slice());
        let confusions: Option<ConfusionModel<S>> = match &raw.confusions {
            None => None,
            Some(obj) => Some(ConfusionModel::load(obj, vocab_size, ref_del_cost_cap, obs_ins_cost_cap)),
        };
        let (ayah_key_to_global, ayah_global_to_key) = name_verses(
            raw.ayah_token_start.as_slice(),
            raw.ref_surah_id.as_slice(),
            raw.ref_ayah_num.as_slice(),
        );
        Ok(
            AlignmentAssetsV2 {
                assets_dir: raw.assets_dir,
                version,
                id_to_token,
                token_to_id,
                ref_token_ids: raw.ref_token_ids,
                ref_surah_id: raw.ref_surah_id,
                ref_ayah_num: raw.ref_ayah_num,
                ref_ayah_global: raw.ref_ayah_global,
                ref_word_pos: raw.ref_word_pos,
                ayah_token_start: raw.ayah_token_start,
                ayah_token_end: raw.ayah_token_end,
                token_idf: raw.token_idf,
                stop_mask,
                inv_offsets: raw.inv_offsets,
                inv_positions: raw.inv_positions,
                passages_start_ayah_global: raw.passages_start_ayah_global,
                passages_end_ayah_global: raw.passages_end_ayah_global,
                passages_simhash64: raw.passages_simhash64,
                passages_emb_f16: raw.passages_emb_f16,
                embedding_model_name,
                embedding_dim,
                confusions,
                ayah_key_to_global,
                ayah_global_to_key,
            },
        )
    }

    /// These are the assets that the contents of a directory describe.
    pub open spec fn is_loaded_from(
        self,
        raw: RawAssets<S>,
        ref_del_cost_cap: Option<S>,
        obs_ins_cost_cap: Option<S>,
    ) -> bool {
        let words = texts_of(raw.vocab.field("id_to_token"@)->0->List_0@);
        &&& self.assets_dir == raw.assets_dir
        &&& self.version@ == (match raw.meta.field("version"@) {
            None => raw.dir_name@,
            Some(v) => match v.str_spec() {
                None => raw.dir_name@,
                Some(t) => t,
            },
        })
        &&& chars::views(self.id_to_token@) == words
        &&& self.token_to_id@ == token_numbers(words)
        &&& self.ref_token_ids == raw.ref_token_ids
        &&& self.ref_surah_id == raw.ref_surah_id
        &&& self.ref_ayah_num == raw.ref_ayah_num
        &&& self.ref_ayah_global == raw.ref_ayah_global
        &&& self.ref_word_pos == raw.ref_word_pos
        &&& self.ayah_token_start == raw.ayah_token_start
        &&& self.ayah_token_end == raw.ayah_token_end
        &&& self.token_idf == raw.token_idf
        &&& self.stop_mask@ == mask_of(words.len(), raw.stop_token_ids.items())
        &&& self.inv_offsets == raw.inv_offsets
        &&& self.inv_positions == raw.inv_positions
        &&& self.passages_start_ayah_global == raw.passages_start_ayah_global
        &&& self.passages_end_ayah_global == raw.passages_end_ayah_global
        &&& self.passages_simhash64 == raw.passages_simhash64
        &&& self.passages_emb_f16 == raw.passages_emb_f16
        &&& self.embedding_model_name@ == (match raw.meta.field("passages"@) {
            None => Seq::empty(),
            Some(p) => Json::text_or_empty(p.field("embedding_model"@)),
        })
        &&& self.embedding_dim == (match raw.meta.field2("passages"@, "embedding_dim"@) {
            Some(Json::Number { unsigned: Some(n), signed, value }) => n as usize,
            _ => 0,
        })
        &&& match raw.confusions {
            None => self.confusions is None,
            Some(obj) => self.confusions matches Some(c) && c.wf() && c.vocab_size == words.len() - 1
                && c.global_ref_del_cost == capped(
                default_of(obj, "global_ref_del_cost"@, S::whole_spec(2)),
                ref_del_cost_cap,
            ) && c.global_obs_ins_cost == capped(
                default_of(obj, "global_obs_ins_cost"@, S::whole_spec(2)),
                obs_ins_cost_cap,
            ) && c.fallback_sub_cost == scalar::clamp_spec(
                default_of(obj, "fallback_sub_cost"@, S::milli_spec(2500)),
                S::milli_spec(250),
                S::whole_spec(5),
            ) && row_views(c.sub_cost_by_ref@) == rows_of(sub_cost_entries(obj), words.len(), c.fallback_sub_cost),
        }
        &&& self.ayah_key_to_global@ == verse_numbers(
            raw.ayah_token_start.items(),
            raw.ref_surah_id.items(),
            raw.ref_ayah_num.items(),
            verse_count(raw.ayah_token_start.items()),
        )
        &&& self.ayah_global_to_key@ == verse_names(
            raw.ayah_token_start.items(),
            raw.ref_surah_id.items(),
            raw.ref_ayah_num.items(),
        )
    }
}

/// No number exceeds what an `i32` holds.
pub open spec fn fit_i32(v: Seq<u32>) -> bool {
    forall|i: int| 0 <= i < v.len() ==> (#[trigger] v[i]) <= i32::MAX
}

/// Every number is an index below `n`.
pub open spec fn indexes_below(v: Seq<u16>, n: nat) -> bool {
    forall|i: int| 0 <= i < v.len() ==> (#[trigger] v[i]) < n
}

impl<S: Scalar> AlignmentAssetsV2<S> {
    /// The tables refer to each other within their bounds.
    pub open spec fn wf(self) -> bool {
        &&& confusion::words_fit(self.id_to_token@)
        &&& self.confusions matches Some(c) ==> c.wf()
        &&& self.ref_token_ids.items().len() < i32::MAX
        &&& self.ref_surah_id.items().len() >= self.ref_token_ids.items().len()
        &&& self.ref_ayah_num.items().len() >= self.ref_token_ids.items().len()
        &&& self.ayah_token_start.items().len() <= i32::MAX
        &&& fit_i32(self.ayah_token_start.items())
        &&& fit_i32(self.ayah_token_end.items())
        &&& fit_i32(self.inv_positions.items())
        &&& self.passages_start_ayah_global.items().len() >= self.passages_simhash64.items().len()
        &&& self.passages_end_ayah_global.items().len() >= self.passages_simhash64.items().len()
        &&& self.passages_simhash64.items().len() > 0 ==> {
            &&& self.ayah_token_start.items().len() >= 2
            &&& self.ayah_token_end.items().len() >= self.ayah_token_start.items().len() - 1
            &&& indexes_below(
                self.passages_start_ayah_global.items(),
                self.ayah_token_start.items().len(),
            )
        }
    }

    /// Whether the tables refer to each other within their bounds. The costs of
    /// confusions have to be in order already, as loading leaves them.
    pub fn is_consistent(&self) -> (r: bool)
        requires
            self.confusions matches Some(c) ==> c.wf(),
        ensures
            r == self.wf(),
    {
        if self.ref_token_ids.len() >= i32::MAX as usize {
            return false;
        }
        if self.ref_surah_id.len() < self.ref_token_ids.len() || self.ref_ayah_num.len() < self.ref_token_ids.len() {
            return false;
        }
        if self.ayah_token_start.len() > i32::MAX as usize {
            return false;
        }
        if self.passages_start_ayah_global.len() < self.passages_simhash64.len()
            || self.passages_end_ayah_global.len() < self.passages_simhash64.len() {
            return false;
        }
        if self.passages_simhash64.len() > 0 {
            if self.ayah_token_start.len() < 2 || self.ayah_token_end.len() < self.ayah_token_start.len() - 1 {
                return false;
            }
            if !all_below(self.passages_start_ayah_global.as_slice(), self.ayah_token_start.len()) {
                return false;
            }
        }
        all_fit(self.ayah_token_start.as_slice()) && all_fit(self.ayah_token_end.as_slice()) && all_fit(
            self.inv_positions.as_slice(),
        ) && all_words_fit(&self.id_to_token)
    }
}

fn all_fit(v: &[u32]) -> (r: bool)
    ensures
        r == fit_i32(v@),
{
    let mut i: usize = 0;
    while i < v.len()
        invariant
            i <= v@.len(),
            forall|k: int| 0 <= k < i ==> (#[trigger] v@[k]) <= i32::MAX,
        decreases v@.len() - i,
    {
        if v[i] > i32::MAX as u32 {
            assert(v@[i as int] > i32::MAX);
            return false;
        }
        i = i + 1;
    }
    true
}

fn all_below(v: &[u16], n: usize) -> (r: bool)
    ensures
        r == indexes_below(v@, n as nat),
{
    let mut i: usize = 0;
    while i < v.len()
        invariant
            i <= v@.len(),
            forall|k: int| 0 <= k < i ==> (#[trigger] v@[k]) < n,
        decreases v@.len() - i,
    {
        if v[i] as usize >= n {
            assert(v@[i as int] >= n);
            return false;
        }
        i = i + 1;
    }
    true
}

fn all_words_fit(v: &Vec<String>) -> (r: bool)
    ensures
        r == confusion::words_fit(v@),
{
    let mut i: usize = 0;
    while i < v.len()
        invariant
            i <= v@.len(),
            forall|k: int| 0 <= k < i ==> (#[trigger] v@[k])@.len() <= i32::MAX,
        decreases v@.len() - i,
    {
        if v[i].as_str().unicode_len() > i32::MAX as usize {
            assert(v@[i as int]@.len() > i32::MAX);
            return false;
        }
        i = i + 1;
    }
    true
}

// ---------------------------------------------------------------------------
// Laws

/// A word has the number of the last place at which it stands in the vocabulary; empty
/// words and words that do not stand there have none.
pub proof fn law_words_have_their_place(words: Seq<Seq<char>>, w: Seq<char>, i: int)
    requires
        words.len() <= u32::MAX,
        0 <= i < words.len(),
        words[i] == w,
        forall|j: int| i < j < words.len() ==> #[trigger] words[j] != w,
    ensures
        w.len() > 0 ==> token_numbers(words).contains_key(w) && token_numbers(words)[w] == i,
        w.len() == 0 ==> !token_numbers(words).contains_key(w),
    decreases words.len(),
{
    if w.len() == 0 {
        lemma_no_number(words, w);
    } else if i < words.len() - 1 {
        let d = words.drop_last();
        assert forall|j: int| i < j < d.len() implies #[trigger] d[j] != w by {
            assert(d[j] == words[j]);
        }
        assert(words[words.len() - 1] != w);
        law_words_have_their_place(d, w, i);
    }
}

proof fn lemma_no_number(words: Seq<Seq<char>>, w: Seq<char>)
    requires
        w.len() == 0 || !words.contains(w),
    ensures
        !token_numbers(words).contains_key(w),
    decreases words.len(),
{
    if words.len() > 0 {
        let d = words.drop_last();
        if w.len() > 0 {
            assert forall|j: int| 0 <= j < d.len() implies d[j] != w by {
                assert(words[j] != w);
            }
            assert(words[words.len() - 1] != w);
        }
        lemma_no_number(d, w);
    }
}

/// Words that do not stand in the vocabulary have no number.
pub proof fn law_unknown_words_have_no_number(words: Seq<Seq<char>>, w: Seq<char>)
    requires
        !words.contains(w),
    ensures
        !token_numbers(words).contains_key(w),
{
    lemma_no_number(words, w);
}

/// A verse is found by its chapter and its number there: what is found is the last verse
/// so named.
pub proof fn law_verses_are_found_by_name(
    starts: Seq<u32>,
    surahs: Seq<u16>,
    ayahs: Seq<u16>,
    k: nat,
    g: int,
    surah: u16,
    ayah: u16,
)
    requires
        k <= u16::MAX,
        1 <= g <= k,
        verse_name(starts, surahs, ayahs, g) == Some((surah, ayah)),
        forall|j: int| g < j <= k ==> #[trigger] verse_name(starts, surahs, ayahs, j) != Some((surah, ayah)),
    ensures
        verse_numbers(starts, surahs, ayahs, k).contains_key(ayah_key_spec(surah, ayah)),
        verse_numbers(starts, surahs, ayahs, k)[ayah_key_spec(surah, ayah)] == g,
    decreases k,
{
    if g < k {
        law_verses_are_found_by_name(starts, surahs, ayahs, (k - 1) as nat, g, surah, ayah);
        match verse_name(starts, surahs, ayahs, k as int) {
            None => {},
            Some(n) => {
                if ayah_key_spec(n.0, n.1) == ayah_key_spec(surah, ayah) {
                    law_ayah_keys_differ(n.0, n.1, surah, ayah);
                }
            },
        }
    }
}

/// No other verse is found.
pub proof fn law_only_verses_are_found(
    starts: Seq<u32>,
    surahs: Seq<u16>,
    ayahs: Seq<u16>,
    k: nat,
    surah: u16,
    ayah: u16,
)
    requires
        forall|j: int| 1 <= j <= k ==> #[trigger] verse_name(starts, surahs, ayahs, j) != Some((surah, ayah)),
    ensures
        !verse_numbers(starts, surahs, ayahs, k).contains_key(ayah_key_spec(surah, ayah)),
    decreases k,
{
    if k > 0 {
        law_only_verses_are_found(starts, surahs, ayahs, (k - 1) as nat, surah, ayah);
        match verse_name(starts, surahs, ayahs, k as int) {
            None => {},
            Some(n) => {
                if ayah_key_spec(n.0, n.1) == ayah_key_spec(surah, ayah) {
                    law_ayah_keys_differ(n.0, n.1, surah, ayah);
                }
            },
        }
    }
}

/// A verse is named by its first word.
pub proof fn law_verses_are_named_by_their_first_word(starts: Seq<u32>, surahs: Seq<u16>, ayahs: Seq<u16>, g: int)
    requires
        1 <= g < starts.len() - 1,
        starts[g] < surahs.len(),
        starts[g] < ayahs.len(),
    ensures
        verse_names(starts, surahs, ayahs).len() == starts.len() - 1,
        verse_names(starts, surahs, ayahs)[g] == (surahs[starts[g] as int], ayahs[starts[g] as int]),
        verse_names(starts, surahs, ayahs)[0] == (0u16, 0u16),
{
}

/// A cap above zero limits a cost, though to no less than a twentieth; another cap does
/// nothing.
pub proof fn law_caps_limit_costs<S: Scalar>(x: S, cap: S)
    ensures
        capped(x, None) == x,
        cap.rank() <= S::whole_spec(0).rank() ==> capped(x, Some(cap)) == x,
        S::whole_spec(0).rank() < cap.rank() ==> {
            let c = capped(x, Some(cap));
            &&& c.rank() <= x.rank()
            &&& c.rank() <= cap.rank() || c.rank() <= S::milli_spec(50).rank()
            &&& c == x || c == cap || c == S::milli_spec(50)
            &&& x.rank() <= cap.rank() ==> c.rank() == x.rank()
            &&& cap.rank() < x.rank() && S::milli_spec(50).rank() <= cap.rank() ==> c.rank() == cap.rank()
        },
{
}

/// A word is stopped exactly if its number is listed.
pub proof fn law_listed_words_are_stopped(n: nat, stops: Seq<u32>, i: int)
    requires
        0 <= i < n,
        n <= u32::MAX,
    ensures
        mask_of(n, stops).len() == n,
        mask_of(n, stops)[i] <==> stops.contains(i as u32),
{
    if stops.contains(i as u32) {
        let k = choose|k: int| 0 <= k < stops.len() && stops[k] == i as u32;
        assert(stops[k] == i);
    }
    if mask_of(n, stops)[i] {
        let k = choose|k: int| 0 <= k < stops.len() && #[trigger] stops[k] == i;
        assert(stops[k] == i as u32);
    }
}

/// A table has a row for the words that an entry is named after, and for no others.
pub proof fn law_rows_belong_to_words<S: Scalar>(entries: Seq<(String, Json<S>)>, n: nat, fallback: S, rid: int)
    requires
        0 <= rid < n,
        n <= usize::MAX,
    ensures
        rows_of(entries, n, fallback).len() == n,
        (forall|i: int|
            0 <= i < entries.len() ==> chars::spelled_number((#[trigger] entries[i]).0@, usize::MAX as nat) != Some(
                rid as nat,
            )) ==> rows_of(entries, n, fallback)[rid] is None,
        entries.len() > 0 && chars::spelled_number(entries.last().0@, usize::MAX as nat) == Some(rid as nat) && (
        entries.last().1.list_spec() matches Some(items) && pairs_of(items, fallback).len() > 0) ==> {
            &&& rows_of(entries, n, fallback)[rid] matches Some(row)
            &&& row.to_multiset() == pairs_of(entries.last().1.list_spec()->0, fallback).to_multiset()
        },
    decreases entries.len(),
{
    if entries.len() > 0 {
        let d = entries.drop_last();
        law_rows_belong_to_words(d, n, fallback, rid);
        if forall|i: int|
            0 <= i < entries.len() ==> chars::spelled_number((#[trigger] entries[i]).0@, usize::MAX as nat) != Some(
                rid as nat,
            ) {
            assert forall|i: int| 0 <= i < d.len() implies chars::spelled_number(
                (#[trigger] d[i]).0@,
                usize::MAX as nat,
            ) != Some(rid as nat) by {
                assert(d[i] == entries[i]);
            }
            assert(entries.last() == entries[entries.len() - 1]);
        }
        if entries.last().1.list_spec() is Some {
            let pairs = pairs_of(entries.last().1.list_spec()->0, fallback);
            sorting::law_sorting_keeps_items(pairs);
        }
    }
}

/// A pair names a word and its cost; a cost that is no number is the fallback, and what
/// is no pair is passed over.
pub proof fn law_pairs_name_words_and_costs<S: Scalar>(v: Json<S>, fallback: S, items: Seq<Json<S>>)
    ensures
        v.list_spec() is None || v.list_spec()->0.len() != 2 ==> pair_of(v, fallback) is None && pairs_of(
            items.push(v),
            fallback,
        ) == pairs_of(items, fallback),
        v.list_spec() matches Some(p) && p.len() == 2 ==> {
            &&& pair_of(v, fallback) matches Some(h)
            &&& pairs_of(items.push(v), fallback) == pairs_of(items, fallback).push(h)
            &&& v.list_spec()->0[0] matches Json::Number { unsigned: Some(n), signed, value } ==> n <= u32::MAX ==> h.oid
                == n
            &&& v.list_spec()->0[1].real_spec() matches Some(c) ==> h.cost == c
            &&& v.list_spec()->0[1].real_spec() is None ==> h.cost == fallback
        },
{
    assert(items.push(v).drop_last() =~= items);
}

/// A default is the number of its name among the defaults, if there is one.
pub proof fn law_defaults_are_read<S: Scalar>(obj: Json<S>, name: Seq<char>, other: S)
    ensures
        obj.field("defaults"@) is None ==> default_of(obj, name, other) == other,
        obj.field("defaults"@) matches Some(d) ==> (d.field(name) matches Some(Json::Number { unsigned, signed, value })
            ==> default_of(obj, name, other) == value),
{
}

} // verus!
