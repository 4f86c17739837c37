//! Maps that hash with `rustc-hash`.

use rustc_hash::FxBuildHasher;
use rustc_hash::FxHashMap;
use vstd::prelude::*;

verus! {

/// `rustc_hash::FxBuildHasher`, which builds the hashers of an `FxHashMap`.
#[verifier::external_type_specification]
#[verifier::external_body]
pub struct ExFxBuildHasher(rustc_hash::FxBuildHasher);

/// A map without entries, whose hasher gives equal keys equal hashes.
pub open spec fn is_fresh<K, V>(m: FxHashMap<K, V>) -> bool {
    &&& m@ == Map::<K, V>::empty()
    &&& vstd::std_specs::hash::builds_valid_hashers::<FxBuildHasher>()
}

/// `FxHashMap::default` gives a map without entries. Its hasher has no seed:
/// every hasher that it builds computes the same function of what is written to
/// it.
#[verifier::external_body]
pub(crate) fn new_map<K, V>() -> (m: FxHashMap<K, V>)
    ensures
        is_fresh(m),
{
    FxHashMap::default()
}

/// The keys of a map in some order, each once.
pub open spec fn is_walk<K>(w: Seq<K>, keys: Set<K>) -> bool {
    w.no_duplicates() && w.to_set() == keys
}

/// The keys of a map, in the order in which the map is walked.
pub fn walk<K: Copy, V>(m: &FxHashMap<K, V>) -> (r: Vec<K>)
    requires
        vstd::std_specs::hash::obeys_key_model::<K>(),
        vstd::std_specs::hash::builds_valid_hashers::<FxBuildHasher>(),
    ensures
        is_walk(r@, m@.dom()),
{
    broadcast use vstd::std_specs::hash::group_hash_axioms;

    let mut out: Vec<K> = Vec::new();
    let ghost all = vstd::std_specs::iter::IteratorSpec::remaining(
        &vstd::std_specs::hash::spec_keys_iter(m),
    ).unref();
    for k in it: m.keys()
        invariant
            it.seq().unref() == all,
            out@ == all.take(it.index() as int),
    {
        assert(it.seq().unref()[it.index() as int] == *it.seq()[it.index() as int]);
        assert(all.take(it.index() as int + 1) =~= all.take(it.index() as int).push(*k));
        out.push(*k);
    }
    assert(out@ =~= all);
    out
}

} // verus!
