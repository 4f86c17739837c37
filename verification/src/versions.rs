//! Which version of the alignment data is used.

use vstd::prelude::*;

use crate::chars;
use crate::state;

verus! {

/// Whether the settings ask for alignment.
pub fn wants_alignment(mode: &str) -> (r: bool)
    ensures
        r == (mode@ == "v2"@ || mode@ == "auto"@),
{
    chars::same_text(mode, "v2") || chars::same_text(mode, "auto")
}

/// An entry of a directory: its name, whether it is a directory itself, whether it
/// holds a description of alignment data, and when it was modified last, in
/// nanoseconds.
pub struct DirEntry {
    pub name: String,
    pub is_dir: bool,
    pub has_meta: bool,
    pub modified_ns: u128,
}

/// A directory with a description.
pub open spec fn is_version(e: DirEntry) -> bool {
    e.is_dir && e.has_meta
}

/// `a` was modified before `b`; of entries modified at the same time the one with
/// the greater name counts as newer.
pub open spec fn is_older(a: DirEntry, b: DirEntry) -> bool {
    a.modified_ns < b.modified_ns || (a.modified_ns == b.modified_ns && chars::text_before(a.name@, b.name@))
}

/// The newest of the versions.
pub open spec fn newest(entries: Seq<DirEntry>) -> Option<DirEntry>
    decreases entries.len(),
{
    if entries.len() == 0 {
        None
    } else {
        let before = newest(entries.drop_last());
        let e = entries.last();
        if is_version(e) && (before matches Some(b) ==> is_older(b, e)) {
            Some(e)
        } else {
            before
        }
    }
}

fn older(a: &DirEntry, b: &DirEntry) -> (r: bool)
    ensures
        r == is_older(*a, *b),
{
    a.modified_ns < b.modified_ns || (a.modified_ns == b.modified_ns && chars::is_before(
        a.name.as_str(),
        b.name.as_str(),
    ))
}

pub fn find_newest(entries: &[DirEntry]) -> (r: Option<String>)
    ensures
        match r {
            None => newest(entries@) is None,
            Some(n) => newest(entries@) matches Some(e) && e.name@ == n@,
        },
{
    let mut best: Option<usize> = None;
    let mut i: usize = 0;
    while i < entries.len()
        invariant
            i <= entries@.len(),
            match best {
                None => newest(entries@.take(i as int)) is None,
                Some(b) => b < i && newest(entries@.take(i as int)) == Some(entries@[b as int]),
            },
        decreases entries@.len() - i,
    {
        proof {
            assert(entries@.take(i as int + 1).drop_last() =~= entries@.take(i as int));
            assert(entries@.take(i as int + 1).last() == entries@[i as int]);
        }
        if entries[i].is_dir && entries[i].has_meta {
            let newer: bool = match best {
                None => true,
                Some(b) => older(&entries[b], &entries[i]),
            };
            if newer {
                best = Some(i);
            }
        }
        i = i + 1;
    }
    assert(entries@.take(i as int) =~= entries@);
    match best {
        None => None,
        Some(b) => Some(entries[b].name.as_str().to_owned()),
    }
}

proof fn lemma_older_chains(a: DirEntry, b: DirEntry, c: DirEntry)
    requires
        is_older(a, b),
        is_older(b, c),
    ensures
        is_older(a, c),
{
    if a.modified_ns == b.modified_ns && b.modified_ns == c.modified_ns {
        chars::law_text_order_chains(a.name@, b.name@, c.name@);
    }
}

/// There is a newest version where there is any. No version was modified later, and
/// of those modified at the same time none has a greater name.
pub proof fn law_newest_is_newest(entries: Seq<DirEntry>)
    ensures
        newest(entries) is None ==> forall|i: int| 0 <= i < entries.len() ==> !is_version(#[trigger] entries[i]),
        newest(entries) matches Some(n) ==> {
            &&& is_version(n)
            &&& entries.contains(n)
            &&& forall|i: int|
                0 <= i < entries.len() && is_version(#[trigger] entries[i]) ==> {
                    &&& entries[i].modified_ns <= n.modified_ns
                    &&& entries[i].modified_ns == n.modified_ns ==> !chars::text_before(n.name@, entries[i].name@)
                }
        },
    decreases entries.len(),
{
    if entries.len() > 0 {
        let d = entries.drop_last();
        law_newest_is_newest(d);
        let e = entries.last();
        assert(entries[entries.len() - 1] == e);
        if let Some(b) = newest(d) {
            let w = choose|i: int| 0 <= i < d.len() && d[i] == b;
            assert(entries[w] == b);
        }
        if let Some(n) = newest(entries) {
            chars::law_texts_are_ordered(n.name@, n.name@);
            assert forall|i: int| 0 <= i < entries.len() && is_version(#[trigger] entries[i]) implies !is_older(
                n,
                entries[i],
            ) by {
                if i < d.len() {
                    assert(is_version(d[i]));
                    if n == e && newest(d) is Some && is_older(newest(d)->0, e) && is_older(n, entries[i]) {
                        lemma_older_chains(newest(d)->0, n, entries[i]);
                    }
                }
            }
        } else {
            assert forall|i: int| 0 <= i < entries.len() implies !is_version(#[trigger] entries[i]) by {
                if i < d.len() {
                    assert(!is_version(d[i]));
                }
            }
        }
    }
}

/// The version with the greatest name.
pub open spec fn last_named(entries: Seq<DirEntry>) -> Option<DirEntry>
    decreases entries.len(),
{
    if entries.len() == 0 {
        None
    } else {
        let before = last_named(entries.drop_last());
        let e = entries.last();
        if is_version(e) && (before matches Some(b) ==> chars::text_before(b.name@, e.name@)) {
            Some(e)
        } else {
            before
        }
    }
}

pub fn find_last_named(entries: &[DirEntry]) -> (r: Option<String>)
    ensures
        match r {
            None => last_named(entries@) is None,
            Some(n) => last_named(entries@) matches Some(e) && e.name@ == n@,
        },
{
    let mut best: Option<usize> = None;
    let mut i: usize = 0;
    while i < entries.len()
        invariant
            i <= entries@.len(),
            match best {
                None => last_named(entries@.take(i as int)) is None,
                Some(b) => b < i && last_named(entries@.take(i as int)) == Some(entries@[b as int]),
            },
        decreases entries@.len() - i,
    {
        proof {
            assert(entries@.take(i as int + 1).drop_last() =~= entries@.take(i as int));
            assert(entries@.take(i as int + 1).last() == entries@[i as int]);
        }
        if entries[i].is_dir && entries[i].has_meta {
            let greater: bool = match best {
                None => true,
                Some(b) => chars::is_before(entries[b].name.as_str(), entries[i].name.as_str()),
            };
            if greater {
                best = Some(i);
            }
        }
        i = i + 1;
    }
    assert(entries@.take(i as int) =~= entries@);
    match best {
        None => None,
        Some(b) => Some(entries[b].name.as_str().to_owned()),
    }
}

/// There is a version with the greatest name where there is any version, and no
/// other has a greater one.
pub proof fn law_last_named_is_greatest(entries: Seq<DirEntry>)
    ensures
        last_named(entries) is None ==> forall|i: int|
            0 <= i < entries.len() ==> !is_version(#[trigger] entries[i]),
        last_named(entries) matches Some(n) ==> {
            &&& is_version(n)
            &&& entries.contains(n)
            &&& forall|i: int|
                0 <= i < entries.len() && is_version(#[trigger] entries[i]) ==> !chars::text_before(
                    n.name@,
                    entries[i].name@,
                )
        },
    decreases entries.len(),
{
    if entries.len() > 0 {
        let d = entries.drop_last();
        law_last_named_is_greatest(d);
        let e = entries.last();
        assert(entries[entries.len() - 1] == e);
        if let Some(b) = last_named(d) {
            let w = choose|i: int| 0 <= i < d.len() && d[i] == b;
            assert(entries[w] == b);
        }
        if let Some(n) = last_named(entries) {
            chars::law_texts_are_ordered(n.name@, n.name@);
            assert forall|i: int| 0 <= i < entries.len() && is_version(#[trigger] entries[i]) implies !chars::text_before(
                n.name@,
                entries[i].name@,
            ) by {
                if i < d.len() {
                    assert(is_version(d[i]));
                    if n == e && last_named(d) is Some && chars::text_before(last_named(d)->0.name@, e.name@)
                        && chars::text_before(n.name@, entries[i].name@) {
                        chars::law_text_order_chains(last_named(d)->0.name@, n.name@, entries[i].name@);
                    }
                }
            }
        } else {
            assert forall|i: int| 0 <= i < entries.len() implies !is_version(#[trigger] entries[i]) by {
                if i < d.len() {
                    assert(!is_version(d[i]));
                }
            }
        }
    }
}

#[derive(Clone, Copy, Debug, PartialEq, Eq, Structural)]
pub enum AssetsDirError {
    NotFound,
    NoVersions,
}

/// The directory itself, if it holds a description; else the version in it that was
/// picked.
pub open spec fn data_dir(path: Seq<char>, has_meta: bool, is_dir: bool, picked: Option<DirEntry>) -> Result<
    Seq<char>,
    AssetsDirError,
> {
    if has_meta {
        Ok(path)
    } else if !is_dir {
        Err(AssetsDirError::NotFound)
    } else {
        match picked {
            Some(n) => Ok(state::path_join(path, n.name@)),
            None => Err(AssetsDirError::NoVersions),
        }
    }
}

/// The data that times are taken from: of several versions the one with the
/// greatest name.
pub fn resolve_latest_assets_dir(path: &str, has_meta: bool, is_dir: bool, entries: &[DirEntry]) -> (r: Result<
    String,
    AssetsDirError,
>)
    ensures
        match r {
            Ok(d) => data_dir(path@, has_meta, is_dir, last_named(entries@)) == Ok::<Seq<char>, AssetsDirError>(d@),
            Err(e) => data_dir(path@, has_meta, is_dir, last_named(entries@)) == Err::<Seq<char>, AssetsDirError>(e),
        },
{
    if has_meta {
        return Ok(path.to_owned());
    }
    if !is_dir {
        return Err(AssetsDirError::NotFound);
    }
    match find_last_named(entries) {
        Some(n) => Ok(state::join_path(path, n.as_str())),
        None => Err(AssetsDirError::NoVersions),
    }
}

/// The data that the service aligns with: of several versions the newest. That
/// there is none is no error.
pub fn resolve_v2_assets_dir(path: &str, has_meta: bool, is_dir: bool, entries: &[DirEntry]) -> (r: Option<String>)
    ensures
        match r {
            Some(d) => data_dir(path@, has_meta, is_dir, newest(entries@)) == Ok::<Seq<char>, AssetsDirError>(d@),
            None => data_dir(path@, has_meta, is_dir, newest(entries@)) is Err,
        },
{
    if has_meta {
        return Some(path.to_owned());
    }
    if !is_dir {
        return None;
    }
    match find_newest(entries) {
        Some(n) => Some(state::join_path(path, n.as_str())),
        None => None,
    }
}

/// A directory that holds the data itself is used as it is, else the version picked in
/// it; without either there is none.
pub proof fn law_data_or_a_version_is_used(path: Seq<char>, is_dir: bool, picked: Option<DirEntry>)
    ensures
        data_dir(path, true, is_dir, picked) == Ok::<Seq<char>, AssetsDirError>(path),
        data_dir(path, false, false, picked) == Err::<Seq<char>, AssetsDirError>(AssetsDirError::NotFound),
        picked matches Some(e) ==> data_dir(path, false, true, picked) == Ok::<Seq<char>, AssetsDirError>(
            state::path_join(path, e.name@),
        ),
        picked is None ==> data_dir(path, false, true, picked) == Err::<Seq<char>, AssetsDirError>(
            AssetsDirError::NoVersions,
        ),
{
}

} // verus!
