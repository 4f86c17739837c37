//! What a JSON document says, and how one is written.

use vstd::prelude::*;

use crate::json::Json;
use crate::scalar::Scalar;

verus! {

/// What a [`Json`] says.
#[verifier::ext_equal]
pub enum Tree<S> {
    Null,
    Bool(bool),
    Number { unsigned: Option<u64>, signed: Option<i64>, value: S },
    Text(Seq<char>),
    List(Seq<Tree<S>>),
    Object(Seq<(Seq<char>, Tree<S>)>),
}

pub open spec fn tree_of<S>(v: Json<S>) -> Tree<S>
    decreases v,
{
    match v {
        Json::Null => Tree::Null,
        Json::Bool(b) => Tree::Bool(b),
        Json::Number { unsigned, signed, value } => Tree::Number { unsigned, signed, value },
        Json::Text { text, spelled } => Tree::Text(text@),
        Json::List(items) => Tree::List(trees_of(items@)),
        Json::Object(entries) => Tree::Object(entries_of(entries@)),
    }
}

pub open spec fn trees_of<S>(s: Seq<Json<S>>) -> Seq<Tree<S>>
    decreases s,
{
    if s.len() == 0 {
        Seq::empty()
    } else {
        trees_of(s.drop_last()).push(tree_of(s.last()))
    }
}

pub open spec fn entries_of<S>(s: Seq<(String, Json<S>)>) -> Seq<(Seq<char>, Tree<S>)>
    decreases s,
{
    if s.len() == 0 {
        Seq::empty()
    } else {
        entries_of(s.drop_last()).push((s.last().0@, tree_of(s.last().1)))
    }
}

// ---------------------------------------------------------------------------
// Plain values

pub open spec fn real_tree<S: Scalar>(x: S) -> Tree<S> {
    Tree::Number { unsigned: None, signed: None, value: x }
}

pub fn number<S: Scalar>(x: S) -> (r: Json<S>)
    ensures
        tree_of(r) == real_tree(x),
{
    Json::Number { unsigned: None, signed: None, value: x }
}

pub open spec fn count_tree<S: Scalar>(n: u64) -> Tree<S> {
    Tree::Number {
        unsigned: Some(n),
        signed: if n <= i64::MAX {
            Some(n as i64)
        } else {
            None
        },
        value: S::whole_spec(n as nat),
    }
}

pub fn count<S: Scalar>(n: u64) -> (r: Json<S>)
    ensures
        tree_of(r) == count_tree::<S>(n),
{
    Json::Number {
        unsigned: Some(n),
        signed: if n <= i64::MAX as u64 {
            Some(n as i64)
        } else {
            None
        },
        value: S::whole(n),
    }
}

pub open spec fn int_tree<S: Scalar>(i: i64) -> Tree<S> {
    if i >= 0 {
        count_tree(i as u64)
    } else {
        Tree::Number {
            unsigned: None,
            signed: Some(i),
            value: S::whole_spec(0).minus_spec(S::whole_spec((-i) as nat)),
        }
    }
}

pub fn int_value<S: Scalar>(i: i64) -> (r: Json<S>)
    ensures
        tree_of(r) == int_tree::<S>(i),
{
    if i >= 0 {
        count(i as u64)
    } else {
        let m: i128 = 0 - i as i128;
        Json::Number { unsigned: None, signed: Some(i), value: S::whole(0).minus(S::whole(m as u64)) }
    }
}

pub fn text<S: Scalar>(t: &str) -> (r: Json<S>)
    ensures
        tree_of(r) == Tree::<S>::Text(t@),
{
    Json::Text { text: t.to_owned(), spelled: None }
}

pub open spec fn opt_real_tree<S: Scalar>(x: Option<S>) -> Tree<S> {
    match x {
        Some(v) => real_tree(v),
        None => Tree::Null,
    }
}

pub fn opt_real<S: Scalar>(x: Option<S>) -> (r: Json<S>)
    ensures
        tree_of(r) == opt_real_tree(x),
{
    match x {
        Some(v) => number(v),
        None => Json::Null,
    }
}

pub open spec fn opt_int_tree<S: Scalar>(i: Option<i64>) -> Tree<S> {
    match i {
        Some(v) => int_tree(v),
        None => Tree::Null,
    }
}

pub fn opt_int<S: Scalar>(i: Option<i64>) -> (r: Json<S>)
    ensures
        tree_of(r) == opt_int_tree::<S>(i),
{
    match i {
        Some(v) => int_value(v),
        None => Json::Null,
    }
}

pub open spec fn opt_text_tree<S>(t: Option<String>) -> Tree<S> {
    match t {
        Some(s) => Tree::Text(s@),
        None => Tree::Null,
    }
}

pub fn opt_text<S: Scalar>(t: &Option<String>) -> (r: Json<S>)
    ensures
        tree_of(r) == opt_text_tree::<S>(*t),
{
    match t {
        Some(s) => text(s.as_str()),
        None => Json::Null,
    }
}

// ---------------------------------------------------------------------------
// Lists and objects

/// Adds a value to a list.
pub fn add_item<S: Scalar>(items: &mut Vec<Json<S>>, v: Json<S>)
    ensures
        trees_of(final(items)@) == trees_of(old(items)@).push(tree_of(v)),
{
    let ghost before = items@;
    items.push(v);
    assert(items@.drop_last() =~= before);
}

/// Adds an entry to an object.
pub fn put<S: Scalar>(entries: &mut Vec<(String, Json<S>)>, key: &str, v: Json<S>)
    ensures
        entries_of(final(entries)@) == entries_of(old(entries)@).push((key@, tree_of(v))),
{
    let ghost before = entries@;
    entries.push((key.to_owned(), v));
    assert(entries@.drop_last() =~= before);
}

proof fn lemma_trees_take<S>(s: Seq<Json<S>>, k: int)
    requires
        0 <= k < s.len(),
    ensures
        trees_of(s.take(k + 1)) == trees_of(s.take(k)).push(tree_of(s[k])),
{
    assert(s.take(k + 1).drop_last() =~= s.take(k));
}

proof fn lemma_entries_take<S>(s: Seq<(String, Json<S>)>, k: int)
    requires
        0 <= k < s.len(),
    ensures
        entries_of(s.take(k + 1)) == entries_of(s.take(k)).push((s[k].0@, tree_of(s[k].1))),
{
    assert(s.take(k + 1).drop_last() =~= s.take(k));
}

/// A copy of a document.
pub fn copy_of<S: Scalar>(v: &Json<S>) -> (r: Json<S>)
    ensures
        tree_of(r) == tree_of(*v),
    decreases v,
{
    match v {
        Json::Null => Json::Null,
        Json::Bool(b) => Json::Bool(*b),
        Json::Number { unsigned, signed, value } => Json::Number {
            unsigned: *unsigned,
            signed: *signed,
            value: *value,
        },
        Json::Text { text, spelled } => Json::Text { text: text.as_str().to_owned(), spelled: *spelled },
        Json::List(items) => {
            let mut out: Vec<Json<S>> = Vec::new();
            let mut i: usize = 0;
            assert(items@.take(0) =~= Seq::<Json<S>>::empty());
            while i < items.len()
                invariant
                    i <= items@.len(),
                    *v == Json::List(*items),
                    trees_of(out@) == trees_of(items@.take(i as int)),
                decreases items@.len() - i,
            {
                proof {
                    lemma_trees_take(items@, i as int);
                    assert(decreases_to!(*v => v->List_0));
                    assert(decreases_to!(*items => items@));
                    assert(decreases_to!(items@ => items@[i as int]));
                }
                let c = copy_of(&items[i]);
                add_item(&mut out, c);
                i = i + 1;
            }
            assert(items@.take(i as int) =~= items@);
            Json::List(out)
        },
        Json::Object(entries) => {
            let mut out: Vec<(String, Json<S>)> = Vec::new();
            let mut i: usize = 0;
            assert(entries@.take(0) =~= Seq::<(String, Json<S>)>::empty());
            while i < entries.len()
                invariant
                    i <= entries@.len(),
                    *v == Json::Object(*entries),
                    entries_of(out@) == entries_of(entries@.take(i as int)),
                decreases entries@.len() - i,
            {
                proof {
                    lemma_entries_take(entries@, i as int);
                    assert(decreases_to!(*v => v->Object_0));
                    assert(decreases_to!(*entries => entries@));
                    assert(decreases_to!(entries@ => entries@[i as int]));
                    assert(decreases_to!(entries@[i as int] => entries@[i as int].1));
                }
                let c = copy_of(&entries[i].1);
                put(&mut out, entries[i].0.as_str(), c);
                i = i + 1;
            }
            assert(entries@.take(i as int) =~= entries@);
            Json::Object(out)
        },
    }
}

/// What stands behind `key`, or nothing.
pub open spec fn field_tree<S: Scalar>(v: Json<S>, key: Seq<char>) -> Tree<S> {
    match v.field(key) {
        Some(x) => tree_of(x),
        None => Tree::Null,
    }
}

pub fn field_copy<S: Scalar>(v: &Json<S>, key: &str) -> (r: Json<S>)
    ensures
        tree_of(r) == field_tree(*v, key@),
{
    match v.get(key) {
        Some(x) => copy_of(x),
        None => Json::Null,
    }
}

/// A list is told item by item and an object entry by entry, in their order.
pub proof fn law_all_items_are_told<S>(items: Seq<Json<S>>, entries: Seq<(String, Json<S>)>)
    ensures
        trees_of(items).len() == items.len(),
        forall|i: int| 0 <= i < items.len() ==> #[trigger] trees_of(items)[i] == tree_of(items[i]),
        entries_of(entries).len() == entries.len(),
        forall|i: int|
            0 <= i < entries.len() ==> #[trigger] entries_of(entries)[i] == (entries[i].0@, tree_of(entries[i].1)),
    decreases items.len() + entries.len(),
{
    if items.len() > 0 {
        let d = items.drop_last();
        law_all_items_are_told(d, entries);
        assert forall|i: int| 0 <= i < items.len() implies #[trigger] trees_of(items)[i] == tree_of(items[i]) by {
            if i < d.len() {
                assert(trees_of(items)[i] == trees_of(d)[i]);
                assert(d[i] == items[i]);
            }
        }
    } else if entries.len() > 0 {
        let d = entries.drop_last();
        law_all_items_are_told(items, d);
        assert forall|i: int| 0 <= i < entries.len() implies #[trigger] entries_of(entries)[i] == (
            entries[i].0@,
            tree_of(entries[i].1),
        ) by {
            if i < d.len() {
                assert(entries_of(entries)[i] == entries_of(d)[i]);
                assert(d[i] == entries[i]);
            }
        }
    }
}

/// Whole numbers are told as such, and nothing as null.
pub proof fn law_whole_numbers_are_told_exactly(i: i64, n: u64)
    requires
        -1_000_000_000_000 <= i <= 1_000_000_000_000,
        n <= 1_000_000_000_000,
    ensures
        int_tree::<crate::scalar::Thousandths>(i) matches Tree::Number { unsigned, signed, value } && signed == Some(i)
            && value.count == i * 1000 && (unsigned is Some <==> i >= 0),
        count_tree::<crate::scalar::Thousandths>(n) matches Tree::Number { unsigned, signed, value } && unsigned == Some(n)
            && value.count == n * 1000,
        opt_int_tree::<crate::scalar::Thousandths>(None) == Tree::<crate::scalar::Thousandths>::Null,
        opt_real_tree::<crate::scalar::Thousandths>(None) == Tree::<crate::scalar::Thousandths>::Null,
        opt_text_tree::<crate::scalar::Thousandths>(None) == Tree::<crate::scalar::Thousandths>::Null,
        opt_int_tree::<crate::scalar::Thousandths>(Some(i)) == int_tree::<crate::scalar::Thousandths>(i),
{
}

} // verus!
