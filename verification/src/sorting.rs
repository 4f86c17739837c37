//! Stable sorting by a pair of integers.

use vstd::prelude::*;

verus! {

/// An item with its place in an order. Items with the same key are alike to the
/// order.
pub trait Keyed: Copy {
    spec fn key(self) -> (int, int);

    fn before(&self, other: &Self) -> (r: bool)
        ensures
            r == key_before(self.key(), other.key()),
    ;
}

/// By the first number, then by the second.
pub open spec fn key_before(a: (int, int), b: (int, int)) -> bool {
    a.0 < b.0 || (a.0 == b.0 && a.1 < b.1)
}

/// Enters `x` behind every item that it does not have to precede.
pub open spec fn entered<T: Keyed>(s: Seq<T>, x: T) -> Seq<T>
    decreases s.len(),
{
    if s.len() == 0 {
        seq![x]
    } else if key_before(x.key(), s.last().key()) {
        entered(s.drop_last(), x).push(s.last())
    } else {
        s.push(x)
    }
}

/// The items in order; those that are alike stay in the order in which they
/// came.
pub open spec fn sorted<T: Keyed>(s: Seq<T>) -> Seq<T>
    decreases s.len(),
{
    if s.len() == 0 {
        s
    } else {
        entered(sorted(s.drop_last()), s.last())
    }
}

spec fn merged<T: Keyed>(a: Seq<T>, b: Seq<T>) -> Seq<T>
    decreases a.len() + b.len(),
{
    if a.len() == 0 {
        b
    } else if b.len() == 0 {
        a
    } else if key_before(b.last().key(), a.last().key()) {
        merged(a.drop_last(), b).push(a.last())
    } else {
        merged(a, b.drop_last()).push(b.last())
    }
}

proof fn lemma_merged_entered<T: Keyed>(a: Seq<T>, b: Seq<T>, x: T)
    ensures
        merged(a, entered(b, x)) == entered(merged(a, b), x),
    decreases a.len() + b.len(),
{
    let e = entered(b, x);
    if a.len() == 0 {
    } else if b.len() == 0 {
        assert(b =~= Seq::<T>::empty());
        assert(e.drop_last() =~= b);
        assert(e.last() == x);
        assert(merged(a, b) == a);
        if key_before(x.key(), a.last().key()) {
            lemma_merged_entered(a.drop_last(), b, x);
            assert(merged(a.drop_last(), b) =~= a.drop_last());
        } else {
            assert(merged(a, e) == merged(a, b).push(x));
        }
    } else {
        let al = a.last();
        let bl = b.last();
        if key_before(x.key(), bl.key()) {
            assert(e.drop_last() =~= entered(b.drop_last(), x));
            if key_before(bl.key(), al.key()) {
                lemma_merged_entered(a.drop_last(), b, x);
                assert(merged(a, b).drop_last() =~= merged(a.drop_last(), b));
            } else {
                lemma_merged_entered(a, b.drop_last(), x);
                assert(merged(a, b).drop_last() =~= merged(a, b.drop_last()));
            }
        } else {
            assert(e.drop_last() =~= b);
            if key_before(x.key(), al.key()) {
                lemma_merged_entered(a.drop_last(), b, x);
                assert(merged(a, b).drop_last() =~= merged(a.drop_last(), b));
            }
        }
    }
}

proof fn lemma_merged_sorted<T: Keyed>(a: Seq<T>, b: Seq<T>)
    ensures
        merged(sorted(a), sorted(b)) == sorted(a + b),
    decreases b.len(),
{
    lemma_sorted_len(a);
    if b.len() == 0 {
        assert(a + b =~= a);
        if sorted(a).len() == 0 {
            assert(merged(sorted(a), sorted(b)) =~= sorted(a));
        }
    } else {
        let p = b.drop_last();
        lemma_merged_sorted(a, p);
        lemma_merged_entered(sorted(a), sorted(p), b.last());
        assert((a + b).drop_last() =~= a + p);
        assert((a + b).last() == b.last());
    }
}

proof fn lemma_entered_len<T: Keyed>(s: Seq<T>, x: T)
    ensures
        entered(s, x).len() == s.len() + 1,
        entered(s, x).to_multiset() =~= s.to_multiset().insert(x),
    decreases s.len(),
{
    broadcast use vstd::seq_lib::group_to_multiset_ensures;

    if s.len() == 0 {
        assert(seq![x] =~= s.push(x));
    } else if key_before(x.key(), s.last().key()) {
        lemma_entered_len(s.drop_last(), x);
        assert(s.drop_last().push(s.last()) =~= s);
    }
}

pub proof fn lemma_sorted_len<T: Keyed>(s: Seq<T>)
    ensures
        sorted(s).len() == s.len(),
        sorted(s).to_multiset() =~= s.to_multiset(),
    decreases s.len(),
{
    broadcast use vstd::seq_lib::group_to_multiset_ensures;

    if s.len() > 0 {
        lemma_sorted_len(s.drop_last());
        lemma_entered_len(sorted(s.drop_last()), s.last());
        assert(s.drop_last().push(s.last()) =~= s);
    }
}

/// Sorting neither drops, adds nor changes items.
pub proof fn law_sorting_keeps_items<T: Keyed>(s: Seq<T>)
    ensures
        sorted(s).to_multiset() == s.to_multiset(),
{
    lemma_sorted_len(s);
}

proof fn lemma_entered_values<T: Keyed, U>(s: Seq<T>, x: T, f: spec_fn(T) -> U)
    ensures
        entered(s, x).map_values(f).to_multiset() =~= s.map_values(f).to_multiset().insert(f(x)),
    decreases s.len(),
{
    broadcast use vstd::seq_lib::group_to_multiset_ensures;

    let e = entered(s, x);
    if s.len() > 0 && key_before(x.key(), s.last().key()) {
        let d = s.drop_last();
        lemma_entered_values(d, x, f);
        assert(e.map_values(f) =~= entered(d, x).map_values(f).push(f(s.last())));
        assert(s.map_values(f) =~= d.map_values(f).push(f(s.last())));
    } else {
        assert(e.map_values(f) =~= s.map_values(f).push(f(x)));
    }
}

/// Sorting keeps what is read off the items, too.
pub proof fn law_sorting_keeps_values<T: Keyed, U>(s: Seq<T>, f: spec_fn(T) -> U)
    ensures
        sorted(s).map_values(f).to_multiset() == s.map_values(f).to_multiset(),
    decreases s.len(),
{
    broadcast use vstd::seq_lib::group_to_multiset_ensures;

    if s.len() > 0 {
        let d = s.drop_last();
        law_sorting_keeps_values(d, f);
        lemma_entered_values(sorted(d), s.last(), f);
        assert(s.map_values(f) =~= d.map_values(f).push(f(s.last())));
        assert(sorted(s).map_values(f).to_multiset() =~= s.map_values(f).to_multiset());
    }
}

pub open spec fn is_sorted<T: Keyed>(s: Seq<T>) -> bool {
    forall|i: int, j: int|
        0 <= i < j < s.len() ==> !key_before((#[trigger] s[j]).key(), (#[trigger] s[i]).key())
}

proof fn lemma_entered_sorted<T: Keyed>(s: Seq<T>, x: T)
    requires
        is_sorted(s),
    ensures
        is_sorted(entered(s, x)),
        forall|i: int| 0 <= i < entered(s, x).len() ==> (#[trigger] entered(s, x)[i] == x) || s.contains(
            entered(s, x)[i],
        ),
    decreases s.len(),
{
    if s.len() > 0 && key_before(x.key(), s.last().key()) {
        let p = s.drop_last();
        lemma_entered_sorted(p, x);
        lemma_entered_len(p, x);
        let e = entered(s, x);
        assert forall|i: int| 0 <= i < e.len() implies (#[trigger] e[i] == x) || s.contains(e[i]) by {
            if i < e.len() - 1 {
                assert(e[i] == entered(p, x)[i]);
                if e[i] != x {
                    assert(p.contains(e[i]));
                    let k = choose|k: int| 0 <= k < p.len() && p[k] == e[i];
                    assert(s[k] == e[i]);
                }
            } else {
                assert(s[s.len() - 1] == e[i]);
            }
        }
        assert forall|i: int, j: int| 0 <= i < j < e.len() implies !key_before(
            (#[trigger] e[j]).key(),
            (#[trigger] e[i]).key(),
        ) by {
            if j == e.len() - 1 {
                assert(e[i] == entered(p, x)[i]);
                if e[i] != x {
                    assert(p.contains(e[i]));
                    let k = choose|k: int| 0 <= k < p.len() && p[k] == e[i];
                    assert(s[k] == e[i]);
                }
            } else {
                assert(e[i] == entered(p, x)[i]);
                assert(e[j] == entered(p, x)[j]);
            }
        }
    } else if s.len() > 0 {
        let e = entered(s, x);
        assert forall|i: int| 0 <= i < e.len() implies (#[trigger] e[i] == x) || s.contains(e[i]) by {
            if i < s.len() {
                assert(s[i] == e[i]);
            }
        }
        assert forall|i: int, j: int| 0 <= i < j < e.len() implies !key_before(
            (#[trigger] e[j]).key(),
            (#[trigger] e[i]).key(),
        ) by {
            if j == s.len() {
                if i < s.len() - 1 {
                    assert(!key_before(s[s.len() - 1].key(), s[i].key()));
                }
            } else {
                assert(!key_before(s[j].key(), s[i].key()));
            }
        }
    }
}

/// No item of a sorted sequence has to precede one in front of it.
pub proof fn law_sorted_is_in_order<T: Keyed>(s: Seq<T>)
    ensures
        is_sorted(sorted(s)),
    decreases s.len(),
{
    if s.len() > 0 {
        law_sorted_is_in_order(s.drop_last());
        lemma_entered_sorted(sorted(s.drop_last()), s.last());
    }
}

fn merge<T: Keyed>(a: &Vec<T>, b: &Vec<T>) -> (r: Vec<T>)
    requires
        a@.len() + b@.len() <= usize::MAX,
    ensures
        r@ == merged(a@, b@),
{
    let mut back: Vec<T> = Vec::new();
    let mut i: usize = a.len();
    let mut j: usize = b.len();
    assert(a@.take(i as int) =~= a@);
    assert(b@.take(j as int) =~= b@);
    assert(merged(a@, b@) + back@.reverse() =~= merged(a@, b@));
    while i > 0 || j > 0
        invariant
            i <= a@.len(),
            j <= b@.len(),
            a@.len() + b@.len() <= usize::MAX,
            back@.len() == a@.len() + b@.len() - i - j,
            merged(a@, b@) == merged(a@.take(i as int), b@.take(j as int)) + back@.reverse(),
        decreases i + j,
    {
        let ghost p = a@.take(i as int);
        let ghost q = b@.take(j as int);
        let ghost before = back@;
        if j == 0 || (i > 0 && b[j - 1].before(&a[i - 1])) {
            assert(p.drop_last() =~= a@.take(i - 1));
            back.push(a[i - 1]);
            i = i - 1;
            proof {
                assert(merged(p, q) == merged(p.drop_last(), q).push(p.last())) by {
                    if j == 0 {
                        assert(q =~= Seq::<T>::empty());
                        assert(merged(p.drop_last(), q) =~= p.drop_last());
                        assert(p.drop_last().push(p.last()) =~= p);
                    }
                }
                assert(back@.reverse() =~= seq![p.last()] + before.reverse());
                assert(merged(p, q) + before.reverse() =~= merged(p.drop_last(), q) + back@.reverse());
            }
        } else {
            assert(q.drop_last() =~= b@.take(j - 1));
            back.push(b[j - 1]);
            j = j - 1;
            proof {
                assert(merged(p, q) == merged(p, q.drop_last()).push(q.last())) by {
                    if i == 0 {
                        assert(p =~= Seq::<T>::empty());
                        assert(merged(p, q.drop_last()) =~= q.drop_last());
                        assert(q.drop_last().push(q.last()) =~= q);
                    }
                }
                assert(back@.reverse() =~= seq![q.last()] + before.reverse());
                assert(merged(p, q) + before.reverse() =~= merged(p, q.drop_last()) + back@.reverse());
            }
        }
    }
    assert(merged(a@.take(0), b@.take(0)) =~= Seq::<T>::empty());
    assert(merged(a@, b@) =~= back@.reverse());
    let mut out: Vec<T> = Vec::new();
    let mut k: usize = back.len();
    while k > 0
        invariant
            k <= back@.len(),
            out@ == back@.reverse().take(back@.len() - k),
        decreases k,
    {
        k = k - 1;
        out.push(back[k]);
        assert(out@ =~= back@.reverse().take(back@.len() - k));
    }
    assert(back@.reverse().take(back@.len() as int) =~= back@.reverse());
    out
}

fn sort_range<T: Keyed>(v: &[T], lo: usize, hi: usize) -> (r: Vec<T>)
    requires
        lo <= hi <= v@.len(),
    ensures
        r@ == sorted(v@.subrange(lo as int, hi as int)),
    decreases hi - lo,
{
    let ghost s = v@.subrange(lo as int, hi as int);
    if hi - lo == 0 {
        return Vec::new();
    }
    if hi - lo == 1 {
        let mut one: Vec<T> = Vec::new();
        one.push(v[lo]);
        proof {
            reveal_with_fuel(sorted, 2);
            assert(s.drop_last() =~= Seq::<T>::empty());
            assert(one@ =~= sorted(s));
        }
        return one;
    }
    let mid: usize = lo + (hi - lo) / 2;
    let left = sort_range(v, lo, mid);
    let right = sort_range(v, mid, hi);
    proof {
        let a = v@.subrange(lo as int, mid as int);
        let b = v@.subrange(mid as int, hi as int);
        lemma_merged_sorted(a, b);
        lemma_sorted_len(a);
        lemma_sorted_len(b);
        assert(a + b =~= s);
    }
    merge(&left, &right)
}

/// Sorts stably.
pub fn sort<T: Keyed>(v: &[T]) -> (r: Vec<T>)
    ensures
        r@ == sorted(v@),
        r@.len() == v@.len(),
{
    proof {
        lemma_sorted_len(v@);
        assert(v@.subrange(0, v@.len() as int) =~= v@);
    }
    sort_range(v, 0, v.len())
}

} // verus!
