//! Stable sorting by a pair of numbers.

use vstd::multiset::*;
use vstd::prelude::*;

verus! {

/// What can be sorted: it has a pair of numbers to be ordered by.
pub trait Keyed: Sized {
    /// The pair that decides the order.
    spec fn key(self) -> (int, int);

    /// Whether `self` may stand before `other`.
    fn key_le(&self, other: &Self) -> (r: bool)
        ensures
            r == pair_le((*self).key(), (*other).key()),
    ;
}

/// The order of pairs: by the first number, then by the second.
pub open spec fn pair_le(a: (int, int), b: (int, int)) -> bool {
    a.0 < b.0 || (a.0 == b.0 && a.1 <= b.1)
}

/// Where `x` goes in the sorted list `s`: behind the last item that may stand
/// before it.
pub open spec fn insertion_point<T: Keyed>(s: Seq<T>, x: T) -> int
    decreases s.len(),
{
    if s.len() == 0 || pair_le(s.last().key(), x.key()) {
        s.len() as int
    } else {
        insertion_point(s.drop_last(), x)
    }
}

/// The items of `s` in the order of their keys, items with equal keys in the
/// order in which they stand in `s`.
pub open spec fn stable_sort<T: Keyed>(s: Seq<T>) -> Seq<T>
    decreases s.len(),
{
    if s.len() == 0 {
        seq![]
    } else {
        let before = stable_sort(s.drop_last());
        before.insert(insertion_point(before, s.last()), s.last())
    }
}

/// `s` is in the order of its keys.
pub open spec fn sorted<T: Keyed>(s: Seq<T>) -> bool {
    forall|i: int, j: int|
        #![trigger s[i], s[j]]
        0 <= i <= j < s.len() ==> pair_le(s[i].key(), s[j].key())
}

proof fn lemma_insertion_point<T: Keyed>(s: Seq<T>, x: T)
    ensures
        0 <= insertion_point(s, x) <= s.len(),
        insertion_point(s, x) > 0 ==> pair_le(s[insertion_point(s, x) - 1].key(), x.key()),
        forall|j: int|
            #![trigger s[j]]
            insertion_point(s, x) <= j < s.len() ==> !pair_le(s[j].key(), x.key()),
    decreases s.len(),
{
    if s.len() == 0 || pair_le(s.last().key(), x.key()) {
    } else {
        lemma_insertion_point(s.drop_last(), x);
        assert forall|j: int|
            #![trigger s[j]]
            insertion_point(s, x) <= j < s.len() implies !pair_le(s[j].key(), x.key()) by {
            if j < s.len() - 1 {
                assert(s.drop_last()[j] == s[j]);
            }
        }
    }
}

/// Sorting puts the items in the order of their keys.
pub proof fn law_sort_sorts<T: Keyed>(s: Seq<T>)
    ensures
        sorted(stable_sort(s)),
    decreases s.len(),
{
    if s.len() > 0 {
        let before = stable_sort(s.drop_last());
        let x = s.last();
        law_sort_sorts(s.drop_last());
        lemma_insertion_point(before, x);
        let p = insertion_point(before, x);
        let after = stable_sort(s);
        assert forall|i: int, j: int|
            #![trigger after[i], after[j]]
            0 <= i <= j < after.len() implies pair_le(after[i].key(), after[j].key()) by {
            if i < p {
                assert(after[i] == before[i]);
            } else if i > p {
                assert(after[i] == before[i - 1]);
            }
            if j < p {
                assert(after[j] == before[j]);
            } else if j > p {
                assert(after[j] == before[j - 1]);
            }
            if i < p && j == p {
                assert(pair_le(before[i].key(), before[p - 1].key()));
            }
        }
    }
}

/// Sorting loses no item and invents none.
pub proof fn law_sort_permutes<T: Keyed>(s: Seq<T>)
    ensures
        stable_sort(s).len() == s.len(),
        stable_sort(s).to_multiset() == s.to_multiset(),
    decreases s.len(),
{
    broadcast use group_multiset_axioms;

    if s.len() > 0 {
        let before = stable_sort(s.drop_last());
        let x = s.last();
        law_sort_permutes(s.drop_last());
        lemma_insertion_point(before, x);
        let p = insertion_point(before, x);
        vstd::seq_lib::to_multiset_insert(before, p, x);
        assert(s =~= s.drop_last().push(x));
        vstd::seq_lib::to_multiset_build(s.drop_last(), x);
        assert(stable_sort(s).to_multiset() =~= s.to_multiset());
    } else {
        assert(stable_sort(s) =~= s);
    }
}

/// The items of `s` with the key `k`, in the order in which they stand in `s`.
pub open spec fn with_key<T: Keyed>(s: Seq<T>, k: (int, int)) -> Seq<T>
    decreases s.len(),
{
    if s.len() == 0 {
        seq![]
    } else {
        let before = with_key(s.drop_last(), k);
        if s.last().key() == k {
            before.push(s.last())
        } else {
            before
        }
    }
}

proof fn lemma_with_key_concat<T: Keyed>(a: Seq<T>, b: Seq<T>, k: (int, int))
    ensures
        with_key(a + b, k) == with_key(a, k) + with_key(b, k),
    decreases b.len(),
{
    if b.len() == 0 {
        assert(a + b =~= a);
        assert(with_key(a, k) + with_key(b, k) =~= with_key(a, k));
    } else {
        assert((a + b).drop_last() =~= a + b.drop_last());
        lemma_with_key_concat(a, b.drop_last(), k);
        assert(with_key(a + b, k) =~= with_key(a, k) + with_key(b, k));
    }
}

proof fn lemma_with_key_none<T: Keyed>(s: Seq<T>, k: (int, int))
    requires
        forall|j: int| #![trigger s[j]] 0 <= j < s.len() ==> s[j].key() != k,
    ensures
        with_key(s, k) == Seq::<T>::empty(),
    decreases s.len(),
{
    if s.len() > 0 {
        assert(s[s.len() - 1].key() != k);
        assert forall|j: int| #![trigger s.drop_last()[j]] 0 <= j < s.drop_last().len() implies s
            .drop_last()[j].key() != k by {
            assert(s[j].key() != k);
        }
        lemma_with_key_none(s.drop_last(), k);
    }
}

/// Sorting is stable: items with equal keys keep their order.
pub proof fn law_sort_is_stable<T: Keyed>(s: Seq<T>, k: (int, int))
    ensures
        with_key(stable_sort(s), k) == with_key(s, k),
    decreases s.len(),
{
    if s.len() > 0 {
        let before = stable_sort(s.drop_last());
        let x = s.last();
        law_sort_is_stable(s.drop_last(), k);
        lemma_insertion_point(before, x);
        let p = insertion_point(before, x);
        let head = before.subrange(0, p);
        let tail = before.subrange(p, before.len() as int);
        let one = seq![x];
        assert(before =~= head + tail);
        assert(stable_sort(s) =~= (head + one) + tail);
        lemma_with_key_concat(head, tail, k);
        lemma_with_key_concat(head, one, k);
        lemma_with_key_concat(head + one, tail, k);
        assert(one.drop_last() =~= Seq::<T>::empty());
        reveal_with_fuel(with_key, 2);
        if x.key() == k {
            assert forall|j: int| #![trigger tail[j]] 0 <= j < tail.len() implies tail[j].key()
                != k by {
                assert(tail[j] == before[p + j]);
            }
            lemma_with_key_none(tail, k);
            assert(with_key(one, k) =~= seq![x]);
            assert(with_key(stable_sort(s), k) =~= with_key(s, k));
        } else {
            assert(with_key(one, k) =~= Seq::<T>::empty());
            assert(with_key(stable_sort(s), k) =~= with_key(s, k));
        }
    } else {
        assert(stable_sort(s) =~= s);
    }
}

/// Sort `items` by their keys, keeping the order of items with equal keys.
pub fn sort_by_key<T: Keyed + Copy>(items: &Vec<T>) -> (r: Vec<T>)
    ensures
        r@ == stable_sort(items@),
{
    let mut out: Vec<T> = Vec::new();
    let mut i: usize = 0;
    while i < items.len()
        invariant
            i <= items@.len(),
            out@ == stable_sort(items@.subrange(0, i as int)),
        decreases items.len() - i,
    {
        let x = items[i];
        let mut p: usize = out.len();
        proof {
            assert(out@.subrange(0, p as int) =~= out@);
        }
        while p > 0 && !out[p - 1].key_le(&x)
            invariant
                p <= out@.len(),
                insertion_point(out@, x) == insertion_point(out@.subrange(0, p as int), x),
            decreases p,
        {
            proof {
                let s = out@.subrange(0, p as int);
                assert(s.last() == out@[p - 1]);
                assert(s.drop_last() =~= out@.subrange(0, p - 1));
            }
            p -= 1;
        }
        proof {
            let s = out@.subrange(0, p as int);
            if p > 0 {
                assert(s.last() == out@[p - 1]);
            }
            let next = items@.subrange(0, i + 1);
            assert(next.drop_last() =~= items@.subrange(0, i as int));
            assert(next.last() == x);
        }
        out.insert(p, x);
        i += 1;
    }
    assert(items@.subrange(0, i as int) =~= items@);
    out
}

} // verus!
