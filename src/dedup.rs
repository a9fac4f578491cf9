//! Sorting of the extracted keys and run-length collapsing into distinct
//! keys with their multiplicities.

use voracious_radix_sort::RadixSort;
use vstd::multiset::Multiset;
use vstd::prelude::*;

verus! {

/// One distinct key and the number of times it occurred.
#[derive(Debug, Clone, Copy, PartialEq, Eq, Structural)]
pub struct KeyCount {
    pub key: u128,
    pub count: usize,
}

pub open spec fn sorted(s: Seq<u128>) -> bool {
    forall|i: int, j: int| 0 <= i <= j < s.len() ==> s[i] <= s[j]
}

/// The runs of equal neighbours of `s`, each as its key and its length.
pub open spec fn runs(s: Seq<u128>) -> Seq<(u128, nat)>
    decreases s.len(),
{
    if s.len() == 0 {
        Seq::empty()
    } else {
        let r = runs(s.drop_last());
        if r.len() > 0 && r.last().0 == s.last() {
            r.update(r.len() - 1, (s.last(), r.last().1 + 1))
        } else {
            r.push((s.last(), 1nat))
        }
    }
}

/// The records seen as pairs of a key and a multiplicity.
pub open spec fn records_view(v: Seq<KeyCount>) -> Seq<(u128, nat)> {
    Seq::new(v.len(), |i: int| (v[i].key, v[i].count as nat))
}

/// The sum of the multiplicities.
pub open spec fn total(r: Seq<(u128, nat)>) -> nat
    decreases r.len(),
{
    if r.len() == 0 {
        0
    } else {
        total(r.drop_last()) + r.last().1
    }
}

/// `r` lists the distinct keys of `s` in strictly increasing order, each
/// with the number of times it occurs in `s`, and its multiplicities sum to
/// the length of `s`.
pub open spec fn describes(r: Seq<(u128, nat)>, s: Seq<u128>) -> bool {
    &&& forall|i: int, j: int| 0 <= i < j < r.len() ==> r[i].0 < r[j].0
    &&& forall|i: int| 0 <= i < r.len() ==> #[trigger] r[i].1 == s.to_multiset().count(r[i].0)
    &&& forall|x: u128| s.to_multiset().count(x) > 0 ==> exists|i: int|
        0 <= i < r.len() && #[trigger] r[i].0 == x
    &&& total(r) == s.len()
}

/// Relies on voracious_radix_sort's RadixSort::voracious_mt_sort for `u128`:
/// sorts the slice in place, ascending, on up to `threads` worker threads
/// (rayon's default count where `threads` is zero).
#[verifier::external_body]
fn radix_sort_mt(v: &mut Vec<u128>, threads: usize)
    ensures
        final(v)@.to_multiset() == old(v)@.to_multiset(),
        sorted(final(v)@),
{
    v.voracious_mt_sort(threads);
}

/// Sorts the keys ascending, on up to `thread_count` worker threads. The
/// thread count changes only the speed.
pub fn sort(list: &mut Vec<u128>, thread_count: usize)
    ensures
        final(list)@.to_multiset() == old(list)@.to_multiset(),
        final(list)@.len() == old(list)@.len(),
        sorted(final(list)@),
{
    let ghost before = list@;
    radix_sort_mt(list, thread_count);
    proof {
        broadcast use vstd::seq_lib::group_to_multiset_ensures;

        assert(list@.to_multiset().len() == list@.len());
        assert(before.to_multiset().len() == before.len());
    }
}

proof fn lemma_runs_last(s: Seq<u128>)
    requires
        s.len() > 0,
    ensures
        runs(s).len() > 0,
        runs(s).last().0 == s.last(),
        runs(s).len() <= s.len(),
{
    lemma_runs_len(s);
}

proof fn lemma_runs_len(s: Seq<u128>)
    ensures
        runs(s).len() <= s.len(),
    decreases s.len(),
{
    if s.len() > 0 {
        lemma_runs_len(s.drop_last());
    }
}

/// Collapses runs of equal neighbours into one record each, with the run's
/// length. On a sorted list this gives each distinct key once, with its
/// multiplicity.
pub fn collapse(sorted_list: &Vec<u128>) -> (r: Vec<KeyCount>)
    ensures
        records_view(r@) == runs(sorted_list@),
{
    let mut out: Vec<KeyCount> = Vec::new();
    let mut i: usize = 0;
    while i < sorted_list.len()
        invariant
            i <= sorted_list@.len(),
            records_view(out@) == runs(sorted_list@.take(i as int)),
            forall|k: int| 0 <= k < out@.len() ==> #[trigger] out@[k].count <= i,
        decreases sorted_list@.len() - i,
    {
        let x = sorted_list[i];
        let n = out.len();
        proof {
            assert(sorted_list@.take(i + 1).drop_last() =~= sorted_list@.take(i as int));
        }
        if n > 0 && out[n - 1].key == x {
            let last = out[n - 1];
            out.set(n - 1, KeyCount { key: x, count: last.count + 1 });
        } else {
            out.push(KeyCount { key: x, count: 1 });
        }
        i = i + 1;
        proof {
            assert(records_view(out@) =~= runs(sorted_list@.take(i as int)));
        }
    }
    assert(sorted_list@.take(i as int) =~= sorted_list@);
    out
}

/// The number of runs of equal neighbours: on a sorted list, the number of
/// distinct keys.
pub fn distinct_count(sorted_list: &Vec<u128>) -> (r: usize)
    ensures
        r == runs(sorted_list@).len(),
{
    let mut n: usize = 0;
    let mut i: usize = 0;
    while i < sorted_list.len()
        invariant
            i <= sorted_list@.len(),
            n == runs(sorted_list@.take(i as int)).len(),
            n <= i,
        decreases sorted_list@.len() - i,
    {
        let ghost prefix = sorted_list@.take(i as int);
        proof {
            assert(sorted_list@.take(i + 1).drop_last() =~= prefix);
            lemma_runs_len(prefix);
            if i > 0 {
                lemma_runs_last(prefix);
            }
        }
        if i == 0 || sorted_list[i] != sorted_list[i - 1] {
            n = n + 1;
        }
        i = i + 1;
    }
    assert(sorted_list@.take(i as int) =~= sorted_list@);
    n
}

proof fn lemma_runs_of_sorted(s: Seq<u128>)
    requires
        sorted(s),
    ensures
        describes(runs(s), s),
    decreases s.len(),
{
    broadcast use vstd::seq_lib::group_to_multiset_ensures;

    if s.len() == 0 {
        assert(s.to_multiset() =~= Multiset::empty());
    } else {
        let t = s.drop_last();
        let x = s.last();
        assert(t.push(x) =~= s);
        assert(sorted(t));
        lemma_runs_of_sorted(t);
        let rt = runs(t);
        let r = runs(s);
        assert(s.to_multiset() == t.to_multiset().insert(x));
        if rt.len() > 0 && rt.last().0 == x {
            assert(r.drop_last() =~= rt.drop_last());
            assert forall|i: int| 0 <= i < r.len() implies #[trigger] r[i].1 == s.to_multiset().count(
                r[i].0,
            ) by {
                if i < r.len() - 1 {
                    assert(rt[i].0 < rt[rt.len() - 1].0);
                }
            }
            assert forall|y: u128| s.to_multiset().count(y) > 0 implies exists|i: int|
                0 <= i < r.len() && #[trigger] r[i].0 == y by {
                if y != x {
                    let i = choose|i: int| 0 <= i < rt.len() && #[trigger] rt[i].0 == y;
                    assert(r[i].0 == y);
                } else {
                    assert(r[r.len() - 1].0 == y);
                }
            }
        } else {
            if t.len() > 0 {
                lemma_runs_last(t);
                assert(t[t.len() - 1] <= x);
            }
            assert(t.to_multiset().count(x) == 0) by {
                if t.to_multiset().count(x) > 0 {
                    let i = choose|i: int| 0 <= i < rt.len() && #[trigger] rt[i].0 == x;
                    if i < rt.len() - 1 {
                        assert(rt[i].0 < rt[rt.len() - 1].0);
                    }
                }
            }
            assert(r.drop_last() =~= rt);
            assert forall|i: int, j: int| 0 <= i < j < r.len() implies r[i].0 < r[j].0 by {
                if j == r.len() - 1 && i < rt.len() - 1 {
                    assert(rt[i].0 < rt[rt.len() - 1].0);
                }
            }
            assert forall|y: u128| s.to_multiset().count(y) > 0 implies exists|i: int|
                0 <= i < r.len() && #[trigger] r[i].0 == y by {
                if y != x {
                    let i = choose|i: int| 0 <= i < rt.len() && #[trigger] rt[i].0 == y;
                    assert(r[i].0 == y);
                } else {
                    assert(r[r.len() - 1].0 == y);
                }
            }
        }
    }
}

/// Sorting then collapsing is exact: for any list, collapsing a sorted
/// permutation of it gives its distinct keys in strictly increasing order,
/// each with its number of occurrences in the list, and the multiplicities
/// sum to the list's length.
pub proof fn lemma_collapse_of_sorted(list: Seq<u128>, sorted_list: Seq<u128>)
    requires
        sorted(sorted_list),
        sorted_list.to_multiset() == list.to_multiset(),
    ensures
        describes(runs(sorted_list), list),
{
    broadcast use vstd::seq_lib::group_to_multiset_ensures;

    lemma_runs_of_sorted(sorted_list);
    assert(list.to_multiset().len() == list.len());
    assert(sorted_list.to_multiset().len() == sorted_list.len());
}

/// Sorts the keys and collapses them into distinct keys with their
/// multiplicities.
pub fn sort_and_collapse(list: Vec<u128>, thread_count: usize) -> (r: Vec<KeyCount>)
    ensures
        describes(records_view(r@), list@),
{
    let mut keys = list;
    sort(&mut keys, thread_count);
    let r = collapse(&keys);
    proof {
        lemma_collapse_of_sorted(list@, keys@);
    }
    r
}

} // verus!
