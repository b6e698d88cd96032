//! Stable insertion sort and its laws: the result is ordered and holds the
//! same elements as the input.
use vstd::prelude::*;

verus! {

/// The number of leading elements of `s` that are ordered no later than `x`:
/// the place where a stable insertion puts `x`.
pub open spec fn ins_pos<T>(s: Seq<T>, x: T, le: spec_fn(T, T) -> bool) -> nat
    decreases s.len(),
{
    if s.len() > 0 && le(s[0], x) {
        1 + ins_pos(s.drop_first(), x, le)
    } else {
        0
    }
}

/// `x` inserted into `s` after the longest prefix of elements no later than `x`.
pub open spec fn ins<T>(s: Seq<T>, x: T, le: spec_fn(T, T) -> bool) -> Seq<T> {
    s.insert(ins_pos(s, x, le) as int, x)
}

/// The stable sort of `s`: its elements inserted one by one, in order.
pub open spec fn sort_by<T>(s: Seq<T>, le: spec_fn(T, T) -> bool) -> Seq<T>
    decreases s.len(),
{
    if s.len() == 0 {
        s
    } else {
        ins(sort_by(s.drop_last(), le), s.last(), le)
    }
}

/// Every element of `s` is ordered no later than those after it.
pub open spec fn is_sorted<T>(s: Seq<T>, le: spec_fn(T, T) -> bool) -> bool {
    forall|i: int, j: int| 0 <= i < j < s.len() ==> #[trigger] le(s[i], s[j])
}

/// `le` is total and transitive.
pub open spec fn total_preorder<T>(le: spec_fn(T, T) -> bool) -> bool {
    &&& forall|a: T, b: T| #[trigger] le(a, b) || le(b, a)
    &&& forall|a: T, b: T, c: T| #[trigger] le(a, b) && #[trigger] le(b, c) ==> le(a, c)
}

/// The insertion place follows exactly the elements ordered no later than `x`.
pub proof fn lemma_ins_pos<T>(s: Seq<T>, x: T, le: spec_fn(T, T) -> bool)
    ensures
        ins_pos(s, x, le) <= s.len(),
        forall|j: int| 0 <= j < ins_pos(s, x, le) ==> #[trigger] le(s[j], x),
        ins_pos(s, x, le) < s.len() ==> !le(s[ins_pos(s, x, le) as int], x),
    decreases s.len(),
{
    if s.len() > 0 && le(s[0], x) {
        lemma_ins_pos(s.drop_first(), x, le);
        assert forall|j: int| 0 <= j < ins_pos(s, x, le) implies #[trigger] le(s[j], x) by {
            if j > 0 {
                assert(s[j] == s.drop_first()[j - 1]);
            }
        }
    }
}

/// Inserting into an ordered sequence keeps it ordered.
pub proof fn lemma_ins_sorted<T>(s: Seq<T>, x: T, le: spec_fn(T, T) -> bool)
    requires
        total_preorder(le),
        is_sorted(s, le),
    ensures
        is_sorted(ins(s, x, le), le),
{
    lemma_ins_pos(s, x, le);
    let p = ins_pos(s, x, le) as int;
    let r = ins(s, x, le);
    assert(r.len() == s.len() + 1);
    if p < s.len() {
        assert(le(x, s[p]));
    }
    assert forall|i: int, j: int| 0 <= i < j < r.len() implies #[trigger] le(r[i], r[j]) by {
        if i < p && j < p {
            assert(le(s[i], s[j]));
        } else if i < p && j == p {
        } else if i < p {
            assert(le(s[i], s[j - 1]));
        } else if i == p {
            assert(le(s[p], s[j - 1]) || j - 1 == p);
        } else {
            assert(le(s[i - 1], s[j - 1]));
        }
    }
}

/// Law: a sort orders its result.
pub proof fn lemma_sort_by_sorted<T>(s: Seq<T>, le: spec_fn(T, T) -> bool)
    requires
        total_preorder(le),
    ensures
        is_sorted(sort_by(s, le), le),
    decreases s.len(),
{
    if s.len() > 0 {
        lemma_sort_by_sorted(s.drop_last(), le);
        lemma_ins_sorted(sort_by(s.drop_last(), le), s.last(), le);
    }
}

/// Law: a sort keeps every element, as often as it occurs.
pub proof fn lemma_sort_by_permutation<T>(s: Seq<T>, le: spec_fn(T, T) -> bool)
    ensures
        sort_by(s, le).to_multiset() == s.to_multiset(),
        sort_by(s, le).len() == s.len(),
    decreases s.len(),
{
    broadcast use vstd::seq_lib::to_multiset_insert, vstd::seq_lib::to_multiset_build;

    if s.len() > 0 {
        lemma_sort_by_permutation(s.drop_last(), le);
        let r = sort_by(s.drop_last(), le);
        lemma_ins_pos(r, s.last(), le);
        assert(s.drop_last().push(s.last()) =~= s);
    }
}

/// Every element of a sorted sequence is an element of the input.
pub proof fn lemma_sort_by_contains<T>(s: Seq<T>, le: spec_fn(T, T) -> bool, k: int)
    requires
        0 <= k < sort_by(s, le).len(),
    ensures
        s.contains(sort_by(s, le)[k]),
{
    broadcast use vstd::seq_lib::to_multiset_contains;

    lemma_sort_by_permutation(s, le);
    let r = sort_by(s, le);
    assert(r.contains(r[k]));
    assert(r.to_multiset().count(r[k]) > 0);
}

/// Law: a sort keeps keys that are distinct distinct.
pub proof fn lemma_sort_by_distinct<T, K>(s: Seq<T>, le: spec_fn(T, T) -> bool, key: spec_fn(T) -> K)
    requires
        forall|i: int, j: int| 0 <= i < j < s.len() ==> key(#[trigger] s[i]) != key(#[trigger] s[j]),
    ensures
        forall|i: int, j: int|
            0 <= i < j < sort_by(s, le).len() ==> key(#[trigger] sort_by(s, le)[i]) != key(
                #[trigger] sort_by(s, le)[j],
            ),
    decreases s.len(),
{
    if s.len() > 0 {
        let t = s.drop_last();
        assert forall|i: int, j: int| 0 <= i < j < t.len() implies key(#[trigger] t[i]) != key(#[trigger] t[j]) by {
            assert(t[i] == s[i] && t[j] == s[j]);
        }
        lemma_sort_by_distinct(t, le, key);
        let r = sort_by(t, le);
        let x = s.last();
        lemma_sort_by_permutation(t, le);
        assert forall|k: int| 0 <= k < r.len() implies key(#[trigger] r[k]) != key(x) by {
            lemma_sort_by_contains(t, le, k);
            let j = choose|j: int| 0 <= j < t.len() && t[j] == r[k];
            assert(s[j] == t[j]);
            assert(key(s[j]) != key(s[s.len() - 1]));
        }
        lemma_ins_pos(r, x, le);
        let p = ins_pos(r, x, le) as int;
        let out = ins(r, x, le);
        assert forall|i: int, j: int| 0 <= i < j < out.len() implies key(#[trigger] out[i]) != key(#[trigger] out[j]) by {
            if i < p && j < p {
                assert(out[i] == r[i] && out[j] == r[j]);
            } else if i < p && j == p {
                assert(out[i] == r[i]);
            } else if i < p {
                assert(out[i] == r[i] && out[j] == r[j - 1]);
            } else if i == p {
                assert(out[j] == r[j - 1]);
            } else {
                assert(out[i] == r[i - 1] && out[j] == r[j - 1]);
            }
        }
    }
}

/// Sorting commutes with a map that keeps the order.
pub proof fn lemma_sort_by_map<A, B>(
    s: Seq<A>,
    f: spec_fn(A) -> B,
    le1: spec_fn(A, A) -> bool,
    le2: spec_fn(B, B) -> bool,
)
    requires
        forall|a: A, b: A| #[trigger] le1(a, b) == le2(f(a), f(b)),
    ensures
        sort_by(s, le1).map_values(f) == sort_by(s.map_values(f), le2),
    decreases s.len(),
{
    if s.len() > 0 {
        lemma_sort_by_map(s.drop_last(), f, le1, le2);
        assert(s.map_values(f).drop_last() =~= s.drop_last().map_values(f));
        let r = sort_by(s.drop_last(), le1);
        lemma_ins_pos_map(r, s.last(), f, le1, le2);
        lemma_ins_pos(r, s.last(), le1);
        assert(ins(r, s.last(), le1).map_values(f) =~= ins(r.map_values(f), f(s.last()), le2));
    }
}

proof fn lemma_ins_pos_map<A, B>(
    s: Seq<A>,
    x: A,
    f: spec_fn(A) -> B,
    le1: spec_fn(A, A) -> bool,
    le2: spec_fn(B, B) -> bool,
)
    requires
        forall|a: A, b: A| #[trigger] le1(a, b) == le2(f(a), f(b)),
    ensures
        ins_pos(s, x, le1) == ins_pos(s.map_values(f), f(x), le2),
    decreases s.len(),
{
    if s.len() > 0 {
        lemma_ins_pos_map(s.drop_first(), x, f, le1, le2);
        assert(s.map_values(f).drop_first() =~= s.drop_first().map_values(f));
        assert(le1(s[0], x) == le2(f(s[0]), f(x)));
    }
}

/// A type with an order that an insertion sort can follow.
pub trait SortKey: Sized {
    /// Whether `self` comes no later than `other`.
    spec fn key_le(&self, other: &Self) -> bool;

    /// Computes `key_le`.
    fn le(&self, other: &Self) -> (res: bool)
        ensures
            res == self.key_le(other),
    ;
}

/// The order of a `SortKey` type as a spec closure.
pub open spec fn key_order<T: SortKey>() -> spec_fn(T, T) -> bool {
    |a: T, b: T| a.key_le(&b)
}

/// Sorts `v` stably by the order of its element type.
pub fn sort_by_key<T: SortKey>(v: Vec<T>) -> (res: Vec<T>)
    ensures
        res@ == sort_by(v@, key_order::<T>()),
{
    let ghost s = v@;
    let ghost le = key_order::<T>();
    let mut rest = v;
    let mut out: Vec<T> = Vec::new();
    let n = rest.len();
    let mut i: usize = 0;
    while i < n
        invariant
            n == s.len(),
            0 <= i <= n,
            rest@ == s.skip(i as int),
            out@ == sort_by(s.take(i as int), le),
            le == key_order::<T>(),
        decreases n - i,
    {
        let x = rest.remove(0);
        assert(x == s[i as int]);
        assert(rest@ =~= s.skip(i + 1));
        let mut k: usize = 0;
        assert(out@.skip(0) =~= out@);
        while k < out.len() && out[k].le(&x)
            invariant
                0 <= k <= out@.len(),
                ins_pos(out@, x, le) == k + ins_pos(out@.skip(k as int), x, le),
                le == key_order::<T>(),
            decreases out@.len() - k,
        {
            assert(out@.skip(k as int).drop_first() =~= out@.skip(k + 1));
            k = k + 1;
        }
        out.insert(k, x);
        assert(s.take(i + 1).drop_last() =~= s.take(i as int));
        i = i + 1;
    }
    assert(s.take(n as int) =~= s);
    out
}

} // verus!
