//! Total orders and the sort the library's deterministic outputs rest on.

use vstd::prelude::*;
use vstd::relations::{sorted_by, total_ordering};
use crate::strings::{str_less, str_lt};
use crate::text::str_equal;

verus! {

broadcast use vstd::seq_lib::group_seq_properties, vstd::multiset::group_multiset_axioms;

/// A type with a total order, given both as a spec relation and as an
/// executable comparison that agrees with it.
pub trait Ordered: Sized {
    spec fn leq(self, other: Self) -> bool;

    proof fn lemma_total_order()
        ensures
            total_ordering(|a: Self, b: Self| a.leq(b)),
    ;

    fn le(&self, other: &Self) -> (r: bool)
        ensures
            r == self.leq(*other),
    ;
}

/// The spec relation of an ordered type, as a closure.
pub open spec fn leq_fn<T: Ordered>() -> spec_fn(T, T) -> bool {
    |a: T, b: T| a.leq(b)
}

impl Ordered for i64 {
    open spec fn leq(self, other: Self) -> bool {
        self <= other
    }

    proof fn lemma_total_order() {
    }

    fn le(&self, other: &Self) -> (r: bool) {
        *self <= *other
    }
}

impl Ordered for usize {
    open spec fn leq(self, other: Self) -> bool {
        self <= other
    }

    proof fn lemma_total_order() {
    }

    fn le(&self, other: &Self) -> (r: bool) {
        *self <= *other
    }
}

/// Lexicographic order on a hash and a pair of face ids.
impl Ordered for (u64, i64, i64) {
    open spec fn leq(self, other: Self) -> bool {
        self.0 < other.0 || (self.0 == other.0 && (self.1 < other.1 || (self.1 == other.1
            && self.2 <= other.2)))
    }

    proof fn lemma_total_order() {
    }

    fn le(&self, other: &Self) -> (r: bool) {
        self.0 < other.0 || (self.0 == other.0 && (self.1 < other.1 || (self.1 == other.1
            && self.2 <= other.2)))
    }
}

/// Sorts a vector by its type's total order. The result is the unique
/// sorted arrangement of the same elements.
pub fn sort_vec<T: Ordered>(v: Vec<T>) -> (r: Vec<T>)
    ensures
        r@ == v@.sort_by(leq_fn::<T>()),
        r@.to_multiset() == v@.to_multiset(),
        sorted_by(r@, leq_fn::<T>()),
{
    proof {
        T::lemma_total_order();
        assert(total_ordering(leq_fn::<T>()));
    }
    let ghost original = v@;
    let mut input = v;
    let mut out: Vec<T> = Vec::new();
    while input.len() > 0
        invariant
            total_ordering(leq_fn::<T>()),
            sorted_by(out@, leq_fn::<T>()),
            out@.to_multiset().add(input@.to_multiset()) == original.to_multiset(),
        decreases input@.len(),
    {
        let ghost before_in = input@;
        let ghost before_out = out@;
        let x = input.pop().unwrap();
        proof {
            assert(before_in =~= input@.push(x));
            assert(before_in.to_multiset() =~= input@.to_multiset().insert(x));
        }
        let mut pos: usize = 0;
        while pos < out.len() && out[pos].le(&x)
            invariant
                pos <= out@.len(),
                out@ == before_out,
                forall|k: int| 0 <= k < pos ==> out@[k].leq(x),
            decreases out@.len() - pos,
        {
            pos = pos + 1;
        }
        let ghost xv = x;
        out.insert(pos, x);
        proof {
            let f = leq_fn::<T>();
            assert(out@ =~= before_out.insert(pos as int, xv));
            assert(out@.to_multiset() =~= before_out.to_multiset().insert(xv));
            if pos < before_out.len() {
                assert(!before_out[pos as int].leq(xv));
                assert(f(xv, before_out[pos as int]) || f(before_out[pos as int], xv));
            }
            assert forall|i: int, j: int| 0 <= i < j < out@.len() implies #[trigger] f(
                out@[i],
                out@[j],
            ) by {
                if j < pos {
                    assert(out@[i] == before_out[i] && out@[j] == before_out[j]);
                } else if j == pos {
                    assert(out@[i] == before_out[i]);
                } else if i < pos {
                    assert(out@[i] == before_out[i] && out@[j] == before_out[j - 1]);
                    assert(f(before_out[i], xv));
                    assert(f(xv, before_out[pos as int]));
                    if j - 1 > pos {
                        assert(f(before_out[pos as int], before_out[j - 1]));
                    }
                } else if i == pos {
                    assert(out@[j] == before_out[j - 1]);
                    if j - 1 > pos {
                        assert(f(before_out[pos as int], before_out[j - 1]));
                    }
                } else {
                    assert(out@[i] == before_out[i - 1] && out@[j] == before_out[j - 1]);
                }
            }
        }
    }
    proof {
        assert(input@.to_multiset() =~= vstd::multiset::Multiset::empty());
        assert(out@.to_multiset() =~= original.to_multiset());
        original.lemma_sort_by_ensures(leq_fn::<T>());
        vstd::seq_lib::lemma_sorted_unique(out@, original.sort_by(leq_fn::<T>()), leq_fn::<T>());
    }
    out
}


/// Distinct values that all occur in `names` are no more than its length.
pub proof fn lemma_pigeonhole<A>(names: Seq<A>, vals: Seq<A>)
    requires
        forall|i: int, j: int| 0 <= i < j < vals.len() ==> vals[i] != vals[j],
        forall|i: int| 0 <= i < vals.len() ==> names.contains(#[trigger] vals[i]),
    ensures
        vals.len() <= names.len(),
    decreases vals.len(),
{
    if vals.len() > 0 {
        let v = vals.last();
        assert(names.contains(vals[vals.len() - 1]));
        let idx = choose|j: int| 0 <= j < names.len() && names[j] == v;
        let rest = names.remove(idx);
        let vs = vals.drop_last();
        assert forall|i: int| 0 <= i < vs.len() implies rest.contains(#[trigger] vs[i]) by {
            assert(vs[i] == vals[i]);
            assert(names.contains(vals[i]));
            let j = choose|j: int| 0 <= j < names.len() && names[j] == vals[i];
            assert(j != idx);
            if j < idx {
                assert(rest[j] == names[j]);
            } else {
                assert(rest[j - 1] == names[j]);
            }
        }
        lemma_pigeonhole(rest, vs);
    }
}


/// A key that entries are sorted by: `key_before` is the strict order of the
/// keys' views, and `precedes` computes it.
pub trait SortKey: View + Sized {
    spec fn key_before(a: Self::V, b: Self::V) -> bool;

    fn precedes(&self, other: &Self) -> (r: bool)
        ensures
            r == Self::key_before(self@, other@),
    ;
}

/// Two strings, compared by the first, then by the second.
impl SortKey for (String, String) {
    open spec fn key_before(a: (Seq<char>, Seq<char>), b: (Seq<char>, Seq<char>)) -> bool {
        str_lt(a.0, b.0) || (a.0 == b.0 && str_lt(a.1, b.1))
    }

    fn precedes(&self, other: &Self) -> (r: bool) {
        str_less(self.0.as_str(), other.0.as_str()) || (str_equal(self.0.as_str(), other.0.as_str())
            && str_less(self.1.as_str(), other.1.as_str()))
    }
}

/// A number, then a string.
impl SortKey for (i64, String) {
    open spec fn key_before(a: (i64, Seq<char>), b: (i64, Seq<char>)) -> bool {
        a.0 < b.0 || (a.0 == b.0 && str_lt(a.1, b.1))
    }

    fn precedes(&self, other: &Self) -> (r: bool) {
        self.0 < other.0 || (self.0 == other.0 && str_less(self.1.as_str(), other.1.as_str()))
    }
}

/// `sorted` with `x` placed after every entry whose key `x`'s key does not
/// come before.
pub open spec fn insert_stable<K: SortKey>(sorted: Seq<(K::V, int)>, x: (K::V, int)) -> Seq<
    (K::V, int),
>
    decreases sorted.len(),
{
    if sorted.len() == 0 {
        seq![x]
    } else if !K::key_before(x.0, sorted.last().0) {
        sorted.push(x)
    } else {
        insert_stable::<K>(sorted.drop_last(), x).push(sorted.last())
    }
}

/// Entries sorted by key; entries whose keys tie keep their order.
pub open spec fn stable_sorted<K: SortKey>(s: Seq<(K::V, int)>) -> Seq<(K::V, int)>
    decreases s.len(),
{
    if s.len() == 0 {
        Seq::empty()
    } else {
        insert_stable::<K>(stable_sorted::<K>(s.drop_last()), s.last())
    }
}

/// Each key with its position.
pub open spec fn keyed<K: SortKey>(keys: Seq<K>) -> Seq<(K::V, int)> {
    Seq::new(keys.len(), |i: int| (keys[i]@, i))
}

/// The positions of `keys` in the order of their keys, positions whose keys
/// tie in their own order: the order a stable sort by key puts them in.
pub open spec fn stable_order<K: SortKey>(keys: Seq<K>) -> Seq<int> {
    stable_sorted::<K>(keyed(keys)).map_values(|p: (K::V, int)| p.1)
}

/// Positions listed in `out`, each with its key.
pub open spec fn positions_keyed<K: SortKey>(keys: Seq<K>, out: Seq<usize>) -> Seq<(K::V, int)> {
    out.map_values(|i: usize| (keys[i as int]@, i as int))
}

/// The positions of `keys` in the order a stable sort by key leaves them.
pub fn sort_order<K: SortKey>(keys: &[K]) -> (r: Vec<usize>)
    ensures
        r@.map_values(|i: usize| i as int) == stable_order(keys@),
{
    let ghost all = keyed(keys@);
    let mut out: Vec<usize> = Vec::new();
    let mut k: usize = 0;
    assert(positions_keyed(keys@, out@) =~= stable_sorted::<K>(all.take(0)));
    while k < keys.len()
        invariant
            k <= keys@.len(),
            all == keyed(keys@),
            forall|j: int| 0 <= j < out@.len() ==> out@[j] < k,
            positions_keyed(keys@, out@) == stable_sorted::<K>(all.take(k as int)),
        decreases keys@.len() - k,
    {
        let ghost xv = (keys@[k as int]@, k as int);
        proof {
            assert(all.take(k + 1).drop_last() =~= all.take(k as int));
            assert(all.take(k + 1).last() == xv);
        }
        let ghost o = positions_keyed(keys@, out@);
        let mut p: usize = out.len();
        assert(o.take(p as int) =~= o && o.skip(p as int) =~= Seq::<(K::V, int)>::empty());
        while p > 0 && keys[k].precedes(&keys[out[p - 1]])
            invariant
                p <= out@.len(),
                k < keys@.len(),
                forall|j: int| 0 <= j < out@.len() ==> out@[j] < k,
                positions_keyed(keys@, out@) == o,
                insert_stable::<K>(o, xv) == insert_stable::<K>(o.take(p as int), xv) + o.skip(p as int),
                xv == (keys@[k as int]@, k as int),
            decreases p,
        {
            proof {
                assert(o[p - 1] == (keys@[out@[p - 1] as int]@, out@[p - 1] as int));
                assert(o.take(p as int).drop_last() =~= o.take(p - 1));
                assert(o.take(p as int).last() == o[p - 1]);
                assert(o.skip(p - 1) =~= seq![o[p - 1]] + o.skip(p as int));
                assert(insert_stable::<K>(o.take(p - 1), xv).push(o[p - 1]) + o.skip(p as int)
                    =~= insert_stable::<K>(o.take(p - 1), xv) + o.skip(p - 1));
            }
            p = p - 1;
        }
        proof {
            if p > 0 {
                assert(o[p - 1] == (keys@[out@[p - 1] as int]@, out@[p - 1] as int));
                assert(o.take(p as int).last() == o[p - 1]);
            }
            assert(insert_stable::<K>(o.take(p as int), xv) =~= o.take(p as int).push(xv));
            assert(o.take(p as int).push(xv) + o.skip(p as int) =~= o.insert(p as int, xv));
        }
        out.insert(p, k);
        proof {
            assert(positions_keyed(keys@, out@) =~= o.insert(p as int, xv));
        }
        k = k + 1;
    }
    assert(all.take(k as int) =~= all);
    assert(out@.map_values(|i: usize| i as int) =~= stable_order(keys@));
    out
}


proof fn lemma_insert_stable_positions<K: SortKey>(sorted: Seq<(K::V, int)>, x: (K::V, int), n: int)
    requires
        forall|t: int| 0 <= t < sorted.len() ==> 0 <= #[trigger] sorted[t].1 < n,
        0 <= x.1 < n,
    ensures
        forall|t: int| 0 <= t < insert_stable::<K>(sorted, x).len() ==> 0 <= #[trigger] insert_stable::<K>(sorted, x)[t].1 < n,
        insert_stable::<K>(sorted, x).len() == sorted.len() + 1,
    decreases sorted.len(),
{
    if sorted.len() > 0 && K::key_before(x.0, sorted.last().0) {
        lemma_insert_stable_positions::<K>(sorted.drop_last(), x, n);
        let ins = insert_stable::<K>(sorted.drop_last(), x);
        assert forall|t: int| 0 <= t < ins.push(sorted.last()).len() implies 0 <= #[trigger] ins.push(sorted.last())[t].1 < n by {
            if t < ins.len() {
                assert(ins.push(sorted.last())[t] == ins[t]);
            }
        }
    } else if sorted.len() > 0 {
        assert forall|t: int| 0 <= t < sorted.push(x).len() implies 0 <= #[trigger] sorted.push(x)[t].1 < n by {
            if t < sorted.len() {
                assert(sorted.push(x)[t] == sorted[t]);
            }
        }
    }
}

proof fn lemma_stable_sorted_positions<K: SortKey>(s: Seq<(K::V, int)>, n: int)
    requires
        forall|t: int| 0 <= t < s.len() ==> 0 <= #[trigger] s[t].1 < n,
    ensures
        forall|t: int| 0 <= t < stable_sorted::<K>(s).len() ==> 0 <= #[trigger] stable_sorted::<K>(s)[t].1 < n,
        stable_sorted::<K>(s).len() == s.len(),
    decreases s.len(),
{
    if s.len() > 0 {
        let p = s.drop_last();
        assert forall|t: int| 0 <= t < p.len() implies 0 <= #[trigger] p[t].1 < n by {
            assert(p[t] == s[t]);
        }
        lemma_stable_sorted_positions::<K>(p, n);
        lemma_insert_stable_positions::<K>(stable_sorted::<K>(p), s.last(), n);
    }
}

/// Every position a stable order lists is a position of the keys.
pub proof fn lemma_stable_order_positions<K: SortKey>(keys: Seq<K>)
    ensures
        forall|t: int| 0 <= t < stable_order(keys).len() ==> 0 <= #[trigger] stable_order(keys)[t] < keys.len(),
        stable_order(keys).len() == keys.len(),
{
    lemma_stable_sorted_positions::<K>(keyed(keys), keys.len() as int);
}

} // verus!
