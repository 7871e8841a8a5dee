//! The order of strings, as `String`'s `Ord` compares them: character by
//! character, by code point, a proper prefix first.

use vstd::prelude::*;
use crate::text::chars_of;

verus! {

/// `a` sorts strictly before `b`.
pub open spec fn str_lt(a: Seq<char>, b: Seq<char>) -> bool
    decreases a.len(),
{
    if a.len() == 0 {
        b.len() > 0
    } else if b.len() == 0 {
        false
    } else if a[0] != b[0] {
        a[0] < b[0]
    } else {
        str_lt(a.drop_first(), b.drop_first())
    }
}

/// No string sorts before itself.
pub proof fn lemma_str_lt_irreflexive(a: Seq<char>)
    ensures
        !str_lt(a, a),
    decreases a.len(),
{
    if a.len() > 0 {
        lemma_str_lt_irreflexive(a.drop_first());
    }
}

/// The order is transitive.
pub proof fn lemma_str_lt_transitive(a: Seq<char>, b: Seq<char>, c: Seq<char>)
    requires
        str_lt(a, b),
        str_lt(b, c),
    ensures
        str_lt(a, c),
    decreases a.len(),
{
    if a.len() > 0 && b.len() > 0 && c.len() > 0 {
        if a[0] == b[0] && b[0] == c[0] {
            lemma_str_lt_transitive(a.drop_first(), b.drop_first(), c.drop_first());
        }
    }
}

/// Two different strings are ordered one way or the other.
pub proof fn lemma_str_lt_total(a: Seq<char>, b: Seq<char>)
    ensures
        a == b || str_lt(a, b) || str_lt(b, a),
    decreases a.len(),
{
    if a.len() > 0 && b.len() > 0 && a[0] == b[0] {
        lemma_str_lt_total(a.drop_first(), b.drop_first());
        if a.drop_first() == b.drop_first() {
            assert(a =~= seq![a[0]] + a.drop_first());
            assert(b =~= seq![b[0]] + b.drop_first());
        }
    } else if a.len() == 0 && b.len() == 0 {
        assert(a =~= b);
    }
}

/// At most one of two strings sorts before the other.
pub proof fn lemma_str_lt_asymmetric(a: Seq<char>, b: Seq<char>)
    ensures
        !(str_lt(a, b) && str_lt(b, a)),
{
    if str_lt(a, b) && str_lt(b, a) {
        lemma_str_lt_transitive(a, b, a);
        lemma_str_lt_irreflexive(a);
    }
}

/// Whether `a` sorts strictly before `b`.
pub fn str_less(a: &str, b: &str) -> (r: bool)
    ensures
        r == str_lt(a@, b@),
{
    let av = chars_of(a);
    let bv = chars_of(b);
    let mut i: usize = 0;
    assert(a@.skip(0) =~= a@ && b@.skip(0) =~= b@);
    while i < av.len() && i < bv.len()
        invariant
            av@ == a@,
            bv@ == b@,
            i <= av@.len(),
            i <= bv@.len(),
            str_lt(a@, b@) == str_lt(a@.skip(i as int), b@.skip(i as int)),
        decreases av@.len() - i,
    {
        let x = av[i];
        let y = bv[i];
        proof {
            assert(a@.skip(i as int)[0] == x);
            assert(b@.skip(i as int)[0] == y);
            assert(a@.skip(i as int).drop_first() =~= a@.skip(i + 1));
            assert(b@.skip(i as int).drop_first() =~= b@.skip(i + 1));
        }
        if x != y {
            return x < y;
        }
        i = i + 1;
    }
    i < bv.len() && i >= av.len()
}


/// `sorted` with `x` placed after every string not after it: one step of
/// sorting strings in their order.
pub open spec fn insert_sorted(sorted: Seq<Seq<char>>, x: Seq<char>) -> Seq<Seq<char>>
    decreases sorted.len(),
{
    if sorted.len() == 0 {
        seq![x]
    } else if !str_lt(x, sorted.last()) {
        sorted.push(x)
    } else {
        insert_sorted(sorted.drop_last(), x).push(sorted.last())
    }
}

/// Strings sorted in their order.
pub open spec fn sorted_strings(s: Seq<Seq<char>>) -> Seq<Seq<char>>
    decreases s.len(),
{
    if s.len() == 0 {
        Seq::empty()
    } else {
        insert_sorted(sorted_strings(s.drop_last()), s.last())
    }
}

/// No string of `s` sorts before an earlier one.
pub open spec fn in_order(s: Seq<Seq<char>>) -> bool {
    forall|i: int, j: int| 0 <= i < j < s.len() ==> !str_lt(s[j], s[i])
}

/// The views of a sequence of strings.
pub open spec fn views_of(v: Seq<String>) -> Seq<Seq<char>> {
    Seq::new(v.len(), |i: int| v[i]@)
}

proof fn lemma_insert_sorted(sorted: Seq<Seq<char>>, x: Seq<char>)
    requires
        in_order(sorted),
    ensures
        in_order(insert_sorted(sorted, x)),
        insert_sorted(sorted, x).to_multiset() == sorted.to_multiset().insert(x),
        forall|i: int|
            0 <= i < insert_sorted(sorted, x).len() ==> #[trigger] insert_sorted(sorted, x)[i] == x
                || sorted.contains(insert_sorted(sorted, x)[i]),
    decreases sorted.len(),
{
    broadcast use vstd::seq_lib::group_seq_properties, vstd::multiset::group_multiset_axioms;
    if sorted.len() > 0 && str_lt(x, sorted.last()) {
        let rest = sorted.drop_last();
        lemma_insert_sorted(rest, x);
        let ins = insert_sorted(rest, x);
        let last = sorted.last();
        assert forall|i: int| 0 <= i < ins.len() implies !str_lt(last, #[trigger] ins[i]) by {
            lemma_str_lt_asymmetric(x, last);
            if ins[i] != x {
                assert(rest.contains(ins[i]));
                let k = choose|k: int| 0 <= k < rest.len() && rest[k] == ins[i];
                assert(sorted[k] == rest[k]);
                assert(!str_lt(sorted[sorted.len() - 1], sorted[k]));
            }
        }
        assert(sorted =~= rest.push(last));
        assert forall|i: int| 0 <= i < ins.push(last).len() implies #[trigger] ins.push(last)[i]
            == x || sorted.contains(ins.push(last)[i]) by {
            if i < ins.len() {
                assert(ins.push(last)[i] == ins[i]);
                if ins[i] != x {
                    assert(rest.contains(ins[i]));
                    let k = choose|k: int| 0 <= k < rest.len() && rest[k] == ins[i];
                    assert(sorted[k] == ins[i]);
                }
            } else {
                assert(sorted[sorted.len() - 1] == last);
            }
        }
    } else if sorted.len() > 0 {
        assert forall|i: int| 0 <= i < sorted.push(x).len() implies #[trigger] sorted.push(x)[i]
            == x || sorted.contains(sorted.push(x)[i]) by {
            if i < sorted.len() {
                assert(sorted.push(x)[i] == sorted[i]);
            }
        }
        assert forall|i: int, j: int| 0 <= i < j < sorted.push(x).len() implies !str_lt(
            sorted.push(x)[j],
            sorted.push(x)[i],
        ) by {
            if j == sorted.len() as int {
                if i < sorted.len() - 1 {
                    assert(!str_lt(sorted.last(), sorted[i]));
                    if str_lt(x, sorted[i]) {
                        lemma_str_lt_total(sorted.last(), sorted[i]);
                        if sorted.last() != sorted[i] && str_lt(sorted[i], sorted.last()) {
                            lemma_str_lt_transitive(x, sorted[i], sorted.last());
                        }
                    }
                }
            }
        }
    }
}

/// Sorting gives the strings in order, each as often as it was given.
pub proof fn lemma_sorted_strings(s: Seq<Seq<char>>)
    ensures
        in_order(sorted_strings(s)),
        sorted_strings(s).to_multiset() == s.to_multiset(),
    decreases s.len(),
{
    broadcast use vstd::seq_lib::group_seq_properties, vstd::multiset::group_multiset_axioms;
    if s.len() > 0 {
        lemma_sorted_strings(s.drop_last());
        lemma_insert_sorted(sorted_strings(s.drop_last()), s.last());
        assert(s.drop_last().push(s.last()) =~= s);
    }
}

/// Two sequences of strings in order with the same strings, each as often,
/// are the same sequence.
pub proof fn lemma_in_order_unique(a: Seq<Seq<char>>, b: Seq<Seq<char>>)
    requires
        in_order(a),
        in_order(b),
        a.to_multiset() == b.to_multiset(),
    ensures
        a == b,
    decreases a.len(),
{
    broadcast use vstd::seq_lib::group_seq_properties, vstd::multiset::group_multiset_axioms,
        vstd::seq_lib::group_to_multiset_ensures;
    if a.len() == 0 {
        assert(b.to_multiset().len() == 0);
        assert(b =~= a);
    } else {
        assert(a.to_multiset().len() == a.len());
        assert(b.to_multiset().len() == b.len());
        assert(b.len() == a.len());
        let la = a.last();
        let lb = b.last();
        assert(a.to_multiset().count(lb) > 0);
        assert(b.to_multiset().count(la) > 0);
        assert(a.contains(lb) && b.contains(la));
        let i = choose|i: int| 0 <= i < a.len() && a[i] == lb;
        let j = choose|j: int| 0 <= j < b.len() && b[j] == la;
        if i < a.len() - 1 {
            assert(!str_lt(a[a.len() - 1], a[i]));
        } else {
            lemma_str_lt_irreflexive(la);
        }
        if j < b.len() - 1 {
            assert(!str_lt(b[b.len() - 1], b[j]));
        } else {
            lemma_str_lt_irreflexive(lb);
        }
        lemma_str_lt_total(la, lb);
        assert(la == lb);
        let pa = a.drop_last();
        let pb = b.drop_last();
        assert(a =~= pa.push(la));
        assert(b =~= pb.push(lb));
        assert(pa.to_multiset() =~= a.to_multiset().remove(la));
        assert(pb.to_multiset() =~= b.to_multiset().remove(lb));
        assert forall|x: int, y: int| 0 <= x < y < pa.len() implies !str_lt(pa[y], pa[x]) by {
            assert(pa[y] == a[y] && pa[x] == a[x]);
        }
        assert forall|x: int, y: int| 0 <= x < y < pb.len() implies !str_lt(pb[y], pb[x]) by {
            assert(pb[y] == b[y] && pb[x] == b[x]);
        }
        lemma_in_order_unique(pa, pb);
    }
}

/// Sorting gives the same sequence for any arrangement of the same strings.
pub proof fn lemma_sorted_strings_ignore_order(a: Seq<Seq<char>>, b: Seq<Seq<char>>)
    requires
        a.to_multiset() == b.to_multiset(),
    ensures
        sorted_strings(a) == sorted_strings(b),
{
    lemma_sorted_strings(a);
    lemma_sorted_strings(b);
    lemma_in_order_unique(sorted_strings(a), sorted_strings(b));
}

/// Strings sorted in their order: character by character, by code point,
/// a proper prefix first.
pub fn sort_strings(v: Vec<String>) -> (r: Vec<String>)
    ensures
        views_of(r@) == sorted_strings(views_of(v@)),
{
    let ghost all = views_of(v@);
    let mut out: Vec<String> = Vec::new();
    let mut rest = v;
    let ghost mut k: int = 0;
    assert(all.take(0) =~= Seq::<Seq<char>>::empty());
    assert(views_of(out@) =~= Seq::<Seq<char>>::empty());
    while rest.len() > 0
        invariant
            0 <= k <= all.len(),
            views_of(rest@) == all.skip(k),
            views_of(out@) == sorted_strings(all.take(k)),
        decreases rest@.len(),
    {
        let ghost before_rest = rest@;
        let x = rest.remove(0);
        let ghost xv = x@;
        proof {
            assert(views_of(before_rest)[0] == x@);
            assert(views_of(before_rest).len() > 0);
            assert(k < all.len());
            assert(all.skip(k)[0] == all[k]);
            assert(all[k] == x@);
            assert(all.take(k + 1).drop_last() =~= all.take(k));
            assert(all.take(k + 1).last() == x@);
            assert forall|i: int| 0 <= i < views_of(rest@).len() implies views_of(rest@)[i]
                == all.skip(k + 1)[i] by {
                assert(rest@[i] == before_rest[i + 1]);
                assert(views_of(before_rest)[i + 1] == all.skip(k)[i + 1]);
            }
            assert(views_of(rest@) =~= all.skip(k + 1));
        }
        let ghost o = views_of(out@);
        let mut p: usize = out.len();
        assert(o.take(p as int) =~= o && o.skip(p as int) =~= Seq::<Seq<char>>::empty());
        while p > 0 && str_less(x.as_str(), out[p - 1].as_str())
            invariant
                p <= out@.len(),
                views_of(out@) == o,
                insert_sorted(o, xv) == insert_sorted(o.take(p as int), xv) + o.skip(p as int),
                x@ == xv,
            decreases p,
        {
            proof {
                assert(o[p - 1] == out@[p - 1]@);
                assert(o.take(p as int).drop_last() =~= o.take(p - 1));
                assert(o.take(p as int).last() == o[p - 1]);
                assert(o.skip(p - 1) =~= seq![o[p - 1]] + o.skip(p as int));
                assert(insert_sorted(o.take(p - 1), xv).push(o[p - 1]) + o.skip(p as int)
                    =~= insert_sorted(o.take(p - 1), xv) + o.skip(p - 1));
            }
            p = p - 1;
        }
        proof {
            if p > 0 {
                assert(o[p - 1] == out@[p - 1]@);
                assert(o.take(p as int).last() == o[p - 1]);
            }
            assert(insert_sorted(o.take(p as int), xv) =~= o.take(p as int).push(xv));
            assert(o.take(p as int).push(xv) + o.skip(p as int) =~= o.insert(p as int, xv));
        }
        out.insert(p, x);
        proof {
            assert(views_of(out@) =~= o.insert(p as int, xv));
            k = k + 1;
        }
    }
    assert(all.take(k) =~= all);
    out
}

} // verus!
