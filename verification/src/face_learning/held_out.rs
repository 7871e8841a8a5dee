//! Identity-held-out splits of training examples: every identity the
//! examples name is held out by exactly one fold, chosen by a seeded stable
//! order of the identities.

use vstd::prelude::*;
use crate::face_learning::sampling::{fnv1a, fnv1a_spec, le_bytes, push_bytes, push_le_bytes};
use crate::face_learning::training::TrainingError;
use crate::strings::{str_lt, str_less, sorted_strings, sort_strings, views_of,
    lemma_sorted_strings_ignore_order};
use crate::text::{owned, str_equal};

verus! {

/// The hash that orders identities into folds: FNV-1a over the seed's
/// little-endian bytes, a 0xff separator and the identity's UTF-8 bytes.
pub open spec fn identity_fold_hash(seed: u64, identity: Seq<char>) -> u64 {
    fnv1a_spec(le_bytes(seed) + seq![0xffu8] + vstd::utf8::encode_utf8(identity))
}

fn identity_hash(seed: u64, identity: &str) -> (h: u64)
    ensures
        h == identity_fold_hash(seed, identity@),
{
    let mut bytes: Vec<u8> = Vec::new();
    push_le_bytes(&mut bytes, seed);
    bytes.push(0xff);
    push_bytes(&mut bytes, identity.as_bytes());
    assert(bytes@ =~= le_bytes(seed) + seq![0xffu8] + vstd::utf8::encode_utf8(identity@));
    fnv1a(bytes.as_slice())
}

/// The identity keys of each example, as character sequences.
pub open spec fn example_key_views(keys: Seq<Vec<String>>) -> Seq<Seq<Seq<char>>> {
    keys.map_values(|k: Vec<String>| views_of(k@))
}

/// Every identity key of the examples, in order, repeats kept.
pub open spec fn all_keys(ks: Seq<Seq<Seq<char>>>) -> Seq<Seq<char>>
    decreases ks.len(),
{
    if ks.len() == 0 {
        Seq::empty()
    } else {
        all_keys(ks.drop_last()) + ks.last()
    }
}

/// Whether some example names no identity.
pub open spec fn has_keyless(ks: Seq<Seq<Seq<char>>>) -> bool {
    exists|i: int| 0 <= i < ks.len() && (#[trigger] ks[i]).len() == 0
}

/// A sorted sequence with its adjacent repeats dropped.
pub open spec fn dedup_sorted(s: Seq<Seq<char>>) -> Seq<Seq<char>>
    decreases s.len(),
{
    if s.len() == 0 {
        s
    } else {
        let rest = dedup_sorted(s.drop_last());
        if rest.len() > 0 && rest.last() == s.last() {
            rest
        } else {
            rest.push(s.last())
        }
    }
}

/// The distinct identities the examples name, in ascending order.
pub open spec fn distinct_identities(ks: Seq<Seq<Seq<char>>>) -> Seq<Seq<char>> {
    dedup_sorted(sorted_strings(all_keys(ks)))
}

/// Whether identity `a` comes before `b` in fold order: by seeded hash,
/// then by the identities' own order.
pub open spec fn fold_before(seed: u64, a: Seq<char>, b: Seq<char>) -> bool {
    let ha = identity_fold_hash(seed, a);
    let hb = identity_fold_hash(seed, b);
    ha < hb || (ha == hb && str_lt(a, b))
}

/// How many of `ids` come before `x` in fold order.
pub open spec fn fold_rank(seed: u64, ids: Seq<Seq<char>>, x: Seq<char>) -> nat
    decreases ids.len(),
{
    if ids.len() == 0 {
        0
    } else {
        fold_rank(seed, ids.drop_last(), x) + if fold_before(seed, ids.last(), x) {
            1nat
        } else {
            0nat
        }
    }
}

/// The identities among the first `n` of `ids` that fold `f` holds out:
/// those whose fold rank leaves remainder `f`, in the order of `ids`.
pub open spec fn held_out_upto(seed: u64, ids: Seq<Seq<char>>, folds: nat, f: int, n: int) -> Seq<
    Seq<char>,
>
    decreases n,
{
    if n <= 0 {
        Seq::empty()
    } else {
        let rest = held_out_upto(seed, ids, folds, f, n - 1);
        if fold_rank(seed, ids, ids[n - 1]) % folds == f {
            rest.push(ids[n - 1])
        } else {
            rest
        }
    }
}

/// The identities fold `f` holds out.
pub open spec fn held_out(seed: u64, ids: Seq<Seq<char>>, folds: nat, f: int) -> Seq<Seq<char>> {
    held_out_upto(seed, ids, folds, f, ids.len() as int)
}

/// An identity is among those a fold holds out exactly when it is one of
/// the identities and its fold rank leaves that fold's remainder.
pub proof fn lemma_held_out_membership(
    seed: u64,
    ids: Seq<Seq<char>>,
    folds: nat,
    f: int,
    n: int,
    y: Seq<char>,
)
    requires
        0 <= n <= ids.len(),
    ensures
        held_out_upto(seed, ids, folds, f, n).contains(y) <==> ((exists|i: int|
            0 <= i < n && ids[i] == y) && fold_rank(seed, ids, y) % folds == f),
    decreases n,
{
    if n > 0 {
        lemma_held_out_membership(seed, ids, folds, f, n - 1, y);
        let rest = held_out_upto(seed, ids, folds, f, n - 1);
        if fold_rank(seed, ids, ids[n - 1]) % folds == f {
            assert(rest.push(ids[n - 1]).contains(y) <==> (rest.contains(y) || ids[n - 1] == y)) by {
                if rest.push(ids[n - 1]).contains(y) {
                    let k = choose|k: int| 0 <= k < rest.len() + 1 && #[trigger] rest.push(ids[n - 1])[k] == y;
                    if k < rest.len() {
                        assert(rest[k] == y);
                    }
                }
                if rest.contains(y) {
                    let k = choose|k: int| 0 <= k < rest.len() && #[trigger] rest[k] == y;
                    assert(rest.push(ids[n - 1])[k] == y);
                }
                if ids[n - 1] == y {
                    assert(rest.push(ids[n - 1])[rest.len() as int] == y);
                }
            }
        }
        if exists|i: int| 0 <= i < n && ids[i] == y {
            let i = choose|i: int| 0 <= i < n && #[trigger] ids[i] == y;
            if i < n - 1 {
                assert(exists|j: int| 0 <= j < n - 1 && ids[j] == y);
            }
        }
    }
}

/// Every identity the examples name is held out by exactly one fold: the
/// fold its fold rank leaves as remainder.
pub proof fn lemma_each_identity_held_out_once(seed: u64, ks: Seq<Seq<Seq<char>>>, folds: nat, x: Seq<char>)
    requires
        folds > 0,
        distinct_identities(ks).contains(x),
    ensures
        forall|f: int|
            0 <= f < folds ==> (#[trigger] held_out(seed, distinct_identities(ks), folds, f).contains(x)
                <==> f == fold_rank(seed, distinct_identities(ks), x) % folds),
{
    let ids = distinct_identities(ks);
    assert forall|f: int| 0 <= f < folds implies (#[trigger] held_out(seed, ids, folds, f).contains(x)
        <==> f == fold_rank(seed, ids, x) % folds) by {
        lemma_held_out_membership(seed, ids, folds, f, ids.len() as int, x);
        let i = choose|i: int| 0 <= i < ids.len() && #[trigger] ids[i] == x;
        assert(exists|j: int| 0 <= j < ids.len() as int && ids[j] == x);
    }
}

proof fn lemma_all_keys_remove(ks: Seq<Seq<Seq<char>>>, k: int)
    requires
        0 <= k < ks.len(),
    ensures
        all_keys(ks).to_multiset() == all_keys(ks.remove(k)).to_multiset().add(ks[k].to_multiset()),
    decreases ks.len(),
{
    broadcast use vstd::seq_lib::group_seq_properties, vstd::multiset::group_multiset_axioms,
        vstd::seq_lib::lemma_multiset_commutative;
    let last = ks.last();
    let prefix = ks.drop_last();
    if k == ks.len() - 1 {
        assert(ks.remove(k) =~= prefix);
        assert(all_keys(ks) == all_keys(prefix) + last);
        assert(all_keys(ks).to_multiset() =~= all_keys(prefix).to_multiset().add(last.to_multiset()));
    } else {
        lemma_all_keys_remove(prefix, k);
        let r = ks.remove(k);
        assert(r.drop_last() =~= prefix.remove(k));
        assert(r.last() == last);
        assert(all_keys(r) == all_keys(prefix.remove(k)) + last);
        assert(all_keys(ks) == all_keys(prefix) + last);
        assert(prefix[k] == ks[k]);
        assert(all_keys(ks).to_multiset() =~= all_keys(prefix).to_multiset().add(last.to_multiset()));
        assert(all_keys(r).to_multiset() =~= all_keys(prefix.remove(k)).to_multiset().add(
            last.to_multiset(),
        ));
        assert(all_keys(ks).to_multiset() =~= all_keys(r).to_multiset().add(ks[k].to_multiset()));
    }
}

proof fn lemma_all_keys_ignore_order(a: Seq<Seq<Seq<char>>>, b: Seq<Seq<Seq<char>>>)
    requires
        a.to_multiset() == b.to_multiset(),
    ensures
        all_keys(a).to_multiset() == all_keys(b).to_multiset(),
    decreases a.len(),
{
    broadcast use vstd::seq_lib::group_seq_properties, vstd::multiset::group_multiset_axioms,
        vstd::seq_lib::lemma_multiset_commutative;
    if a.len() == 0 {
        assert(b.to_multiset().len() == 0);
        assert(b =~= a);
    } else {
        let x = a.last();
        assert(b.to_multiset().count(x) > 0);
        assert(b.contains(x));
        let k = choose|k: int| 0 <= k < b.len() && b[k] == x;
        let pa = a.drop_last();
        let rb = b.remove(k);
        assert(a =~= pa.push(x));
        assert(pa.to_multiset() =~= a.to_multiset().remove(x));
        assert(rb.to_multiset() =~= b.to_multiset().remove(b[k]));
        lemma_all_keys_ignore_order(pa, rb);
        lemma_all_keys_remove(b, k);
        assert(all_keys(a) == all_keys(pa) + x);
        assert(all_keys(a).to_multiset() =~= all_keys(pa).to_multiset().add(x.to_multiset()));
    }
}

/// The held-out folds do not depend on the order the examples come in: the
/// same examples in any order name the same identities, and whether some
/// example names none is the same.
pub proof fn lemma_held_out_ignores_example_order(a: Seq<Seq<Seq<char>>>, b: Seq<Seq<Seq<char>>>)
    requires
        a.to_multiset() == b.to_multiset(),
    ensures
        distinct_identities(a) == distinct_identities(b),
        has_keyless(a) == has_keyless(b),
{
    broadcast use vstd::seq_lib::group_seq_properties, vstd::multiset::group_multiset_axioms;
    lemma_all_keys_ignore_order(a, b);
    lemma_sorted_strings_ignore_order(all_keys(a), all_keys(b));
    if has_keyless(a) {
        let i = choose|i: int| 0 <= i < a.len() && (#[trigger] a[i]).len() == 0;
        assert(a.to_multiset().count(a[i]) > 0);
        assert(b.contains(a[i]));
        let j = choose|j: int| 0 <= j < b.len() && b[j] == a[i];
        assert(b[j].len() == 0);
    }
    if has_keyless(b) {
        let i = choose|i: int| 0 <= i < b.len() && (#[trigger] b[i]).len() == 0;
        assert(b.to_multiset().count(b[i]) > 0);
        assert(a.contains(b[i]));
        let j = choose|j: int| 0 <= j < a.len() && a[j] == b[i];
        assert(a[j].len() == 0);
    }
}

/// The distinct identities the examples name, in ascending order.
pub fn collect_distinct(example_keys: &Vec<Vec<String>>) -> (ids: Vec<String>)
    ensures
        views_of(ids@) == distinct_identities(example_key_views(example_keys@)),
{
    let ghost ks = example_key_views(example_keys@);
    let mut flat: Vec<String> = Vec::new();
    let mut k: usize = 0;
    assert(ks.take(0) =~= Seq::<Seq<Seq<char>>>::empty());
    assert(views_of(flat@) =~= Seq::<Seq<char>>::empty());
    while k < example_keys.len()
        invariant
            k <= example_keys@.len(),
            ks == example_key_views(example_keys@),
            ks.len() == example_keys@.len(),
            views_of(flat@) == all_keys(ks.take(k as int)),
        decreases example_keys@.len() - k,
    {
        let keys = &example_keys[k];
        assert(ks[k as int] == views_of(keys@));
        let ghost before = views_of(flat@);
        let mut j: usize = 0;
        while j < keys.len()
            invariant
                j <= keys@.len(),
                views_of(flat@) == before + views_of(keys@).take(j as int),
            decreases keys@.len() - j,
        {
            let key = keys[j].clone();
            assert(key@ == keys@[j as int]@);
            let ghost old_flat = flat@;
            flat.push(key);
            assert(views_of(flat@) =~= views_of(old_flat).push(keys@[j as int]@));
            assert(views_of(keys@).take(j + 1) =~= views_of(keys@).take(j as int).push(
                keys@[j as int]@,
            ));
            j = j + 1;
            assert(views_of(flat@) =~= before + views_of(keys@).take(j as int));
        }
        assert(views_of(keys@).take(keys@.len() as int) =~= views_of(keys@));
        assert(ks.take(k + 1).drop_last() =~= ks.take(k as int));
        k = k + 1;
    }
    assert(ks.take(example_keys@.len() as int) =~= ks);
    let sorted = sort_strings(flat);
    let ghost s = views_of(sorted@);
    let mut ids: Vec<String> = Vec::new();
    let mut i: usize = 0;
    assert(s.take(0) =~= Seq::<Seq<char>>::empty());
    assert(views_of(ids@) =~= Seq::<Seq<char>>::empty());
    while i < sorted.len()
        invariant
            i <= sorted@.len(),
            s == views_of(sorted@),
            views_of(ids@) == dedup_sorted(s.take(i as int)),
        decreases sorted@.len() - i,
    {
        assert(s.take(i + 1).drop_last() =~= s.take(i as int));
        assert(s.take(i + 1).last() == sorted@[i as int]@);
        let fresh = if ids.len() == 0 {
            true
        } else {
            let last = ids.len() - 1;
            assert(views_of(ids@).last() == ids@[last as int]@);
            !str_equal(ids[last].as_str(), sorted[i].as_str())
        };
        if fresh {
            ids.push(sorted[i].clone());
            assert(views_of(ids@) =~= dedup_sorted(s.take(i + 1)));
        }
        i = i + 1;
    }
    assert(s.take(sorted@.len() as int) =~= s);
    ids
}

/// The identities each fold holds out, each list in ascending order: the
/// distinct identities the examples name, ordered by a seeded hash (ties by
/// the identities' own order), dealt to the folds in turn. Refused when
/// there are fewer than two folds, when an example names no identity, or
/// when there are fewer identities than folds.
pub fn held_out_identities(example_keys: &Vec<Vec<String>>, fold_count: usize, seed: u64) -> (r: Result<
    Vec<Vec<String>>,
    TrainingError,
>)
    ensures
        fold_count < 2 ==> (r matches Err(TrainingError::InvalidConfig(m)) && m@
            == "identity-held-out training needs at least two folds"@),
        fold_count >= 2 && has_keyless(example_key_views(example_keys@)) ==> (r matches Err(
            TrainingError::InvalidInput(m),
        ) && m@ == "training example has no identity key"@),
        fold_count >= 2 && !has_keyless(example_key_views(example_keys@)) && distinct_identities(
            example_key_views(example_keys@),
        ).len() < fold_count ==> r == Err::<Vec<Vec<String>>, TrainingError>(
            TrainingError::TooFewIdentities {
                identities: distinct_identities(example_key_views(example_keys@)).len() as usize,
                folds: fold_count,
            },
        ),
        fold_count >= 2 && !has_keyless(example_key_views(example_keys@)) && distinct_identities(
            example_key_views(example_keys@),
        ).len() >= fold_count ==> (r matches Ok(v) && v@.len() == fold_count && forall|f: int|
            0 <= f < fold_count ==> views_of((#[trigger] v@[f])@) == held_out(
                seed,
                distinct_identities(example_key_views(example_keys@)),
                fold_count as nat,
                f,
            )),
{
    if fold_count < 2 {
        return Err(
            TrainingError::InvalidConfig(owned("identity-held-out training needs at least two folds")),
        );
    }
    let ghost ks = example_key_views(example_keys@);
    let mut k: usize = 0;
    while k < example_keys.len()
        invariant
            k <= example_keys@.len(),
            fold_count >= 2,
            ks == example_key_views(example_keys@),
            ks.len() == example_keys@.len(),
            forall|x: int| 0 <= x < k ==> (#[trigger] ks[x]).len() > 0,
        decreases example_keys@.len() - k,
    {
        assert(ks[k as int] == views_of(example_keys@[k as int]@));
        if example_keys[k].len() == 0 {
            assert(ks[k as int].len() == 0);
            return Err(TrainingError::InvalidInput(owned("training example has no identity key")));
        }
        k = k + 1;
    }
    assert(!has_keyless(ks));
    let ids = collect_distinct(example_keys);
    let ghost u = views_of(ids@);
    let n = ids.len();
    if n < fold_count {
        return Err(TrainingError::TooFewIdentities { identities: n, folds: fold_count });
    }
    let mut hashes: Vec<u64> = Vec::new();
    let mut i: usize = 0;
    while i < n
        invariant
            n == ids@.len(),
            u == views_of(ids@),
            i <= n,
            hashes@.len() == i,
            forall|j: int| 0 <= j < i ==> hashes@[j] == identity_fold_hash(seed, #[trigger] u[j]),
        decreases n - i,
    {
        hashes.push(identity_hash(seed, ids[i].as_str()));
        i = i + 1;
    }
    let mut ranks: Vec<usize> = Vec::new();
    let mut i: usize = 0;
    while i < n
        invariant
            n == ids@.len(),
            u == views_of(ids@),
            i <= n,
            hashes@.len() == n,
            forall|j: int| 0 <= j < n ==> hashes@[j] == identity_fold_hash(seed, #[trigger] u[j]),
            ranks@.len() == i,
            forall|j: int| 0 <= j < i ==> ranks@[j] == fold_rank(seed, u, #[trigger] u[j]),
        decreases n - i,
    {
        let mut count: usize = 0;
        let mut j: usize = 0;
        assert(u.take(0) =~= Seq::<Seq<char>>::empty());
        while j < n
            invariant
                n == ids@.len(),
                u == views_of(ids@),
                i < n,
                j <= n,
                hashes@.len() == n,
                forall|x: int| 0 <= x < n ==> hashes@[x] == identity_fold_hash(seed, #[trigger] u[x]),
                count == fold_rank(seed, u.take(j as int), u[i as int]),
                count <= j,
            decreases n - j,
        {
            assert(u.take(j + 1).drop_last() =~= u.take(j as int));
            assert(u.take(j + 1).last() == u[j as int]);
            assert(u[j as int] == ids@[j as int]@ && u[i as int] == ids@[i as int]@);
            let before = hashes[j] < hashes[i] || (hashes[j] == hashes[i] && str_less(
                ids[j].as_str(),
                ids[i].as_str(),
            ));
            assert(before == fold_before(seed, u[j as int], u[i as int]));
            if before {
                count = count + 1;
            }
            j = j + 1;
        }
        assert(u.take(n as int) =~= u);
        ranks.push(count);
        i = i + 1;
    }
    let mut out: Vec<Vec<String>> = Vec::new();
    let mut f: usize = 0;
    while f < fold_count
        invariant
            n == ids@.len(),
            u == views_of(ids@),
            fold_count >= 2,
            ranks@.len() == n,
            forall|j: int| 0 <= j < n ==> ranks@[j] == fold_rank(seed, u, #[trigger] u[j]),
            f <= fold_count,
            out@.len() == f,
            forall|g: int|
                0 <= g < f ==> views_of((#[trigger] out@[g])@) == held_out(
                    seed,
                    u,
                    fold_count as nat,
                    g,
                ),
        decreases fold_count - f,
    {
        let mut fold: Vec<String> = Vec::new();
        let mut i: usize = 0;
        assert(views_of(fold@) =~= Seq::<Seq<char>>::empty());
        while i < n
            invariant
                n == ids@.len(),
                u == views_of(ids@),
                fold_count >= 2,
                f < fold_count,
                ranks@.len() == n,
                forall|j: int| 0 <= j < n ==> ranks@[j] == fold_rank(seed, u, #[trigger] u[j]),
                i <= n,
                views_of(fold@) == held_out_upto(seed, u, fold_count as nat, f as int, i as int),
            decreases n - i,
        {
            assert(ranks@[i as int] == fold_rank(seed, u, u[i as int]));
            if ranks[i] % fold_count == f {
                fold.push(ids[i].clone());
                assert(views_of(fold@) =~= held_out_upto(
                    seed,
                    u,
                    fold_count as nat,
                    f as int,
                    i + 1,
                ));
            }
            i = i + 1;
        }
        out.push(fold);
        f = f + 1;
    }
    Ok(out)
}

/// Whether every key of an example is held out.
pub open spec fn all_held(keys: Seq<Seq<char>>, held: Seq<Seq<char>>) -> bool {
    forall|i: int| 0 <= i < keys.len() ==> held.contains(#[trigger] keys[i])
}

/// Whether no key of an example is held out.
pub open spec fn none_held(keys: Seq<Seq<char>>, held: Seq<Seq<char>>) -> bool {
    forall|i: int| 0 <= i < keys.len() ==> !held.contains(#[trigger] keys[i])
}

/// Which side of a fold an example falls on: whether it may train (none of
/// its identities is held out) and whether it validates (all of them are).
pub fn held_out_sides(keys: &Vec<String>, held: &Vec<String>) -> (r: (bool, bool))
    ensures
        r.0 == none_held(views_of(keys@), views_of(held@)),
        r.1 == all_held(views_of(keys@), views_of(held@)),
{
    let ghost kv = views_of(keys@);
    let ghost hv = views_of(held@);
    let mut none = true;
    let mut all = true;
    let mut i: usize = 0;
    while i < keys.len()
        invariant
            i <= keys@.len(),
            kv == views_of(keys@),
            hv == views_of(held@),
            none == forall|x: int| 0 <= x < i ==> !hv.contains(#[trigger] kv[x]),
            all == forall|x: int| 0 <= x < i ==> hv.contains(#[trigger] kv[x]),
        decreases keys@.len() - i,
    {
        let mut found = false;
        let mut j: usize = 0;
        while j < held.len()
            invariant
                i < keys@.len(),
                j <= held@.len(),
                kv == views_of(keys@),
                hv == views_of(held@),
                found == exists|y: int| 0 <= y < j && hv[y] == kv[i as int],
            decreases held@.len() - j,
        {
            assert(hv[j as int] == held@[j as int]@ && kv[i as int] == keys@[i as int]@);
            if str_equal(held[j].as_str(), keys[i].as_str()) {
                found = true;
            }
            j = j + 1;
        }
        assert(found == hv.contains(kv[i as int]));
        if found {
            none = false;
        } else {
            all = false;
        }
        i = i + 1;
    }
    (none, all)
}

} // verus!
