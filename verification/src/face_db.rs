//! The face tables: their schema text, the reset inventory, and the work
//! list of a resumable face-detection pass.

use vstd::prelude::*;
use vstd::hash_set::StringHashSet;
use crate::text::{chars_of, owned};
use crate::strings::{
    lemma_str_lt_irreflexive, lemma_str_lt_total, lemma_str_lt_transitive, str_less, str_lt,
};
use crate::person::{identity_of, normalize};

verus! {

/// The body of the faces schema after the table name.
pub open spec fn faces_ddl_body() -> Seq<char> {
    " (
            id            INTEGER PRIMARY KEY,
            hash          TEXT NOT NULL,
            bbox          TEXT NOT NULL,
            landmark      TEXT,
            embedding     BLOB NOT NULL,
            cluster_id    INTEGER,
            person_label  TEXT,
            confirmed     INTEGER DEFAULT 0,
            is_primary    INTEGER DEFAULT 0,
            det_score     REAL,
            blur          REAL,
            oriented      INTEGER,
            FOREIGN KEY (person_label) REFERENCES people(name)
                ON DELETE RESTRICT ON UPDATE RESTRICT
        );"@
}

/// The `CREATE TABLE` statement for a faces table named `table`.
pub open spec fn faces_ddl(table: Seq<char>, if_not_exists: bool) -> Seq<char> {
    "CREATE TABLE "@ + (if if_not_exists {
        "IF NOT EXISTS "@
    } else {
        ""@
    }) + table + faces_ddl_body()
}

/// The faces schema, under any table name (the reset rebuilds through a
/// temporary one).
pub fn faces_ddl_for(table: &str, if_not_exists: bool) -> (r: String)
    ensures
        r@ == faces_ddl(table@, if_not_exists),
{
    let mut s = owned("CREATE TABLE ");
    if if_not_exists {
        s.append("IF NOT EXISTS ");
    } else {
        s.append("");
    }
    s.append(table);
    s.append(
        " (
            id            INTEGER PRIMARY KEY,
            hash          TEXT NOT NULL,
            bbox          TEXT NOT NULL,
            landmark      TEXT,
            embedding     BLOB NOT NULL,
            cluster_id    INTEGER,
            person_label  TEXT,
            confirmed     INTEGER DEFAULT 0,
            is_primary    INTEGER DEFAULT 0,
            det_score     REAL,
            blur          REAL,
            oriented      INTEGER,
            FOREIGN KEY (person_label) REFERENCES people(name)
                ON DELETE RESTRICT ON UPDATE RESTRICT
        );",
    );
    s
}

/// What a full face reset would remove, for the confirmation prompt.
#[derive(Clone, Copy, Debug, PartialEq, Eq, Default)]
pub struct FaceResetCounts {
    pub total_faces: usize,
    pub labeled_faces: usize,
    pub people: usize,
    pub learning_events: usize,
    pub questions: usize,
    pub profiles: usize,
}

/// The `(path, hash)` pairs as character sequences.
pub open spec fn pair_views(all: Seq<(String, String)>) -> Seq<(Seq<char>, Seq<char>)> {
    Seq::new(all.len(), |i: int| (all[i].0@, all[i].1@))
}

/// The hashes to skip, as a set of character sequences.
pub open spec fn skip_set(skip: Seq<String>) -> Set<Seq<char>> {
    Set::new(|h: Seq<char>| exists|j: int| 0 <= j < skip.len() && skip[j]@ == h)
}

/// `h` is the hash of some pair already selected.
pub open spec fn has_hash(out: Seq<(Seq<char>, Seq<char>)>, h: Seq<char>) -> bool {
    exists|k: int| 0 <= k < out.len() && out[k].1 == h
}

/// The selection is full: it holds as many pairs as the cap allows.
pub open spec fn selection_full(out: Seq<(Seq<char>, Seq<char>)>, limit: Option<usize>) -> bool {
    match limit {
        Some(n) => out.len() >= n,
        None => false,
    }
}

/// The work list built from the first pairs of `all`: each pair in order,
/// unless its hash is skipped or already selected, until the cap is met.
pub open spec fn selected(
    all: Seq<(Seq<char>, Seq<char>)>,
    skip: Set<Seq<char>>,
    limit: Option<usize>,
) -> Seq<(Seq<char>, Seq<char>)>
    decreases all.len(),
{
    if all.len() == 0 {
        Seq::empty()
    } else {
        let prev = selected(all.drop_last(), skip, limit);
        let (path, hash) = all.last();
        if selection_full(prev, limit) || skip.contains(hash) || has_hash(prev, hash) {
            prev
        } else {
            prev.push((path, hash))
        }
    }
}

/// From `(path, hash)` pairs, drop hashes in `skip`, keep one representative
/// path per remaining hash (first seen), preserving input order, and cap the
/// result at `limit` distinct hashes (`None` = no cap). Used to build the work list for a resumable,
/// optionally partial face-detection pass.
pub fn select_unscanned(all: &[(String, String)], skip: &[String], limit: Option<usize>) -> (r: Vec<
    (String, String),
>)
    ensures
        pair_views(r@) == selected(pair_views(all@), skip_set(skip@), limit),
{
    let mut skipped_set = StringHashSet::new();
    let mut j: usize = 0;
    while j < skip.len()
        invariant
            j <= skip@.len(),
            skipped_set@ == Set::new(|h: Seq<char>| exists|q: int| 0 <= q < j && skip@[q]@ == h),
        decreases skip@.len() - j,
    {
        let h = skip[j].clone();
        skipped_set.insert(h);
        proof {
            assert forall|x: Seq<char>| skipped_set@.contains(x) <==> (exists|q: int|
                0 <= q < j + 1 && skip@[q]@ == x) by {
                if x == skip@[j as int]@ {
                    assert(0 <= j < j + 1 && skip@[j as int]@ == x);
                }
            }
            assert(skipped_set@ =~= Set::new(
                |h: Seq<char>| exists|q: int| 0 <= q < j + 1 && skip@[q]@ == h,
            ));
        }
        j = j + 1;
    }
    assert(skipped_set@ =~= skip_set(skip@));
    let mut out: Vec<(String, String)> = Vec::new();
    let mut seen = StringHashSet::new();
    let mut i: usize = 0;
    while i < all.len()
        invariant
            i <= all@.len(),
            skipped_set@ == skip_set(skip@),
            forall|h: Seq<char>| seen@.contains(h) <==> has_hash(pair_views(out@), h),
            pair_views(out@) == selected(pair_views(all@).take(i as int), skip_set(skip@), limit),
        decreases all@.len() - i,
    {
        let ghost prev = pair_views(out@);
        proof {
            assert(pair_views(all@).take(i + 1).drop_last() =~= pair_views(all@).take(i as int));
            assert(pair_views(all@).take(i + 1).last() == (all@[i as int].0@, all@[i as int].1@));
        }
        let full = match limit {
            Some(n) => out.len() >= n,
            None => false,
        };
        if full {
            i = i + 1;
            continue;
        }
        let hash = &all[i].1;
        let skipped = skipped_set.contains(hash.as_str());
        let dup = seen.contains(hash.as_str());
        if !skipped && !dup {
            let path = all[i].0.clone();
            let h = hash.clone();
            let h2 = hash.clone();
            out.push((path, h));
            seen.insert(h2);
            proof {
                assert(pair_views(out@) =~= prev.push((all@[i as int].0@, all@[i as int].1@)));
                assert forall|x: Seq<char>| seen@.contains(x) <==> has_hash(pair_views(out@), x) by {
                    let cur = pair_views(out@);
                    if has_hash(prev, x) {
                        let k = choose|k: int| 0 <= k < prev.len() && prev[k].1 == x;
                        assert(cur[k].1 == x);
                    }
                    if has_hash(cur, x) {
                        let k = choose|k: int| 0 <= k < cur.len() && cur[k].1 == x;
                        if k < prev.len() {
                            assert(prev[k].1 == x);
                        }
                    }
                    if x == hash@ {
                        assert(cur[prev.len() as int].1 == x);
                    }
                }
            }
        }
        i = i + 1;
    }
    assert(pair_views(all@).take(all@.len() as int) =~= pair_views(all@));
    out
}


/// What `char::is_uppercase` says of `c`: whether Unicode gives it the
/// `Uppercase` property.
pub uninterp spec fn char_is_uppercase(c: char) -> bool;

/// std's `char::is_uppercase`. Claimed: the result is `char_is_uppercase(c)`,
/// a function of the character alone.
#[verifier::external_body]
fn is_uppercase_char(c: char) -> (r: bool)
    ensures
        r == char_is_uppercase(c),
{
    c.is_uppercase()
}

/// The label holds an upper-case character.
pub open spec fn has_upper(label: Seq<char>) -> bool {
    exists|i: int| 0 <= i < label.len() && char_is_uppercase(label[i])
}

/// Whether `label` holds an upper-case character.
pub fn holds_upper(label: &str) -> (r: bool)
    ensures
        r == has_upper(label@),
{
    let v = chars_of(label);
    let mut i: usize = 0;
    while i < v.len()
        invariant
            v@ == label@,
            i <= v@.len(),
            forall|k: int| 0 <= k < i ==> !char_is_uppercase(label@[k]),
        decreases v@.len() - i,
    {
        if is_uppercase_char(v[i]) {
            return true;
        }
        i = i + 1;
    }
    false
}

/// A label with its face count and whether it holds an upper-case letter.
pub open spec fn ranked_views(s: Seq<(String, i64, bool)>) -> Seq<(Seq<char>, i64, bool)> {
    s.map_values(|x: (String, i64, bool)| (x.0@, x.1, x.2))
}

/// Labels with their face counts, each with whether it holds an upper-case
/// letter.
pub open spec fn with_upper(s: Seq<(String, i64)>) -> Seq<(Seq<char>, i64, bool)> {
    s.map_values(|x: (String, i64)| (x.0@, x.1, has_upper(x.0@)))
}

/// `a` ranks before `b`: more faces; on a tie, the one holding an upper-case
/// letter when the other holds none; then label order.
pub open spec fn ranks_before(a: (Seq<char>, i64, bool), b: (Seq<char>, i64, bool)) -> bool {
    a.1 > b.1 || (a.1 == b.1 && ((a.2 && !b.2) || (a.2 == b.2 && str_lt(a.0, b.0))))
}

/// `sorted` with `x` placed after every entry that `x` does not rank before.
pub open spec fn insert_ranked(sorted: Seq<(Seq<char>, i64, bool)>, x: (Seq<char>, i64, bool)) -> Seq<
    (Seq<char>, i64, bool),
>
    decreases sorted.len(),
{
    if sorted.len() == 0 {
        seq![x]
    } else if !ranks_before(x, sorted.last()) {
        sorted.push(x)
    } else {
        insert_ranked(sorted.drop_last(), x).push(sorted.last())
    }
}

/// The labels in rank order; entries that rank alike keep their order.
pub open spec fn ranked(s: Seq<(Seq<char>, i64, bool)>) -> Seq<(Seq<char>, i64, bool)>
    decreases s.len(),
{
    if s.len() == 0 {
        Seq::empty()
    } else {
        insert_ranked(ranked(s.drop_last()), s.last())
    }
}

/// The ranked labels that have an identity, each with it, in rank order.
pub open spec fn kept_labels(r: Seq<(Seq<char>, i64, bool)>) -> Seq<(Seq<char>, Seq<char>)>
    decreases r.len(),
{
    if r.len() == 0 {
        Seq::empty()
    } else {
        let prev = kept_labels(r.drop_last());
        match identity_of(r.last().0) {
            Some(id) => prev.push((r.last().0, id)),
            None => prev,
        }
    }
}

/// The first label of each identity, in order: the spelling that names it.
pub open spec fn first_spellings(kept: Seq<(Seq<char>, Seq<char>)>) -> Seq<Seq<char>>
    decreases kept.len(),
{
    if kept.len() == 0 {
        Seq::empty()
    } else {
        let prev = first_spellings(kept.drop_last());
        if has_hash(kept.drop_last(), kept.last().1) {
            prev
        } else {
            prev.push(kept.last().0)
        }
    }
}

/// No entry of `s` ranks before an earlier one.
pub open spec fn in_rank_order(s: Seq<(Seq<char>, i64, bool)>) -> bool {
    forall|i: int, j: int| 0 <= i < j < s.len() ==> !ranks_before(s[j], s[i])
}

proof fn lemma_ranks_before_irreflexive(a: (Seq<char>, i64, bool))
    ensures
        !ranks_before(a, a),
{
    lemma_str_lt_irreflexive(a.0);
}

proof fn lemma_ranks_before_transitive(
    a: (Seq<char>, i64, bool),
    b: (Seq<char>, i64, bool),
    c: (Seq<char>, i64, bool),
)
    requires
        ranks_before(a, b),
        ranks_before(b, c),
    ensures
        ranks_before(a, c),
{
    if a.1 == b.1 && b.1 == c.1 && a.2 == b.2 && b.2 == c.2 {
        lemma_str_lt_transitive(a.0, b.0, c.0);
    }
}

proof fn lemma_ranks_before_total(a: (Seq<char>, i64, bool), b: (Seq<char>, i64, bool))
    ensures
        a == b || ranks_before(a, b) || ranks_before(b, a),
{
    lemma_str_lt_total(a.0, b.0);
}

proof fn lemma_ranks_before_asymmetric(a: (Seq<char>, i64, bool), b: (Seq<char>, i64, bool))
    ensures
        !(ranks_before(a, b) && ranks_before(b, a)),
{
    if ranks_before(a, b) && ranks_before(b, a) {
        lemma_ranks_before_transitive(a, b, a);
        lemma_ranks_before_irreflexive(a);
    }
}

proof fn lemma_insert_ranked(sorted: Seq<(Seq<char>, i64, bool)>, x: (Seq<char>, i64, bool))
    requires
        in_rank_order(sorted),
    ensures
        in_rank_order(insert_ranked(sorted, x)),
        insert_ranked(sorted, x).to_multiset() == sorted.to_multiset().insert(x),
        forall|i: int|
            0 <= i < insert_ranked(sorted, x).len() ==> #[trigger] insert_ranked(sorted, x)[i] == x
                || sorted.contains(insert_ranked(sorted, x)[i]),
    decreases sorted.len(),
{
    broadcast use vstd::seq_lib::group_seq_properties, vstd::multiset::group_multiset_axioms;
    if sorted.len() > 0 && ranks_before(x, sorted.last()) {
        let rest = sorted.drop_last();
        lemma_insert_ranked(rest, x);
        let ins = insert_ranked(rest, x);
        let last = sorted.last();
        assert forall|i: int| 0 <= i < ins.len() implies !ranks_before(last, #[trigger] ins[i]) by {
            lemma_ranks_before_asymmetric(x, last);
            if ins[i] != x {
                assert(rest.contains(ins[i]));
                let k = choose|k: int| 0 <= k < rest.len() && rest[k] == ins[i];
                assert(sorted[k] == rest[k]);
                assert(!ranks_before(sorted[sorted.len() - 1], sorted[k]));
            }
        }
        assert(sorted =~= rest.push(last));
        assert forall|i: int| 0 <= i < ins.push(last).len() implies #[trigger] ins.push(last)[i]
            == x || sorted.contains(ins.push(last)[i]) by {
            if i < ins.len() {
                assert(ins.push(last)[i] == ins[i]);
                if ins[i] != x {
                    assert(rest.contains(ins[i]));
                    let k = choose|k: int| 0 <= k < rest.len() && rest[k] == ins[i];
                    assert(sorted[k] == ins[i]);
                }
            } else {
                assert(sorted[sorted.len() - 1] == last);
            }
        }
    } else if sorted.len() > 0 {
        assert forall|i: int| 0 <= i < sorted.push(x).len() implies #[trigger] sorted.push(x)[i]
            == x || sorted.contains(sorted.push(x)[i]) by {
            if i < sorted.len() {
                assert(sorted.push(x)[i] == sorted[i]);
            }
        }
        assert forall|i: int, j: int| 0 <= i < j < sorted.push(x).len() implies !ranks_before(
            sorted.push(x)[j],
            sorted.push(x)[i],
        ) by {
            if j == sorted.len() as int {
                if i < sorted.len() - 1 {
                    assert(!ranks_before(sorted.last(), sorted[i]));
                    if ranks_before(x, sorted[i]) {
                        lemma_ranks_before_total(sorted.last(), sorted[i]);
                        if sorted.last() != sorted[i] && ranks_before(sorted[i], sorted.last()) {
                            lemma_ranks_before_transitive(x, sorted[i], sorted.last());
                        }
                    }
                }
            }
        }
    }
}

/// Ranking puts the labels in rank order (none ranks before an earlier
/// one), each label exactly as often as it was given.
pub proof fn lemma_ranked_is_in_rank_order(s: Seq<(Seq<char>, i64, bool)>)
    ensures
        in_rank_order(ranked(s)),
        ranked(s).to_multiset() == s.to_multiset(),
    decreases s.len(),
{
    broadcast use vstd::seq_lib::group_seq_properties, vstd::multiset::group_multiset_axioms;
    if s.len() > 0 {
        lemma_ranked_is_in_rank_order(s.drop_last());
        lemma_insert_ranked(ranked(s.drop_last()), s.last());
        assert(s.drop_last().push(s.last()) =~= s);
    }
}

/// The identities the kept labels carry.
pub open spec fn identities(kept: Seq<(Seq<char>, Seq<char>)>) -> Set<Seq<char>> {
    Set::new(|id: Seq<char>| has_hash(kept, id))
}

/// The kept entry at `q` is the first of its identity.
pub open spec fn first_of_identity(kept: Seq<(Seq<char>, Seq<char>)>, q: int) -> bool {
    0 <= q < kept.len() && !has_hash(kept.take(q), kept[q].1)
}

/// `label` is the label of an entry that comes first for its identity.
pub open spec fn spelled_first(kept: Seq<(Seq<char>, Seq<char>)>, label: Seq<char>) -> bool {
    exists|q: int| first_of_identity(kept, q) && kept[q].0 == label
}

/// The first spellings are the labels of the entries that come first for
/// their identity, one per identity: so the best-ranked spelling names each
/// person, and the merged count is the kept labels less the identities.
pub proof fn lemma_first_spelling_wins(kept: Seq<(Seq<char>, Seq<char>)>)
    ensures
        first_spellings(kept).len() == identities(kept).len(),
        identities(kept).finite(),
        forall|q: int| #[trigger] first_of_identity(kept, q) ==> first_spellings(kept).contains(
            kept[q].0,
        ),
        forall|j: int|
            0 <= j < first_spellings(kept).len() ==> spelled_first(
                kept,
                #[trigger] first_spellings(kept)[j],
            ),
    decreases kept.len(),
{
    if kept.len() == 0 {
        assert(identities(kept) =~= Set::<Seq<char>>::empty());
    } else {
        let prev = kept.drop_last();
        let last = kept.last();
        let n = kept.len() - 1;
        lemma_first_spelling_wins(prev);
        assert(kept.take(n) =~= prev);
        assert forall|q: int| 0 <= q < n implies kept.take(q) =~= prev.take(q) by {}
        assert forall|q: int| 0 <= q < n implies (first_of_identity(kept, q) <==> first_of_identity(
            prev,
            q,
        )) by {
            assert(kept.take(q) =~= prev.take(q));
            assert(kept[q] == prev[q]);
        }
        if has_hash(prev, last.1) {
            assert(identities(kept) =~= identities(prev)) by {
                assert forall|id: Seq<char>| has_hash(kept, id) implies has_hash(prev, id) by {
                    let k = choose|k: int| 0 <= k < kept.len() && kept[k].1 == id;
                    if k < n {
                        assert(prev[k] == kept[k]);
                    }
                }
                assert forall|id: Seq<char>| has_hash(prev, id) implies has_hash(kept, id) by {
                    let k = choose|k: int| 0 <= k < prev.len() && prev[k].1 == id;
                    assert(prev[k] == kept[k]);
                }
            }
            assert(!first_of_identity(kept, n));
            assert(first_spellings(kept) == first_spellings(prev));
            assert forall|j: int| 0 <= j < first_spellings(kept).len() implies spelled_first(
                kept,
                #[trigger] first_spellings(kept)[j],
            ) by {
                let fj = first_spellings(prev)[j];
                assert(spelled_first(prev, fj));
                let q = choose|q: int| first_of_identity(prev, q) && prev[q].0 == fj;
                assert(first_of_identity(kept, q));
                assert(kept[q] == prev[q]);
            }
        } else {
            assert(identities(kept) =~= identities(prev).insert(last.1)) by {
                assert forall|id: Seq<char>| has_hash(kept, id) implies (has_hash(prev, id) || id
                    == last.1) by {
                    let k = choose|k: int| 0 <= k < kept.len() && kept[k].1 == id;
                    if k < n {
                        assert(prev[k] == kept[k]);
                    }
                }
                assert forall|id: Seq<char>| has_hash(prev, id) implies has_hash(kept, id) by {
                    let k = choose|k: int| 0 <= k < prev.len() && prev[k].1 == id;
                    assert(prev[k] == kept[k]);
                }
                assert(kept[n].1 == last.1);
            }
            assert(!identities(prev).contains(last.1));
            assert(first_of_identity(kept, n));
            let fp = first_spellings(prev);
            assert(first_spellings(kept) == fp.push(last.0));
            assert forall|q: int| #[trigger] first_of_identity(kept, q) implies first_spellings(
                kept,
            ).contains(kept[q].0) by {
                if q < n {
                    assert(first_of_identity(prev, q));
                    assert(fp.contains(prev[q].0));
                    let j = choose|j: int| 0 <= j < fp.len() && fp[j] == prev[q].0;
                    assert(fp.push(last.0)[j] == fp[j]);
                } else {
                    assert(fp.push(last.0)[fp.len() as int] == last.0);
                }
            }
            assert forall|j: int| 0 <= j < first_spellings(kept).len() implies spelled_first(
                kept,
                #[trigger] first_spellings(kept)[j],
            ) by {
                if j < fp.len() {
                    assert(fp.push(last.0)[j] == fp[j]);
                    let fj = fp[j];
                    assert(spelled_first(prev, fj));
                    let q = choose|q: int| first_of_identity(prev, q) && prev[q].0 == fj;
                    assert(first_of_identity(kept, q));
                    assert(kept[q] == prev[q]);
                } else {
                    assert(first_of_identity(kept, n));
                }
            }
        }
    }
}

/// The labels as character sequences.
pub open spec fn label_views(v: Seq<String>) -> Seq<Seq<char>> {
    v.map_values(|s: String| s@)
}

fn rank_first(a: &(String, i64, bool), b: &(String, i64, bool)) -> (r: bool)
    ensures
        r == ranks_before((a.0@, a.1, a.2), (b.0@, b.1, b.2)),
{
    a.1 > b.1 || (a.1 == b.1 && ((a.2 && !b.2) || (a.2 == b.2 && str_less(
        a.0.as_str(),
        b.0.as_str(),
    ))))
}

/// The labels in rank order.
pub fn rank_labels(labels: &[(String, i64, bool)]) -> (r: Vec<(String, i64, bool)>)
    ensures
        ranked_views(r@) == ranked(ranked_views(labels@)),
{
    let ghost all = ranked_views(labels@);
    let mut out: Vec<(String, i64, bool)> = Vec::new();
    let mut k: usize = 0;
    assert(ranked_views(out@) =~= ranked(all.take(0)));
    while k < labels.len()
        invariant
            k <= labels@.len(),
            all == ranked_views(labels@),
            ranked_views(out@) == ranked(all.take(k as int)),
        decreases labels@.len() - k,
    {
        let x = (labels[k].0.clone(), labels[k].1, labels[k].2);
        let ghost xv = (x.0@, x.1, x.2);
        proof {
            assert(all.take(k + 1).drop_last() =~= all.take(k as int));
            assert(all.take(k + 1).last() == xv);
        }
        let ghost o = ranked_views(out@);
        let mut p: usize = out.len();
        assert(o.take(p as int) =~= o && o.skip(p as int) =~= Seq::<(Seq<char>, i64, bool)>::empty());
        while p > 0 && rank_first(&x, &out[p - 1])
            invariant
                p <= out@.len(),
                ranked_views(out@) == o,
                insert_ranked(o, xv) == insert_ranked(o.take(p as int), xv) + o.skip(p as int),
                (x.0@, x.1, x.2) == xv,
            decreases p,
        {
            proof {
                assert(o[p - 1] == (out@[p - 1].0@, out@[p - 1].1, out@[p - 1].2));
                assert(o.take(p as int).drop_last() =~= o.take(p - 1));
                assert(o.take(p as int).last() == o[p - 1]);
                assert(o.skip(p - 1) =~= seq![o[p - 1]] + o.skip(p as int));
                assert(insert_ranked(o.take(p - 1), xv).push(o[p - 1]) + o.skip(p as int)
                    =~= insert_ranked(o.take(p - 1), xv) + o.skip(p - 1));
            }
            p = p - 1;
        }
        proof {
            if p > 0 {
                assert(o[p - 1] == (out@[p - 1].0@, out@[p - 1].1, out@[p - 1].2));
                assert(o.take(p as int).last() == o[p - 1]);
            }
            assert(insert_ranked(o.take(p as int), xv) =~= o.take(p as int).push(xv));
            assert(o.take(p as int).push(xv) + o.skip(p as int) =~= o.insert(p as int, xv));
        }
        out.insert(p, x);
        proof {
            assert(ranked_views(out@) =~= o.insert(p as int, xv));
        }
        k = k + 1;
    }
    assert(all.take(k as int) =~= all);
    out
}

/// The plan of the one-time move from free-text person labels to identities,
/// given each label with its face count and whether it holds an upper-case
/// letter. The labels are ranked: most faces first; on a tie, one holding an
/// upper-case letter, more likely the proper noun someone typed on purpose;
/// then label order. Each ranked label that has an identity is kept with it,
/// in rank order (one with none is left alone). The first kept label of each
/// identity is the spelling that names it, so the most-used spelling wins.
/// Returns the kept `(label, identity)` pairs, those first spellings (one per
/// identity), and how many kept labels merged into an identity an earlier
/// label already named: the kept labels less the identities.
pub fn migration_plan(labels: &[(String, i64, bool)]) -> (r: (
    Vec<(String, String)>,
    Vec<String>,
    usize,
))
    ensures
        pair_views(r.0@) == kept_labels(ranked(ranked_views(labels@))),
        label_views(r.1@) == first_spellings(kept_labels(ranked(ranked_views(labels@)))),
        r.2 == r.0@.len() - r.1@.len(),
        r.1@.len() == identities(pair_views(r.0@)).len(),
{
    let order = rank_labels(labels);
    let ghost rv = ranked_views(order@);
    let mut kept: Vec<(String, String)> = Vec::new();
    let mut firsts: Vec<String> = Vec::new();
    let mut seen = StringHashSet::new();
    let mut merged: usize = 0;
    let mut i: usize = 0;
    while i < order.len()
        invariant
            i <= order@.len(),
            rv == ranked_views(order@),
            pair_views(kept@) == kept_labels(rv.take(i as int)),
            label_views(firsts@) == first_spellings(pair_views(kept@)),
            forall|h: Seq<char>| seen@.contains(h) <==> has_hash(pair_views(kept@), h),
            merged == kept@.len() - firsts@.len(),
            kept@.len() <= i,
            firsts@.len() <= kept@.len(),
        decreases order@.len() - i,
    {
        let ghost prev = pair_views(kept@);
        let ghost prev_firsts = label_views(firsts@);
        proof {
            assert(rv.take(i + 1).drop_last() =~= rv.take(i as int));
            assert(rv.take(i + 1).last() == rv[i as int]);
        }
        let label = &order[i].0;
        match normalize(label.as_str()) {
            Some(name) => {
                let known = seen.contains(name.as_str());
                kept.push((label.clone(), name.clone()));
                let ghost cur = pair_views(kept@);
                proof {
                    assert(cur =~= prev.push((label@, name@)));
                    assert(cur.drop_last() =~= prev);
                }
                if known {
                    merged = merged + 1;
                } else {
                    firsts.push(label.clone());
                    seen.insert(name);
                    proof {
                        assert(label_views(firsts@) =~= prev_firsts.push(label@));
                    }
                }
                proof {
                    assert forall|h: Seq<char>| seen@.contains(h) <==> has_hash(cur, h) by {
                        if has_hash(prev, h) {
                            let q = choose|q: int| 0 <= q < prev.len() && prev[q].1 == h;
                            assert(cur[q] == prev[q]);
                        }
                        if has_hash(cur, h) && !has_hash(prev, h) {
                            let q = choose|q: int| 0 <= q < cur.len() && cur[q].1 == h;
                            if q < prev.len() {
                                assert(cur[q] == prev[q]);
                            }
                        }
                        if h == name@ {
                            assert(cur[cur.len() - 1].1 == h);
                        }
                    }
                }
            },
            None => {},
        }
        i = i + 1;
    }
    assert(rv.take(i as int) =~= rv);
    proof {
        lemma_first_spelling_wins(pair_views(kept@));
    }
    (kept, firsts, merged)
}

/// The plan of the one-time move from free-text person labels to identities,
/// from each label with its face count; see `migration_plan`, which this
/// calls once it has found which labels hold an upper-case letter.
pub fn person_migration_plan(labels: &[(String, i64)]) -> (r: (
    Vec<(String, String)>,
    Vec<String>,
    usize,
))
    ensures
        pair_views(r.0@) == kept_labels(ranked(with_upper(labels@))),
        label_views(r.1@) == first_spellings(kept_labels(ranked(with_upper(labels@)))),
        r.2 == r.0@.len() - r.1@.len(),
        r.1@.len() == identities(pair_views(r.0@)).len(),
{
    let mut flagged: Vec<(String, i64, bool)> = Vec::new();
    let mut i: usize = 0;
    while i < labels.len()
        invariant
            i <= labels@.len(),
            ranked_views(flagged@) == with_upper(labels@).take(i as int),
        decreases labels@.len() - i,
    {
        let ghost before = ranked_views(flagged@);
        let up = holds_upper(labels[i].0.as_str());
        let name = labels[i].0.clone();
        flagged.push((name, labels[i].1, up));
        proof {
            assert(with_upper(labels@)[i as int] == (labels@[i as int].0@, labels@[i as int].1, up));
            assert(ranked_views(flagged@) =~= before.push((name@, labels@[i as int].1, up)));
            assert(with_upper(labels@).take(i + 1) =~= with_upper(labels@).take(i as int).push(
                with_upper(labels@)[i as int],
            ));
        }
        i = i + 1;
    }
    assert(with_upper(labels@).take(i as int) =~= with_upper(labels@));
    migration_plan(flagged.as_slice())
}

} // verus!
