//! Per-model embedding databases: one SQLite file per (library, model) pair,
//! named after the model id.

use vstd::prelude::*;
use crate::text::{owned, chars_of, string_of};
use crate::strings::{sorted_strings, sort_strings, views_of, lemma_sorted_strings_ignore_order};

verus! {

/// Schema alias the model database is attached under.
pub const ATTACH_ALIAS: &'static str = "emb";

/// Filename extension for a model database.
pub const DB_EXT: &'static str = "db";

/// Page size for model databases, overriding SQLite's 4096 default.
pub const PAGE_SIZE: i64 = 16384;

/// What one character of a model id becomes in its slug.
pub open spec fn slug_piece(c: char) -> Seq<char> {
    if c == '/' {
        seq!['-', '-']
    } else {
        seq![c]
    }
}

/// Every `/` of a model id replaced by `--`.
pub open spec fn slug_of(id: Seq<char>) -> Seq<char>
    decreases id.len(),
{
    if id.len() == 0 {
        Seq::empty()
    } else {
        slug_of(id.drop_last()) + slug_piece(id.last())
    }
}

/// `--` starts at position `i` of `s`.
pub open spec fn double_dash_at(s: Seq<char>, i: int) -> bool {
    0 <= i && i + 1 < s.len() && s[i] == '-' && s[i + 1] == '-'
}

/// `i` is the first position where `--` starts.
pub open spec fn first_double_dash(s: Seq<char>, i: int) -> bool {
    double_dash_at(s, i) && forall|j: int| 0 <= j < i ==> !double_dash_at(s, j)
}

/// The first `--` of a slug restored to `/`; a slug without one is kept.
pub open spec fn unslug(s: Seq<char>) -> Seq<char> {
    if exists|i: int| first_double_dash(s, i) {
        let i = choose|i: int| first_double_dash(s, i);
        s.take(i) + seq!['/'] + s.skip(i + 2)
    } else {
        s
    }
}

proof fn lemma_first_double_dash_unique(s: Seq<char>, i: int, k: int)
    requires
        first_double_dash(s, i),
        first_double_dash(s, k),
    ensures
        i == k,
{
    if i < k {
        assert(!double_dash_at(s, i));
    } else if k < i {
        assert(!double_dash_at(s, k));
    }
}

/// `google/siglip2-base-patch16-384` -> `google--siglip2-base-patch16-384`.
///
/// Mirrors the Hugging Face cache convention already on disk, so the two
/// directories read the same way.
pub fn model_slug(model_id: &str) -> (r: String)
    ensures
        r@ == slug_of(model_id@),
{
    let v = chars_of(model_id);
    let mut out: Vec<char> = Vec::new();
    let mut i: usize = 0;
    while i < v.len()
        invariant
            v@ == model_id@,
            i <= v@.len(),
            out@ == slug_of(v@.take(i as int)),
        decreases v@.len() - i,
    {
        let c = v[i];
        if c == '/' {
            out.push('-');
            out.push('-');
        } else {
            out.push(c);
        }
        proof {
            assert(v@.take(i + 1).drop_last() =~= v@.take(i as int));
        }
        i = i + 1;
        assert(out@ =~= slug_of(v@.take(i as int)));
    }
    assert(v@.take(v@.len() as int) =~= v@);
    string_of(out.as_slice())
}

/// Inverse of `model_slug`. Only the first separator is restored: HF ids are
/// `owner/name` with exactly one `/`, and a name may legitimately contain `--`.
pub fn model_from_slug(slug: &str) -> (r: String)
    ensures
        r@ == unslug(slug@),
{
    let v = chars_of(slug);
    let n = v.len();
    let mut i: usize = 0;
    while i < n && i + 1 < n
        invariant
            v@ == slug@,
            n == v@.len(),
            forall|j: int| 0 <= j < i ==> !double_dash_at(v@, j),
        decreases n - i,
    {
        if v[i] == '-' && v[i + 1] == '-' {
            let mut out: Vec<char> = Vec::new();
            let mut k: usize = 0;
            while k < i
                invariant
                    k <= i,
                    i + 1 < n,
                    n == v@.len(),
                    out@ == v@.take(k as int),
                decreases i - k,
            {
                out.push(v[k]);
                k = k + 1;
                assert(out@ =~= v@.take(k as int));
            }
            out.push('/');
            let mut k: usize = i + 2;
            let ghost base = out@;
            while k < n
                invariant
                    i + 2 <= k <= n,
                    n == v@.len(),
                    out@ == base + v@.subrange(i + 2, k as int),
                decreases n - k,
            {
                out.push(v[k]);
                k = k + 1;
                assert(out@ =~= base + v@.subrange(i + 2, k as int));
            }
            proof {
                assert(first_double_dash(v@, i as int));
                let c = choose|c: int| first_double_dash(v@, c);
                lemma_first_double_dash_unique(v@, i as int, c);
                assert(out@ =~= v@.take(i as int) + seq!['/'] + v@.skip(i + 2));
            }
            return string_of(out.as_slice());
        }
        i = i + 1;
    }
    proof {
        if exists|c: int| first_double_dash(v@, c) {
            let c = choose|c: int| first_double_dash(v@, c);
            assert(!double_dash_at(v@, c));
        }
    }
    string_of(v.as_slice())
}

/// A sequence without `/` is its own slug.
proof fn lemma_slug_without_slash(s: Seq<char>)
    requires
        forall|i: int| 0 <= i < s.len() ==> s[i] != '/',
    ensures
        slug_of(s) == s,
    decreases s.len(),
{
    if s.len() > 0 {
        lemma_slug_without_slash(s.drop_last());
        assert(slug_of(s) =~= s);
    }
}

/// The slug of a concatenation is the concatenation of the slugs.
proof fn lemma_slug_concat(a: Seq<char>, b: Seq<char>)
    ensures
        slug_of(a + b) == slug_of(a) + slug_of(b),
    decreases b.len(),
{
    if b.len() == 0 {
        assert(a + b =~= a);
        assert(slug_of(a) + slug_of(b) =~= slug_of(a));
    } else {
        lemma_slug_concat(a, b.drop_last());
        assert((a + b).drop_last() =~= a + b.drop_last());
        assert((a + b).last() == b.last());
    }
}

/// A well-formed Hugging Face id `owner/name` comes back unchanged from its
/// slug: the owner holds no `/` and no `--` and does not end in `-`, and the
/// name holds no `/`.
pub proof fn lemma_slug_round_trip(owner: Seq<char>, name: Seq<char>)
    requires
        forall|i: int| 0 <= i < owner.len() ==> owner[i] != '/',
        forall|i: int| 0 <= i < name.len() ==> name[i] != '/',
        forall|i: int| !double_dash_at(owner, i),
        owner.len() > 0 ==> owner.last() != '-',
    ensures
        unslug(slug_of(owner + seq!['/'] + name)) == owner + seq!['/'] + name,
{
    lemma_slug_concat(owner + seq!['/'], name);
    lemma_slug_concat(owner, seq!['/']);
    lemma_slug_without_slash(owner);
    lemma_slug_without_slash(name);
    assert(slug_of(seq!['/']) =~= seq!['-', '-']) by {
        reveal_with_fuel(slug_of, 2);
        assert(seq!['/'].drop_last() =~= Seq::<char>::empty());
    }
    let s = owner + seq!['-', '-'] + name;
    assert(slug_of(owner + seq!['/'] + name) == s);
    let k = owner.len() as int;
    assert(double_dash_at(s, k));
    assert forall|j: int| 0 <= j < k implies !double_dash_at(s, j) by {
        if j + 1 < k {
            assert(!double_dash_at(owner, j));
            assert(s[j] == owner[j] && s[j + 1] == owner[j + 1]);
        } else {
            assert(s[j] == owner.last());
        }
    }
    assert(first_double_dash(s, k));
    let c = choose|c: int| first_double_dash(s, c);
    lemma_first_double_dash_unique(s, k, c);
    assert(s.take(k) + seq!['/'] + s.skip(k + 2) =~= owner + seq!['/'] + name);
}

/// A slug never holds `/`, so it names a file rather than a nested path.
pub proof fn lemma_slug_has_no_slash(id: Seq<char>)
    ensures
        forall|i: int| 0 <= i < slug_of(id).len() ==> slug_of(id)[i] != '/',
    decreases id.len(),
{
    if id.len() > 0 {
        lemma_slug_has_no_slash(id.drop_last());
        let a = slug_of(id.drop_last());
        let b = slug_piece(id.last());
        assert forall|i: int| 0 <= i < (a + b).len() implies (a + b)[i] != '/' by {
            if i < a.len() {
                assert((a + b)[i] == a[i]);
            } else {
                assert((a + b)[i] == b[i - a.len()]);
            }
        }
    }
}

/// `base` joined with a relative component that holds no `/`, the way a
/// path gains one more component: a separator is added unless `base` is
/// empty or already ends with one.
pub open spec fn joined(base: Seq<char>, name: Seq<char>) -> Seq<char> {
    if base.len() == 0 {
        name
    } else if base.last() == '/' {
        base + name
    } else {
        base + seq!['/'] + name
    }
}

/// The file name of one model's database: its slug with the `.db` extension.
pub open spec fn model_db_file(model_id: Seq<char>) -> Seq<char> {
    slug_of(model_id) + seq!['.'] + DB_EXT@
}

/// Full path to one model database inside the library's embeddings
/// directory. A path-only lookup: it creates no directory or database.
pub fn db_path_in(embeddings_dir: &str, model_id: &str) -> (r: String)
    ensures
        r@ == joined(embeddings_dir@, model_db_file(model_id@)),
{
    proof {
        reveal_strlit("db");
    }
    let slug = model_slug(model_id);
    let mut name: Vec<char> = chars_of(slug.as_str());
    name.push('.');
    name.push('d');
    name.push('b');
    assert(name@ =~= model_db_file(model_id@));
    let base = chars_of(embeddings_dir);
    let mut out: Vec<char> = Vec::new();
    if base.len() > 0 {
        out = base.clone();
        if base[base.len() - 1] != '/' {
            out.push('/');
        }
    }
    let ghost prefix = out@;
    let mut i: usize = 0;
    while i < name.len()
        invariant
            i <= name@.len(),
            out@ == prefix + name@.take(i as int),
        decreases name@.len() - i,
    {
        out.push(name[i]);
        i = i + 1;
        assert(out@ =~= prefix + name@.take(i as int));
    }
    assert(name@.take(name@.len() as int) =~= name@);
    proof {
        if base@.len() == 0 {
            assert(out@ =~= name@);
        } else if base@.last() == '/' {
            assert(out@ =~= embeddings_dir@ + name@);
        } else {
            assert(out@ =~= embeddings_dir@ + seq!['/'] + name@);
        }
    }
    string_of(out.as_slice())
}

/// `base` joined with the relative `name`, as `Path::join` joins them.
pub fn join_path(base: &str, name: &str) -> (r: String)
    ensures
        r@ == joined(base@, name@),
{
    proof {
        reveal_strlit("/");
    }
    let b = chars_of(base);
    let mut out = owned(base);
    if b.len() > 0 && b[b.len() - 1] != '/' {
        out.append("/");
    }
    out.append(name);
    proof {
        if base@.len() == 0 {
            assert(out@ =~= name@);
        } else if base@.last() == '/' {
            assert(out@ =~= base@ + name@);
        } else {
            assert(out@ =~= base@ + seq!['/'] + name@);
        }
    }
    out
}

/// The model a directory entry stands for. A file name whose extension is
/// `db` gives its stem read back through `model_from_slug`; a name that is
/// only `.db` has no extension, and any other name stands for no model.
pub open spec fn listed_model(name: Seq<char>) -> Option<Seq<char>> {
    if name.len() > 3 && name.skip(name.len() - 3) == seq!['.', 'd', 'b'] {
        Some(unslug(name.take(name.len() - 3)))
    } else {
        None
    }
}

/// The models that a directory listing stands for, in listing order.
pub open spec fn listed_models(names: Seq<Seq<char>>) -> Seq<Seq<char>>
    decreases names.len(),
{
    if names.len() == 0 {
        Seq::empty()
    } else {
        let rest = listed_models(names.drop_last());
        match listed_model(names.last()) {
            Some(m) => rest.push(m),
            None => rest,
        }
    }
}

/// The model a file name stands for, as a multiset of at most one.
pub open spec fn listed_model_bag(name: Seq<char>) -> vstd::multiset::Multiset<Seq<char>> {
    match listed_model(name) {
        Some(m) => vstd::multiset::Multiset::singleton(m),
        None => vstd::multiset::Multiset::empty(),
    }
}

proof fn lemma_listed_models_remove(names: Seq<Seq<char>>, k: int)
    requires
        0 <= k < names.len(),
    ensures
        listed_models(names).to_multiset() == listed_models(names.remove(k)).to_multiset().add(
            listed_model_bag(names[k]),
        ),
    decreases names.len(),
{
    broadcast use vstd::seq_lib::group_seq_properties, vstd::multiset::group_multiset_axioms;
    let last = names.last();
    let prefix = names.drop_last();
    if k == names.len() - 1 {
        assert(names.remove(k) =~= prefix);
        assert(listed_models(names).to_multiset() =~= listed_models(prefix).to_multiset().add(
            listed_model_bag(last),
        ));
    } else {
        lemma_listed_models_remove(prefix, k);
        let r = names.remove(k);
        assert(r.drop_last() =~= prefix.remove(k));
        assert(r.last() == last);
        assert(prefix[k] == names[k]);
        assert(listed_models(names).to_multiset() =~= listed_models(prefix).to_multiset().add(
            listed_model_bag(last),
        ));
        assert(listed_models(r).to_multiset() =~= listed_models(prefix.remove(k)).to_multiset().add(
            listed_model_bag(last),
        ));
        assert(listed_models(names).to_multiset() =~= listed_models(r).to_multiset().add(
            listed_model_bag(names[k]),
        ));
    }
}

proof fn lemma_listed_models_ignore_order(a: Seq<Seq<char>>, b: Seq<Seq<char>>)
    requires
        a.to_multiset() == b.to_multiset(),
    ensures
        listed_models(a).to_multiset() == listed_models(b).to_multiset(),
    decreases a.len(),
{
    broadcast use vstd::seq_lib::group_seq_properties, vstd::multiset::group_multiset_axioms;
    if a.len() == 0 {
        assert(b.to_multiset().len() == 0);
        assert(b =~= a);
    } else {
        let x = a.last();
        assert(b.to_multiset().count(x) > 0);
        assert(b.contains(x));
        let k = choose|k: int| 0 <= k < b.len() && b[k] == x;
        let pa = a.drop_last();
        let rb = b.remove(k);
        assert(a =~= pa.push(x));
        assert(pa.to_multiset() =~= a.to_multiset().remove(x));
        assert(rb.to_multiset() =~= b.to_multiset().remove(b[k]));
        lemma_listed_models_ignore_order(pa, rb);
        lemma_listed_models_remove(b, k);
        assert(listed_models(a).to_multiset() =~= listed_models(pa).to_multiset().add(
            listed_model_bag(x),
        ));
    }
}

/// The models of a store do not depend on the order its directory lists
/// its files in: the same file names in any order give the same models.
pub proof fn lemma_model_listing_ignores_order(a: Seq<Seq<char>>, b: Seq<Seq<char>>)
    requires
        a.to_multiset() == b.to_multiset(),
    ensures
        sorted_strings(listed_models(a)) == sorted_strings(listed_models(b)),
{
    lemma_listed_models_ignore_order(a, b);
    lemma_sorted_strings_ignore_order(listed_models(a), listed_models(b));
}

/// The model id held in one model database's file name, if it is one.
pub fn model_from_file_name(name: &str) -> (r: Option<String>)
    ensures
        match r {
            Some(m) => listed_model(name@) == Some(m@),
            None => listed_model(name@) is None,
        },
{
    let v = chars_of(name);
    let n = v.len();
    if n <= 3 || v[n - 3] != '.' || v[n - 2] != 'd' || v[n - 1] != 'b' {
        proof {
            if n > 3 {
                let tail = name@.skip(n - 3);
                assert(tail[0] == v@[n - 3] && tail[1] == v@[n - 2] && tail[2] == v@[n - 1]);
                assert(tail != seq!['.', 'd', 'b']) by {
                    if tail == seq!['.', 'd', 'b'] {
                        assert(seq!['.', 'd', 'b'][0] == '.');
                        assert(seq!['.', 'd', 'b'][1] == 'd');
                        assert(seq!['.', 'd', 'b'][2] == 'b');
                    }
                }
            }
        }
        return None;
    }
    assert(name@.skip(n - 3) =~= seq!['.', 'd', 'b']);
    let mut stem: Vec<char> = Vec::new();
    let mut i: usize = 0;
    while i < n - 3
        invariant
            n == v@.len(),
            n > 3,
            i <= n - 3,
            stem@ == v@.take(i as int),
        decreases n - 3 - i,
    {
        stem.push(v[i]);
        i = i + 1;
        assert(stem@ =~= v@.take(i as int));
    }
    let s = string_of(stem.as_slice());
    Some(model_from_slug(s.as_str()))
}

/// The models of a model store whose directory lists `file_names`, sorted.
pub fn models_in_listing(file_names: &[String]) -> (r: Vec<String>)
    ensures
        views_of(r@) == sorted_strings(listed_models(views_of(file_names@))),
{
    let ghost names = views_of(file_names@);
    let mut found: Vec<String> = Vec::new();
    let mut i: usize = 0;
    while i < file_names.len()
        invariant
            names == views_of(file_names@),
            i <= file_names@.len(),
            views_of(found@) == listed_models(names.take(i as int)),
        decreases file_names@.len() - i,
    {
        proof {
            assert(names.take(i + 1).drop_last() =~= names.take(i as int));
            assert(names.take(i + 1).last() == file_names@[i as int]@);
        }
        match model_from_file_name(file_names[i].as_str()) {
            Some(m) => {
                let ghost before = found@;
                found.push(m);
                assert(views_of(found@) =~= views_of(before).push(m@));
            },
            None => {},
        }
        i = i + 1;
    }
    assert(names.take(file_names@.len() as int) =~= names);
    sort_strings(found)
}

/// One model's embedding inventory, for `videre stats`.
#[derive(Debug, Clone, PartialEq)]
pub struct ModelEmbeddingCount {
    pub model_id: String,
    pub count: i64,
    /// Vector dimensions, derived from stored blob length. 0 when the
    /// database holds no rows yet.
    pub dims: i64,
    pub size_bytes: i64,
}

} // verus!
