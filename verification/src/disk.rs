//! What videre is using on disk, and how a size reads to a person.

use vstd::prelude::*;
use crate::text::{decimal, digit_char, decimal_chars, string_of};

verus! {

#[verifier::external_type_specification]
#[verifier::external_body]
pub struct ExPathBuf(std::path::PathBuf);

/// One thing taking up space, and whether losing it would cost anything.
pub struct Usage {
    pub label: &'static str,
    pub path: std::path::PathBuf,
    pub bytes: u64,
    pub files: u64,
    /// True when deleting it costs only the time to rebuild. Thumbnails and
    /// HEIC conversions regenerate from the originals; embeddings take hours
    /// and the database cannot be rebuilt at all without a rescan.
    pub rebuildable: bool,
}

/// `2` to the power `e`.
pub open spec fn two_to(e: nat) -> nat
    decreases e,
{
    if e == 0 {
        1
    } else {
        2 * two_to((e - 1) as nat)
    }
}

/// `1024` to the power `u`.
pub open spec fn kib(u: nat) -> nat
    decreases u,
{
    if u == 0 {
        1
    } else {
        1024 * kib((u - 1) as nat)
    }
}

/// `a / b` rounded to the nearest integer, a tie going to the even one.
pub open spec fn round_div_even(a: nat, b: nat) -> nat {
    let q = a / b;
    let r = a % b;
    if 2 * r > b {
        q + 1
    } else if 2 * r < b {
        q
    } else if q % 2 == 0 {
        q
    } else {
        q + 1
    }
}

/// `n` rounded to a multiple of `2^e` where it first fits 53 significant
/// bits there: the value of `n as f64`.
pub open spec fn float_from(n: nat, e: nat) -> nat
    decreases 64 - e,
{
    if e >= 64 || n < two_to(53 + e) {
        round_div_even(n, two_to(e)) * two_to(e)
    } else {
        float_from(n, e + 1)
    }
}

/// The unit a value of at least `1024^u` bytes is shown in: further units
/// while it reaches the next one, up to terabytes.
pub open spec fn unit_from(v: nat, u: nat) -> nat
    decreases 4 - u,
{
    if u >= 4 || v < kib(u + 1) {
        u
    } else {
        unit_from(v, u + 1)
    }
}

/// The name of unit `u`.
pub open spec fn unit_name(u: nat) -> Seq<char> {
    if u == 0 {
        "B"@
    } else if u == 1 {
        "KB"@
    } else if u == 2 {
        "MB"@
    } else if u == 3 {
        "GB"@
    } else {
        "TB"@
    }
}

/// Bytes as a person says them: whole bytes below a kilobyte, else the
/// size in the largest unit it reaches (up to terabytes) with one decimal,
/// rounded to nearest with ties to even, from the size as a double.
pub open spec fn human_bytes_spec(bytes: nat) -> Seq<char> {
    if bytes < 1024 {
        decimal(bytes) + " B"@
    } else {
        let v = float_from(bytes, 0);
        let u = unit_from(v, 1);
        let t = round_div_even(10 * v, kib(u));
        decimal(t / 10) + "."@ + seq![digit_char(t % 10)] + " "@ + unit_name(u)
    }
}

fn round_div_even_exec(a: u128, b: u128) -> (r: u128)
    requires
        b > 0,
        b <= 0x1_0000_0000_0000_0000,
        a < 0x8000_0000_0000_0000_0000_0000_0000_0000u128,
    ensures
        r == round_div_even(a as nat, b as nat),
{
    let q = a / b;
    let r = a % b;
    assert(q <= a) by (nonlinear_arith)
        requires
            q == a / b,
            b > 0,
            a >= 0,
    {
    }
    if 2 * r > b {
        q + 1
    } else if 2 * r < b {
        q
    } else if q % 2 == 0 {
        q
    } else {
        q + 1
    }
}

fn unit_text(u: u32) -> (r: &'static str)
    ensures
        r@ == unit_name(u as nat),
{
    if u == 0 {
        "B"
    } else if u == 1 {
        "KB"
    } else if u == 2 {
        "MB"
    } else if u == 3 {
        "GB"
    } else {
        "TB"
    }
}

fn digit_of(d: u64) -> (c: char)
    requires
        d < 10,
    ensures
        c == digit_char(d as nat),
{
    let v = decimal_chars(d);
    proof {
        reveal_with_fuel(decimal, 2);
    }
    v[0]
}

proof fn lemma_two_to_grows(e: nat)
    ensures
        two_to(e) >= 1,
        two_to(e + 1) == 2 * two_to(e),
    decreases e,
{
    if e > 0 {
        lemma_two_to_grows((e - 1) as nat);
    }
}

/// Bytes as a person would say them: `1.4 GB`, `812 MB`, `4.0 KB`.
pub fn human_bytes(bytes: u64) -> (r: String)
    ensures
        r@ == human_bytes_spec(bytes as nat),
{
    if bytes < 1024 {
        let mut s = string_of(decimal_chars(bytes).as_slice());
        s.append(" B");
        return s;
    }
    let n: u128 = bytes as u128;
    // The value as a double: rounded to 53 significant bits.
    let mut e: u32 = 0;
    let mut p: u128 = 1;
    let mut lim: u128 = 0x20_0000_0000_0000;
    proof {
        lemma_two_to_53();
    }
    while e < 64 && n >= lim
        invariant
            e <= 64,
            p == two_to(e as nat),
            lim == two_to(53 + e as nat),
            lim == p * 0x20_0000_0000_0000,
            1 <= p <= n,
            e > 0 ==> n >= p * 0x10_0000_0000_0000,
            lim <= 0x2_0000_0000_0000_0000,
            n < 0x1_0000_0000_0000_0000,
            float_from(n as nat, 0) == float_from(n as nat, e as nat),
        decreases 64 - e,
    {
        proof {
            lemma_two_to_grows(e as nat);
            lemma_two_to_grows(53 + e as nat);
        }
        p = p * 2;
        lim = lim * 2;
        e = e + 1;
    }
    proof {
        lemma_two_to_grows(e as nat);
    }
    let q = round_div_even_exec(n, p);
    assert(q * p <= n + p) by (nonlinear_arith)
        requires
            p > 0,
            q <= n / p + 1,
            n >= 0,
    {
        assert((n / p) * p <= n);
    }
    let v: u128 = q * p;
    assert(v == float_from(n as nat, 0));
    if e == 0 {
        assert(two_to(0) == 1);
        assert((n as nat) / 1 == n as nat && (n as nat) % 1 == 0) by (nonlinear_arith);
        assert(q == n);
        assert(v == q) by (nonlinear_arith)
            requires
                v == q * p,
                p == 1,
        {
        }
        assert(v >= 1024);
    } else {
        assert(v >= 1024) by (nonlinear_arith)
            requires
                v == q * p,
                p >= 1,
                q >= n / p,
                n >= p * 0x10_0000_0000_0000,
        {
            assert(n / p >= 0x10_0000_0000_0000);
            assert(q * p >= 0x10_0000_0000_0000 * p);
        }
    }
    assert(v <= 0x2_0000_0000_0000_0000);
    let mut u: u32 = 1;
    let mut pw: u128 = 1024;
    assert(kib(1) == 1024) by {
        reveal_with_fuel(kib, 2);
    }
    assert(unit_from(v as nat, 1) == unit_from(v as nat, 1));
    while u < 4 && v >= pw * 1024
        invariant
            1 <= u <= 4,
            pw == kib(u as nat),
            1024 <= pw <= 0x100_0000_0000,
            unit_from(v as nat, 1) == unit_from(v as nat, u as nat),
        decreases 4 - u,
    {
        assert(kib(u as nat + 1) == 1024 * kib(u as nat));
        pw = pw * 1024;
        u = u + 1;
        assert(pw <= 0x100_0000_0000) by {
            reveal_with_fuel(kib, 5);
        }
    }
    assert(kib(u as nat + 1) == 1024 * kib(u as nat));
    let t = round_div_even_exec(10 * v, pw);
    assert(t < 0x1000_0000_0000_0000) by (nonlinear_arith)
        requires
            t <= (10 * v as int) / (pw as int) + 1,
            pw >= 1024,
            v <= 0x2_0000_0000_0000_0000,
    {
        assert((10 * v as int) / (pw as int) <= (10 * v as int) / 1024);
    }
    let whole: u64 = (t / 10) as u64;
    let frac: u64 = (t % 10) as u64;
    let mut s = string_of(decimal_chars(whole).as_slice());
    s.append(".");
    let d = digit_of(frac);
    crate::text::push_char(&mut s, d);
    s.append(" ");
    s.append(unit_text(u));
    assert(s@ =~= decimal((t / 10) as nat) + "."@ + seq![digit_char((t % 10) as nat)] + " "@
        + unit_name(u as nat));
    s
}

proof fn lemma_two_to_53()
    ensures
        two_to(53) == 0x20_0000_0000_0000,
{
    reveal_with_fuel(two_to, 54);
}


/// `sorted` with `x` placed after every entry at least as large: the step
/// of a stable sort, largest first.
pub open spec fn insert_desc(sorted: Seq<Usage>, x: Usage) -> Seq<Usage>
    decreases sorted.len(),
{
    if sorted.len() == 0 {
        seq![x]
    } else if sorted.last().bytes >= x.bytes {
        sorted.push(x)
    } else {
        insert_desc(sorted.drop_last(), x).push(sorted.last())
    }
}

/// The rows that take space, largest first, equal sizes in their given
/// order.
pub open spec fn usage_report_spec(rows: Seq<Usage>) -> Seq<Usage>
    decreases rows.len(),
{
    if rows.len() == 0 {
        Seq::empty()
    } else {
        let rest = usage_report_spec(rows.drop_last());
        if rows.last().bytes > 0 {
            insert_desc(rest, rows.last())
        } else {
            rest
        }
    }
}

/// The rows that take any space, in order.
pub open spec fn with_space(rows: Seq<Usage>) -> Seq<Usage>
    decreases rows.len(),
{
    if rows.len() == 0 {
        Seq::empty()
    } else {
        let rest = with_space(rows.drop_last());
        if rows.last().bytes > 0 {
            rest.push(rows.last())
        } else {
            rest
        }
    }
}

/// Sizes never increase along `s`.
pub open spec fn largest_first(s: Seq<Usage>) -> bool {
    forall|i: int, j: int| 0 <= i < j < s.len() ==> s[i].bytes >= s[j].bytes
}

proof fn lemma_insert_desc(sorted: Seq<Usage>, x: Usage)
    requires
        largest_first(sorted),
    ensures
        largest_first(insert_desc(sorted, x)),
        insert_desc(sorted, x).len() == sorted.len() + 1,
        insert_desc(sorted, x).to_multiset() == sorted.to_multiset().insert(x),
        forall|i: int|
            0 <= i < insert_desc(sorted, x).len() ==> #[trigger] insert_desc(sorted, x)[i] == x
                || sorted.contains(insert_desc(sorted, x)[i]),
    decreases sorted.len(),
{
    broadcast use vstd::seq_lib::group_seq_properties, vstd::multiset::group_multiset_axioms;
    if sorted.len() > 0 && sorted.last().bytes < x.bytes {
        let rest = sorted.drop_last();
        assert(largest_first(rest));
        lemma_insert_desc(rest, x);
        let ins = insert_desc(rest, x);
        let last = sorted.last();
        assert forall|i: int| 0 <= i < ins.len() implies ins[i].bytes >= last.bytes by {
            if ins[i] == x {
            } else {
                assert(rest.contains(ins[i]));
                let k = choose|k: int| 0 <= k < rest.len() && rest[k] == ins[i];
                assert(sorted[k] == rest[k]);
            }
        }
        assert(sorted =~= rest.push(last));
        assert forall|i: int| 0 <= i < ins.push(last).len() implies #[trigger] ins.push(last)[i]
            == x || sorted.contains(ins.push(last)[i]) by {
            if i < ins.len() {
                assert(ins.push(last)[i] == ins[i]);
                if ins[i] != x {
                    assert(rest.contains(ins[i]));
                    let k = choose|k: int| 0 <= k < rest.len() && rest[k] == ins[i];
                    assert(sorted[k] == ins[i]);
                }
            } else {
                assert(sorted[sorted.len() - 1] == last);
            }
        }
    } else if sorted.len() > 0 {
        assert forall|i: int| 0 <= i < sorted.push(x).len() implies #[trigger] sorted.push(x)[i]
            == x || sorted.contains(sorted.push(x)[i]) by {
            if i < sorted.len() {
                assert(sorted.push(x)[i] == sorted[i]);
            }
        }
    }
}

/// The report is largest first, holds only rows that take space, and holds
/// each of them: a stable sort of the rows with bytes.
pub proof fn lemma_usage_report_is_sorted_and_complete(rows: Seq<Usage>)
    ensures
        largest_first(usage_report_spec(rows)),
        usage_report_spec(rows).to_multiset() == with_space(rows).to_multiset(),
    decreases rows.len(),
{
    broadcast use vstd::seq_lib::group_seq_properties, vstd::multiset::group_multiset_axioms;
    if rows.len() > 0 {
        lemma_usage_report_is_sorted_and_complete(rows.drop_last());
        let rest = usage_report_spec(rows.drop_last());
        assert(rows.drop_last().push(rows.last()) =~= rows);
        if rows.last().bytes > 0 {
            lemma_insert_desc(rest, rows.last());
        }
    }
}

/// The rows worth reporting, largest first: those that take space, equal
/// sizes in the order given.
pub fn usage_report(rows: Vec<Usage>) -> (r: Vec<Usage>)
    ensures
        r@ == usage_report_spec(rows@),
{
    let ghost all = rows@;
    let mut out: Vec<Usage> = Vec::new();
    let mut rest = rows;
    let ghost mut k: int = 0;
    assert(all.take(0) =~= Seq::<Usage>::empty());
    assert(all.skip(0) =~= all);
    while rest.len() > 0
        invariant
            0 <= k <= all.len(),
            rest@ == all.skip(k),
            out@ == usage_report_spec(all.take(k)),
        decreases rest@.len(),
    {
        let x = rest.remove(0);
        let ghost xv = x;
        proof {
            assert(all[k] == x);
            assert(all.take(k + 1).drop_last() =~= all.take(k));
            assert(all.take(k + 1).last() == x);
            assert(rest@ =~= all.skip(k + 1));
        }
        if x.bytes > 0 {
            let ghost o = out@;
            let mut p: usize = out.len();
            assert(o.take(p as int) =~= o && o.skip(p as int) =~= Seq::<Usage>::empty());
            while p > 0 && out[p - 1].bytes < x.bytes
                invariant
                    p <= out@.len(),
                    out@ == o,
                    insert_desc(o, xv) == insert_desc(o.take(p as int), xv) + o.skip(p as int),
                    x == xv,
                decreases p,
            {
                proof {
                    assert(o.take(p as int).drop_last() =~= o.take(p - 1));
                    assert(o.take(p as int).last() == o[p - 1]);
                    assert(o.skip(p - 1) =~= seq![o[p - 1]] + o.skip(p as int));
                    assert(insert_desc(o.take(p - 1), xv).push(o[p - 1]) + o.skip(p as int)
                        =~= insert_desc(o.take(p - 1), xv) + o.skip(p - 1));
                }
                p = p - 1;
            }
            proof {
                if p > 0 {
                    assert(o.take(p as int).last() == o[p - 1]);
                }
                assert(insert_desc(o.take(p as int), xv) =~= o.take(p as int).push(xv));
                assert(o.take(p as int).push(xv) + o.skip(p as int) =~= o.insert(p as int, xv));
            }
            out.insert(p, x);
        }
        proof {
            k = k + 1;
        }
    }
    assert(all.take(k) =~= all);
    out
}

/// The row for the database journal, its write-ahead log and shared memory
/// together, when they take any space.
pub fn journal_usage(
    wal: (u64, u64),
    shm: (u64, u64),
    path: std::path::PathBuf,
) -> (r: Option<Usage>)
    requires
        wal.0 + shm.0 <= u64::MAX,
        wal.1 + shm.1 <= u64::MAX,
    ensures
        match r {
            Some(u) => wal.0 + shm.0 > 0 && u.label == "database journal" && u.path == path
                && u.bytes == wal.0 + shm.0 && u.files == wal.1 + shm.1 && u.rebuildable,
            None => wal.0 + shm.0 == 0,
        },
{
    let bytes = wal.0 + shm.0;
    let files = wal.1 + shm.1;
    if bytes > 0 {
        Some(Usage { label: "database journal", path, bytes, files, rebuildable: true })
    } else {
        None
    }
}

/// One stored item as measured: where it is, its bytes and its files.
pub struct Measured {
    pub path: std::path::PathBuf,
    pub bytes: u64,
    pub files: u64,
}

/// The report row of a measured item.
pub open spec fn row_of(label: &'static str, m: Measured, rebuildable: bool) -> Usage {
    Usage { label, path: m.path, bytes: m.bytes, files: m.files, rebuildable }
}

/// The rows of one library before sorting: the database, its journal
/// (write-ahead log and shared memory together, under the log's path)
/// when it takes space, the embeddings, the thumbnails, the shared place
/// names and the locks. Only the database and the embeddings cost more
/// than a rebuild to lose.
pub open spec fn library_rows(
    db: Measured,
    wal: Measured,
    shm: Measured,
    embeddings: Measured,
    thumbnails: Measured,
    geo: Measured,
    locks: Measured,
) -> Seq<Usage> {
    let journal = if wal.bytes + shm.bytes > 0 {
        seq![
            Usage {
                label: "database journal",
                path: wal.path,
                bytes: (wal.bytes + shm.bytes) as u64,
                files: (wal.files + shm.files) as u64,
                rebuildable: true,
            },
        ]
    } else {
        Seq::empty()
    };
    seq![row_of("database", db, false)] + journal + seq![
        row_of("embeddings", embeddings, false),
        row_of("thumbnails", thumbnails, true),
        row_of("place names (shared)", geo, true),
        row_of("locks", locks, true),
    ]
}

fn usage_row(label: &'static str, m: Measured, rebuildable: bool) -> (r: Usage)
    ensures
        r == row_of(label, m, rebuildable),
{
    Usage { label, path: m.path, bytes: m.bytes, files: m.files, rebuildable }
}

/// Everything one library stores, largest first, from what was measured.
pub fn library_usage(
    db: Measured,
    wal: Measured,
    shm: Measured,
    embeddings: Measured,
    thumbnails: Measured,
    geo: Measured,
    locks: Measured,
) -> (r: Vec<Usage>)
    requires
        wal.bytes + shm.bytes <= u64::MAX,
        wal.files + shm.files <= u64::MAX,
    ensures
        r@ == usage_report_spec(library_rows(db, wal, shm, embeddings, thumbnails, geo, locks)),
{
    let ghost rows = library_rows(db, wal, shm, embeddings, thumbnails, geo, locks);
    let mut v: Vec<Usage> = Vec::new();
    v.push(usage_row("database", db, false));
    match journal_usage((wal.bytes, wal.files), (shm.bytes, shm.files), wal.path) {
        Some(u) => v.push(u),
        None => {},
    }
    v.push(usage_row("embeddings", embeddings, false));
    v.push(usage_row("thumbnails", thumbnails, true));
    v.push(usage_row("place names (shared)", geo, true));
    v.push(usage_row("locks", locks, true));
    assert(v@ =~= rows);
    usage_report(v)
}

} // verus!
