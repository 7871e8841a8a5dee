//! The whole-number gates of a profile promotion: the frozen versions, the
//! number and keys of the datasets, the hard-rule and explanation counts,
//! and the fragmented-identity gain.

use vstd::prelude::*;
use crate::face_learning::evidence::EVIDENCE_SCHEMA_VERSION;
use crate::face_learning::features::FEATURE_SCHEMA_VERSION;
use crate::face_learning::profile::ProfileError;
use crate::text::{decimal, owned, str_equal, with_unsigned};

verus! {

/// The whole-number promotion gates.
#[derive(Clone, Copy, Debug, PartialEq, Eq, Structural)]
pub struct CountGates {
    pub protocol_version: u32,
    pub evidence_schema_version: u32,
    pub feature_schema_version: u32,
    pub min_datasets: usize,
    pub max_hard_rule_violations: usize,
    pub max_invalid_explanations: usize,
    pub min_fragmented_identity_reduction: usize,
}

impl CountGates {
    /// The whole-number gates this protocol ships with.
    pub fn shipped() -> (r: Self)
        ensures
            r == (CountGates {
                protocol_version: 1,
                evidence_schema_version: EVIDENCE_SCHEMA_VERSION,
                feature_schema_version: FEATURE_SCHEMA_VERSION,
                min_datasets: 2,
                max_hard_rule_violations: 0,
                max_invalid_explanations: 0,
                min_fragmented_identity_reduction: 0,
            }),
    {
        CountGates {
            protocol_version: 1,
            evidence_schema_version: EVIDENCE_SCHEMA_VERSION,
            feature_schema_version: FEATURE_SCHEMA_VERSION,
            min_datasets: 2,
            max_hard_rule_violations: 0,
            max_invalid_explanations: 0,
            min_fragmented_identity_reduction: 0,
        }
    }
}

/// Refuse gates that ask for no dataset at all.
pub fn check_count_gates(gates: &CountGates) -> (r: Result<(), ProfileError>)
    ensures
        r is Ok <==> gates.min_datasets != 0,
        r matches Err(e) ==> e matches ProfileError::InvalidGate(name) && name@ == "min_datasets"@,
{
    if gates.min_datasets == 0 {
        return Err(ProfileError::InvalidGate("min_datasets"));
    }
    Ok(())
}

/// What the whole-number gates read of one dataset of a report.
#[derive(Clone, Debug)]
pub struct DatasetCounts {
    pub dataset_key: String,
    pub hard_rule_violations: usize,
    pub invalid_explanations: usize,
    pub fragmented_identities: usize,
}

/// A dataset as its key and counts.
pub type DatasetView = (Seq<char>, usize, usize, usize);

impl View for DatasetCounts {
    type V = DatasetView;

    open spec fn view(&self) -> DatasetView {
        (
            self.dataset_key@,
            self.hard_rule_violations,
            self.invalid_explanations,
            self.fragmented_identities,
        )
    }
}

/// The views of a sequence of datasets.
pub open spec fn datasets_view(ds: Seq<DatasetCounts>) -> Seq<DatasetView> {
    ds.map_values(|d: DatasetCounts| d@)
}

/// What the whole-number gates read of a validation report.
#[derive(Clone, Debug)]
pub struct ReportCounts {
    pub protocol_version: u32,
    pub evidence_schema_version: u32,
    pub feature_schema_version: u32,
    pub datasets: Vec<DatasetCounts>,
}

/// A report as its three versions and its datasets.
pub type ReportView = (u32, u32, u32, Seq<DatasetView>);

impl View for ReportCounts {
    type V = ReportView;

    open spec fn view(&self) -> ReportView {
        (
            self.protocol_version,
            self.evidence_schema_version,
            self.feature_schema_version,
            datasets_view(self.datasets@),
        )
    }
}

/// A failed gate: the dataset it is about (empty for the whole report), the
/// gate's name, and what was observed and required where they are numbers.
#[derive(Clone, Debug)]
pub struct CountFailure {
    pub dataset_key: String,
    pub gate: String,
    pub observed: Option<u64>,
    pub required: Option<u64>,
}

/// A failed gate as its key, name, observed and required values.
pub type FailureView = (Seq<char>, Seq<char>, Option<u64>, Option<u64>);

impl View for CountFailure {
    type V = FailureView;

    open spec fn view(&self) -> FailureView {
        (self.dataset_key@, self.gate@, self.observed, self.required)
    }
}

/// The views of a sequence of failures.
pub open spec fn failures_view(fs: Seq<CountFailure>) -> Seq<FailureView> {
    fs.map_values(|f: CountFailure| f@)
}

/// The failure of a version gate, when the observed version is not the
/// required one.
pub open spec fn version_mismatch(observed: u32, required: u32, gate: Seq<char>) -> Seq<FailureView> {
    if observed != required {
        seq![(Seq::<char>::empty(), gate, Some(observed as u64), Some(required as u64))]
    } else {
        Seq::empty()
    }
}

/// The failures of the three version gates.
pub open spec fn version_failures(r: ReportView, g: CountGates) -> Seq<FailureView> {
    version_mismatch(r.0, g.protocol_version, "protocol_version"@) + version_mismatch(
        r.1,
        g.evidence_schema_version,
        "evidence_schema_version"@,
    ) + version_mismatch(r.2, g.feature_schema_version, "feature_schema_version"@)
}

/// The failure of the dataset-count gate.
pub open spec fn too_few_datasets(n: nat, g: CountGates) -> Seq<FailureView> {
    if n < g.min_datasets {
        seq![(Seq::<char>::empty(), "min_datasets"@, Some(n as u64), Some(g.min_datasets as u64))]
    } else {
        Seq::empty()
    }
}

/// Whether some dataset of `ds` has the key `key`.
pub open spec fn has_key(ds: Seq<DatasetView>, key: Seq<char>) -> bool {
    exists|i: int| 0 <= i < ds.len() && (#[trigger] ds[i]).0 == key
}

/// One failure named `gate` for each dataset of `ds`, in order, whose key
/// no dataset of `other` has.
pub open spec fn keys_absent_from(ds: Seq<DatasetView>, other: Seq<DatasetView>, gate: Seq<char>) -> Seq<
    FailureView,
>
    decreases ds.len(),
{
    if ds.len() == 0 {
        Seq::empty()
    } else {
        let rest = keys_absent_from(ds.drop_last(), other, gate);
        if has_key(other, ds.last().0) {
            rest
        } else {
            rest.push((ds.last().0, gate, None, None))
        }
    }
}

/// The keys of the datasets, in order.
pub open spec fn dataset_keys(ds: Seq<DatasetView>) -> Seq<Seq<char>> {
    ds.map_values(|d: DatasetView| d.0)
}

proof fn lemma_has_key_is_listed(ds: Seq<DatasetView>, key: Seq<char>)
    ensures
        has_key(ds, key) == dataset_keys(ds).contains(key),
{
    if has_key(ds, key) {
        let i = choose|i: int| 0 <= i < ds.len() && (#[trigger] ds[i]).0 == key;
        assert(dataset_keys(ds)[i] == key);
    }
    if dataset_keys(ds).contains(key) {
        let i = choose|i: int| 0 <= i < dataset_keys(ds).len() && dataset_keys(ds)[i] == key;
        assert(ds[i].0 == key);
    }
}

/// The failures named `gate` are exactly the datasets of `ds`, in their
/// order, whose key is not among the keys of `other`, each with no observed
/// or required value. Where a dataset stands in either list plays no part.
pub proof fn lemma_absent_keys_are_the_unmatched_datasets(
    ds: Seq<DatasetView>,
    other: Seq<DatasetView>,
    gate: Seq<char>,
)
    ensures
        keys_absent_from(ds, other, gate) == ds.filter(
            |d: DatasetView| !dataset_keys(other).contains(d.0),
        ).map_values(|d: DatasetView| (d.0, gate, None::<u64>, None::<u64>)),
    decreases ds.len(),
{
    reveal(Seq::filter);
    if ds.len() > 0 {
        lemma_absent_keys_are_the_unmatched_datasets(ds.drop_last(), other, gate);
        lemma_has_key_is_listed(other, ds.last().0);
        let p = |d: DatasetView| !dataset_keys(other).contains(d.0);
        let f = |d: DatasetView| (d.0, gate, None::<u64>, None::<u64>);
        let sub = ds.drop_last().filter(p);
        if p(ds.last()) {
            assert(sub.push(ds.last()).map_values(f) =~= sub.map_values(f).push(f(ds.last())));
        }
    } else {
        assert(ds.filter(|d: DatasetView| !dataset_keys(other).contains(d.0)).map_values(
            |d: DatasetView| (d.0, gate, None::<u64>, None::<u64>),
        ) =~= Seq::<FailureView>::empty());
    }
}

proof fn lemma_no_absent_keys(ds: Seq<DatasetView>, other: Seq<DatasetView>, gate: Seq<char>)
    requires
        forall|i: int| 0 <= i < ds.len() ==> dataset_keys(other).contains(#[trigger] ds[i].0),
    ensures
        keys_absent_from(ds, other, gate) == Seq::<FailureView>::empty(),
    decreases ds.len(),
{
    if ds.len() > 0 {
        assert forall|i: int| 0 <= i < ds.drop_last().len() implies dataset_keys(other).contains(
            #[trigger] ds.drop_last()[i].0,
        ) by {
            assert(ds.drop_last()[i] == ds[i]);
        }
        lemma_no_absent_keys(ds.drop_last(), other, gate);
        assert(ds.last() == ds[ds.len() - 1]);
        lemma_has_key_is_listed(other, ds.last().0);
    }
}

/// When the active and the candidate report hold the same dataset keys, in
/// any order, no dataset is missing or unexpected: the candidate fails only
/// the version, dataset-count and limit gates.
pub proof fn lemma_same_datasets_none_missing_or_unexpected(
    active: Seq<DatasetView>,
    candidate: ReportView,
    g: CountGates,
)
    requires
        forall|k: Seq<char>|
            dataset_keys(active).contains(k) <==> dataset_keys(candidate.3).contains(k),
    ensures
        count_failures(Some(active), candidate, g) == version_failures(candidate, g)
            + too_few_datasets(candidate.3.len(), g) + all_limit_failures(candidate.3, g),
{
    assert forall|i: int| 0 <= i < active.len() implies dataset_keys(candidate.3).contains(
        #[trigger] active[i].0,
    ) by {
        assert(dataset_keys(active)[i] == active[i].0);
        assert(dataset_keys(active).contains(active[i].0));
    }
    assert forall|i: int| 0 <= i < candidate.3.len() implies dataset_keys(active).contains(
        #[trigger] candidate.3[i].0,
    ) by {
        assert(dataset_keys(candidate.3)[i] == candidate.3[i].0);
        assert(dataset_keys(candidate.3).contains(candidate.3[i].0));
    }
    lemma_no_absent_keys(active, candidate.3, "missing_dataset"@);
    lemma_no_absent_keys(candidate.3, active, "unexpected_dataset"@);
    let e = Seq::<FailureView>::empty();
    assert(e + e =~= e);
    assert(version_failures(candidate, g) + too_few_datasets(candidate.3.len(), g) + e
        =~= version_failures(candidate, g) + too_few_datasets(candidate.3.len(), g));
}

/// The failures of one dataset's hard-rule and explanation limits.
pub open spec fn limit_failures(d: DatasetView, g: CountGates) -> Seq<FailureView> {
    (if d.1 > g.max_hard_rule_violations {
        seq![
            (
                d.0,
                "hard_rule_violations"@,
                Some(d.1 as u64),
                Some(g.max_hard_rule_violations as u64),
            ),
        ]
    } else {
        Seq::empty()
    }) + (if d.2 > g.max_invalid_explanations {
        seq![
            (
                d.0,
                "invalid_explanations"@,
                Some(d.2 as u64),
                Some(g.max_invalid_explanations as u64),
            ),
        ]
    } else {
        Seq::empty()
    })
}

/// The limit failures of each dataset, in order.
pub open spec fn all_limit_failures(ds: Seq<DatasetView>, g: CountGates) -> Seq<FailureView>
    decreases ds.len(),
{
    if ds.len() == 0 {
        Seq::empty()
    } else {
        all_limit_failures(ds.drop_last(), g) + limit_failures(ds.last(), g)
    }
}

/// Every whole-number gate the candidate fails, given the active report's
/// datasets when there is one: versions, dataset count, datasets missing
/// from or new to the candidate, and each dataset's limits.
pub open spec fn count_failures(active: Option<Seq<DatasetView>>, c: ReportView, g: CountGates) -> Seq<
    FailureView,
> {
    version_failures(c, g) + too_few_datasets(c.3.len(), g) + match active {
        Some(a) => keys_absent_from(a, c.3, "missing_dataset"@) + keys_absent_from(
            c.3,
            a,
            "unexpected_dataset"@,
        ),
        None => Seq::empty(),
    } + all_limit_failures(c.3, g)
}

/// How many fewer fragmented identities `new` has than `old`, or zero.
pub open spec fn reduction(old: usize, new: usize) -> nat {
    if old > new {
        (old - new) as nat
    } else {
        0
    }
}

/// Whether some candidate dataset has at least `min` fewer fragmented
/// identities than the active dataset with its key.
pub open spec fn fragmented_gain(active: Seq<DatasetView>, cand: Seq<DatasetView>, min: usize) -> bool {
    exists|i: int, j: int|
        #![trigger cand[i], active[j]]
        0 <= i < cand.len() && 0 <= j < active.len() && cand[i].0 == active[j].0 && reduction(
            active[j].3,
            cand[i].3,
        ) >= min
}

/// The refusal of an active report whose version is not the required one.
pub open spec fn incompatible_message(name: Seq<char>, observed: u32, required: u32) -> Seq<char> {
    "active "@ + name + " "@ + decimal(observed as nat) + " does not match required version "@
        + decimal(required as nat)
}

/// The first version of the active report that differs from the gates',
/// as the refusal's message.
pub open spec fn incompatible(a: ReportView, g: CountGates) -> Option<Seq<char>> {
    if a.0 != g.protocol_version {
        Some(incompatible_message("protocol_version"@, a.0, g.protocol_version))
    } else if a.1 != g.evidence_schema_version {
        Some(incompatible_message("evidence_schema_version"@, a.1, g.evidence_schema_version))
    } else if a.2 != g.feature_schema_version {
        Some(incompatible_message("feature_schema_version"@, a.2, g.feature_schema_version))
    } else {
        None
    }
}

/// The datasets of an optional report.
pub open spec fn active_datasets(active: Option<&ReportCounts>) -> Option<Seq<DatasetView>> {
    match active {
        Some(a) => Some(a@.3),
        None => None,
    }
}

/// The whole-number verdict on a candidate.
#[derive(Clone, Debug)]
pub struct CountVerdict {
    pub failures: Vec<CountFailure>,
    pub fragmented_gain: bool,
}

fn failure(key: &str, gate: &str, observed: Option<u64>, required: Option<u64>) -> (r: CountFailure)
    ensures
        r@ == (key@, gate@, observed, required),
{
    CountFailure { dataset_key: owned(key), gate: owned(gate), observed, required }
}

fn push_failure(out: &mut Vec<CountFailure>, f: CountFailure)
    ensures
        failures_view(final(out)@) == failures_view(old(out)@).push(f@),
{
    let ghost fv = f@;
    out.push(f);
    assert(failures_view(out@) =~= failures_view(old(out)@).push(fv));
}

fn push_mismatch(out: &mut Vec<CountFailure>, observed: u32, required: u32, gate: &str)
    ensures
        failures_view(final(out)@) == failures_view(old(out)@) + version_mismatch(
            observed,
            required,
            gate@,
        ),
{
    if observed != required {
        proof {
            reveal_strlit("");
            assert(""@ =~= Seq::<char>::empty());
        }
        push_failure(out, failure("", gate, Some(observed as u64), Some(required as u64)));
        assert(failures_view(out@) =~= failures_view(old(out)@) + version_mismatch(
            observed,
            required,
            gate@,
        ));
    } else {
        assert(failures_view(out@) =~= failures_view(old(out)@) + version_mismatch(
            observed,
            required,
            gate@,
        ));
    }
}

fn holds_key(ds: &Vec<DatasetCounts>, key: &str) -> (r: bool)
    ensures
        r == has_key(datasets_view(ds@), key@),
{
    let ghost v = datasets_view(ds@);
    let mut i: usize = 0;
    while i < ds.len()
        invariant
            i <= ds.len(),
            v == datasets_view(ds@),
            v.len() == ds@.len(),
            forall|j: int| 0 <= j < i ==> (#[trigger] v[j]).0 != key@,
        decreases ds.len() - i,
    {
        if str_equal(ds[i].dataset_key.as_str(), key) {
            assert(v[i as int].0 == key@);
            return true;
        }
        i = i + 1;
    }
    false
}

fn push_absent(out: &mut Vec<CountFailure>, ds: &Vec<DatasetCounts>, other: &Vec<DatasetCounts>, gate: &str)
    ensures
        failures_view(final(out)@) == failures_view(old(out)@) + keys_absent_from(
            datasets_view(ds@),
            datasets_view(other@),
            gate@,
        ),
{
    let ghost start = failures_view(out@);
    let ghost v = datasets_view(ds@);
    let ghost o = datasets_view(other@);
    let mut i: usize = 0;
    assert(v.take(0) =~= Seq::<DatasetView>::empty());
    while i < ds.len()
        invariant
            i <= ds.len(),
            v == datasets_view(ds@),
            o == datasets_view(other@),
            v.len() == ds@.len(),
            failures_view(out@) == start + keys_absent_from(v.take(i as int), o, gate@),
        decreases ds.len() - i,
    {
        assert(v.take(i + 1).drop_last() =~= v.take(i as int));
        assert(v.take(i + 1).last() == v[i as int]);
        if !holds_key(other, ds[i].dataset_key.as_str()) {
            push_failure(out, failure(ds[i].dataset_key.as_str(), gate, None, None));
            assert(failures_view(out@) =~= start + keys_absent_from(v.take(i + 1), o, gate@));
        }
        i = i + 1;
    }
    assert(v.take(ds.len() as int) =~= v);
}

fn push_limits(out: &mut Vec<CountFailure>, ds: &Vec<DatasetCounts>, gates: &CountGates)
    ensures
        failures_view(final(out)@) == failures_view(old(out)@) + all_limit_failures(
            datasets_view(ds@),
            *gates,
        ),
{
    let ghost start = failures_view(out@);
    let ghost v = datasets_view(ds@);
    let mut i: usize = 0;
    assert(v.take(0) =~= Seq::<DatasetView>::empty());
    while i < ds.len()
        invariant
            i <= ds.len(),
            v == datasets_view(ds@),
            v.len() == ds@.len(),
            failures_view(out@) == start + all_limit_failures(v.take(i as int), *gates),
        decreases ds.len() - i,
    {
        let d = &ds[i];
        let ghost mid = failures_view(out@);
        assert(v.take(i + 1).drop_last() =~= v.take(i as int));
        assert(v.take(i + 1).last() == d@);
        if d.hard_rule_violations > gates.max_hard_rule_violations {
            push_failure(
                out,
                failure(
                    d.dataset_key.as_str(),
                    "hard_rule_violations",
                    Some(d.hard_rule_violations as u64),
                    Some(gates.max_hard_rule_violations as u64),
                ),
            );
        }
        if d.invalid_explanations > gates.max_invalid_explanations {
            push_failure(
                out,
                failure(
                    d.dataset_key.as_str(),
                    "invalid_explanations",
                    Some(d.invalid_explanations as u64),
                    Some(gates.max_invalid_explanations as u64),
                ),
            );
        }
        assert(failures_view(out@) =~= mid + limit_failures(d@, *gates));
        assert(failures_view(out@) =~= start + all_limit_failures(v.take(i + 1), *gates));
        i = i + 1;
    }
    assert(v.take(ds.len() as int) =~= v);
}

fn fragmented_gain_of(active: &Vec<DatasetCounts>, cand: &Vec<DatasetCounts>, min: usize) -> (r: bool)
    ensures
        r == fragmented_gain(datasets_view(active@), datasets_view(cand@), min),
{
    let ghost a = datasets_view(active@);
    let ghost c = datasets_view(cand@);
    let mut i: usize = 0;
    while i < cand.len()
        invariant
            i <= cand.len(),
            a == datasets_view(active@),
            c == datasets_view(cand@),
            a.len() == active@.len(),
            c.len() == cand@.len(),
            forall|x: int, y: int|
                #![trigger c[x], a[y]]
                0 <= x < i && 0 <= y < a.len() ==> !(c[x].0 == a[y].0 && reduction(a[y].3, c[x].3)
                    >= min),
        decreases cand.len() - i,
    {
        let mut j: usize = 0;
        while j < active.len()
            invariant
                i < cand.len(),
                j <= active.len(),
                a == datasets_view(active@),
                c == datasets_view(cand@),
                a.len() == active@.len(),
                c.len() == cand@.len(),
                forall|x: int, y: int|
                    #![trigger c[x], a[y]]
                    0 <= x < i && 0 <= y < a.len() ==> !(c[x].0 == a[y].0 && reduction(
                        a[y].3,
                        c[x].3,
                    ) >= min),
                forall|y: int|
                    0 <= y < j ==> !(c[i as int].0 == (#[trigger] a[y]).0 && reduction(
                        a[y].3,
                        c[i as int].3,
                    ) >= min),
            decreases active.len() - j,
        {
            let old_count = active[j].fragmented_identities;
            let new_count = cand[i].fragmented_identities;
            let reduced = old_count.saturating_sub(new_count);
            assert(reduced == reduction(a[j as int].3, c[i as int].3));
            if str_equal(cand[i].dataset_key.as_str(), active[j].dataset_key.as_str()) && reduced
                >= min {
                assert(c[i as int].0 == a[j as int].0);
                return true;
            }
            j = j + 1;
        }
        assert forall|x: int, y: int|
            #![trigger c[x], a[y]]
            0 <= x < i + 1 && 0 <= y < a.len() implies !(c[x].0 == a[y].0 && reduction(
                a[y].3,
                c[x].3,
            ) >= min) by {
            if x == i {
                assert(!(c[i as int].0 == a[y].0 && reduction(a[y].3, c[i as int].3) >= min));
            }
        }
        i = i + 1;
    }
    false
}

fn incompatible_error(name: &str, observed: u32, required: u32) -> (r: ProfileError)
    ensures
        r matches ProfileError::IncompatibleProfile(m) && m@ == incompatible_message(
            name@,
            observed,
            required,
        ),
{
    let mut m = owned("active ");
    m.append(name);
    let tail = with_unsigned(" ", observed as u64);
    m.append(tail.as_str());
    let tail = with_unsigned(" does not match required version ", required as u64);
    m.append(tail.as_str());
    assert(m@ =~= incompatible_message(name@, observed, required));
    ProfileError::IncompatibleProfile(m)
}

/// The whole-number gates a candidate report fails, once the reports and
/// gates have been validated. An active report whose versions are not the
/// gates' is refused; otherwise the failures come with whether some
/// dataset has enough fewer fragmented identities than before.
pub fn count_gate_failures(active: Option<&ReportCounts>, candidate: &ReportCounts, gates: &CountGates) -> (r:
    Result<CountVerdict, ProfileError>)
    ensures
        match r {
            Ok(v) => (active matches Some(a) ==> incompatible(a@, *gates) is None) && failures_view(
                v.failures@,
            ) == count_failures(active_datasets(active), candidate@, *gates) && v.fragmented_gain
                == (active matches Some(a) && fragmented_gain(
                a@.3,
                candidate@.3,
                gates.min_fragmented_identity_reduction,
            )),
            Err(e) => active matches Some(a) && e matches ProfileError::IncompatibleProfile(m)
                && incompatible(a@, *gates) == Some(m@),
        },
{
    if let Some(a) = active {
        if a.protocol_version != gates.protocol_version {
            return Err(
                incompatible_error("protocol_version", a.protocol_version, gates.protocol_version),
            );
        }
        if a.evidence_schema_version != gates.evidence_schema_version {
            return Err(
                incompatible_error(
                    "evidence_schema_version",
                    a.evidence_schema_version,
                    gates.evidence_schema_version,
                ),
            );
        }
        if a.feature_schema_version != gates.feature_schema_version {
            return Err(
                incompatible_error(
                    "feature_schema_version",
                    a.feature_schema_version,
                    gates.feature_schema_version,
                ),
            );
        }
    }
    let mut failures: Vec<CountFailure> = Vec::new();
    assert(failures_view(failures@) =~= Seq::<FailureView>::empty());
    push_mismatch(&mut failures, candidate.protocol_version, gates.protocol_version, "protocol_version");
    push_mismatch(
        &mut failures,
        candidate.evidence_schema_version,
        gates.evidence_schema_version,
        "evidence_schema_version",
    );
    push_mismatch(
        &mut failures,
        candidate.feature_schema_version,
        gates.feature_schema_version,
        "feature_schema_version",
    );
    let ghost after_versions = failures_view(failures@);
    assert(after_versions =~= version_failures(candidate@, *gates));
    let n = candidate.datasets.len();
    if n < gates.min_datasets {
        proof {
            reveal_strlit("");
            assert(""@ =~= Seq::<char>::empty());
        }
        push_failure(
            &mut failures,
            failure("", "min_datasets", Some(n as u64), Some(gates.min_datasets as u64)),
        );
    }
    let ghost after_count = failures_view(failures@);
    assert(after_count =~= after_versions + too_few_datasets(candidate@.3.len(), *gates));
    let mut gain = false;
    if let Some(a) = active {
        push_absent(&mut failures, &a.datasets, &candidate.datasets, "missing_dataset");
        push_absent(&mut failures, &candidate.datasets, &a.datasets, "unexpected_dataset");
        gain =
        fragmented_gain_of(&a.datasets, &candidate.datasets, gates.min_fragmented_identity_reduction);
    }
    push_limits(&mut failures, &candidate.datasets, gates);
    assert(failures_view(failures@) =~= count_failures(active_datasets(active), candidate@, *gates));
    Ok(CountVerdict { failures, fragmented_gain: gain })
}

/// Whether a dataset key is empty or repeats an earlier one.
pub open spec fn bad_key_at(keys: Seq<Seq<char>>, i: int) -> bool {
    keys[i].len() == 0 || exists|j: int| 0 <= j < i && #[trigger] keys[j] == keys[i]
}

/// The views of a sequence of keys.
pub open spec fn key_views(keys: Seq<String>) -> Seq<Seq<char>> {
    keys.map_values(|k: String| k@)
}

/// The position of the first dataset key that is empty or repeats an
/// earlier one, if any.
pub fn first_bad_key(keys: &Vec<String>) -> (r: Option<usize>)
    ensures
        match r {
            Some(i) => i < keys.len() && bad_key_at(key_views(keys@), i as int) && forall|j: int|
                0 <= j < i ==> !#[trigger] bad_key_at(key_views(keys@), j),
            None => forall|j: int| 0 <= j < keys.len() ==> !#[trigger] bad_key_at(key_views(keys@), j),
        },
{
    let ghost ks = key_views(keys@);
    let mut i: usize = 0;
    while i < keys.len()
        invariant
            i <= keys.len(),
            ks == key_views(keys@),
            ks.len() == keys@.len(),
            forall|j: int| 0 <= j < i ==> !#[trigger] bad_key_at(ks, j),
        decreases keys.len() - i,
    {
        assert(ks[i as int] == keys@[i as int]@);
        if keys[i].as_str().is_empty() {
            return Some(i);
        }
        let mut j: usize = 0;
        while j < i
            invariant
                i < keys.len(),
                j <= i,
                ks == key_views(keys@),
                ks.len() == keys@.len(),
                forall|x: int| 0 <= x < j ==> ks[x] != ks[i as int],
                forall|x: int| 0 <= x < i ==> !#[trigger] bad_key_at(ks, x),
            decreases i - j,
        {
            assert(ks[j as int] == keys@[j as int]@);
            if str_equal(keys[j].as_str(), keys[i].as_str()) {
                assert(ks[j as int] == ks[i as int]);
                assert(bad_key_at(ks, i as int));
                return Some(i);
            }
            j = j + 1;
        }
        i = i + 1;
    }
    None
}

} // verus!
