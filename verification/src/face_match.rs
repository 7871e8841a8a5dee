//! Matching face regions to detected faces: the greedy one-to-one
//! assignment over candidate pairs already ranked best first.

use vstd::prelude::*;

verus! {

/// A candidate pair: a region's position and a face's position.
pub type Candidate = (usize, usize);

/// What the greedy assignment holds after taking `pairs` in order: the face
/// each region got, and which faces are taken. A pair is taken when its
/// region has no face yet and its face is still free.
pub open spec fn greedy_state(pairs: Seq<Candidate>, regions: nat, faces: nat) -> (
    Seq<Option<usize>>,
    Seq<bool>,
)
    decreases pairs.len(),
{
    if pairs.len() == 0 {
        (Seq::new(regions, |i: int| None), Seq::new(faces, |i: int| false))
    } else {
        let (out, used) = greedy_state(pairs.drop_last(), regions, faces);
        let (r, f) = pairs.last();
        if 0 <= r < out.len() && 0 <= f < used.len() && out[r as int] is None && !used[f as int] {
            (out.update(r as int, Some(f)), used.update(f as int, true))
        } else {
            (out, used)
        }
    }
}

/// Whether every pair names a region and a face that exist.
pub open spec fn pairs_in_range(pairs: Seq<Candidate>, regions: nat, faces: nat) -> bool {
    forall|k: int| 0 <= k < pairs.len() ==> (#[trigger] pairs[k]).0 < regions && pairs[k].1 < faces
}

/// What the greedy assignment keeps true after any prefix of the pairs:
/// taken faces are exactly those some region holds, no face is held twice,
/// every held face came from a listed pair, and no listed pair was passed
/// over while both its region and its face were free.
pub open spec fn greedy_facts(pairs: Seq<Candidate>, out: Seq<Option<usize>>, used: Seq<bool>) -> bool {
    &&& forall|f: int|
        0 <= f < used.len() ==> (#[trigger] used[f] <==> exists|r: int|
            0 <= r < out.len() && #[trigger] out[r] == Some(f as usize))
    &&& forall|r: int| 0 <= r < out.len() && (#[trigger] out[r]) is Some ==> out[r]->0 < used.len()
    &&& forall|r1: int, r2: int|
        #![trigger out[r1], out[r2]]
        0 <= r1 < out.len() && 0 <= r2 < out.len() && r1 != r2 && out[r1] is Some ==> out[r1]
            != out[r2]
    &&& forall|r: int|
        0 <= r < out.len() && (#[trigger] out[r]) is Some ==> exists|k: int|
            0 <= k < pairs.len() && #[trigger] pairs[k] == (r as usize, out[r]->0)
    &&& forall|k: int|
        0 <= k < pairs.len() ==> (out[(#[trigger] pairs[k]).0 as int] is Some || used[pairs[k].1 as int])
}

/// The greedy assignment keeps its facts at every step.
pub proof fn lemma_greedy_facts(pairs: Seq<Candidate>, regions: nat, faces: nat)
    requires
        pairs_in_range(pairs, regions, faces),
        faces <= usize::MAX,
    ensures
        greedy_state(pairs, regions, faces).0.len() == regions,
        greedy_state(pairs, regions, faces).1.len() == faces,
        greedy_facts(pairs, greedy_state(pairs, regions, faces).0, greedy_state(pairs, regions, faces).1),
    decreases pairs.len(),
{
    if pairs.len() == 0 {
        let (out, used) = greedy_state(pairs, regions, faces);
        assert forall|f: int| 0 <= f < used.len() implies (#[trigger] used[f] <==> exists|r: int|
            0 <= r < out.len() && #[trigger] out[r] == Some(f as usize)) by {
            if exists|r: int| 0 <= r < out.len() && #[trigger] out[r] == Some(f as usize) {
                let r = choose|r: int| 0 <= r < out.len() && #[trigger] out[r] == Some(f as usize);
                assert(out[r] is None);
            }
        }
    } else {
        let prefix = pairs.drop_last();
        assert(pairs_in_range(prefix, regions, faces)) by {
            assert forall|k: int| 0 <= k < prefix.len() implies (#[trigger] prefix[k]).0 < regions
                && prefix[k].1 < faces by {
                assert(prefix[k] == pairs[k]);
            }
        }
        lemma_greedy_facts(prefix, regions, faces);
        let (out0, used0) = greedy_state(prefix, regions, faces);
        let (r, f) = pairs.last();
        assert(pairs.last() == pairs[pairs.len() - 1]);
        let (out, used) = greedy_state(pairs, regions, faces);
        if out0[r as int] is None && !used0[f as int] {
            assert(out == out0.update(r as int, Some(f)));
            assert(used == used0.update(f as int, true));
            assert forall|g: int| 0 <= g < used.len() implies (#[trigger] used[g] <==> exists|x: int|
                0 <= x < out.len() && #[trigger] out[x] == Some(g as usize)) by {
                if g == f as int {
                    assert(out[r as int] == Some(g as usize));
                } else {
                    if used[g] {
                        assert(used0[g]);
                        let x = choose|x: int| 0 <= x < out0.len() && #[trigger] out0[x] == Some(g as usize);
                        assert(x != r as int);
                        assert(out[x] == Some(g as usize));
                    }
                    if exists|x: int| 0 <= x < out.len() && #[trigger] out[x] == Some(g as usize) {
                        let x = choose|x: int| 0 <= x < out.len() && #[trigger] out[x] == Some(g as usize);
                        assert(out[r as int] == Some(f));
                        assert(f != g as usize);
                        assert(x != r as int);
                        assert(out0[x] == Some(g as usize));
                    }
                }
            }
            assert forall|r1: int, r2: int|
                #![trigger out[r1], out[r2]]
                0 <= r1 < out.len() && 0 <= r2 < out.len() && r1 != r2 && out[r1] is Some implies out[r1]
                    != out[r2] by {
                if r1 == r as int {
                    if out[r2] == Some(f) {
                        assert(out0[r2] == Some(f));
                        assert(used0[f as int]);
                    }
                } else if r2 == r as int {
                    if out[r1] == Some(f) {
                        assert(out0[r1] == Some(f));
                        assert(used0[f as int]);
                    }
                } else {
                    assert(out0[r1] == out[r1] && out0[r2] == out[r2]);
                }
            }
            assert forall|x: int| 0 <= x < out.len() && (#[trigger] out[x]) is Some implies exists|k: int|
                0 <= k < pairs.len() && #[trigger] pairs[k] == (x as usize, out[x]->0) by {
                if x == r as int {
                    assert(pairs[pairs.len() - 1] == (x as usize, out[x]->0));
                } else {
                    let k = choose|k: int|
                        0 <= k < prefix.len() && #[trigger] prefix[k] == (x as usize, out0[x]->0);
                    assert(pairs[k] == prefix[k]);
                }
            }
            assert forall|k: int| 0 <= k < pairs.len() implies (out[(#[trigger] pairs[k]).0 as int] is Some
                || used[pairs[k].1 as int]) by {
                if k < prefix.len() {
                    assert(pairs[k] == prefix[k]);
                    assert(out0[prefix[k].0 as int] is Some || used0[prefix[k].1 as int]);
                }
            }
        } else {
            assert(out == out0 && used == used0);
            assert forall|x: int| 0 <= x < out.len() && (#[trigger] out[x]) is Some implies exists|k: int|
                0 <= k < pairs.len() && #[trigger] pairs[k] == (x as usize, out[x]->0) by {
                let k = choose|k: int|
                    0 <= k < prefix.len() && #[trigger] prefix[k] == (x as usize, out0[x]->0);
                assert(pairs[k] == prefix[k]);
            }
            assert forall|k: int| 0 <= k < pairs.len() implies (out[(#[trigger] pairs[k]).0 as int] is Some
                || used[pairs[k].1 as int]) by {
                if k < prefix.len() {
                    assert(pairs[k] == prefix[k]);
                    assert(out0[prefix[k].0 as int] is Some || used0[prefix[k].1 as int]);
                }
            }
        }
    }
}

/// Take the candidate pairs in the order given, best first, and give each
/// region at most one face: a pair is taken when its region has no face yet
/// and its face is not taken. No region and no face is used twice.
pub fn greedy_assign(pairs: &Vec<Candidate>, regions: usize, faces: usize) -> (r: Vec<Option<usize>>)
    requires
        pairs_in_range(pairs@, regions as nat, faces as nat),
    ensures
        r@ == greedy_state(pairs@, regions as nat, faces as nat).0,
        forall|r1: int, r2: int|
            #![trigger r@[r1], r@[r2]]
            0 <= r1 < r@.len() && 0 <= r2 < r@.len() && r1 != r2 && r@[r1] is Some ==> r@[r1]
                != r@[r2],
        forall|x: int|
            0 <= x < r@.len() && (#[trigger] r@[x]) is Some ==> exists|k: int|
                0 <= k < pairs@.len() && #[trigger] pairs@[k] == (x as usize, r@[x]->0),
        forall|k: int|
            0 <= k < pairs@.len() ==> (r@[(#[trigger] pairs@[k]).0 as int] is Some || exists|x: int|
                0 <= x < r@.len() && r@[x] == Some(pairs@[k].1)),
{
    let mut out: Vec<Option<usize>> = Vec::new();
    let mut i: usize = 0;
    while i < regions
        invariant
            i <= regions,
            out@ == Seq::new(i as nat, |j: int| None::<usize>),
        decreases regions - i,
    {
        out.push(None);
        i = i + 1;
        assert(out@ =~= Seq::new(i as nat, |j: int| None::<usize>));
    }
    let mut used: Vec<bool> = Vec::new();
    let mut i: usize = 0;
    while i < faces
        invariant
            i <= faces,
            used@ == Seq::new(i as nat, |j: int| false),
        decreases faces - i,
    {
        used.push(false);
        i = i + 1;
        assert(used@ =~= Seq::new(i as nat, |j: int| false));
    }
    assert(pairs@.take(0) =~= Seq::<Candidate>::empty());
    let mut k: usize = 0;
    while k < pairs.len()
        invariant
            k <= pairs@.len(),
            pairs_in_range(pairs@, regions as nat, faces as nat),
            (out@, used@) == greedy_state(pairs@.take(k as int), regions as nat, faces as nat),
            out@.len() == regions,
            used@.len() == faces,
        decreases pairs@.len() - k,
    {
        let (r, f) = pairs[k];
        assert(pairs@.take(k + 1).drop_last() =~= pairs@.take(k as int));
        assert(pairs@.take(k + 1).last() == pairs@[k as int]);
        assert(pairs@[k as int].0 < regions && pairs@[k as int].1 < faces);
        if out[r].is_none() && !used[f] {
            out.set(r, Some(f));
            used.set(f, true);
        }
        k = k + 1;
    }
    assert(pairs@.take(pairs@.len() as int) =~= pairs@);
    proof {
        lemma_greedy_facts(pairs@, regions as nat, faces as nat);
        let (o, u) = greedy_state(pairs@, regions as nat, faces as nat);
        assert forall|k: int| 0 <= k < pairs@.len() implies (out@[(#[trigger] pairs@[k]).0 as int] is Some
            || exists|x: int| 0 <= x < out@.len() && out@[x] == Some(pairs@[k].1)) by {
            if out@[pairs@[k].0 as int] is None {
                assert(u[pairs@[k].1 as int]);
                let x = choose|x: int| 0 <= x < o.len() && #[trigger] o[x] == Some(pairs@[k].1 as usize);
                assert(out@[x] == Some(pairs@[k].1));
            }
        }
    }
    out
}

} // verus!
