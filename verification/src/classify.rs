//! Which content hashes zero-shot classification takes: video frames fit none
//! of its categories, so a hash known to be a video is left out.

use vstd::prelude::*;
use vstd::hash_map::StringHashMap;

verus! {

/// The texts of a list of hashes.
pub open spec fn hash_views(hs: Seq<String>) -> Seq<Seq<char>> {
    hs.map_values(|s: String| s@)
}

/// The stored rows, each a hash with whether its row names a video.
pub open spec fn row_views(rows: Seq<(String, bool)>) -> Seq<(Seq<char>, bool)> {
    rows.map_values(|r: (String, bool)| (r.0@, r.1))
}

/// The hash-to-flag map the rows build when put into a map in order: a hash
/// that occurs in several rows keeps the flag of its last row.
pub open spec fn video_by_hash(rows: Seq<(Seq<char>, bool)>) -> Map<Seq<char>, bool>
    decreases rows.len(),
{
    if rows.len() == 0 {
        Map::empty()
    } else {
        video_by_hash(rows.drop_last()).insert(rows.last().0, rows.last().1)
    }
}

/// A hash whose row is there and says it is a video: only such a hash is a
/// confirmed video; one with no row is not.
pub open spec fn confirmed_video(rows: Seq<(Seq<char>, bool)>, h: Seq<char>) -> bool {
    video_by_hash(rows).contains_key(h) && video_by_hash(rows)[h]
}

/// The hashes, in their order, that are not confirmed videos.
pub open spec fn non_video(hashes: Seq<Seq<char>>, rows: Seq<(Seq<char>, bool)>) -> Seq<
    Seq<char>,
> {
    hashes.filter(|h: Seq<char>| !confirmed_video(rows, h))
}

/// Filters `hashes` down to the ones that are not videos, given the stored
/// rows as `(hash, is_video)`: a hash with no row (nothing is known of it) is
/// kept, and only one whose row says video is left out. Where a hash has
/// several rows, the last one decides, as when the rows are loaded into a map.
/// The rows are put in a map once, so a long list of hashes costs one pass.
pub fn non_video_hashes(hashes: &[String], known_video: &[(String, bool)]) -> (r: Vec<String>)
    ensures
        hash_views(r@) == non_video(hash_views(hashes@), row_views(known_video@)),
{
    let ghost rows = row_views(known_video@);
    let mut by_hash: StringHashMap<bool> = StringHashMap::new();
    let mut j: usize = 0;
    while j < known_video.len()
        invariant
            j <= known_video@.len(),
            rows == row_views(known_video@),
            by_hash@ == video_by_hash(rows.take(j as int)),
        decreases known_video@.len() - j,
    {
        proof {
            assert(rows.take(j + 1).drop_last() =~= rows.take(j as int));
        }
        let h = known_video[j].0.clone();
        by_hash.insert(h, known_video[j].1);
        j = j + 1;
    }
    assert(rows.take(j as int) =~= rows);
    let ghost hs = hash_views(hashes@);
    let ghost keep = |h: Seq<char>| !confirmed_video(rows, h);
    let mut out: Vec<String> = Vec::new();
    let mut i: usize = 0;
    while i < hashes.len()
        invariant
            i <= hashes@.len(),
            hs == hash_views(hashes@),
            by_hash@ == video_by_hash(rows),
            keep == (|h: Seq<char>| !confirmed_video(rows, h)),
            hash_views(out@) == hs.take(i as int).filter(keep),
        decreases hashes@.len() - i,
    {
        let ghost prev = hash_views(out@);
        proof {
            assert(hs.take(i + 1).drop_last() =~= hs.take(i as int));
            assert(hs.take(i + 1).last() == hashes@[i as int]@);
            reveal(Seq::filter);
        }
        let video = match by_hash.get(hashes[i].as_str()) {
            Some(v) => *v,
            None => false,
        };
        if !video {
            out.push(hashes[i].clone());
            proof {
                assert(hash_views(out@) =~= prev.push(hashes@[i as int]@));
            }
        }
        i = i + 1;
    }
    assert(hs.take(i as int) =~= hs);
    out
}

} // verus!
