//! Combining any number of mappings into one by rounds of pairwise merges.

use crate::merge::{
    combine, count_in, counts_fit, key_count, key_counts_fit, lemma_combine_count,
    lemma_combine_single, lemma_key_count_covers_two, lemma_paired_keeps_fold, merge_views,
    paired,
};
use crate::stats_map::StatsMap;
use crate::summary::Summary;
use vstd::prelude::*;

verus! {

/// What each mapping of a collection stands for.
pub open spec fn views(maps: Seq<StatsMap>) -> Seq<Map<Seq<u8>, Summary>> {
    Seq::new(maps.len(), |i: int| maps[i]@)
}

/// Whether every mapping of a collection is well formed.
pub open spec fn all_wf(maps: Seq<StatsMap>) -> bool {
    forall|i: int| 0 <= i < maps.len() ==> (#[trigger] maps[i]).wf()
}

/// Whether each two neighbours of a collection can be merged: the pairs that
/// one round of the reduction merges.
pub open spec fn pairs_fit(maps: Seq<Map<Seq<u8>, Summary>>) -> bool {
    forall|j: int|
        0 <= j && 2 * j + 1 < maps.len() ==> counts_fit(
            #[trigger] maps[2 * j],
            maps[2 * j + 1],
        )
}

/// Where no key has more readings in the whole collection than can be
/// counted, each two mappings of the collection can be merged.
pub proof fn lemma_counts_fit_in_pairs(maps: Seq<Map<Seq<u8>, Summary>>)
    requires
        key_counts_fit(maps),
    ensures
        pairs_fit(maps),
{
    assert forall|j: int| 0 <= j && 2 * j + 1 < maps.len() implies counts_fit(
        #[trigger] maps[2 * j],
        maps[2 * j + 1],
    ) by {
        assert forall|key: Seq<u8>| #[trigger]
            count_in(maps[2 * j], key) + count_in(maps[2 * j + 1], key) <= usize::MAX by {
            lemma_key_count_covers_two(maps, 2 * j, 2 * j + 1, key);
            assert(key_count(maps, key) <= usize::MAX);
        }
    }
}

/// Merges two mappings into one that holds the union.
pub fn merge_pair(left: StatsMap, right: StatsMap) -> (merged: StatsMap)
    requires
        left.wf(),
        right.wf(),
        counts_fit(left@, right@),
    ensures
        merged.wf(),
        merged@ == merge_views(left@, right@),
{
    let mut merged = left;
    merged.merge_from(right);
    merged
}

/// Parts a collection into pairs of neighbours, in order, and the last
/// mapping where it has no neighbour. Each pair is one unit of work of a
/// round, and no mapping stands in two of them.
pub fn pair_up(maps: Vec<StatsMap>) -> (parted: (Vec<(StatsMap, StatsMap)>, Option<StatsMap>))
    ensures
        parted.0@.len() == maps@.len() / 2,
        forall|j: int|
            0 <= j < parted.0@.len() ==> #[trigger] parted.0@[j] == (
                maps@[2 * j],
                maps@[2 * j + 1],
            ),
        maps@.len() % 2 == 1 ==> parted.1 == Some(maps@.last()),
        maps@.len() % 2 == 0 ==> parted.1 is None,
{
    let ghost all = maps@;
    let mut pairs: Vec<(StatsMap, StatsMap)> = Vec::new();
    let mut held: Option<StatsMap> = None;
    for map in it: maps
        invariant
            it.seq() == all,
            pairs@.len() == it.index() / 2,
            forall|j: int|
                0 <= j < pairs@.len() ==> #[trigger] pairs@[j] == (all[2 * j], all[2 * j + 1]),
            held is Some <==> it.index() % 2 == 1,
            held matches Some(left) ==> left == all[it.index() - 1],
    {
        assert(map == all[it.index()]);
        match held {
            Some(left) => {
                pairs.push((left, map));
                held = None;
            },
            None => {
                held = Some(map);
            },
        }
    }
    (pairs, held)
}

/// One round of the reduction: merges each two neighbours of the collection
/// and carries a last mapping without a neighbour over as it is.
pub fn merge_round(maps: Vec<StatsMap>) -> (next: Vec<StatsMap>)
    requires
        all_wf(maps@),
        pairs_fit(views(maps@)),
    ensures
        all_wf(next@),
        next@.len() == (maps@.len() + 1) / 2,
        views(next@) == paired(views(maps@)),
{
    let ghost all = maps@;
    let (pairs, leftover) = pair_up(maps);
    let ghost parted = pairs@;
    let mut next: Vec<StatsMap> = Vec::new();
    for pair in it: pairs
        invariant
            it.seq() == parted,
            parted.len() == all.len() / 2,
            forall|j: int|
                0 <= j < parted.len() ==> #[trigger] parted[j] == (all[2 * j], all[2 * j + 1]),
            all_wf(all),
            pairs_fit(views(all)),
            all_wf(next@),
            next@.len() == it.index(),
            forall|j: int|
                0 <= j < next@.len() ==> (#[trigger] next@[j])@ == merge_views(
                    all[2 * j]@,
                    all[2 * j + 1]@,
                ),
    {
        let ghost at = it.index();
        assert(pair == parted[at]);
        let (left, right) = pair;
        proof {
            assert(all[2 * at].wf());
            assert(all[2 * at + 1].wf());
            assert(counts_fit(views(all)[2 * at], views(all)[2 * at + 1]));
        }
        next.push(merge_pair(left, right));
    }
    match leftover {
        Some(last) => {
            assert(last == all[all.len() - 1]);
            next.push(last);
        },
        None => {},
    }
    proof {
        assert(views(next@) =~= paired(views(all)));
    }
    next
}

/// Combines a collection of mappings into one: the fold of them all. The
/// collection is reduced in rounds, each of which merges the mappings two by
/// two, until one is left. An empty collection gives the empty mapping.
pub fn merge_maps(maps: Vec<StatsMap>) -> (merged: StatsMap)
    requires
        all_wf(maps@),
        key_counts_fit(views(maps@)),
    ensures
        merged.wf(),
        merged@ == combine(views(maps@)),
{
    let ghost given = views(maps@);
    let mut maps = maps;
    while maps.len() > 1
        invariant
            all_wf(maps@),
            key_counts_fit(views(maps@)),
            combine(views(maps@)) == combine(given),
        decreases maps.len(),
    {
        let ghost before = views(maps@);
        proof {
            lemma_counts_fit_in_pairs(before);
        }
        maps = merge_round(maps);
        proof {
            lemma_paired_keeps_fold(before);
            assert forall|key: Seq<u8>| #[trigger]
                key_count(views(maps@), key) <= usize::MAX by {
                assert(key_count(paired(before), key) == key_count(before, key));
            }
        }
    }
    let ghost left = views(maps@);
    match maps.pop() {
        Some(last) => {
            proof {
                assert(left =~= seq![last@]);
                lemma_combine_single(last@);
            }
            last
        },
        None => {
            proof {
                assert(left =~= Seq::<Map<Seq<u8>, Summary>>::empty());
            }
            StatsMap::new()
        },
    }
}

/// Tells whether each two neighbours of a collection can be merged.
pub fn round_fits(maps: &Vec<StatsMap>) -> (fits: bool)
    requires
        all_wf(maps@),
    ensures
        fits == pairs_fit(views(maps@)),
{
    let mut j: usize = 0;
    while j < maps.len() / 2
        invariant
            all_wf(maps@),
            j <= maps@.len() / 2,
            forall|i: int|
                0 <= i < j ==> counts_fit(#[trigger] views(maps@)[2 * i], views(maps@)[2 * i + 1]),
        decreases maps.len() / 2 - j,
    {
        assert(maps@[2 * j as int].wf());
        assert(maps@[2 * j + 1].wf());
        if !maps[2 * j].fits_with(&maps[2 * j + 1]) {
            assert(!counts_fit(views(maps@)[2 * j as int], views(maps@)[2 * j + 1]));
            return false;
        }
        j = j + 1;
    }
    true
}

/// Combines a collection of mappings into one, as `merge_maps` does, after
/// making sure that it can be done: the result is `None` exactly when some
/// key has more readings in the whole collection than can be counted.
pub fn try_merge_maps(maps: Vec<StatsMap>) -> (merged: Option<StatsMap>)
    requires
        all_wf(maps@),
    ensures
        merged is Some <==> key_counts_fit(views(maps@)),
        merged matches Some(map) ==> map.wf() && map@ == combine(views(maps@)),
{
    let ghost given = views(maps@);
    let mut current = maps;
    while current.len() > 1
        invariant
            given == views(maps@),
            all_wf(current@),
            combine(views(current@)) == combine(given),
            forall|key: Seq<u8>| key_count(views(current@), key) == key_count(given, key),
        decreases current.len(),
    {
        let ghost before = views(current@);
        if !round_fits(&current) {
            proof {
                if key_counts_fit(given) {
                    assert forall|key: Seq<u8>| #[trigger]
                        key_count(before, key) <= usize::MAX by {
                        assert(key_count(before, key) == key_count(given, key));
                    }
                    lemma_counts_fit_in_pairs(before);
                }
            }
            return None;
        }
        current = merge_round(current);
        proof {
            lemma_paired_keeps_fold(before);
            assert forall|key: Seq<u8>| key_count(views(current@), key) == key_count(given, key) by {
                assert(key_count(paired(before), key) == key_count(before, key));
            }
        }
    }
    let ghost left = views(current@);
    let last = match current.pop() {
        Some(last) => {
            proof {
                assert(left =~= seq![last@]);
                lemma_combine_single(last@);
            }
            last
        },
        None => {
            proof {
                assert(left =~= Seq::<Map<Seq<u8>, Summary>>::empty());
            }
            StatsMap::new()
        },
    };
    proof {
        assert forall|key: Seq<u8>| #[trigger] key_count(given, key) <= usize::MAX by {
            assert(key_count(left, key) == key_count(given, key));
            lemma_combine_count(left, key);
            last.lemma_counts_bounded(key);
        }
    }
    Some(last)
}

} // verus!
