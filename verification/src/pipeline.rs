//! The whole way from lines to the final mapping: cut the lines into
//! batches, fold each batch on its own, combine the outcomes.

use crate::aggregate::{
    aggregate, lemma_batching_irrelevant, lemma_partials_bounded, partials, process_lines, texts,
};
use crate::dispatch::{
    batch_texts, batches_of, effective_size, lemma_batches_hold_every_line, split_batches,
};
use crate::merge::{combine, key_count, lemma_combine_order_independent};
use crate::reduce::{all_wf, merge_maps, views};
use crate::stats_map::StatsMap;
use crate::summary::Summary;
use vstd::prelude::*;

verus! {

/// Whatever the batch size, folding the outcomes of the batches gives what
/// the lines come to as a whole.
pub proof fn lemma_batch_size_irrelevant(lines: Seq<Seq<u8>>, size: nat)
    requires
        size >= 1,
    ensures
        combine(partials(batches_of(lines, size))) == aggregate(lines),
{
    lemma_batches_hold_every_line(lines, size);
    lemma_batching_irrelevant(batches_of(lines, size));
}

/// In whatever order the outcomes of the batches arrive, folding them gives
/// what the lines come to as a whole.
pub proof fn lemma_arrival_order_irrelevant(
    lines: Seq<Seq<u8>>,
    size: nat,
    arrived: Seq<Map<Seq<u8>, Summary>>,
)
    requires
        size >= 1,
        arrived.to_multiset() == partials(batches_of(lines, size)).to_multiset(),
    ensures
        combine(arrived) == aggregate(lines),
{
    lemma_combine_order_independent(arrived, partials(batches_of(lines, size)));
    lemma_batch_size_irrelevant(lines, size);
}

/// Folds every batch of a collection on its own.
pub fn aggregate_batches(batches: &Vec<Vec<Vec<u8>>>) -> (maps: Vec<StatsMap>)
    ensures
        all_wf(maps@),
        views(maps@) == partials(batch_texts(batches@)),
{
    let mut maps: Vec<StatsMap> = Vec::new();
    let mut i: usize = 0;
    while i < batches.len()
        invariant
            i <= batches.len(),
            maps@.len() == i,
            all_wf(maps@),
            forall|j: int| 0 <= j < i ==> (#[trigger] maps@[j])@ == aggregate(texts(batches@[j]@)),
        decreases batches.len() - i,
    {
        let map = process_lines(batches[i].as_slice());
        maps.push(map);
        i = i + 1;
    }
    assert(views(maps@) =~= partials(batch_texts(batches@)));
    maps
}

/// Computes the statistics of every key of the input: the lines are cut into
/// batches of `batch_size`, each batch is folded on its own, and the
/// outcomes are combined. The result is what the lines come to as a whole,
/// whatever the batch size.
pub fn run_pipeline(lines: Vec<Vec<u8>>, batch_size: usize) -> (result: StatsMap)
    ensures
        result.wf(),
        result@ == aggregate(texts(lines@)),
{
    let ghost all = texts(lines@);
    let ghost size = effective_size(batch_size);
    assert(all.len() == lines.len() <= usize::MAX);
    let batches = split_batches(lines, batch_size);
    let maps = aggregate_batches(&batches);
    proof {
        lemma_batches_hold_every_line(all, size);
        lemma_batch_size_irrelevant(all, size);
        assert forall|key: Seq<u8>| #[trigger] key_count(views(maps@), key) <= usize::MAX by {
            lemma_partials_bounded(batches_of(all, size), key);
        }
    }
    merge_maps(maps)
}

} // verus!
