//! Folding a batch of lines into a mapping from key to accumulator.

use crate::merge::{combine, lemma_combine_count, lemma_merge_views_with_itself, merge_views};
use crate::record::{parse_line, record_of};
use crate::stats_map::{absorbed, StatsMap};
use crate::summary::{lemma_merge_of_parts, lemma_of_is_fold, Summary};
use vstd::prelude::*;

verus! {

/// The lines of a batch as byte sequences.
pub open spec fn texts(lines: Seq<Vec<u8>>) -> Seq<Seq<u8>> {
    Seq::new(lines.len(), |i: int| lines[i]@)
}

/// The readings that the lines hold for a key, in the order of the lines.
/// Lines that hold no record add nothing.
pub open spec fn readings_for(lines: Seq<Seq<u8>>, key: Seq<u8>) -> Seq<int>
    decreases lines.len(),
{
    if lines.len() == 0 {
        Seq::empty()
    } else {
        let before = readings_for(lines.drop_last(), key);
        match record_of(lines.last()) {
            Some(record) => if record.key == key {
                before.push(record.value)
            } else {
                before
            },
            None => before,
        }
    }
}

/// What a sequence of lines comes to: every key for which the lines hold a
/// reading, with the summary of all its readings.
pub open spec fn aggregate(lines: Seq<Seq<u8>>) -> Map<Seq<u8>, Summary> {
    Map::new(
        |key: Seq<u8>| readings_for(lines, key).len() > 0,
        |key: Seq<u8>| Summary::of(readings_for(lines, key)),
    )
}

/// What each batch of a sequence of batches comes to on its own.
pub open spec fn partials(batches: Seq<Seq<Seq<u8>>>) -> Seq<Map<Seq<u8>, Summary>> {
    Seq::new(batches.len(), |i: int| aggregate(batches[i]))
}

/// No key has more readings than there are lines.
pub proof fn lemma_readings_bounded(lines: Seq<Seq<u8>>, key: Seq<u8>)
    ensures
        readings_for(lines, key).len() <= lines.len(),
    decreases lines.len(),
{
    if lines.len() > 0 {
        lemma_readings_bounded(lines.drop_last(), key);
    }
}

/// The readings of lines laid end to end are the readings of the first part
/// followed by those of the second.
pub proof fn lemma_readings_concat(first: Seq<Seq<u8>>, second: Seq<Seq<u8>>, key: Seq<u8>)
    ensures
        readings_for(first + second, key) == readings_for(first, key) + readings_for(second, key),
    decreases second.len(),
{
    if second.len() == 0 {
        assert(first + second =~= first);
        assert(readings_for(first, key) + readings_for(second, key) =~= readings_for(first, key));
    } else {
        assert((first + second).drop_last() =~= first + second.drop_last());
        assert((first + second).last() == second.last());
        lemma_readings_concat(first, second.drop_last(), key);
        let front = readings_for(first, key) + readings_for(second.drop_last(), key);
        match record_of(second.last()) {
            Some(record) => {
                if record.key == key {
                    assert(front.push(record.value) =~= readings_for(first, key) + readings_for(
                        second.drop_last(),
                        key,
                    ).push(record.value));
                }
            },
            None => {},
        }
    }
}

/// One more line changes the outcome by its record alone: the reading is
/// taken in under its key, and a line without record changes nothing.
pub proof fn lemma_aggregate_push(lines: Seq<Seq<u8>>, line: Seq<u8>)
    ensures
        aggregate(lines.push(line)) == match record_of(line) {
            Some(record) => absorbed(
                aggregate(lines),
                record.key,
                Summary::single(record.value),
            ),
            None => aggregate(lines),
        },
{
    let longer = lines.push(line);
    assert(longer.drop_last() =~= lines);
    assert(longer.last() == line);
    match record_of(line) {
        Some(record) => {
            let expected = absorbed(aggregate(lines), record.key, Summary::single(record.value));
            assert forall|key: Seq<u8>| #[trigger]
                aggregate(longer).contains_key(key) == expected.contains_key(key) && (
                aggregate(longer).contains_key(key) ==> aggregate(longer)[key] == expected[key]) by {
                let before = readings_for(lines, key);
                if record.key == key {
                    assert(readings_for(longer, key) == before.push(record.value));
                    lemma_of_is_fold(before, record.value);
                    if before.len() == 0 {
                        assert(before.push(record.value) =~= seq![record.value]);
                    }
                } else {
                    assert(readings_for(longer, key) == before);
                }
            }
            assert(aggregate(longer) =~= expected);
        },
        None => {
            assert forall|key: Seq<u8>| readings_for(longer, key) == readings_for(lines, key) by {}
            assert(aggregate(longer) =~= aggregate(lines));
        },
    }
}

/// Lines laid end to end come to the merge of what each part comes to.
pub proof fn lemma_aggregate_concat(first: Seq<Seq<u8>>, second: Seq<Seq<u8>>)
    ensures
        aggregate(first + second) == merge_views(aggregate(first), aggregate(second)),
{
    let whole = aggregate(first + second);
    let merged = merge_views(aggregate(first), aggregate(second));
    assert forall|key: Seq<u8>| #[trigger]
        whole.contains_key(key) == merged.contains_key(key) && (whole.contains_key(key)
            ==> whole[key] == merged[key]) by {
        lemma_readings_concat(first, second, key);
        let a = readings_for(first, key);
        let b = readings_for(second, key);
        if a.len() > 0 && b.len() > 0 {
            lemma_merge_of_parts(a, b);
        } else if a.len() > 0 {
            assert(a + b =~= a);
        } else {
            assert(a + b =~= b);
        }
    }
    assert(whole =~= merged);
}

/// However a sequence of lines is cut into batches, folding the outcomes of
/// the batches gives what the lines come to as a whole.
pub proof fn lemma_batching_irrelevant(batches: Seq<Seq<Seq<u8>>>)
    ensures
        combine(partials(batches)) == aggregate(batches.flatten()),
    decreases batches.len(),
{
    if batches.len() == 0 {
        assert(aggregate(Seq::<Seq<u8>>::empty()) =~= Map::<Seq<u8>, Summary>::empty());
    } else {
        let front = batches.drop_last();
        let last = batches.last();
        lemma_batching_irrelevant(front);
        assert(partials(batches).drop_last() =~= partials(front));
        assert(partials(batches).last() == aggregate(last));
        assert(front.push(last) =~= batches);
        front.lemma_flatten_push(last);
        lemma_aggregate_concat(front.flatten(), last);
    }
}

/// Two ways of cutting the same lines into batches give the same outcome.
pub proof fn lemma_batch_invariance(first: Seq<Seq<Seq<u8>>>, second: Seq<Seq<Seq<u8>>>)
    requires
        first.flatten() == second.flatten(),
    ensures
        combine(partials(first)) == combine(partials(second)),
{
    lemma_batching_irrelevant(first);
    lemma_batching_irrelevant(second);
}

/// The outcomes of the batches hold for no key more readings than there are
/// lines in all.
pub proof fn lemma_partials_bounded(batches: Seq<Seq<Seq<u8>>>, key: Seq<u8>)
    ensures
        crate::merge::key_count(partials(batches), key) <= batches.flatten().len(),
{
    lemma_batching_irrelevant(batches);
    lemma_combine_count(partials(batches), key);
    lemma_readings_bounded(batches.flatten(), key);
}

/// A line that holds no record changes nothing, wherever it stands among the
/// lines: no entry comes of it, and no key's summary is touched.
pub proof fn lemma_malformed_line_ignored(lines: Seq<Seq<u8>>, at: int, line: Seq<u8>)
    requires
        0 <= at <= lines.len(),
        record_of(line) is None,
    ensures
        aggregate(lines.insert(at, line)) == aggregate(lines),
{
    let head = lines.take(at);
    let tail = lines.skip(at);
    assert(lines.insert(at, line) =~= head.push(line) + tail);
    assert(lines =~= head + tail);
    lemma_aggregate_push(head, line);
    lemma_aggregate_concat(head.push(line), tail);
    lemma_aggregate_concat(head, tail);
}

/// Folding the same batch twice and merging the two outcomes doubles the
/// number and the sum of the readings of every key, and leaves each minimum
/// and maximum as it was.
pub proof fn lemma_twice_aggregated(lines: Seq<Seq<u8>>, key: Seq<u8>)
    requires
        aggregate(lines).contains_key(key),
    ensures
        merge_views(aggregate(lines), aggregate(lines)).dom() == aggregate(lines).dom(),
        merge_views(aggregate(lines), aggregate(lines))[key].count == 2 * aggregate(
            lines,
        )[key].count,
        merge_views(aggregate(lines), aggregate(lines))[key].sum == 2 * aggregate(lines)[key].sum,
        merge_views(aggregate(lines), aggregate(lines))[key].min == aggregate(lines)[key].min,
        merge_views(aggregate(lines), aggregate(lines))[key].max == aggregate(lines)[key].max,
{
    lemma_merge_views_with_itself(aggregate(lines), key);
}

/// Folds a batch of lines into a mapping. A line that holds a record has its
/// reading taken in under its key; any other line is passed over.
pub fn process_lines(lines: &[Vec<u8>]) -> (map: StatsMap)
    ensures
        map.wf(),
        map@ == aggregate(texts(lines@)),
{
    let mut map = StatsMap::new();
    let mut i: usize = 0;
    proof {
        assert(texts(lines@).take(0) =~= Seq::<Seq<u8>>::empty());
        assert(aggregate(Seq::<Seq<u8>>::empty()) =~= Map::<Seq<u8>, Summary>::empty());
    }
    while i < lines.len()
        invariant
            i <= lines.len(),
            map.wf(),
            map@ == aggregate(texts(lines@).take(i as int)),
        decreases lines.len() - i,
    {
        let line: &[u8] = lines[i].as_slice();
        proof {
            let seen = texts(lines@).take(i as int);
            assert(texts(lines@).take(i + 1) =~= seen.push(line@));
            lemma_aggregate_push(seen, line@);
        }
        match parse_line(line) {
            Some((key, value)) => {
                proof {
                    lemma_readings_bounded(texts(lines@).take(i as int), key@);
                }
                map.record(key, value);
            },
            None => {},
        }
        i = i + 1;
    }
    proof {
        assert(texts(lines@).take(lines@.len() as int) =~= texts(lines@));
    }
    map
}

} // verus!
