//! The algebra of mappings: how two mappings from key to summary combine,
//! and what a whole collection of them comes to.

use crate::summary::Summary;
use vstd::prelude::*;

verus! {

/// The union of two mappings. A key that both hold gets the two summaries
/// merged; a key that one holds keeps its summary.
pub open spec fn merge_views(
    a: Map<Seq<u8>, Summary>,
    b: Map<Seq<u8>, Summary>,
) -> Map<Seq<u8>, Summary> {
    Map::new(
        |key: Seq<u8>| a.contains_key(key) || b.contains_key(key),
        |key: Seq<u8>|
            if a.contains_key(key) && b.contains_key(key) {
                a[key].merge(b[key])
            } else if a.contains_key(key) {
                a[key]
            } else {
                b[key]
            },
    )
}

/// The number of readings that a mapping holds for a key.
pub open spec fn count_in(map: Map<Seq<u8>, Summary>, key: Seq<u8>) -> nat {
    if map.contains_key(key) {
        map[key].count
    } else {
        0
    }
}

/// Whether two mappings can be merged without a count leaving the range of
/// the machine.
pub open spec fn counts_fit(a: Map<Seq<u8>, Summary>, b: Map<Seq<u8>, Summary>) -> bool {
    forall|key: Seq<u8>| #[trigger] count_in(a, key) + count_in(b, key) <= usize::MAX
}

/// The fold of a collection of mappings: starting from the empty mapping,
/// each one is merged in, in turn.
pub open spec fn combine(maps: Seq<Map<Seq<u8>, Summary>>) -> Map<Seq<u8>, Summary>
    decreases maps.len(),
{
    if maps.len() == 0 {
        Map::empty()
    } else {
        merge_views(combine(maps.drop_last()), maps.last())
    }
}

/// The number of readings that a collection of mappings holds for a key.
pub open spec fn key_count(maps: Seq<Map<Seq<u8>, Summary>>, key: Seq<u8>) -> nat
    decreases maps.len(),
{
    if maps.len() == 0 {
        0
    } else {
        key_count(maps.drop_last(), key) + count_in(maps.last(), key)
    }
}

/// Whether no key has more readings in the whole collection than the machine
/// can count.
pub open spec fn key_counts_fit(maps: Seq<Map<Seq<u8>, Summary>>) -> bool {
    forall|key: Seq<u8>| #[trigger] key_count(maps, key) <= usize::MAX
}

/// One round of pairwise reduction: each two neighbours are merged, and a
/// last mapping without a neighbour is carried over as it is.
pub open spec fn paired(maps: Seq<Map<Seq<u8>, Summary>>) -> Seq<Map<Seq<u8>, Summary>> {
    Seq::new(
        ((maps.len() + 1) / 2) as nat,
        |j: int|
            if 2 * j + 1 < maps.len() {
                merge_views(maps[2 * j], maps[2 * j + 1])
            } else {
                maps[2 * j]
            },
    )
}

/// Merging two mappings does not depend on which comes first.
pub proof fn lemma_merge_views_commutative(a: Map<Seq<u8>, Summary>, b: Map<Seq<u8>, Summary>)
    ensures
        merge_views(a, b) == merge_views(b, a),
{
    assert(merge_views(a, b) =~= merge_views(b, a));
}

/// Merging three mappings does not depend on which two are merged first.
pub proof fn lemma_merge_views_associative(
    a: Map<Seq<u8>, Summary>,
    b: Map<Seq<u8>, Summary>,
    c: Map<Seq<u8>, Summary>,
)
    ensures
        merge_views(merge_views(a, b), c) == merge_views(a, merge_views(b, c)),
{
    assert(merge_views(merge_views(a, b), c) =~= merge_views(a, merge_views(b, c)));
}

/// The empty mapping changes nothing when merged, on either side.
pub proof fn lemma_merge_views_empty(a: Map<Seq<u8>, Summary>)
    ensures
        merge_views(Map::empty(), a) == a,
        merge_views(a, Map::empty()) == a,
{
    assert(merge_views(Map::empty(), a) =~= a);
    assert(merge_views(a, Map::empty()) =~= a);
}

/// Merging a mapping with itself doubles the number and the sum of the
/// readings of every key and leaves each minimum and maximum as it was.
pub proof fn lemma_merge_views_with_itself(a: Map<Seq<u8>, Summary>, key: Seq<u8>)
    requires
        a.contains_key(key),
    ensures
        merge_views(a, a).dom() == a.dom(),
        merge_views(a, a)[key].count == 2 * a[key].count,
        merge_views(a, a)[key].sum == 2 * a[key].sum,
        merge_views(a, a)[key].min == a[key].min,
        merge_views(a, a)[key].max == a[key].max,
{
    assert(merge_views(a, a).dom() =~= a.dom());
}

/// The readings of a key in a merged mapping are those of both parts.
pub proof fn lemma_merge_views_count(
    a: Map<Seq<u8>, Summary>,
    b: Map<Seq<u8>, Summary>,
    key: Seq<u8>,
)
    ensures
        count_in(merge_views(a, b), key) == count_in(a, key) + count_in(b, key),
{
}

/// The fold of a collection laid end to end with another is the merge of the
/// two folds.
pub proof fn lemma_combine_concat(
    x: Seq<Map<Seq<u8>, Summary>>,
    y: Seq<Map<Seq<u8>, Summary>>,
)
    ensures
        combine(x + y) == merge_views(combine(x), combine(y)),
    decreases y.len(),
{
    if y.len() == 0 {
        assert(x + y =~= x);
        lemma_merge_views_empty(combine(x));
    } else {
        assert((x + y).drop_last() =~= x + y.drop_last());
        assert((x + y).last() == y.last());
        lemma_combine_concat(x, y.drop_last());
        lemma_merge_views_associative(combine(x), combine(y.drop_last()), y.last());
    }
}

/// The fold of a single mapping is that mapping.
pub proof fn lemma_combine_single(map: Map<Seq<u8>, Summary>)
    ensures
        combine(seq![map]) == map,
{
    let one = seq![map];
    assert(one.drop_last() =~= Seq::<Map<Seq<u8>, Summary>>::empty());
    assert(combine(one.drop_last()) == Map::<Seq<u8>, Summary>::empty());
    assert(one.last() == map);
    lemma_merge_views_empty(map);
}

/// Taking one mapping out of a collection and merging it back gives the fold
/// of the whole collection.
proof fn lemma_combine_remove(maps: Seq<Map<Seq<u8>, Summary>>, at: int)
    requires
        0 <= at < maps.len(),
    ensures
        combine(maps) == merge_views(combine(maps.remove(at)), maps[at]),
    decreases maps.len(),
{
    if at == maps.len() - 1 {
        assert(maps.remove(at) =~= maps.drop_last());
    } else {
        let front = maps.drop_last();
        lemma_combine_remove(front, at);
        assert(maps.remove(at).drop_last() =~= front.remove(at));
        assert(maps.remove(at).last() == maps.last());
        let rest = combine(front.remove(at));
        lemma_merge_views_associative(rest, maps[at], maps.last());
        lemma_merge_views_commutative(maps[at], maps.last());
        lemma_merge_views_associative(rest, maps.last(), maps[at]);
    }
}

/// The fold of a collection of mappings does not depend on the order in
/// which the mappings stand in it.
pub proof fn lemma_combine_order_independent(
    x: Seq<Map<Seq<u8>, Summary>>,
    y: Seq<Map<Seq<u8>, Summary>>,
)
    requires
        x.to_multiset() == y.to_multiset(),
    ensures
        combine(x) == combine(y),
    decreases x.len(),
{
    broadcast use vstd::seq_lib::group_to_multiset_ensures;

    vstd::seq_lib::to_multiset_len(x);
    vstd::seq_lib::to_multiset_len(y);
    if x.len() > 0 {
        let last = x.last();
        assert(x.to_multiset().count(last) > 0);
        assert(y.contains(last));
        let at = y.index_of(last);
        assert(x.drop_last() == x.remove(x.len() - 1));
        lemma_combine_order_independent(x.drop_last(), y.remove(at));
        lemma_combine_remove(y, at);
    }
}

/// The fold holds for every key as many readings as the collection does.
pub proof fn lemma_combine_count(maps: Seq<Map<Seq<u8>, Summary>>, key: Seq<u8>)
    ensures
        count_in(combine(maps), key) == key_count(maps, key),
    decreases maps.len(),
{
    if maps.len() > 0 {
        lemma_combine_count(maps.drop_last(), key);
    }
}

/// Two different mappings of a collection hold together no more readings of
/// a key than the whole collection does.
pub proof fn lemma_key_count_covers_two(
    maps: Seq<Map<Seq<u8>, Summary>>,
    i: int,
    j: int,
    key: Seq<u8>,
)
    requires
        0 <= i < j < maps.len(),
    ensures
        count_in(maps[i], key) + count_in(maps[j], key) <= key_count(maps, key),
    decreases maps.len(),
{
    if j == maps.len() - 1 {
        lemma_key_count_covers_one(maps.drop_last(), i, key);
    } else {
        lemma_key_count_covers_two(maps.drop_last(), i, j, key);
    }
}

/// One mapping of a collection holds no more readings of a key than the
/// whole collection does.
proof fn lemma_key_count_covers_one(maps: Seq<Map<Seq<u8>, Summary>>, i: int, key: Seq<u8>)
    requires
        0 <= i < maps.len(),
    ensures
        count_in(maps[i], key) <= key_count(maps, key),
    decreases maps.len(),
{
    if i < maps.len() - 1 {
        lemma_key_count_covers_one(maps.drop_last(), i, key);
    }
}

/// A round of pairwise reduction changes neither the fold of the collection
/// nor the number of readings that it holds for any key.
pub proof fn lemma_paired_keeps_fold(maps: Seq<Map<Seq<u8>, Summary>>)
    ensures
        combine(paired(maps)) == combine(maps),
        forall|key: Seq<u8>| key_count(paired(maps), key) == key_count(maps, key),
    decreases maps.len(),
{
    let n = maps.len() as int;
    if n == 0 {
        assert(paired(maps) =~= maps);
    } else if n % 2 == 1 {
        let front = maps.drop_last();
        lemma_paired_keeps_fold(front);
        assert(paired(maps) =~= paired(front).push(maps.last()));
        assert(paired(maps).drop_last() =~= paired(front));
        assert forall|key: Seq<u8>| key_count(paired(maps), key) == key_count(maps, key) by {
            assert(key_count(paired(front), key) == key_count(front, key));
        }
    } else {
        let front = maps.take(n - 2);
        let a = maps[n - 2];
        let b = maps[n - 1];
        lemma_paired_keeps_fold(front);
        assert(paired(maps) =~= paired(front).push(merge_views(a, b)));
        assert(paired(maps).drop_last() =~= paired(front));
        assert(maps.drop_last().drop_last() =~= front);
        assert(maps.drop_last().last() == a);
        let shorter = maps.drop_last();
        assert(combine(shorter) == merge_views(combine(front), a));
        assert(combine(maps) == merge_views(combine(shorter), b));
        assert(paired(maps).last() == merge_views(a, b));
        lemma_merge_views_associative(combine(front), a, b);
        assert forall|key: Seq<u8>| key_count(paired(maps), key) == key_count(maps, key) by {
            assert(key_count(paired(front), key) == key_count(front, key));
            assert(key_count(shorter, key) == key_count(front, key) + count_in(a, key));
            assert(key_count(maps, key) == key_count(shorter, key) + count_in(b, key));
            lemma_merge_views_count(a, b, key);
        }
    }
}

} // verus!
