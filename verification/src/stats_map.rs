//! A mapping from key to accumulator, kept as a list of entries in ascending
//! key order.

use crate::key::{
    bytes_less, key_less, lemma_key_less_irreflexive,
    lemma_key_less_transitive, lemma_key_order_total,
};
use crate::merge::{count_in, counts_fit, lemma_merge_views_empty, merge_views};
use crate::stats::{representable, TempStats};
use crate::summary::Summary;
use vstd::prelude::*;

verus! {

/// Whether the keys of a listing come in strictly ascending order. No key
/// then occurs twice.
pub open spec fn ascending(listing: Seq<(Seq<u8>, Summary)>) -> bool {
    forall|i: int, j: int|
        #![trigger listing[i], listing[j]]
        0 <= i < j < listing.len() ==> key_less(listing[i].0, listing[j].0)
}

/// Whether some entry of the listing has this key.
pub open spec fn holds_key(listing: Seq<(Seq<u8>, Summary)>, key: Seq<u8>) -> bool {
    exists|i: int| 0 <= i < listing.len() && (#[trigger] listing[i]).0 == key
}

/// The place of an entry with this key, where there is one.
pub open spec fn place_of(listing: Seq<(Seq<u8>, Summary)>, key: Seq<u8>) -> int {
    choose|i: int| 0 <= i < listing.len() && (#[trigger] listing[i]).0 == key
}

/// The mapping that a listing stands for.
pub open spec fn listing_map(listing: Seq<(Seq<u8>, Summary)>) -> Map<Seq<u8>, Summary> {
    Map::new(
        |key: Seq<u8>| holds_key(listing, key),
        |key: Seq<u8>| listing[place_of(listing, key)].1,
    )
}

/// What a mapping becomes when a summary arrives for a key: the summary is
/// merged into the one that the key already has, or becomes the key's own.
pub open spec fn absorbed(
    map: Map<Seq<u8>, Summary>,
    key: Seq<u8>,
    incoming: Summary,
) -> Map<Seq<u8>, Summary> {
    if map.contains_key(key) {
        map.insert(key, map[key].merge(incoming))
    } else {
        map.insert(key, incoming)
    }
}

/// In an ascending listing every entry is found under its own key.
pub proof fn lemma_listing_lookup(listing: Seq<(Seq<u8>, Summary)>, at: int)
    requires
        ascending(listing),
        0 <= at < listing.len(),
    ensures
        holds_key(listing, listing[at].0),
        place_of(listing, listing[at].0) == at,
        listing_map(listing).contains_key(listing[at].0),
        listing_map(listing)[listing[at].0] == listing[at].1,
{
    let key = listing[at].0;
    assert(holds_key(listing, key));
    let found = place_of(listing, key);
    if found < at {
        assert(key_less(listing[found].0, listing[at].0));
        lemma_key_less_irreflexive(key);
    } else if at < found {
        assert(key_less(listing[at].0, listing[found].0));
        lemma_key_less_irreflexive(key);
    }
}

/// Replacing the summary of one entry changes the mapping at that key only.
pub proof fn lemma_listing_update(listing: Seq<(Seq<u8>, Summary)>, at: int, summary: Summary)
    requires
        ascending(listing),
        0 <= at < listing.len(),
    ensures
        ascending(listing.update(at, (listing[at].0, summary))),
        listing_map(listing.update(at, (listing[at].0, summary))) == listing_map(listing).insert(
            listing[at].0,
            summary,
        ),
{
    let key = listing[at].0;
    let after = listing.update(at, (key, summary));
    assert forall|i: int, j: int| 0 <= i < j < after.len() implies key_less(
        (#[trigger] after[i]).0,
        (#[trigger] after[j]).0,
    ) by {
        assert(after[i].0 == listing[i].0);
        assert(after[j].0 == listing[j].0);
    }
    assert forall|k: Seq<u8>| holds_key(after, k) <==> holds_key(listing, k) by {
        if holds_key(after, k) {
            let i = place_of(after, k);
            assert(listing[i].0 == k);
        }
        if holds_key(listing, k) {
            let i = place_of(listing, k);
            assert(after[i].0 == k);
        }
    }
    assert forall|k: Seq<u8>| holds_key(after, k) implies #[trigger] listing_map(after)[k]
        == listing_map(listing).insert(key, summary)[k] by {
        let i = place_of(after, k);
        lemma_listing_lookup(after, i);
        lemma_listing_lookup(listing, i);
    }
    lemma_listing_lookup(listing, at);
    assert(listing_map(after) =~= listing_map(listing).insert(key, summary));
}

/// Putting a new key at its place in the order adds that key to the mapping.
pub proof fn lemma_listing_insert(
    listing: Seq<(Seq<u8>, Summary)>,
    at: int,
    key: Seq<u8>,
    summary: Summary,
)
    requires
        ascending(listing),
        0 <= at <= listing.len(),
        forall|i: int| 0 <= i < at ==> key_less((#[trigger] listing[i]).0, key),
        forall|i: int| at <= i < listing.len() ==> key_less(key, (#[trigger] listing[i]).0),
    ensures
        !holds_key(listing, key),
        ascending(listing.insert(at, (key, summary))),
        listing_map(listing.insert(at, (key, summary))) == listing_map(listing).insert(
            key,
            summary,
        ),
{
    let after = listing.insert(at, (key, summary));
    if holds_key(listing, key) {
        let i = place_of(listing, key);
        lemma_key_less_irreflexive(key);
    }
    assert forall|i: int, j: int| 0 <= i < j < after.len() implies key_less(
        (#[trigger] after[i]).0,
        (#[trigger] after[j]).0,
    ) by {
        if j < at {
            assert(after[i] == listing[i] && after[j] == listing[j]);
        } else if j == at {
            assert(after[i] == listing[i]);
        } else if i < at {
            assert(after[i] == listing[i] && after[j] == listing[j - 1]);
            lemma_key_less_transitive(listing[i].0, key, listing[j - 1].0);
        } else if i == at {
            assert(after[j] == listing[j - 1]);
        } else {
            assert(after[i] == listing[i - 1] && after[j] == listing[j - 1]);
        }
    }
    assert(after[at] == (key, summary));
    lemma_listing_lookup(after, at);
    assert forall|k: Seq<u8>| holds_key(after, k) <==> (k == key || holds_key(listing, k)) by {
        if holds_key(after, k) && k != key {
            let i = place_of(after, k);
            if i < at {
                assert(listing[i].0 == k);
            } else {
                assert(listing[i - 1].0 == k);
            }
        }
        if holds_key(listing, k) {
            let i = place_of(listing, k);
            if i < at {
                assert(after[i].0 == k);
            } else {
                assert(after[i + 1].0 == k);
            }
        }
    }
    assert forall|k: Seq<u8>| holds_key(after, k) implies #[trigger] listing_map(after)[k]
        == listing_map(listing).insert(key, summary)[k] by {
        if k != key {
            let i = place_of(listing, k);
            lemma_listing_lookup(listing, i);
            if i < at {
                assert(after[i] == listing[i]);
                lemma_listing_lookup(after, i);
            } else {
                assert(after[i + 1] == listing[i]);
                lemma_listing_lookup(after, i + 1);
            }
        }
    }
    assert(listing_map(after) =~= listing_map(listing).insert(key, summary));
}

/// An ascending listing stands for a finite mapping with as many keys as the
/// listing has entries.
pub proof fn lemma_listing_map_size(listing: Seq<(Seq<u8>, Summary)>)
    requires
        ascending(listing),
    ensures
        listing_map(listing).dom().finite(),
        listing_map(listing).len() == listing.len(),
    decreases listing.len(),
{
    if listing.len() == 0 {
        assert(listing_map(listing).dom() =~= Set::<Seq<u8>>::empty());
    } else {
        let front = listing.drop_last();
        let last = listing.last();
        assert forall|i: int, j: int| 0 <= i < j < front.len() implies key_less(
            (#[trigger] front[i]).0,
            (#[trigger] front[j]).0,
        ) by {
            assert(front[i] == listing[i] && front[j] == listing[j]);
        }
        assert forall|i: int| 0 <= i < front.len() implies key_less(
            (#[trigger] front[i]).0,
            last.0,
        ) by {
            assert(front[i] == listing[i]);
            assert(key_less(listing[i].0, listing[listing.len() - 1].0));
        }
        lemma_listing_map_size(front);
        lemma_listing_insert(front, front.len() as int, last.0, last.1);
        assert(front.insert(front.len() as int, last) =~= listing);
        assert(listing_map(listing).dom() =~= listing_map(front).dom().insert(last.0));
    }
}

/// One key with its accumulator.
#[derive(Debug)]
struct Entry {
    key: Vec<u8>,
    stats: TempStats,
}

/// A mapping from key to accumulator.
///
/// The entries are held in ascending key order, so a key is found by
/// bisection and the entries can be read out in key order.
#[derive(Debug)]
pub struct StatsMap {
    entries: Vec<Entry>,
}

impl Clone for StatsMap {
    /// A mapping with the same keys and, for each, an accumulator of the
    /// same readings.
    fn clone(&self) -> (copy: StatsMap)
        ensures
            copy.listing() == self.listing(),
            copy@ == self@,
            copy.wf() == self.wf(),
    {
        let mut entries: Vec<Entry> = Vec::new();
        let mut i: usize = 0;
        while i < self.entries.len()
            invariant
                i <= self.entries.len(),
                entries@.len() == i,
                forall|j: int|
                    0 <= j < i ==> (#[trigger] entries@[j]).key@ == self.entries@[j].key@
                        && entries@[j].stats == self.entries@[j].stats,
            decreases self.entries.len() - i,
        {
            let entry = &self.entries[i];
            entries.push(
                Entry { key: vstd::slice::slice_to_vec(entry.key.as_slice()), stats: entry.stats },
            );
            i = i + 1;
        }
        let copy = StatsMap { entries };
        assert(copy.listing() =~= self.listing());
        copy
    }
}

impl Default for StatsMap {
    /// The empty mapping.
    fn default() -> (map: StatsMap)
        ensures
            map.wf(),
            map@ == Map::<Seq<u8>, Summary>::empty(),
    {
        StatsMap::new()
    }
}

impl View for StatsMap {
    type V = Map<Seq<u8>, Summary>;

    open spec fn view(&self) -> Map<Seq<u8>, Summary> {
        listing_map(self.listing())
    }
}

impl StatsMap {
    /// The entries in the order in which they are held: each key with the
    /// summary that its accumulator stands for.
    pub closed spec fn listing(&self) -> Seq<(Seq<u8>, Summary)> {
        Seq::new(self.entries@.len(), |i: int| (self.entries@[i].key@, self.entries@[i].stats@))
    }

    /// Whether the keys ascend strictly and every accumulator is well formed.
    pub open spec fn wf(&self) -> bool {
        &&& ascending(self.listing())
        &&& forall|i: int|
            0 <= i < self.listing().len() ==> representable((#[trigger] self.listing()[i]).1)
    }

    /// The empty mapping.
    pub fn new() -> (map: StatsMap)
        ensures
            map.wf(),
            map.listing() == Seq::<(Seq<u8>, Summary)>::empty(),
            map@ == Map::<Seq<u8>, Summary>::empty(),
    {
        let map = StatsMap { entries: Vec::new() };
        assert(map.listing() =~= Seq::<(Seq<u8>, Summary)>::empty());
        assert(map@ =~= Map::<Seq<u8>, Summary>::empty());
        map
    }

    /// The number of keys.
    pub fn len(&self) -> (n: usize)
        ensures
            n == self.listing().len(),
            self.wf() ==> self@.dom().finite() && n == self@.len(),
    {
        proof {
            if self.wf() {
                lemma_listing_map_size(self.listing());
            }
        }
        self.entries.len()
    }

    /// Whether the mapping holds no key.
    pub fn is_empty(&self) -> (empty: bool)
        ensures
            empty == (self.listing().len() == 0),
            empty == (self@ == Map::<Seq<u8>, Summary>::empty()),
    {
        proof {
            if self.listing().len() == 0 {
                assert(self@ =~= Map::<Seq<u8>, Summary>::empty());
            } else {
                assert(holds_key(self.listing(), self.listing()[0].0));
                assert(self@.contains_key(self.listing()[0].0));
            }
        }
        self.entries.len() == 0
    }

    /// The key of the entry at `at`, counted in ascending key order.
    pub fn key_at(&self, at: usize) -> (key: &[u8])
        requires
            at < self.listing().len(),
        ensures
            key@ == self.listing()[at as int].0,
    {
        self.entries[at].key.as_slice()
    }

    /// The accumulator of the entry at `at`, counted in ascending key order.
    pub fn stats_at(&self, at: usize) -> (stats: &TempStats)
        requires
            self.wf(),
            at < self.listing().len(),
        ensures
            stats.wf(),
            stats@ == self.listing()[at as int].1,
    {
        assert(representable(self.listing()[at as int].1));
        &self.entries[at].stats
    }

    /// Finds where `key` is, or where it would have to be put: the first
    /// place whose key does not come before it.
    fn locate(&self, key: &[u8]) -> (place: (usize, bool))
        requires
            self.wf(),
        ensures
            place.0 <= self.listing().len(),
            forall|i: int| 0 <= i < place.0 ==> key_less((#[trigger] self.listing()[i]).0, key@),
            place.1 ==> place.0 < self.listing().len() && self.listing()[place.0 as int].0 == key@,
            !place.1 ==> forall|i: int|
                place.0 <= i < self.listing().len() ==> key_less(
                    key@,
                    (#[trigger] self.listing()[i]).0,
                ),
            place.1 == holds_key(self.listing(), key@),
    {
        let ghost listing = self.listing();
        let mut low: usize = 0;
        let mut high: usize = self.entries.len();
        while low < high
            invariant
                self.wf(),
                listing == self.listing(),
                low <= high <= self.entries.len(),
                forall|i: int| 0 <= i < low ==> key_less((#[trigger] listing[i]).0, key@),
                forall|i: int| high <= i < listing.len() ==> !key_less((#[trigger] listing[i]).0, key@),
            decreases high - low,
        {
            let middle: usize = low + (high - low) / 2;
            if bytes_less(self.entries[middle].key.as_slice(), key) {
                assert forall|i: int| 0 <= i < middle + 1 implies key_less(
                    (#[trigger] listing[i]).0,
                    key@,
                ) by {
                    if i < middle {
                        assert(key_less(listing[i].0, listing[middle as int].0));
                        lemma_key_less_transitive(listing[i].0, listing[middle as int].0, key@);
                    }
                }
                low = middle + 1;
            } else {
                assert forall|i: int| middle <= i < listing.len() implies !key_less(
                    (#[trigger] listing[i]).0,
                    key@,
                ) by {
                    if middle < i && key_less(listing[i].0, key@) {
                        assert(key_less(listing[middle as int].0, listing[i].0));
                        lemma_key_less_transitive(listing[middle as int].0, listing[i].0, key@);
                    }
                }
                high = middle;
            }
        }
        let found: bool = low < self.entries.len() && !bytes_less(
            key,
            self.entries[low].key.as_slice(),
        );
        proof {
            if found {
                lemma_key_order_total(key@, listing[low as int].0);
            } else {
                assert forall|i: int| low <= i < listing.len() implies key_less(
                    key@,
                    (#[trigger] listing[i]).0,
                ) by {
                    if low < i {
                        assert(key_less(listing[low as int].0, listing[i].0));
                        lemma_key_less_transitive(key@, listing[low as int].0, listing[i].0);
                    }
                }
                if holds_key(listing, key@) {
                    let i = place_of(listing, key@);
                    lemma_key_less_irreflexive(key@);
                }
            }
        }
        (low, found)
    }

    /// The accumulator kept for `key`, if there is one.
    pub fn get(&self, key: &[u8]) -> (found: Option<&TempStats>)
        requires
            self.wf(),
        ensures
            found is Some <==> self@.contains_key(key@),
            found matches Some(stats) ==> stats.wf() && stats@ == self@[key@],
    {
        let (at, present) = self.locate(key);
        if present {
            proof {
                lemma_listing_lookup(self.listing(), at as int);
                assert(representable(self.listing()[at as int].1));
            }
            Some(&self.entries[at].stats)
        } else {
            None
        }
    }

    /// Takes one reading for `key`: a key seen for the first time gets a new
    /// accumulator, a known key has the reading folded into its own.
    pub fn record(&mut self, key: &[u8], value: i64)
        requires
            old(self).wf(),
            old(self)@.contains_key(key@) ==> old(self)@[key@].count < usize::MAX,
        ensures
            final(self).wf(),
            final(self)@ == absorbed(old(self)@, key@, Summary::single(value as int)),
    {
        let (at, present) = self.locate(key);
        let ghost before = self.listing();
        if present {
            proof {
                lemma_listing_lookup(before, at as int);
                assert(representable(before[at as int].1));
            }
            self.entries[at].stats.update(value);
            proof {
                let summary = before[at as int].1.observe(value as int);
                assert(self.listing() =~= before.update(at as int, (key@, summary)));
                lemma_listing_update(before, at as int, summary);
                assert forall|i: int| 0 <= i < self.listing().len() implies representable(
                    (#[trigger] self.listing()[i]).1,
                ) by {
                    if i != at {
                        assert(self.listing()[i] == before[i]);
                    }
                }
            }
        } else {
            let stats = TempStats::new(value);
            let fresh = Entry { key: vstd::slice::slice_to_vec(key), stats };
            self.entries.insert(at, fresh);
            proof {
                assert(self.listing() =~= before.insert(at as int, (key@, stats@)));
                lemma_listing_insert(before, at as int, key@, stats@);
                assert forall|i: int| 0 <= i < self.listing().len() implies representable(
                    (#[trigger] self.listing()[i]).1,
                ) by {
                    if i < at {
                        assert(self.listing()[i] == before[i]);
                    } else if i > at {
                        assert(self.listing()[i] == before[i - 1]);
                    }
                }
            }
        }
    }

    /// Takes a whole accumulator for `key`: a key not yet held gets it as its
    /// own, a known key has it merged into its own.
    pub fn absorb(&mut self, key: Vec<u8>, stats: TempStats)
        requires
            old(self).wf(),
            stats.wf(),
            old(self)@.contains_key(key@) ==> old(self)@[key@].count + stats@.count <= usize::MAX,
        ensures
            final(self).wf(),
            final(self)@ == absorbed(old(self)@, key@, stats@),
    {
        let (at, present) = self.locate(key.as_slice());
        let ghost before = self.listing();
        if present {
            proof {
                lemma_listing_lookup(before, at as int);
                assert(representable(before[at as int].1));
            }
            self.entries[at].stats.merge(&stats);
            proof {
                let summary = before[at as int].1.merge(stats@);
                assert(self.listing() =~= before.update(at as int, (key@, summary)));
                lemma_listing_update(before, at as int, summary);
                assert forall|i: int| 0 <= i < self.listing().len() implies representable(
                    (#[trigger] self.listing()[i]).1,
                ) by {
                    if i != at {
                        assert(self.listing()[i] == before[i]);
                    }
                }
            }
        } else {
            let fresh = Entry { key, stats };
            self.entries.insert(at, fresh);
            proof {
                assert(self.listing() =~= before.insert(at as int, (key@, stats@)));
                lemma_listing_insert(before, at as int, key@, stats@);
                assert forall|i: int| 0 <= i < self.listing().len() implies representable(
                    (#[trigger] self.listing()[i]).1,
                ) by {
                    if i < at {
                        assert(self.listing()[i] == before[i]);
                    } else if i > at {
                        assert(self.listing()[i] == before[i - 1]);
                    }
                }
            }
        }
    }

    /// No key of a well-formed mapping has more readings than can be counted.
    pub proof fn lemma_counts_bounded(&self, key: Seq<u8>)
        requires
            self.wf(),
        ensures
            count_in(self@, key) <= usize::MAX,
    {
        if self@.contains_key(key) {
            let at = place_of(self.listing(), key);
            lemma_listing_lookup(self.listing(), at);
            assert(representable(self.listing()[at].1));
        }
    }

    /// Tells whether another mapping can be merged into this one: whether
    /// for every key the readings of both can still be counted.
    pub fn fits_with(&self, other: &StatsMap) -> (fits: bool)
        requires
            self.wf(),
            other.wf(),
        ensures
            fits == counts_fit(self@, other@),
    {
        let ghost theirs = other.listing();
        let mut i: usize = 0;
        while i < other.entries.len()
            invariant
                self.wf(),
                other.wf(),
                theirs == other.listing(),
                i <= theirs.len(),
                theirs.len() == other.entries@.len(),
                forall|j: int|
                    0 <= j < i ==> count_in(self@, (#[trigger] theirs[j]).0) + theirs[j].1.count
                        <= usize::MAX,
            decreases other.entries.len() - i,
        {
            let entry = &other.entries[i];
            let ghost key = theirs[i as int].0;
            proof {
                lemma_listing_lookup(theirs, i as int);
                assert(representable(theirs[i as int].1));
            }
            match self.get(entry.key.as_slice()) {
                Some(mine) => {
                    if mine.count() > usize::MAX - entry.stats.count() {
                        assert(count_in(self@, key) + count_in(other@, key) > usize::MAX);
                        return false;
                    }
                },
                None => {},
            }
            i = i + 1;
        }
        proof {
            assert forall|key: Seq<u8>| #[trigger]
                count_in(self@, key) + count_in(other@, key) <= usize::MAX by {
                if other@.contains_key(key) {
                    let at = place_of(theirs, key);
                    lemma_listing_lookup(theirs, at);
                    assert(count_in(self@, theirs[at].0) + theirs[at].1.count <= usize::MAX);
                } else {
                    self.lemma_counts_bounded(key);
                }
            }
        }
        true
    }

    /// Merges another mapping into this one, which then holds the union: a
    /// key of both has the two accumulators merged, a key of one keeps its
    /// accumulator.
    pub fn merge_from(&mut self, other: StatsMap)
        requires
            old(self).wf(),
            other.wf(),
            counts_fit(old(self)@, other@),
        ensures
            final(self).wf(),
            final(self)@ == merge_views(old(self)@, other@),
    {
        let ghost before = self@;
        let ghost incoming = other.listing();
        let ghost items = other.entries@;
        proof {
            assert(listing_map(incoming.take(0)) =~= Map::<Seq<u8>, Summary>::empty());
            lemma_merge_views_empty(before);
        }
        for entry in it: other.entries
            invariant
                self.wf(),
                it.seq() == items,
                incoming.len() == items.len(),
                forall|i: int|
                    0 <= i < items.len() ==> #[trigger] incoming[i] == (
                        items[i].key@,
                        items[i].stats@,
                    ),
                ascending(incoming),
                forall|i: int|
                    0 <= i < incoming.len() ==> representable((#[trigger] incoming[i]).1),
                counts_fit(before, listing_map(incoming)),
                self@ == merge_views(before, listing_map(incoming.take(it.index()))),
        {
            let ghost at = it.index();
            let ghost key = incoming[at].0;
            let ghost summary = incoming[at].1;
            let ghost prefix = incoming.take(at);
            proof {
                assert(incoming[at] == (entry.key@, entry.stats@));
                assert(representable(incoming[at].1));
                assert forall|i: int, j: int| 0 <= i < j < prefix.len() implies key_less(
                    (#[trigger] prefix[i]).0,
                    (#[trigger] prefix[j]).0,
                ) by {
                    assert(prefix[i] == incoming[i] && prefix[j] == incoming[j]);
                }
                assert forall|i: int| 0 <= i < at implies key_less(
                    (#[trigger] prefix[i]).0,
                    key,
                ) by {
                    assert(prefix[i] == incoming[i]);
                    assert(key_less(incoming[i].0, incoming[at].0));
                }
                lemma_listing_insert(prefix, at, key, summary);
                assert(prefix.insert(at, (key, summary)) =~= incoming.take(at + 1));
                lemma_listing_lookup(incoming, at);
                assert(count_in(before, key) + count_in(listing_map(incoming), key)
                    <= usize::MAX);
            }
            self.absorb(entry.key, entry.stats);
            proof {
                assert(self@ =~= merge_views(before, listing_map(incoming.take(at + 1))));
            }
        }
        proof {
            assert(incoming.take(incoming.len() as int) =~= incoming);
        }
    }
}

} // verus!
