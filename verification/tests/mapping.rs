use batch_stats::key::bytes_less;
use batch_stats::reduce::{merge_maps, merge_pair, merge_round, pair_up, round_fits, try_merge_maps};
use batch_stats::stats::TempStats;
use batch_stats::stats_map::StatsMap;

fn listing(map: &StatsMap) -> Vec<(Vec<u8>, i64, i64, i128, usize)> {
    let mut out = Vec::new();
    for i in 0..map.len() {
        let s = map.stats_at(i);
        out.push((map.key_at(i).to_vec(), s.min(), s.max(), s.sum(), s.count()));
    }
    out
}

fn map_of(pairs: &[(&[u8], i64)]) -> StatsMap {
    let mut map = StatsMap::new();
    for (key, value) in pairs {
        map.record(key, *value);
    }
    map
}

#[test]
fn keys_are_ordered_byte_by_byte() {
    assert!(bytes_less(b"a", b"b"));
    assert!(!bytes_less(b"b", b"a"));
    assert!(!bytes_less(b"a", b"a"));
    assert!(bytes_less(b"", b"a"));
    assert!(!bytes_less(b"", b""));
    assert!(!bytes_less(b"a", b""));
    assert!(bytes_less(b"ab", b"abc"));
    assert!(!bytes_less(b"abc", b"ab"));
    assert!(bytes_less(b"abc", b"abd"));
    assert!(bytes_less(b"Z", b"a"));
    assert!(bytes_less(&[0x7F], &[0x80]));
    assert!(bytes_less(&[0x00, 0xFF], &[0x01]));
    assert!(!bytes_less(&[0xFF], &[0x00, 0xFF]));
}

#[test]
fn key_order_agrees_with_slice_order() {
    let keys: Vec<&[u8]> = vec![b"", b"a", b"ab", b"abc", b"b", b"B", &[0xFF], &[0x00], &[0x00, 0x00]];
    for a in &keys {
        for b in &keys {
            assert_eq!(bytes_less(a, b), a < b);
        }
    }
}

#[test]
fn new_map_is_empty() {
    let map = StatsMap::new();
    assert_eq!(map.len(), 0);
    assert!(map.is_empty());
    assert!(map.get(b"X").is_none());
}

#[test]
fn record_inserts_then_updates() {
    let mut map = StatsMap::new();
    map.record(b"X", 10);
    assert_eq!(map.len(), 1);
    assert!(!map.is_empty());
    let s = map.get(b"X").unwrap();
    assert_eq!((s.min(), s.max(), s.sum(), s.count()), (10, 10, 10, 1));
    map.record(b"X", -4);
    map.record(b"X", 30);
    assert_eq!(map.len(), 1);
    let s = map.get(b"X").unwrap();
    assert_eq!((s.min(), s.max(), s.sum(), s.count()), (-4, 30, 36, 3));
    assert!(map.get(b"Y").is_none());
    assert!(map.get(b"").is_none());
    assert!(map.get(b"XX").is_none());
}

#[test]
fn entries_come_out_in_key_order() {
    let map = map_of(&[(b"pear", 1), (b"apple", 2), (b"zebra", 3), (b"", 4), (b"apple", 5), (b"app", 6)]);
    let keys: Vec<Vec<u8>> = listing(&map).into_iter().map(|e| e.0).collect();
    assert_eq!(
        keys,
        vec![b"".to_vec(), b"app".to_vec(), b"apple".to_vec(), b"pear".to_vec(), b"zebra".to_vec()]
    );
    assert_eq!(map.get(b"apple").unwrap().count(), 2);
    assert_eq!(map.get(b"apple").unwrap().sum(), 7);
}

#[test]
fn many_keys_are_all_found() {
    let mut map = StatsMap::new();
    for i in 0..500u32 {
        let key = format!("key{}", (i * 7919) % 500);
        map.record(key.as_bytes(), i as i64);
    }
    assert_eq!(map.len(), 500);
    for i in 0..500u32 {
        let key = format!("key{}", i);
        assert_eq!(map.get(key.as_bytes()).unwrap().count(), 1);
    }
    let all = listing(&map);
    for pair in all.windows(2) {
        assert!(pair[0].0 < pair[1].0);
    }
}

#[test]
fn absorb_inserts_or_merges() {
    let mut map = StatsMap::new();
    let mut s = TempStats::new(3);
    s.update(9);
    map.absorb(b"K".to_vec(), s);
    assert_eq!(listing(&map), vec![(b"K".to_vec(), 3, 9, 12, 2)]);
    let mut t = TempStats::new(-1);
    t.update(4);
    map.absorb(b"K".to_vec(), t);
    assert_eq!(listing(&map), vec![(b"K".to_vec(), -1, 9, 15, 4)]);
    map.absorb(b"J".to_vec(), t);
    assert_eq!(
        listing(&map),
        vec![(b"J".to_vec(), -1, 4, 3, 2), (b"K".to_vec(), -1, 9, 15, 4)]
    );
}

#[test]
fn merge_from_gives_the_union() {
    let mut left = map_of(&[(b"A", 1), (b"B", 2), (b"A", 3)]);
    let right = map_of(&[(b"B", 10), (b"C", 20)]);
    left.merge_from(right);
    assert_eq!(
        listing(&left),
        vec![
            (b"A".to_vec(), 1, 3, 4, 2),
            (b"B".to_vec(), 2, 10, 12, 2),
            (b"C".to_vec(), 20, 20, 20, 1)
        ]
    );
}

#[test]
fn merge_from_empty_changes_nothing() {
    let mut left = map_of(&[(b"A", 1), (b"B", 2)]);
    let before = listing(&left);
    left.merge_from(StatsMap::new());
    assert_eq!(listing(&left), before);
    let mut empty = StatsMap::new();
    empty.merge_from(left);
    assert_eq!(listing(&empty), before);
}

#[test]
fn merge_pair_is_commutative() {
    let ab = merge_pair(map_of(&[(b"A", 1), (b"B", 2)]), map_of(&[(b"B", 5), (b"C", 7)]));
    let ba = merge_pair(map_of(&[(b"B", 5), (b"C", 7)]), map_of(&[(b"A", 1), (b"B", 2)]));
    assert_eq!(listing(&ab), listing(&ba));
}

#[test]
fn merge_round_pairs_neighbours() {
    let maps = vec![
        map_of(&[(b"A", 1)]),
        map_of(&[(b"A", 2)]),
        map_of(&[(b"B", 3)]),
        map_of(&[(b"C", 4)]),
        map_of(&[(b"D", 5)]),
    ];
    let next = merge_round(maps);
    assert_eq!(next.len(), 3);
    assert_eq!(listing(&next[0]), vec![(b"A".to_vec(), 1, 2, 3, 2)]);
    assert_eq!(
        listing(&next[1]),
        vec![(b"B".to_vec(), 3, 3, 3, 1), (b"C".to_vec(), 4, 4, 4, 1)]
    );
    assert_eq!(listing(&next[2]), vec![(b"D".to_vec(), 5, 5, 5, 1)]);
}

#[test]
fn merge_round_of_even_count_leaves_no_leftover() {
    let next = merge_round(vec![map_of(&[(b"A", 1)]), map_of(&[(b"B", 2)])]);
    assert_eq!(next.len(), 1);
    assert_eq!(merge_round(Vec::new()).len(), 0);
    assert_eq!(merge_round(vec![map_of(&[(b"A", 1)])]).len(), 1);
}

#[test]
fn merge_maps_of_nothing_is_empty() {
    let merged = merge_maps(Vec::new());
    assert_eq!(merged.len(), 0);
}

#[test]
fn merge_maps_of_one_is_that_one() {
    let merged = merge_maps(vec![map_of(&[(b"A", 1), (b"B", 2)])]);
    assert_eq!(
        listing(&merged),
        vec![(b"A".to_vec(), 1, 1, 1, 1), (b"B".to_vec(), 2, 2, 2, 1)]
    );
}

fn sample_maps(n: usize) -> Vec<StatsMap> {
    let mut maps = Vec::new();
    for i in 0..n {
        let mut map = StatsMap::new();
        for j in 0..(i + 2) {
            let key = format!("k{}", (i * 3 + j * 5) % 7);
            map.record(key.as_bytes(), (i as i64) * 10 - (j as i64) * 7);
        }
        maps.push(map);
    }
    maps
}

fn sequential_fold(maps: Vec<StatsMap>) -> StatsMap {
    let mut all = StatsMap::new();
    for map in maps {
        all.merge_from(map);
    }
    all
}

#[test]
fn odd_number_of_maps_merges_like_the_sequential_fold() {
    for n in [3usize, 5, 7, 9, 11] {
        let merged = merge_maps(sample_maps(n));
        let folded = sequential_fold(sample_maps(n));
        assert_eq!(listing(&merged), listing(&folded));
    }
}

#[test]
fn any_number_of_maps_merges_like_the_sequential_fold() {
    for n in 0..20usize {
        let merged = merge_maps(sample_maps(n));
        let folded = sequential_fold(sample_maps(n));
        assert_eq!(listing(&merged), listing(&folded));
    }
}

#[test]
fn order_of_the_maps_does_not_matter() {
    let forward = merge_maps(sample_maps(7));
    let mut reversed = sample_maps(7);
    reversed.reverse();
    let mut rotated = sample_maps(7);
    rotated.rotate_left(3);
    assert_eq!(listing(&forward), listing(&merge_maps(reversed)));
    assert_eq!(listing(&forward), listing(&merge_maps(rotated)));
}

#[test]
fn three_maps_with_a_shared_key() {
    let merged = merge_maps(vec![
        map_of(&[(b"X", 1_000_000)]),
        map_of(&[(b"X", 5_000_000)]),
        map_of(&[(b"X", -3_000_000)]),
    ]);
    assert_eq!(
        listing(&merged),
        vec![(b"X".to_vec(), -3_000_000, 5_000_000, 3_000_000, 3)]
    );
}

fn doubled(times: u32) -> TempStats {
    let mut s = TempStats::new(1);
    for _ in 0..times {
        let copy = s;
        s.merge(&copy);
    }
    s
}

fn holding(key: &[u8], stats: TempStats) -> StatsMap {
    let mut map = StatsMap::new();
    map.absorb(key.to_vec(), stats);
    map
}

fn with_count(count: usize) -> TempStats {
    let mut result: Option<TempStats> = None;
    for bit in 0..usize::BITS {
        if count & (1usize << bit) != 0 {
            let part = doubled(bit);
            result = Some(match result {
                None => part,
                Some(mut s) => {
                    s.merge(&part);
                    s
                }
            });
        }
    }
    result.unwrap()
}

#[test]
fn counts_up_to_the_limit_can_be_merged() {
    let half = 1usize << (usize::BITS - 1);
    let upper = with_count(half);
    let lower = with_count(half - 1);
    assert_eq!(upper.count(), half);
    assert_eq!(lower.count(), half - 1);
    let a = holding(b"K", upper);
    let b = holding(b"K", lower);
    assert!(a.fits_with(&b));
    assert!(b.fits_with(&a));
    let merged = merge_pair(a, b);
    assert_eq!(merged.get(b"K").unwrap().count(), usize::MAX);
    assert_eq!(merged.get(b"K").unwrap().sum(), usize::MAX as i128);
    assert_eq!(merged.get(b"K").unwrap().mean(), 1);
}

#[test]
fn counts_beyond_the_limit_cannot_be_merged() {
    let half = doubled(usize::BITS - 1);
    let a = holding(b"K", half);
    let b = holding(b"K", half);
    assert!(!a.fits_with(&b));
    let c = holding(b"J", half);
    assert!(a.fits_with(&c));
    assert!(c.fits_with(&a));
    assert!(a.fits_with(&StatsMap::new()));
    assert!(StatsMap::new().fits_with(&a));
}

#[test]
fn try_merge_maps_refuses_what_cannot_be_counted() {
    let half = doubled(usize::BITS - 1);
    assert!(try_merge_maps(vec![holding(b"K", half), holding(b"K", half)]).is_none());
    assert!(try_merge_maps(vec![
        holding(b"K", half),
        holding(b"J", half),
        holding(b"K", TempStats::new(5)),
        holding(b"K", half),
    ])
    .is_none());
    assert!(try_merge_maps(vec![
        holding(b"K", half),
        holding(b"J", half),
        holding(b"J", TempStats::new(5)),
    ])
    .is_some());
    assert!(!round_fits(&vec![holding(b"K", half), holding(b"K", half)]));
    assert!(round_fits(&vec![holding(b"K", half), holding(b"J", half), holding(b"K", half)]));
}

#[test]
fn try_merge_maps_agrees_with_merge_maps() {
    for n in 0..12usize {
        let tried = try_merge_maps(sample_maps(n)).unwrap();
        assert_eq!(listing(&tried), listing(&merge_maps(sample_maps(n))));
    }
}

#[test]
fn pair_up_parts_neighbours() {
    let (pairs, leftover) = pair_up(sample_maps(5));
    let all = sample_maps(5);
    assert_eq!(pairs.len(), 2);
    assert_eq!(listing(&pairs[0].0), listing(&all[0]));
    assert_eq!(listing(&pairs[0].1), listing(&all[1]));
    assert_eq!(listing(&pairs[1].0), listing(&all[2]));
    assert_eq!(listing(&pairs[1].1), listing(&all[3]));
    assert_eq!(listing(&leftover.unwrap()), listing(&all[4]));
    let (pairs, leftover) = pair_up(sample_maps(4));
    assert_eq!(pairs.len(), 2);
    assert!(leftover.is_none());
    let (pairs, leftover) = pair_up(Vec::new());
    assert_eq!(pairs.len(), 0);
    assert!(leftover.is_none());
}

#[test]
fn clone_holds_the_same_entries() {
    let map = map_of(&[(b"pear", 1), (b"apple", 2), (b"pear", 7)]);
    let copy = map.clone();
    assert_eq!(listing(&copy), listing(&map));
    let mut changed = map.clone();
    changed.record(b"fig", 3);
    assert_eq!(changed.len(), 3);
    assert_eq!(map.len(), 2);
}

#[test]
fn default_map_is_empty() {
    let map = StatsMap::default();
    assert_eq!(map.len(), 0);
    assert!(map.is_empty());
}
