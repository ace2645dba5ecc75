use batch_stats::aggregate::process_lines;
use batch_stats::dispatch::{split_batches, Dispatcher};
use batch_stats::pipeline::{aggregate_batches, run_pipeline};
use batch_stats::record::{find_delimiter, parse_line, DELIMITER};
use batch_stats::reduce::{merge_maps, merge_pair};
use batch_stats::stats_map::StatsMap;

fn lines(texts: &[&str]) -> Vec<Vec<u8>> {
    texts.iter().map(|t| t.as_bytes().to_vec()).collect()
}

fn listing(map: &StatsMap) -> Vec<(Vec<u8>, i64, i64, i128, usize)> {
    let mut out = Vec::new();
    for i in 0..map.len() {
        let s = map.stats_at(i);
        out.push((map.key_at(i).to_vec(), s.min(), s.max(), s.sum(), s.count()));
    }
    out
}

fn as_float(units: i64) -> f64 {
    units as f64 / 1_000_000.0
}

fn mean_of(map: &StatsMap, key: &[u8]) -> f64 {
    let s = map.get(key).unwrap();
    s.sum() as f64 / s.count() as f64 / 1_000_000.0
}

#[test]
fn delimiter_is_a_semicolon() {
    assert_eq!(DELIMITER, b';');
}

#[test]
fn first_delimiter_is_found() {
    assert_eq!(find_delimiter(b"A;1"), Some(1));
    assert_eq!(find_delimiter(b";1"), Some(0));
    assert_eq!(find_delimiter(b"A;B;1"), Some(1));
    assert_eq!(find_delimiter(b"A;"), Some(1));
    assert_eq!(find_delimiter(b"A"), None);
    assert_eq!(find_delimiter(b""), None);
    assert_eq!(find_delimiter(b"A:1,2"), None);
}

#[test]
fn line_is_split_at_the_first_delimiter() {
    assert_eq!(parse_line(b"Tokyo;35.6897"), Some((&b"Tokyo"[..], 35_689_700)));
    assert_eq!(parse_line(b"X;10.0"), Some((&b"X"[..], 10_000_000)));
    assert_eq!(parse_line(b"X; -2.5 \r"), Some((&b"X"[..], -2_500_000)));
    assert_eq!(parse_line(b";7"), Some((&b""[..], 7_000_000)));
}

#[test]
fn key_is_taken_verbatim() {
    assert_eq!(parse_line(b"  A ;1"), Some((&b"  A "[..], 1_000_000)));
    assert_eq!(parse_line(b"\tA\r;1"), Some((&b"\tA\r"[..], 1_000_000)));
    assert_eq!(parse_line(&[0xFF, 0x00, 0x80, b';', b'2']), Some((&[0xFF, 0x00, 0x80][..], 2_000_000)));
    assert_eq!(parse_line("Z\u{00FC}rich;9.5".as_bytes()), Some(("Z\u{00FC}rich".as_bytes(), 9_500_000)));
}

#[test]
fn malformed_lines_hold_no_record() {
    assert_eq!(parse_line(b""), None);
    assert_eq!(parse_line(b"no delimiter"), None);
    assert_eq!(parse_line(b"12.5"), None);
    assert_eq!(parse_line(b"A;"), None);
    assert_eq!(parse_line(b"A;abc"), None);
    assert_eq!(parse_line(b"A;B;1.0"), None);
    assert_eq!(parse_line(b"A;1.0;"), None);
    assert_eq!(parse_line(b"A;1.0;2.0"), None);
    assert_eq!(parse_line(b"A;NaN"), None);
    assert_eq!(parse_line(b"A;inf"), None);
    assert_eq!(parse_line(&[b'A', b';', b'1', 0xFF]), None);
    assert_eq!(parse_line(b"# Adapted from a list of cities"), None);
}

#[test]
fn single_record() {
    let map = run_pipeline(lines(&["X;10.0"]), 100);
    assert_eq!(map.len(), 1);
    let s = map.get(b"X").unwrap();
    assert_eq!(as_float(s.min()), 10.0);
    assert_eq!(as_float(s.max()), 10.0);
    assert_eq!(as_float(s.mean()), 10.0);
    assert_eq!(mean_of(&map, b"X"), 10.0);
    assert_eq!(s.count(), 1);
}

#[test]
fn repeated_key_in_any_batching_and_order() {
    let orders: Vec<Vec<&str>> = vec![
        vec!["X;1.0", "X;5.0", "X;-3.0"],
        vec!["X;1.0", "X;-3.0", "X;5.0"],
        vec!["X;5.0", "X;1.0", "X;-3.0"],
        vec!["X;5.0", "X;-3.0", "X;1.0"],
        vec!["X;-3.0", "X;1.0", "X;5.0"],
        vec!["X;-3.0", "X;5.0", "X;1.0"],
    ];
    for order in &orders {
        for batch_size in 0..5usize {
            let map = run_pipeline(lines(order), batch_size);
            assert_eq!(map.len(), 1);
            let s = map.get(b"X").unwrap();
            assert_eq!(as_float(s.min()), -3.0);
            assert_eq!(as_float(s.max()), 5.0);
            assert_eq!(as_float(s.mean()), 1.0);
            assert_eq!(mean_of(&map, b"X"), 1.0);
            assert_eq!(s.count(), 3);
        }
    }
}

#[test]
fn multi_key_multi_batch() {
    let input = ["A;1.0", "B;2.0", "A;3.0"];
    for batch_size in [1usize, 2] {
        let batches = split_batches(lines(&input), batch_size);
        assert_eq!(batches.len(), if batch_size == 1 { 3 } else { 2 });
        let map = merge_maps(aggregate_batches(&batches));
        assert_eq!(map.len(), 2);
        let a = map.get(b"A").unwrap();
        assert_eq!(as_float(a.min()), 1.0);
        assert_eq!(as_float(a.max()), 3.0);
        assert_eq!(as_float(a.mean()), 2.0);
        assert_eq!(a.count(), 2);
        let b = map.get(b"B").unwrap();
        assert_eq!(as_float(b.min()), 2.0);
        assert_eq!(as_float(b.max()), 2.0);
        assert_eq!(as_float(b.mean()), 2.0);
        assert_eq!(b.count(), 1);
        assert_eq!(listing(&map), listing(&run_pipeline(lines(&input), batch_size)));
    }
}

#[test]
fn empty_input() {
    for batch_size in [0usize, 1, 100_000] {
        let map = run_pipeline(Vec::new(), batch_size);
        assert_eq!(map.len(), 0);
        assert!(map.is_empty());
        assert_eq!(split_batches(Vec::new(), batch_size).len(), 0);
    }
    assert_eq!(process_lines(&[]).len(), 0);
}

fn station_lines() -> Vec<Vec<u8>> {
    let names = ["Oslo", "Lima", "Pune", "Bern", "Kiev", "Riga", "Doha"];
    let mut out = Vec::new();
    for i in 0..97i64 {
        let name = names[(i as usize * 5) % names.len()];
        let tenths = (i * 37) % 1999 - 999;
        let sign = if tenths < 0 { "-" } else { "" };
        out.push(format!("{};{}{}.{}", name, sign, tenths.abs() / 10, tenths.abs() % 10).into_bytes());
        if i % 9 == 0 {
            out.push(b"a line without delimiter".to_vec());
        }
        if i % 13 == 0 {
            out.push(format!("{};not a number", name).into_bytes());
        }
    }
    out
}

#[test]
fn batch_size_does_not_change_the_outcome() {
    let input = station_lines();
    let whole = process_lines(&input);
    assert_eq!(whole.len(), 7);
    let expected = listing(&whole);
    for batch_size in 0..(input.len() + 3) {
        let map = run_pipeline(input.clone(), batch_size);
        assert_eq!(listing(&map), expected);
    }
    assert_eq!(listing(&run_pipeline(input.clone(), 100_000)), expected);
    assert_eq!(listing(&run_pipeline(input.clone(), usize::MAX)), expected);
}

#[test]
fn outcome_matches_a_direct_computation() {
    let input = station_lines();
    let map = run_pipeline(input.clone(), 10);
    let mut total: usize = 0;
    for i in 0..map.len() {
        let key = map.key_at(i).to_vec();
        let mut values: Vec<i64> = Vec::new();
        for line in &input {
            if let Some((k, v)) = parse_line(line) {
                if k == &key[..] {
                    values.push(v);
                }
            }
        }
        let s = map.stats_at(i);
        assert_eq!(s.count(), values.len());
        assert_eq!(s.min(), *values.iter().min().unwrap());
        assert_eq!(s.max(), *values.iter().max().unwrap());
        assert_eq!(s.sum(), values.iter().map(|v| *v as i128).sum::<i128>());
        total += values.len();
    }
    assert_eq!(total, 97);
}

#[test]
fn arrival_order_does_not_change_the_outcome() {
    let input = station_lines();
    let expected = listing(&process_lines(&input));
    let batches = split_batches(input, 8);
    let mut reversed = aggregate_batches(&batches);
    reversed.reverse();
    assert_eq!(listing(&merge_maps(reversed)), expected);
    let mut rotated = aggregate_batches(&batches);
    rotated.rotate_left(5);
    assert_eq!(listing(&merge_maps(rotated)), expected);
    let mut interleaved = aggregate_batches(&batches);
    let n = interleaved.len();
    for i in 0..n / 2 {
        interleaved.swap(i, n - 1 - i / 2);
    }
    assert_eq!(listing(&merge_maps(interleaved)), expected);
}

#[test]
fn aggregating_twice_doubles_count_and_sum() {
    let input = station_lines();
    let once = process_lines(&input);
    let twice = merge_pair(process_lines(&input), process_lines(&input));
    assert_eq!(twice.len(), once.len());
    for i in 0..once.len() {
        let a = once.stats_at(i);
        let b = twice.stats_at(i);
        assert_eq!(twice.key_at(i), once.key_at(i));
        assert_eq!(b.count(), 2 * a.count());
        assert_eq!(b.sum(), 2 * a.sum());
        assert_eq!(b.min(), a.min());
        assert_eq!(b.max(), a.max());
    }
}

#[test]
fn malformed_lines_add_nothing() {
    let clean = lines(&["A;1.0", "B;2.0", "A;3.0"]);
    let expected = listing(&process_lines(&clean));
    let noisy = lines(&[
        "garbage",
        "A;1.0",
        "A;oops",
        "C;",
        "B;2.0",
        "",
        "D;1.0;2.0",
        "A;3.0",
        "E;NaN",
    ]);
    assert_eq!(listing(&process_lines(&noisy)), expected);
    for batch_size in 0..10usize {
        assert_eq!(listing(&run_pipeline(noisy.clone(), batch_size)), expected);
    }
    let only_noise = lines(&["garbage", "A;oops", ";", "no;number"]);
    assert_eq!(process_lines(&only_noise).len(), 0);
}

#[test]
fn keys_differing_in_white_space_are_different_keys() {
    let map = process_lines(&lines(&["A;1", "A ;2", " A;3", "a;4"]));
    assert_eq!(map.len(), 4);
    assert_eq!(map.get(b"A").unwrap().sum(), 1_000_000);
    assert_eq!(map.get(b"A ").unwrap().sum(), 2_000_000);
    assert_eq!(map.get(b" A").unwrap().sum(), 3_000_000);
    assert_eq!(map.get(b"a").unwrap().sum(), 4_000_000);
}

#[test]
fn dispatcher_hands_out_full_batches() {
    let mut d = Dispatcher::new(3);
    assert!(d.push(b"1".to_vec()).is_none());
    assert!(d.push(b"2".to_vec()).is_none());
    assert_eq!(d.push(b"3".to_vec()), Some(lines(&["1", "2", "3"])));
    assert!(d.push(b"4".to_vec()).is_none());
    assert_eq!(d.finish(), Some(lines(&["4"])));
}

#[test]
fn dispatcher_without_pending_lines_finishes_with_nothing() {
    let d = Dispatcher::new(3);
    assert_eq!(d.finish(), None);
    let mut d = Dispatcher::new(2);
    assert!(d.push(b"1".to_vec()).is_none());
    assert_eq!(d.push(b"2".to_vec()), Some(lines(&["1", "2"])));
    assert_eq!(d.finish(), None);
}

#[test]
fn batch_size_zero_is_taken_as_one() {
    let mut d = Dispatcher::new(0);
    assert_eq!(d.push(b"1".to_vec()), Some(lines(&["1"])));
    assert_eq!(d.push(b"2".to_vec()), Some(lines(&["2"])));
    assert_eq!(d.finish(), None);
    assert_eq!(
        split_batches(lines(&["a", "b"]), 0),
        split_batches(lines(&["a", "b"]), 1)
    );
}

#[test]
fn exact_multiple_leaves_no_trailing_batch() {
    let batches = split_batches(lines(&["a", "b", "c", "d", "e", "f"]), 3);
    assert_eq!(batches, vec![lines(&["a", "b", "c"]), lines(&["d", "e", "f"])]);
    let batches = split_batches(lines(&["a", "b", "c", "d", "e", "f"]), 6);
    assert_eq!(batches, vec![lines(&["a", "b", "c", "d", "e", "f"])]);
}

#[test]
fn last_batch_holds_what_is_left() {
    let batches = split_batches(lines(&["a", "b", "c", "d", "e", "f", "g"]), 3);
    assert_eq!(
        batches,
        vec![lines(&["a", "b", "c"]), lines(&["d", "e", "f"]), lines(&["g"])]
    );
    let batches = split_batches(lines(&["a", "b"]), 5);
    assert_eq!(batches, vec![lines(&["a", "b"])]);
}

#[test]
fn every_line_is_in_exactly_one_batch() {
    let input = station_lines();
    for batch_size in 0..(input.len() + 2) {
        let batches = split_batches(input.clone(), batch_size);
        let size = if batch_size == 0 { 1 } else { batch_size };
        assert_eq!(batches.len(), (input.len() + size - 1) / size);
        for (j, batch) in batches.iter().enumerate() {
            if j + 1 < batches.len() {
                assert_eq!(batch.len(), size);
            } else {
                assert!(1 <= batch.len() && batch.len() <= size);
            }
        }
        let joined: Vec<Vec<u8>> = batches.into_iter().flatten().collect();
        assert_eq!(joined, input);
    }
}

#[test]
fn aggregate_batches_folds_each_batch_on_its_own() {
    let batches = split_batches(lines(&["A;1", "B;2", "A;3", "zzz", "B;4"]), 2);
    let maps = aggregate_batches(&batches);
    assert_eq!(maps.len(), 3);
    assert_eq!(
        listing(&maps[0]),
        vec![
            (b"A".to_vec(), 1_000_000, 1_000_000, 1_000_000, 1),
            (b"B".to_vec(), 2_000_000, 2_000_000, 2_000_000, 1)
        ]
    );
    assert_eq!(listing(&maps[1]), vec![(b"A".to_vec(), 3_000_000, 3_000_000, 3_000_000, 1)]);
    assert_eq!(listing(&maps[2]), vec![(b"B".to_vec(), 4_000_000, 4_000_000, 4_000_000, 1)]);
}
