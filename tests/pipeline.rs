use kmer_sketch::dedup::{collapse, distinct_count, sort, sort_and_collapse, KeyCount};
use kmer_sketch::encoding::decode_u128_2_dna_seq;
use kmer_sketch::passes::{classify_record, observe_record, pick_record};
use kmer_sketch::table::CountingTable;
use kmer_sketch::windows::WindowCursor;

#[test]
fn windows_of_a_short_record() {
    let record: Vec<u8> = vec![b'A'; 100];
    let mut c = WindowCursor::new(2, 2);
    let mut n = 0usize;
    while let Some(w) = c.next(&record) {
        assert_eq!(w, b"AAAA".to_vec());
        n += 1;
    }
    // spans 80..=100 fit: 21 + 20 + ... + 1 windows
    assert_eq!(n, 231);
    assert!(c.next(&record).is_none());
}

#[test]
fn windows_drop_the_gap() {
    let mut record: Vec<u8> = vec![b'C'; 80];
    record[0] = b'G';
    record[79] = b'T';
    let mut c = WindowCursor::new(1, 1);
    assert_eq!(c.next(&record), Some(b"GT".to_vec()));
    assert_eq!(c.next(&record), None);
}

#[test]
fn record_too_short_gives_no_window() {
    let record: Vec<u8> = vec![b'A'; 79];
    let mut c = WindowCursor::new(27, 27);
    assert_eq!(c.next(&record), None);
}

fn run(records: &[Vec<u8>], l: usize, r: usize, threshold: u8) -> (u128, Vec<u128>) {
    let mut table = CountingTable::new(1 << 16);
    for rec in records {
        observe_record(&mut table, rec, l, r);
    }
    let mut marks = CountingTable::new(1 << 16);
    let mut occurrences: u128 = 0;
    for rec in records {
        occurrences += classify_record(&table, &mut marks, rec, l, r, threshold);
    }
    let mut out: Vec<u128> = Vec::new();
    for rec in records {
        pick_record(&marks, rec, l, r, &mut out);
    }
    (occurrences, out)
}

#[test]
fn poly_a_record_end_to_end() {
    let records = vec![vec![b'A'; 100]];
    let (occurrences, mut keys) = run(&records, 2, 2, 1);
    assert_eq!(occurrences, 231);
    assert_eq!(keys.len(), 231);
    sort(&mut keys, 8);
    assert_eq!(distinct_count(&keys), 1);
    let runs = collapse(&keys);
    assert_eq!(runs, vec![KeyCount { key: 0, count: 231 }]);
    assert_eq!(decode_u128_2_dna_seq(&runs[0].key, 4), b"AAAA".to_vec());
}

#[test]
fn empty_input_has_no_keys() {
    let records: Vec<Vec<u8>> = Vec::new();
    let (occurrences, mut keys) = run(&records, 27, 27, 8);
    assert_eq!(occurrences, 0);
    sort(&mut keys, 8);
    assert_eq!(distinct_count(&keys), 0);
    assert!(collapse(&keys).is_empty());
}

#[test]
fn single_observation_stays_below_threshold_two() {
    // A single window observed once cannot reach threshold 2.
    let mut record: Vec<u8> = vec![b'C'; 80];
    record[0] = b'G';
    let records = vec![record];
    let (occurrences, keys) = run(&records, 27, 27, 2);
    assert_eq!(occurrences, 0);
    assert!(keys.is_empty());
}

#[test]
fn sort_orders_keys() {
    let mut v: Vec<u128> = vec![5, 3, 5, 1, u128::MAX, 0];
    sort(&mut v, 1);
    assert_eq!(v, vec![0, 1, 3, 5, 5, u128::MAX]);
}

#[test]
fn collapse_counts_runs() {
    let v: Vec<u128> = vec![1, 3, 5, 5];
    assert_eq!(
        collapse(&v),
        vec![
            KeyCount { key: 1, count: 1 },
            KeyCount { key: 3, count: 1 },
            KeyCount { key: 5, count: 2 }
        ]
    );
    assert_eq!(distinct_count(&v), 3);
}

#[test]
fn sort_then_collapse_all_duplicates() {
    let r = sort_and_collapse(vec![7u128; 50], 4);
    assert_eq!(r, vec![KeyCount { key: 7, count: 50 }]);
}

#[test]
fn sort_then_collapse_all_distinct() {
    let list: Vec<u128> = (0u128..100).rev().collect();
    let r = sort_and_collapse(list, 2);
    assert_eq!(r.len(), 100);
    for (i, rc) in r.iter().enumerate() {
        assert_eq!(rc.key, i as u128);
        assert_eq!(rc.count, 1);
    }
}

#[test]
fn sort_then_collapse_mixed() {
    let list: Vec<u128> = vec![9, 2, 9, 4, 2, 9];
    let r = sort_and_collapse(list.clone(), 1);
    let total: usize = r.iter().map(|x| x.count).sum();
    assert_eq!(total, list.len());
    assert_eq!(
        r,
        vec![
            KeyCount { key: 2, count: 2 },
            KeyCount { key: 4, count: 1 },
            KeyCount { key: 9, count: 3 }
        ]
    );
}
