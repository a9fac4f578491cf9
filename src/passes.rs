//! The three scans of a record: build the counting table, classify keys
//! against a threshold while marking them, and pick up the marked keys.

use crate::encoding::{encode_dna_seq_2_u128, is_dna, lemma_decode_encode, packed};
use crate::table::{
    bumped, dominates, estimate_of, hits, index_set, lemma_estimate_monotone, observed,
    CountingTable,
};
use crate::windows::{lemma_window_is_dna, record_windows, valid_flanks, WindowCursor};
use vstd::prelude::*;

verus! {

/// The cells after observing each key in turn, the `i`-th with the random
/// byte `draws[i]`.
pub open spec fn observe_all(cells: Seq<u8>, keys: Seq<Seq<u8>>, draws: Seq<u8>) -> Seq<u8>
    decreases keys.len(),
{
    if keys.len() == 0 || draws.len() == 0 {
        cells
    } else {
        observed(
            observe_all(cells, keys.drop_last(), draws.drop_last()),
            keys.last(),
            draws.last(),
        )
    }
}

/// Whether a key's estimate in the counting table reaches the threshold.
pub open spec fn is_high(cells: Seq<u8>, key: Seq<u8>, threshold: u8) -> bool {
    estimate_of(cells, key) >= threshold
}

/// How many of the keys are high.
pub open spec fn count_high(cells: Seq<u8>, keys: Seq<Seq<u8>>, threshold: u8) -> nat
    decreases keys.len(),
{
    if keys.len() == 0 {
        0
    } else {
        count_high(cells, keys.drop_last(), threshold) + if is_high(
            cells,
            keys.last(),
            threshold,
        ) {
            1nat
        } else {
            0nat
        }
    }
}

/// The marking table after each high key has been marked in turn.
pub open spec fn marked_all(marks: Seq<u8>, cells: Seq<u8>, keys: Seq<Seq<u8>>, threshold: u8) -> Seq<
    u8,
>
    decreases keys.len(),
{
    if keys.len() == 0 {
        marks
    } else {
        let before = marked_all(marks, cells, keys.drop_last(), threshold);
        if is_high(cells, keys.last(), threshold) {
            bumped(before, index_set(keys.last(), before.len()))
        } else {
            before
        }
    }
}

/// The packed form of each marked key, in order.
pub open spec fn picked(marks: Seq<u8>, keys: Seq<Seq<u8>>) -> Seq<u128>
    decreases keys.len(),
{
    if keys.len() == 0 {
        Seq::empty()
    } else {
        let before = picked(marks, keys.drop_last());
        if estimate_of(marks, keys.last()) != 0 {
            before.push(packed(keys.last()) as u128)
        } else {
            before
        }
    }
}

/// Build scan of one record: observes every window key of the record in the
/// counting table, each with a fresh random byte.
pub fn observe_record(table: &mut CountingTable, record: &[u8], l_len: usize, r_len: usize)
    requires
        old(table).wf(),
        valid_flanks(l_len as nat, r_len as nat),
    ensures
        final(table).wf(),
        exists|draws: Seq<u8>|
            draws.len() == record_windows(record@, l_len as nat, r_len as nat).len()
                && #[trigger] observe_all(
                old(table)@,
                record_windows(record@, l_len as nat, r_len as nat),
                draws,
            ) == final(table)@,
        dominates(old(table)@, final(table)@),
{
    let ghost start = table@;
    let ghost rec = record@;
    let mut cursor = WindowCursor::new(l_len, r_len);
    let ghost mut draws: Seq<u8> = Seq::empty();
    proof {
        assert(cursor.inv(rec));
    }
    loop
        invariant
            table.wf(),
            cursor.inv(rec),
            cursor.left() == l_len,
            cursor.right() == r_len,
            rec == record@,
            draws.len() == cursor.done(rec).len(),
            table@ == observe_all(start, cursor.done(rec), draws),
            dominates(start, table@),
        ensures
            table.wf(),
            draws.len() == record_windows(rec, l_len as nat, r_len as nat).len(),
            table@ == observe_all(start, record_windows(rec, l_len as nat, r_len as nat), draws),
            dominates(start, table@),
        decreases cursor.spans_left(), cursor.starts_left(rec),
    {
        let ghost done = cursor.done(rec);
        match cursor.next(record) {
            None => {
                break ;
            },
            Some(key) => {
                let ghost before = table@;
                table.observe(key.as_slice());
                proof {
                    let d = choose|d: u8| table@ == observed(before, key@, d);
                    let nd = cursor.done(rec);
                    let old_draws = draws;
                    draws = draws.push(d);
                    assert(nd.drop_last() =~= done);
                    assert(draws.drop_last() =~= old_draws);
                }
            },
        }
    }
}

/// Classify scan of one record: counts the window keys whose estimate in the
/// counting table reaches `threshold`, and marks each of them in `marks`.
pub fn classify_record(
    table: &CountingTable,
    marks: &mut CountingTable,
    record: &[u8],
    l_len: usize,
    r_len: usize,
    threshold: u8,
) -> (r: u128)
    requires
        table.wf(),
        old(marks).wf(),
        valid_flanks(l_len as nat, r_len as nat),
    ensures
        final(marks).wf(),
        r == count_high(table@, record_windows(record@, l_len as nat, r_len as nat), threshold),
        final(marks)@ == marked_all(
            old(marks)@,
            table@,
            record_windows(record@, l_len as nat, r_len as nat),
            threshold,
        ),
{
    let ghost start = marks@;
    let ghost rec = record@;
    let mut cursor = WindowCursor::new(l_len, r_len);
    let mut count: u128 = 0;
    let len = record.len();
    proof {
        assert(cursor.inv(rec));
    }
    loop
        invariant
            marks.wf(),
            table.wf(),
            cursor.inv(rec),
            cursor.left() == l_len,
            cursor.right() == r_len,
            rec == record@,
            count == count_high(table@, cursor.done(rec), threshold),
            count <= cursor.done(rec).len(),
            len == rec.len(),
            marks@ == marked_all(start, table@, cursor.done(rec), threshold),
        ensures
            marks.wf(),
            count == count_high(table@, record_windows(rec, l_len as nat, r_len as nat), threshold),
            marks@ == marked_all(start, table@, record_windows(rec, l_len as nat, r_len as nat), threshold),
        decreases cursor.spans_left(), cursor.starts_left(rec),
    {
        let ghost done = cursor.done(rec);
        match cursor.next(record) {
            None => {
                break ;
            },
            Some(key) => {
                proof {
                    assert(cursor.done(rec).drop_last() =~= done);
                    cursor.lemma_done_bound(rec);
                }
                if table.estimate(key.as_slice()) >= threshold {
                    count = count + 1;
                    marks.mark(key.as_slice());
                }
            },
        }
    }
    count
}

/// Pick-up scan of one record of bases: appends to `out` the packed form of
/// each window key that is marked in `marks`, in scan order.
pub fn pick_record(
    marks: &CountingTable,
    record: &[u8],
    l_len: usize,
    r_len: usize,
    out: &mut Vec<u128>,
)
    requires
        marks.wf(),
        valid_flanks(l_len as nat, r_len as nat),
        l_len + r_len <= 64,
        is_dna(record@),
    ensures
        final(out)@ == old(out)@ + picked(
            marks@,
            record_windows(record@, l_len as nat, r_len as nat),
        ),
{
    let ghost start = out@;
    let ghost rec = record@;
    let mut cursor = WindowCursor::new(l_len, r_len);
    proof {
        assert(cursor.inv(rec));
        assert(start + picked(marks@, cursor.done(rec)) =~= start);
    }
    loop
        invariant
            marks.wf(),
            cursor.inv(rec),
            cursor.left() == l_len,
            cursor.right() == r_len,
            l_len + r_len <= 64,
            rec == record@,
            is_dna(rec),
            out@ == start + picked(marks@, cursor.done(rec)),
        ensures
            out@ == start + picked(marks@, record_windows(rec, l_len as nat, r_len as nat)),
        decreases cursor.spans_left(), cursor.starts_left(rec),
    {
        let ghost done = cursor.done(rec);
        match cursor.next(record) {
            None => {
                break ;
            },
            Some(key) => {
                proof {
                    assert(cursor.done(rec).drop_last() =~= done);
                    cursor.lemma_window_in_record(rec);
                    lemma_decode_encode(key@);
                }
                if marks.is_marked(key.as_slice()) {
                    match encode_dna_seq_2_u128(key.as_slice()) {
                        Ok(k) => {
                            out.push(k);
                        },
                        Err(_) => {},
                    }
                }
                proof {
                    assert(out@ =~= start + picked(marks@, cursor.done(rec)));
                }
            },
        }
    }
}

proof fn lemma_marked_all_dominates(marks: Seq<u8>, cells: Seq<u8>, keys: Seq<Seq<u8>>, threshold: u8, n: int)
    requires
        0 <= n <= keys.len(),
    ensures
        dominates(
            marked_all(marks, cells, keys.take(n), threshold),
            marked_all(marks, cells, keys, threshold),
        ),
    decreases keys.len(),
{
    if n < keys.len() {
        let t = keys.drop_last();
        assert(t.take(n) =~= keys.take(n));
        lemma_marked_all_dominates(marks, cells, t, threshold, n);
    } else {
        assert(keys.take(n) =~= keys);
    }
}

proof fn lemma_marked_all_len(marks: Seq<u8>, cells: Seq<u8>, keys: Seq<Seq<u8>>, threshold: u8)
    ensures
        marked_all(marks, cells, keys, threshold).len() == marks.len(),
    decreases keys.len(),
{
    if keys.len() > 0 {
        lemma_marked_all_len(marks, cells, keys.drop_last(), threshold);
    }
}

/// Every key whose estimate reaches the threshold is marked once the
/// classify scan is over, so the pick-up scan keeps it.
pub proof fn lemma_high_keys_are_marked(
    marks: Seq<u8>,
    cells: Seq<u8>,
    keys: Seq<Seq<u8>>,
    threshold: u8,
    i: int,
)
    requires
        0 < marks.len() <= usize::MAX,
        0 <= i < keys.len(),
        is_high(cells, keys[i], threshold),
    ensures
        estimate_of(marked_all(marks, cells, keys, threshold), keys[i]) != 0,
{
    let k = keys[i];
    let pre = keys.take(i + 1);
    assert(pre.drop_last() =~= keys.take(i));
    let before = marked_all(marks, cells, keys.take(i), threshold);
    let after = marked_all(marks, cells, pre, threshold);
    lemma_marked_all_len(marks, cells, keys.take(i), threshold);
    lemma_marked_all_len(marks, cells, keys, threshold);
    let idx = index_set(k, before.len());
    assert(after == bumped(before, idx));
    assert forall|q: int| 0 <= q < idx.len() implies after[#[trigger] idx[q] as int] >= 1u8 by {
        assert(hits(idx, idx[q] as int));
        assert((idx[q] as nat) < before.len()) by {
            assert(crate::hashing::hash_lanes_spec(k)[q] as nat % before.len() < before.len());
        }
    }
    crate::table::lemma_min_at_lower_bound(after, idx, 1u8);
    lemma_marked_all_dominates(marks, cells, keys, threshold, i + 1);
    lemma_estimate_monotone(after, marked_all(marks, cells, keys, threshold), k);
}

/// The marking table gains marks only at the probed positions of high keys:
/// a cell that was zero before the classify scan and is nonzero after it is
/// one of the positions of some key whose estimate reached the threshold.
pub proof fn lemma_marks_only_at_high_keys(
    marks: Seq<u8>,
    cells: Seq<u8>,
    keys: Seq<Seq<u8>>,
    threshold: u8,
    j: int,
)
    requires
        0 <= j < marks.len(),
        marks[j] == 0,
        marked_all(marks, cells, keys, threshold)[j] != 0,
    ensures
        exists|i: int|
            0 <= i < keys.len() && is_high(cells, #[trigger] keys[i], threshold) && hits(
                index_set(keys[i], marks.len()),
                j,
            ),
    decreases keys.len(),
{
    let t = keys.drop_last();
    let before = marked_all(marks, cells, t, threshold);
    lemma_marked_all_len(marks, cells, t, threshold);
    let last = keys.len() - 1;
    assert(keys[last] == keys.last());
    if before[j] != 0 {
        lemma_marks_only_at_high_keys(marks, cells, t, threshold, j);
        let i = choose|i: int|
            0 <= i < t.len() && is_high(cells, #[trigger] t[i], threshold) && hits(
                index_set(t[i], marks.len()),
                j,
            );
        assert(keys[i] == t[i]);
    } else {
        assert(is_high(cells, keys[last], threshold) && hits(
            index_set(keys[last], marks.len()),
            j,
        ));
    }
}

} // verus!
