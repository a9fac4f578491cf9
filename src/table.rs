//! The counting table: a fixed-size array of one-byte saturating counters,
//! probed at the eight lane positions of a key.

use crate::hashing::{hash_lanes, hash_lanes_spec, LANES};
use vstd::prelude::*;

verus! {

/// Number of cells of the full-size table (73 GiB of one-byte counters).
pub const BLOOMFILTER_TABLE_SIZE: u64 = 78383153152;

/// The largest value a cell holds.
pub const CELL_MAX: u8 = 255;

/// `c + 1`, held at 255.
pub open spec fn sat_inc(c: u8) -> u8 {
    if c < 255 {
        (c + 1) as u8
    } else {
        255
    }
}

/// Whether cell `j` is one of the positions in `idx`.
pub open spec fn hits(idx: Seq<usize>, j: int) -> bool {
    exists|k: int| 0 <= k < idx.len() && idx[k] == j
}

/// The cells after each position in `idx` has been raised by one (once,
/// however often it occurs in `idx`), held at 255.
pub open spec fn bumped(cells: Seq<u8>, idx: Seq<usize>) -> Seq<u8> {
    Seq::new(cells.len(), |j: int| if hits(idx, j) { sat_inc(cells[j]) } else { cells[j] })
}

/// The least cell among the positions `idx`, and 255 where there is none.
pub open spec fn min_at(cells: Seq<u8>, idx: Seq<usize>) -> u8
    decreases idx.len(),
{
    if idx.len() == 0 {
        255
    } else {
        let m = min_at(cells, idx.drop_last());
        let c = cells[idx.last() as int];
        if c < m {
            c
        } else {
            m
        }
    }
}

/// Each lane reduced modulo the table size.
pub open spec fn indices_of(lanes: Seq<u64>, size: nat) -> Seq<usize> {
    Seq::new(lanes.len(), |i: int| (lanes[i] as nat % size) as usize)
}

/// The table positions that a key's bytes are probed at.
pub open spec fn index_set(key: Seq<u8>, size: nat) -> Seq<usize> {
    indices_of(hash_lanes_spec(key), size)
}

/// The estimate of a key: its least probed cell.
pub open spec fn estimate_of(cells: Seq<u8>, key: Seq<u8>) -> u8 {
    min_at(cells, index_set(key, cells.len()))
}

/// The back-off policy: a draw records one more observation of a key whose
/// estimate is `e` exactly when it is below `255 - e`.
pub open spec fn accepts(e: u8, draw: u8) -> bool {
    (draw as int) < 255 - e
}

/// The cells after one observation of `key` with the random byte `draw`.
pub open spec fn observed(cells: Seq<u8>, key: Seq<u8>, draw: u8) -> Seq<u8> {
    if accepts(estimate_of(cells, key), draw) {
        bumped(cells, index_set(key, cells.len()))
    } else {
        cells
    }
}

/// No cell of `lo` is above the same cell of `hi`.
pub open spec fn dominates(lo: Seq<u8>, hi: Seq<u8>) -> bool {
    lo.len() == hi.len() && forall|j: int| 0 <= j < lo.len() ==> lo[j] <= #[trigger] hi[j]
}

/// Every position lies inside a table of `size` cells.
pub open spec fn in_bounds(idx: Seq<usize>, size: nat) -> bool {
    forall|k: int| 0 <= k < idx.len() ==> (#[trigger] idx[k] as nat) < size
}

/// Relies on rand::random::<u8>: a byte from the thread-local generator.
/// Nothing is known of its value.
#[verifier::external_body]
fn random_byte() -> (r: u8) {
    rand::random::<u8>()
}

/// Whether a random byte `draw` records another observation of a key whose
/// estimate is `estimate`.
pub fn should_increment(estimate: u8, draw: u8) -> (r: bool)
    ensures
        r == accepts(estimate, draw),
{
    draw < CELL_MAX - estimate
}

/// Reduces each lane modulo the table size.
pub fn table_indices(lanes: &[u64; 8], size: usize) -> (r: [usize; 8])
    requires
        size > 0,
    ensures
        r@ == indices_of(lanes@, size as nat),
        in_bounds(r@, size as nat),
{
    let mut idx: [usize; 8] = [0; 8];
    let mut i: usize = 0;
    while i < LANES
        invariant
            i <= 8,
            size > 0,
            forall|k: int|
                0 <= k < i ==> #[trigger] idx@[k] == (lanes@[k] as nat % size as nat) as usize,
        decreases 8 - i,
    {
        idx[i] = (lanes[i] % (size as u64)) as usize;
        i = i + 1;
    }
    assert(idx@ =~= indices_of(lanes@, size as nat));
    idx
}

proof fn lemma_min_at_le(cells: Seq<u8>, idx: Seq<usize>, k: int)
    requires
        0 <= k < idx.len(),
    ensures
        min_at(cells, idx) <= cells[idx[k] as int],
    decreases idx.len(),
{
    if k < idx.len() - 1 {
        lemma_min_at_le(cells, idx.drop_last(), k);
    }
}

/// Where every probed cell is at least `m`, so is their least.
pub proof fn lemma_min_at_lower_bound(cells: Seq<u8>, idx: Seq<usize>, m: u8)
    requires
        forall|k: int| 0 <= k < idx.len() ==> cells[#[trigger] idx[k] as int] >= m,
    ensures
        min_at(cells, idx) >= m,
    decreases idx.len(),
{
    if idx.len() > 0 {
        let t = idx.drop_last();
        assert forall|k: int| 0 <= k < t.len() implies cells[#[trigger] t[k] as int] >= m by {
            assert(t[k] == idx[k]);
        }
        lemma_min_at_lower_bound(cells, t, m);
    }
}

proof fn lemma_min_at_hit(cells: Seq<u8>, idx: Seq<usize>) -> (k: int)
    requires
        idx.len() > 0,
        in_bounds(idx, cells.len()),
    ensures
        0 <= k < idx.len(),
        min_at(cells, idx) == cells[idx[k] as int],
    decreases idx.len(),
{
    let t = idx.drop_last();
    let last = idx.len() - 1;
    assert(idx.last() == idx[last]);
    if t.len() > 0 {
        let k = lemma_min_at_hit(cells, t);
        assert(idx[k] == t[k]);
        assert(min_at(cells, idx) == if cells[idx[last] as int] < min_at(cells, t) {
            cells[idx[last] as int]
        } else {
            min_at(cells, t)
        });
        if cells[idx[last] as int] < min_at(cells, t) {
            last
        } else {
            k
        }
    } else {
        assert(min_at(cells, t) == 255);
        assert(cells[idx[last] as int] <= 255);
        last
    }
}

/// Raising cells never lowers the least of them at fixed positions.
proof fn lemma_min_at_monotone(lo: Seq<u8>, hi: Seq<u8>, idx: Seq<usize>)
    requires
        dominates(lo, hi),
        in_bounds(idx, lo.len()),
    ensures
        min_at(lo, idx) <= min_at(hi, idx),
{
    if idx.len() > 0 {
        let k = lemma_min_at_hit(hi, idx);
        lemma_min_at_le(lo, idx, k);
    }
}

proof fn lemma_index_set_in_bounds(key: Seq<u8>, size: nat)
    requires
        size > 0,
        size <= usize::MAX,
    ensures
        in_bounds(index_set(key, size), size),
        index_set(key, size).len() == LANES,
{
    let idx = index_set(key, size);
    assert forall|k: int| 0 <= k < idx.len() implies (#[trigger] idx[k] as nat) < size by {
        let l = hash_lanes_spec(key)[k] as nat;
        assert(l % size < size);
    }
}

/// Estimates never go down as the table only grows: the estimate of any key
/// in a table is at most its estimate in any table that dominates it cell by
/// cell (as every later state of an observed table does).
pub proof fn lemma_estimate_monotone(lo: Seq<u8>, hi: Seq<u8>, key: Seq<u8>)
    requires
        dominates(lo, hi),
        0 < lo.len() <= usize::MAX,
    ensures
        estimate_of(lo, key) <= estimate_of(hi, key),
{
    lemma_index_set_in_bounds(key, lo.len());
    lemma_min_at_monotone(lo, hi, index_set(key, lo.len()));
}

/// One observation, whatever the draw, leaves every cell at least where it was.
pub proof fn lemma_observe_dominates(cells: Seq<u8>, key: Seq<u8>, draw: u8)
    ensures
        dominates(cells, observed(cells, key, draw)),
{
}

/// A saturated key stays saturated: observing a key whose estimate is 255
/// changes nothing, whatever the draw.
pub proof fn lemma_saturated_is_fixed(cells: Seq<u8>, key: Seq<u8>, draw: u8)
    requires
        estimate_of(cells, key) == 255,
    ensures
        observed(cells, key, draw) == cells,
{
}

/// An accepted observation of a key raises its estimate by at least one, so
/// enough accepted observations bring it to 255, where it stays.
pub proof fn lemma_accepted_observe_raises(cells: Seq<u8>, key: Seq<u8>, draw: u8)
    requires
        0 < cells.len() <= usize::MAX,
        accepts(estimate_of(cells, key), draw),
    ensures
        estimate_of(cells, key) < 255,
        estimate_of(observed(cells, key, draw), key) > estimate_of(cells, key),
{
    let size = cells.len();
    let idx = index_set(key, size);
    let e = estimate_of(cells, key);
    let after = bumped(cells, idx);
    lemma_index_set_in_bounds(key, size);
    assert forall|k: int| 0 <= k < idx.len() implies after[#[trigger] idx[k] as int] >= (e + 1) as u8 by {
        lemma_min_at_le(cells, idx, k);
        assert(hits(idx, idx[k] as int));
    }
    lemma_min_at_lower_bound(after, idx, (e + 1) as u8);
}

/// The cells after `n` accepted observations of `key`.
pub open spec fn observed_times(cells: Seq<u8>, key: Seq<u8>, n: nat) -> Seq<u8>
    decreases n,
{
    if n == 0 {
        cells
    } else {
        let before = observed_times(cells, key, (n - 1) as nat);
        bumped(before, index_set(key, before.len()))
    }
}

proof fn lemma_observed_times_fresh(size: nat, key: Seq<u8>, n: nat)
    requires
        0 < size <= usize::MAX,
        n <= 255,
    ensures
        observed_times(Seq::new(size, |j: int| 0u8), key, n) == Seq::new(
            size,
            |j: int| if hits(index_set(key, size), j) { n as u8 } else { 0u8 },
        ),
    decreases n,
{
    if n > 0 {
        lemma_observed_times_fresh(size, key, (n - 1) as nat);
        let a = observed_times(Seq::new(size, |j: int| 0u8), key, n);
        let b = Seq::new(size, |j: int| if hits(index_set(key, size), j) { n as u8 } else { 0u8 });
        assert(a =~= b);
    }
}

/// On a fresh table, with no other key observed, a key's estimate after `n`
/// accepted observations (at most 255) is exactly `n`. So a key observed
/// `threshold - 1` times stays below `threshold` and one observed `threshold`
/// times reaches it.
pub proof fn lemma_fresh_estimate_counts(size: nat, key: Seq<u8>, n: nat)
    requires
        0 < size <= usize::MAX,
        n <= 255,
    ensures
        estimate_of(observed_times(Seq::new(size, |j: int| 0u8), key, n), key) == n,
{
    let cells = observed_times(Seq::new(size, |j: int| 0u8), key, n);
    let idx = index_set(key, size);
    lemma_observed_times_fresh(size, key, n);
    lemma_index_set_in_bounds(key, size);
    assert forall|k: int| 0 <= k < idx.len() implies cells[#[trigger] idx[k] as int] >= n as u8 by {
        assert(hits(idx, idx[k] as int));
    }
    lemma_min_at_lower_bound(cells, idx, n as u8);
    lemma_min_at_le(cells, idx, 0);
    assert(hits(idx, idx[0] as int));
}

/// Threshold boundary on a fresh table with no other key observed: after
/// `threshold - 1` accepted observations the key is below `threshold`; after
/// `threshold` it is at or above it.
pub proof fn lemma_threshold_boundary(size: nat, key: Seq<u8>, threshold: u8)
    requires
        0 < size <= usize::MAX,
        threshold >= 1,
    ensures
        estimate_of(observed_times(Seq::new(size, |j: int| 0u8), key, (threshold - 1) as nat), key)
            < threshold,
        estimate_of(observed_times(Seq::new(size, |j: int| 0u8), key, threshold as nat), key)
            >= threshold,
{
    lemma_fresh_estimate_counts(size, key, (threshold - 1) as nat);
    lemma_fresh_estimate_counts(size, key, threshold as nat);
}

/// A fixed-size array of one-byte saturating counters. Its cells only ever
/// grow. The same shape serves as the marking table of the classify pass.
pub struct CountingTable {
    cells: Vec<u8>,
}

impl View for CountingTable {
    type V = Seq<u8>;

    closed spec fn view(&self) -> Seq<u8> {
        self.cells@
    }
}

impl CountingTable {
    /// A table has at least one cell.
    pub open spec fn wf(&self) -> bool {
        self@.len() > 0
    }

    /// A table of `size` cells, all zero.
    pub fn new(size: usize) -> (r: CountingTable)
        requires
            size > 0,
        ensures
            r@ == Seq::new(size as nat, |j: int| 0u8),
            r.wf(),
    {
        let cells: Vec<u8> = vec![0u8; size];
        let r = CountingTable { cells };
        assert(r@ =~= Seq::new(size as nat, |j: int| 0u8));
        r
    }

    /// The number of cells.
    pub fn size(&self) -> (r: usize)
        ensures
            r == self@.len(),
    {
        self.cells.len()
    }

    /// The value of cell `j`.
    pub fn cell(&self, j: usize) -> (r: u8)
        requires
            j < self@.len(),
        ensures
            r == self@[j as int],
    {
        self.cells[j]
    }

    /// The table positions that `key` is probed at.
    pub fn indices(&self, key: &[u8]) -> (r: [usize; 8])
        requires
            self.wf(),
        ensures
            r@ == index_set(key@, self@.len()),
            in_bounds(r@, self@.len()),
    {
        let lanes = hash_lanes(key);
        table_indices(&lanes, self.cells.len())
    }

    /// The least cell among the positions `idx`, and 255 where all are 255.
    pub fn estimate_at(&self, idx: &[usize; 8]) -> (r: u8)
        requires
            in_bounds(idx@, self@.len()),
        ensures
            r == min_at(self@, idx@),
    {
        let mut m: u8 = CELL_MAX;
        let mut i: usize = 0;
        while i < LANES
            invariant
                i <= 8,
                in_bounds(idx@, self@.len()),
                m == min_at(self@, idx@.take(i as int)),
            decreases 8 - i,
        {
            proof {
                assert(idx@.take(i + 1).drop_last() =~= idx@.take(i as int));
            }
            let c = self.cells[idx[i]];
            if c < m {
                m = c;
            }
            i = i + 1;
        }
        assert(idx@.take(8) =~= idx@);
        m
    }

    /// The estimate of `key`: the least of its probed cells.
    pub fn estimate(&self, key: &[u8]) -> (r: u8)
        requires
            self.wf(),
        ensures
            r == estimate_of(self@, key@),
    {
        let idx = self.indices(key);
        self.estimate_at(&idx)
    }

    /// Raises each of the positions `idx` by one, once each, held at 255.
    pub fn bump_at(&mut self, idx: &[usize; 8])
        requires
            in_bounds(idx@, old(self)@.len()),
        ensures
            final(self)@ == bumped(old(self)@, idx@),
    {
        let ghost start = self@;
        let mut i: usize = 0;
        while i < LANES
            invariant
                i <= 8,
                start.len() == self@.len(),
                in_bounds(idx@, self@.len()),
                self@ == bumped(start, idx@.take(i as int)),
            decreases 8 - i,
        {
            let ghost before = idx@.take(i as int);
            let ghost after = idx@.take(i + 1);
            let mut seen = false;
            let mut k: usize = 0;
            while k < i
                invariant
                    k <= i < 8,
                    seen <==> exists|q: int| 0 <= q < k && idx@[q] == idx@[i as int],
                decreases i - k,
            {
                if idx[k] == idx[i] {
                    seen = true;
                }
                k = k + 1;
            }
            let j = idx[i];
            proof {
                assert forall|p: int| #[trigger] hits(after, p) <==> hits(before, p) || p
                    == idx@[i as int] by {
                    if hits(after, p) {
                        let q = choose|q: int| 0 <= q < after.len() && after[q] == p;
                        if q < i {
                            assert(before[q] == p);
                        }
                    }
                    if hits(before, p) {
                        let q = choose|q: int| 0 <= q < before.len() && before[q] == p;
                        assert(after[q] == p);
                    }
                    if p == idx@[i as int] {
                        assert(after[i as int] == p);
                    }
                }
                if seen {
                    let q = choose|q: int| 0 <= q < i && idx@[q] == idx@[i as int];
                    assert(before[q] == idx@[i as int]);
                } else {
                    assert(!hits(before, j as int));
                }
            }
            if !seen {
                let c = self.cells[j];
                if c < CELL_MAX {
                    self.cells.set(j, c + 1);
                }
            }
            i = i + 1;
            proof {
                assert(self@ =~= bumped(start, after));
            }
        }
        assert(idx@.take(8) =~= idx@);
    }

    /// Records one observation of `key` with the random byte `draw`: where the
    /// back-off policy accepts the draw, every probed cell is raised by one.
    pub fn observe_with(&mut self, key: &[u8], draw: u8)
        requires
            old(self).wf(),
        ensures
            final(self)@ == observed(old(self)@, key@, draw),
            final(self).wf(),
    {
        let idx = self.indices(key);
        let e = self.estimate_at(&idx);
        if should_increment(e, draw) {
            self.bump_at(&idx);
        }
    }

    /// Records one observation of `key`, drawing a uniform random byte for
    /// the back-off policy. The result is that of `observe_with` for some
    /// draw; a saturated key is left as it is.
    pub fn observe(&mut self, key: &[u8])
        requires
            old(self).wf(),
        ensures
            exists|draw: u8| final(self)@ == observed(old(self)@, key@, draw),
            dominates(old(self)@, final(self)@),
            estimate_of(old(self)@, key@) == 255 ==> final(self)@ == old(self)@,
            final(self).wf(),
    {
        let draw = random_byte();
        self.observe_with(key, draw);
    }

    /// Marks `key`: raises every probed cell by one, with no back-off.
    pub fn mark(&mut self, key: &[u8])
        requires
            old(self).wf(),
        ensures
            final(self)@ == bumped(old(self)@, index_set(key@, old(self)@.len())),
            final(self).wf(),
    {
        let idx = self.indices(key);
        self.bump_at(&idx);
    }

    /// Whether `key` is marked: all its probed cells are nonzero.
    pub fn is_marked(&self, key: &[u8]) -> (r: bool)
        requires
            self.wf(),
        ensures
            r == (estimate_of(self@, key@) != 0),
    {
        self.estimate(key) != 0
    }
}

} // verus!
