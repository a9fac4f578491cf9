//! Spaced windows of a record: for each span from 80 to 140 bases and each
//! start where the window fits, the left flank at the window's start joined
//! to the right flank at its end, the gap between them dropped.

use vstd::prelude::*;

verus! {

/// The shortest window span.
pub const MIN_SPAN: usize = 80;

/// One past the longest window span.
pub const SPAN_END: usize = 141;

/// Flank lengths that fit in the shortest window.
pub open spec fn valid_flanks(l_len: nat, r_len: nat) -> bool {
    l_len + r_len <= MIN_SPAN
}

/// The key of the window of `span` bases starting at `start`.
pub open spec fn window_key(rec: Seq<u8>, l_len: nat, r_len: nat, span: nat, start: nat) -> Seq<u8> {
    rec.subrange(start as int, (start + l_len) as int) + rec.subrange(
        start + span - r_len,
        (start + span) as int,
    )
}

/// The keys of all windows of `span` bases, by increasing start.
pub open spec fn span_windows(rec: Seq<u8>, l_len: nat, r_len: nat, span: nat) -> Seq<Seq<u8>> {
    if rec.len() >= span {
        Seq::new(
            (rec.len() - span + 1) as nat,
            |s: int| window_key(rec, l_len, r_len, span, s as nat),
        )
    } else {
        Seq::empty()
    }
}

/// The keys of all windows whose span is below `end`, by span then start.
pub open spec fn windows_upto(rec: Seq<u8>, l_len: nat, r_len: nat, end: nat) -> Seq<Seq<u8>>
    decreases end,
{
    if end <= MIN_SPAN {
        Seq::empty()
    } else {
        windows_upto(rec, l_len, r_len, (end - 1) as nat) + span_windows(
            rec,
            l_len,
            r_len,
            (end - 1) as nat,
        )
    }
}

/// The keys of all windows of a record, in the order they are scanned.
pub open spec fn record_windows(rec: Seq<u8>, l_len: nat, r_len: nat) -> Seq<Seq<u8>> {
    windows_upto(rec, l_len, r_len, SPAN_END as nat)
}

/// A scan position over the windows of one record.
pub struct WindowCursor {
    l_len: usize,
    r_len: usize,
    span: usize,
    start: usize,
}

impl WindowCursor {
    /// The length of the left flank.
    pub closed spec fn left(&self) -> nat {
        self.l_len as nat
    }

    /// The length of the right flank.
    pub closed spec fn right(&self) -> nat {
        self.r_len as nat
    }

    /// The spans not yet begun: the first measure of the scan's progress.
    pub closed spec fn spans_left(&self) -> nat {
        (SPAN_END - self.span) as nat
    }

    /// The starts not yet taken in the current span: the second measure.
    pub closed spec fn starts_left(&self, rec: Seq<u8>) -> nat {
        (rec.len() + 1 - self.start) as nat
    }

    /// At most 61 windows are handed out per position of a record.
    pub proof fn lemma_done_bound(&self, rec: Seq<u8>)
        requires
            self.inv(rec),
        ensures
            self.done(rec).len() <= 61 * (rec.len() + 1),
    {
        let n = rec.len() + 1;
        let span = self.span as nat;
        lemma_windows_upto_len(rec, self.l_len as nat, self.r_len as nat, span);
        lemma_span_windows_len(rec, self.l_len as nat, self.r_len as nat, span);
        let a = windows_upto(rec, self.l_len as nat, self.r_len as nat, span).len();
        if self.span == SPAN_END {
            assert(a <= 61 * n);
        } else {
            assert(a + self.start <= 61 * n) by (nonlinear_arith)
                requires
                    a <= (span - 80) * n,
                    self.start <= n,
                    span <= 140,
            ;
        }
    }

    /// The last window handed out is one of the record: of bases where the
    /// record is, and as long as both flanks.
    pub proof fn lemma_window_in_record(&self, rec: Seq<u8>)
        requires
            self.inv(rec),
            self.done(rec).len() > 0,
            crate::encoding::is_dna(rec),
        ensures
            crate::encoding::is_dna(self.done(rec).last()),
            self.done(rec).last().len() == self.left() + self.right(),
    {
        let l = self.l_len as nat;
        let r = self.r_len as nat;
        let span = self.span as nat;
        let sw = span_windows(rec, l, r, span);
        if self.start > 0 {
            assert(self.done(rec).last() == sw[self.start - 1]);
            lemma_window_is_dna(rec, l, r, span, (self.start - 1) as nat);
        } else {
            lemma_last_of_windows_upto(rec, l, r, span);
        }
    }

    /// The windows already handed out for a record.
    pub closed spec fn done(&self, rec: Seq<u8>) -> Seq<Seq<u8>> {
        windows_upto(rec, self.l_len as nat, self.r_len as nat, self.span as nat) + span_windows(
            rec,
            self.l_len as nat,
            self.r_len as nat,
            self.span as nat,
        ).take(self.start as int)
    }

    /// The cursor stands at a valid place of the scan of `rec`.
    pub closed spec fn inv(&self, rec: Seq<u8>) -> bool {
        &&& valid_flanks(self.l_len as nat, self.r_len as nat)
        &&& MIN_SPAN <= self.span <= SPAN_END
        &&& self.start <= span_windows(
            rec,
            self.l_len as nat,
            self.r_len as nat,
            self.span as nat,
        ).len()
        &&& self.span == SPAN_END ==> self.start == 0
    }

    /// A cursor at the first window.
    pub fn new(l_len: usize, r_len: usize) -> (r: WindowCursor)
        requires
            valid_flanks(l_len as nat, r_len as nat),
        ensures
            r.left() == l_len,
            r.right() == r_len,
            forall|rec: Seq<u8>| #[trigger] r.inv(rec) && r.done(rec).len() == 0,
    {
        let r = WindowCursor { l_len, r_len, span: MIN_SPAN, start: 0 };
        assert forall|rec: Seq<u8>| #[trigger] r.inv(rec) && r.done(rec).len() == 0 by {
            assert(r.done(rec) =~= Seq::empty());
        }
        r
    }

    /// Hands out the next window key of `record`, or `None` when every window
    /// has been handed out.
    pub fn next(&mut self, record: &[u8]) -> (r: Option<Vec<u8>>)
        requires
            old(self).inv(record@),
        ensures
            final(self).inv(record@),
            final(self).left() == old(self).left(),
            final(self).right() == old(self).right(),
            r matches Some(w) ==> final(self).done(record@) == old(self).done(record@).push(w@),
            r is Some ==> final(self).spans_left() < old(self).spans_left() || (
            final(self).spans_left() == old(self).spans_left()
                && final(self).starts_left(record@) < old(self).starts_left(record@)),
            r is None ==> final(self).done(record@) == old(self).done(record@)
                && old(self).done(record@) == record_windows(
                record@,
                old(self).left(),
                old(self).right(),
            ),
    {
        let ghost rec = record@;
        let ghost l = self.l_len as nat;
        let ghost rl = self.r_len as nat;
        let len = record.len();
        while self.span < SPAN_END && (len < self.span || self.start > len - self.span)
            invariant
                self.inv(rec),
                self.done(rec) == old(self).done(rec),
                self.span >= old(self).span,
                self.span == old(self).span ==> self.start == old(self).start,
                self.l_len == old(self).l_len,
                self.r_len == old(self).r_len,
                len == rec.len(),
                rec == record@,
                l == self.l_len,
                rl == self.r_len,
            decreases SPAN_END - self.span,
        {
            let ghost before = self.done(rec);
            proof {
                let sw = span_windows(rec, l, rl, self.span as nat);
                assert(sw.take(self.start as int) =~= sw);
                assert(span_windows(rec, l, rl, (self.span + 1) as nat).take(0) =~= Seq::empty());
            }
            self.span = self.span + 1;
            self.start = 0;
            proof {
                assert(self.done(rec) =~= before);
            }
        }
        if self.span == SPAN_END {
            proof {
                assert(span_windows(rec, l, rl, self.span as nat).take(0) =~= Seq::empty());
                assert(self.done(rec) =~= record_windows(rec, l, rl));
            }
            return None;
        }
        let span = self.span;
        let start = self.start;
        let mut key: Vec<u8> = Vec::new();
        let mut i: usize = 0;
        while i < self.l_len
            invariant
                i <= self.l_len,
                start + span <= len,
                self.l_len + self.r_len <= span,
                len == rec.len(),
                rec == record@,
                key@ == rec.subrange(start as int, start + i),
            decreases self.l_len - i,
        {
            key.push(record[start + i]);
            i = i + 1;
            assert(key@ =~= rec.subrange(start as int, start + i));
        }
        let r_start = start + span - self.r_len;
        let mut j: usize = 0;
        while j < self.r_len
            invariant
                j <= self.r_len,
                r_start + self.r_len == start + span,
                start + span <= len,
                len == rec.len(),
                rec == record@,
                key@ == rec.subrange(start as int, start + self.l_len) + rec.subrange(
                    r_start as int,
                    r_start + j,
                ),
            decreases self.r_len - j,
        {
            key.push(record[r_start + j]);
            j = j + 1;
            assert(key@ =~= rec.subrange(start as int, start + self.l_len) + rec.subrange(
                r_start as int,
                r_start + j,
            ));
        }
        let ghost before = self.done(rec);
        self.start = self.start + 1;
        proof {
            let sw = span_windows(rec, l, rl, span as nat);
            assert(sw[start as int] == window_key(rec, l, rl, span as nat, start as nat));
            assert(sw.take(start + 1) =~= sw.take(start as int).push(sw[start as int]));
            assert(self.done(rec) =~= before.push(key@));
        }
        Some(key)
    }
}

proof fn lemma_last_of_windows_upto(rec: Seq<u8>, l_len: nat, r_len: nat, end: nat)
    requires
        windows_upto(rec, l_len, r_len, end).len() > 0,
        crate::encoding::is_dna(rec),
        valid_flanks(l_len, r_len),
    ensures
        crate::encoding::is_dna(windows_upto(rec, l_len, r_len, end).last()),
        windows_upto(rec, l_len, r_len, end).last().len() == l_len + r_len,
    decreases end,
{
    let sw = span_windows(rec, l_len, r_len, (end - 1) as nat);
    let w = windows_upto(rec, l_len, r_len, end);
    if sw.len() > 0 {
        assert(w.last() == sw.last());
        lemma_window_is_dna(rec, l_len, r_len, (end - 1) as nat, (sw.len() - 1) as nat);
    } else {
        assert(w =~= windows_upto(rec, l_len, r_len, (end - 1) as nat));
        lemma_last_of_windows_upto(rec, l_len, r_len, (end - 1) as nat);
    }
}

proof fn lemma_windows_upto_len(rec: Seq<u8>, l_len: nat, r_len: nat, end: nat)
    ensures
        windows_upto(rec, l_len, r_len, end).len() <= if end <= 80 {
            0
        } else {
            (end - 80) * (rec.len() + 1)
        },
    decreases end,
{
    if end > 80 {
        lemma_windows_upto_len(rec, l_len, r_len, (end - 1) as nat);
        lemma_span_windows_len(rec, l_len, r_len, (end - 1) as nat);
        let n = rec.len() + 1;
        assert((end - 1 - 80) * n + n == (end - 80) * n) by (nonlinear_arith)
            requires end > 80;
    }
}

proof fn lemma_span_windows_len(rec: Seq<u8>, l_len: nat, r_len: nat, span: nat)
    ensures
        span_windows(rec, l_len, r_len, span).len() <= rec.len() + 1,
{
}

/// Every window key of a record of bases is made of bases and holds both
/// flanks.
pub proof fn lemma_window_is_dna(rec: Seq<u8>, l_len: nat, r_len: nat, span: nat, start: nat)
    requires
        crate::encoding::is_dna(rec),
        l_len + r_len <= span,
        start + span <= rec.len(),
    ensures
        crate::encoding::is_dna(window_key(rec, l_len, r_len, span, start)),
        window_key(rec, l_len, r_len, span, start).len() == l_len + r_len,
{
    let w = window_key(rec, l_len, r_len, span, start);
    assert forall|i: int| 0 <= i < w.len() implies crate::encoding::is_base(#[trigger] w[i]) by {
        if i < l_len {
            assert(w[i] == rec[start + i]);
        } else {
            assert(w[i] == rec[start + span - r_len + (i - l_len)]);
        }
    }
}

} // verus!
