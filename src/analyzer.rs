//! Rolling-window loudness estimation.
use vstd::prelude::*;
use std::collections::VecDeque;
use crate::arith::{floor_sqrt, is_floor_sqrt};

verus! {

/// A reading is due only when the number of samples seen is a multiple of this.
pub const RMS_CADENCE: u64 = 1024;

/// The last `n` elements of `s`, or all of `s` when it is shorter.
pub open spec fn trailing(s: Seq<i32>, n: nat) -> Seq<i32> {
    if s.len() <= n {
        s
    } else {
        s.subrange(s.len() - n, s.len() as int)
    }
}

/// The square of a sample.
pub open spec fn square(x: i32) -> nat {
    (x * x) as nat
}

/// Sum of the squares of the samples.
pub open spec fn sum_squares(s: Seq<i32>) -> nat
    decreases s.len(),
{
    if s.len() == 0 {
        0
    } else {
        sum_squares(s.drop_last()) + square(s.last())
    }
}

/// Mean of the squares, rounded down; zero for no samples.
pub open spec fn mean_square(s: Seq<i32>) -> nat {
    if s.len() == 0 {
        0
    } else {
        sum_squares(s) / s.len()
    }
}

/// `r` is the root-mean-square of `s`, rounded down.
pub open spec fn is_rms(r: nat, s: Seq<i32>) -> bool {
    is_floor_sqrt(r, mean_square(s))
}

/// Whether a reading is due after `total` samples with a window of `len`
/// out of `capacity`.
pub open spec fn reading_due(total: nat, len: nat, capacity: nat) -> bool {
    total > 0 && total % (RMS_CADENCE as nat) == 0 && len == capacity
}

pub proof fn lemma_square_bound(x: i32)
    ensures
        0 <= x * x <= 0x4000_0000_0000_0000,
        square(x) == x * x,
{
    assert(0 <= x * x <= 0x4000_0000_0000_0000) by (nonlinear_arith)
        requires
            -0x8000_0000 <= x < 0x8000_0000,
    ;
}

pub proof fn lemma_sum_squares_bound(s: Seq<i32>)
    ensures
        sum_squares(s) <= s.len() * 0x4000_0000_0000_0000,
    decreases s.len(),
{
    if s.len() > 0 {
        lemma_sum_squares_bound(s.drop_last());
        lemma_square_bound(s.last());
    }
}

/// Appending one sample and then keeping the last `n` is the same as keeping
/// the last `n` of the whole history with that sample appended.
pub proof fn lemma_trailing_push(s: Seq<i32>, x: i32, n: nat)
    ensures
        trailing(trailing(s, n).push(x), n) == trailing(s.push(x), n),
{
    if s.len() > n {
        assert(trailing(s, n).push(x) =~= s.push(x).subrange(s.len() - n, s.len() + 1int));
        assert(trailing(trailing(s, n).push(x), n) =~= trailing(s.push(x), n));
    }
}

/// Keeping the last `n` twice keeps the last `n`.
pub proof fn lemma_trailing_idempotent(s: Seq<i32>, n: nat)
    ensures
        trailing(trailing(s, n), n) == trailing(s, n),
{
}

/// Feeding samples through a window of `n` in any chunking leaves the last `n`
/// samples of the whole stream: a window refilled with `b` after holding the
/// last `n` of `s` equals the last `n` of `s + b`.
pub proof fn lemma_window_ignores_chunking(s: Seq<i32>, b: Seq<i32>, n: nat)
    ensures
        trailing(trailing(s, n) + b, n) == trailing(s + b, n),
    decreases b.len(),
{
    if b.len() == 0 {
        assert(trailing(s, n) + b =~= trailing(s, n));
        assert(s + b =~= s);
        lemma_trailing_idempotent(s, n);
    } else {
        let c = b.drop_last();
        let x = b.last();
        lemma_window_ignores_chunking(s, c, n);
        lemma_trailing_push(trailing(s, n) + c, x, n);
        lemma_trailing_push(s + c, x, n);
        assert(trailing(s, n) + b =~= (trailing(s, n) + c).push(x));
        assert(s + b =~= (s + c).push(x));
    }
}

/// The window of capacity `n` after a fresh estimator was fed `batches` in turn.
pub open spec fn window_after(n: nat, batches: Seq<Seq<i32>>) -> Seq<i32>
    decreases batches.len(),
{
    if batches.len() == 0 {
        Seq::empty()
    } else {
        trailing(window_after(n, batches.drop_last()) + batches.last(), n)
    }
}

/// However a stream of samples is cut into batches, the window ends up
/// holding exactly the last `n` samples of the whole stream.
pub proof fn lemma_window_after_batches(n: nat, batches: Seq<Seq<i32>>)
    ensures
        window_after(n, batches) == trailing(batches.flatten(), n),
    decreases batches.len(),
{
    batches.lemma_flatten_and_flatten_alt_are_equivalent();
    if batches.len() == 0 {
        assert(trailing(Seq::<i32>::empty(), n) == Seq::<i32>::empty());
    } else {
        let p = batches.drop_last();
        lemma_window_after_batches(n, p);
        p.lemma_flatten_and_flatten_alt_are_equivalent();
        lemma_window_ignores_chunking(p.flatten(), batches.last(), n);
    }
}

/// A rolling window over a stream of samples, emitting a root-mean-square
/// loudness reading at a fixed cadence.
pub struct AudioAnalyzer {
    samples: VecDeque<i32>,
    sample_count: u64,
    rms_window_size: usize,
}

impl AudioAnalyzer {
    /// The samples currently in the window, oldest first.
    pub closed spec fn window(&self) -> Seq<i32> {
        self.samples@
    }

    /// How many samples have been ingested since creation.
    pub closed spec fn total_seen(&self) -> nat {
        self.sample_count as nat
    }

    /// The window's capacity.
    pub closed spec fn capacity(&self) -> nat {
        self.rms_window_size as nat
    }

    /// The window holds the last `capacity` samples seen, or all of them.
    pub closed spec fn wf(&self) -> bool {
        &&& self.samples@.len() <= self.rms_window_size
        &&& self.samples@.len() == if self.sample_count < self.rms_window_size {
            self.sample_count as nat
        } else {
            self.rms_window_size as nat
        }
    }

    pub fn new(window_size: usize) -> (r: Self)
        ensures
            r.wf(),
            r.window() == Seq::<i32>::empty(),
            r.total_seen() == 0,
            r.capacity() == window_size,
    {
        AudioAnalyzer {
            samples: VecDeque::with_capacity(window_size),
            sample_count: 0,
            rms_window_size: window_size,
        }
    }

    /// How many samples have been ingested since creation.
    pub fn samples_seen(&self) -> (r: u64)
        ensures
            r == self.total_seen(),
    {
        self.sample_count
    }

    /// How many samples the window holds.
    pub fn window_len(&self) -> (r: usize)
        ensures
            r == self.window().len(),
    {
        self.samples.len()
    }

    /// Appends each sample to the window, dropping the oldest beyond capacity,
    /// then returns a reading if one is due.
    pub fn add_samples(&mut self, new_samples: &[i32]) -> (r: Option<u64>)
        requires
            old(self).wf(),
            old(self).total_seen() + new_samples@.len() <= u64::MAX,
        ensures
            final(self).wf(),
            final(self).capacity() == old(self).capacity(),
            final(self).total_seen() == old(self).total_seen() + new_samples@.len(),
            final(self).window() == trailing(old(self).window() + new_samples@, old(self).capacity()),
            r is Some <==> reading_due(
                final(self).total_seen(),
                final(self).window().len(),
                final(self).capacity(),
            ),
            r matches Some(v) ==> is_rms(v as nat, final(self).window()),
    {
        let ghost start = self.samples@;
        let ghost cap = self.rms_window_size as nat;
        assert(trailing(start + new_samples@.take(0), cap) == start) by {
            assert(start + new_samples@.take(0) =~= start);
        }
        let mut i: usize = 0;
        while i < new_samples.len()
            invariant
                self.wf(),
                i <= new_samples@.len(),
                self.rms_window_size == cap,
                self.sample_count == old(self).sample_count + i,
                old(self).total_seen() + new_samples@.len() <= u64::MAX,
                self.samples@ == trailing(start + new_samples@.take(i as int), cap),
            decreases new_samples@.len() - i,
        {
            let x = new_samples[i];
            proof {
                lemma_trailing_push(start + new_samples@.take(i as int), x, cap);
                assert(start + new_samples@.take(i + 1) =~= (start + new_samples@.take(
                    i as int,
                )).push(x));
            }
            self.samples.push_back(x);
            self.sample_count = self.sample_count + 1;
            if self.samples.len() > self.rms_window_size {
                self.samples.pop_front();
            }
            i = i + 1;
        }
        proof {
            assert(new_samples@.take(i as int) =~= new_samples@);
        }
        if self.sample_count % RMS_CADENCE == 0 && self.sample_count > 0
            && self.samples.len() == self.rms_window_size {
            Some(self.calculate_rms())
        } else {
            None
        }
    }

    /// Root-mean-square of the window, rounded down; zero for an empty window.
    pub fn calculate_rms(&self) -> (r: u64)
        ensures
            is_rms(r as nat, self.window()),
    {
        let n = self.samples.len();
        if n == 0 {
            proof {
                assert(is_floor_sqrt(0, 0)) by (nonlinear_arith);
            }
            return 0;
        }
        let mut sum: u128 = 0;
        let mut i: usize = 0;
        while i < n
            invariant
                n == self.samples@.len(),
                i <= n,
                sum == sum_squares(self.samples@.take(i as int)),
            decreases n - i,
        {
            let x = self.samples[i];
            proof {
                let s = self.samples@.take(i + 1);
                assert(s.drop_last() =~= self.samples@.take(i as int));
                lemma_sum_squares_bound(s);
                lemma_square_bound(x);
                assert((i + 1) * 0x4000_0000_0000_0000 < u128::MAX) by (nonlinear_arith)
                    requires
                        i < 0x1_0000_0000_0000_0000,
                ;
            }
            let wide = x as i64;
            let sq = wide * wide;
            sum = sum + sq as u128;
            i = i + 1;
        }
        proof {
            assert(self.samples@.take(n as int) =~= self.samples@);
            lemma_sum_squares_bound(self.samples@);
            let t = sum_squares(self.samples@);
            assert(t / (n as nat) <= 0x4000_0000_0000_0000) by (nonlinear_arith)
                requires
                    t <= n * 0x4000_0000_0000_0000,
                    n > 0,
            ;
        }
        let mean = (sum / (n as u128)) as u64;
        floor_sqrt(mean)
    }
}

} // verus!
