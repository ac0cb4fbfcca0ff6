//! The decision step of the capture loop: samples in, volume commands out.
use vstd::prelude::*;
use crate::analyzer::{AudioAnalyzer, is_rms, reading_due, trailing};
use crate::controller::{ControllerState, VolumeController, as_int, emission, next_state};

verus! {

/// How many frames of `channels` samples `len` samples make, a short last
/// frame included.
pub open spec fn frame_count(len: nat, channels: nat) -> nat {
    if len % channels == 0 {
        len / channels
    } else {
        len / channels + 1
    }
}

/// Each frame that is counted starts inside the samples.
pub proof fn lemma_frame_start_in_bounds(k: nat, len: nat, channels: nat)
    requires
        channels > 0,
        k < frame_count(len, channels),
    ensures
        k * channels < len,
{
    let q = len / channels;
    let m = len % channels;
    vstd::arithmetic::div_mod::lemma_fundamental_div_mod(len as int, channels as int);
    assert(k * channels < len) by (nonlinear_arith)
        requires
            channels > 0,
            len == channels * q + m,
            0 <= m < channels,
            k < q || (k == q && m != 0),
    ;
}

/// The first channel of each frame of interleaved samples; a short last
/// frame still contributes its first sample.
pub fn first_channel(data: &[i32], channels: usize) -> (r: Vec<i32>)
    requires
        channels > 0,
    ensures
        r@.len() == frame_count(data@.len(), channels as nat),
        forall|i: int|
            0 <= i < r@.len() ==> #[trigger] r@[i] == data@[i * channels],
{
    let whole = data.len() / channels;
    let frames = if data.len() % channels == 0 {
        whole
    } else {
        proof {
            assert(whole * channels <= data@.len()) by (nonlinear_arith)
                requires
                    channels > 0,
                    whole == data@.len() / (channels as nat),
            ;
            assert(whole < usize::MAX) by (nonlinear_arith)
                requires
                    channels > 0,
                    whole * channels <= data@.len(),
                    data@.len() % (channels as nat) != 0,
                    data@.len() <= usize::MAX,
                    whole == data@.len() / (channels as nat),
            ;
        }
        whole + 1
    };
    let mut r: Vec<i32> = Vec::new();
    let mut k: usize = 0;
    while k < frames
        invariant
            channels > 0,
            data@.len() <= usize::MAX,
            frames == frame_count(data@.len(), channels as nat),
            k <= frames,
            r@.len() == k,
            forall|i: int| 0 <= i < k ==> #[trigger] r@[i] == data@[i * channels],
        decreases frames - k,
    {
        proof {
            lemma_frame_start_in_bounds(k as nat, data@.len(), channels as nat);
            assert(k as int * channels as int == (k as nat) * (channels as nat));
        }
        let start = k * channels;
        let ghost before = r@;
        r.push(data[start]);
        proof {
            assert forall|i: int| 0 <= i < k + 1 implies #[trigger] r@[i] == data@[i * channels] by {
                if i < k {
                    assert(r@[i] == before[i]);
                }
            }
        }
        k = k + 1;
    }
    r
}

/// What one batch of samples produced.
pub struct BatchOutcome {
    /// The loudness reading, when one was due.
    pub loudness: Option<u64>,
    /// The volume to send, when the controller emitted one.
    pub volume: Option<u64>,
}

/// The estimator feeding the controller.
pub struct Pipeline {
    pub analyzer: AudioAnalyzer,
    pub controller: VolumeController,
}

impl Pipeline {
    pub open spec fn wf(&self) -> bool {
        self.analyzer.wf() && self.controller.wf()
    }

    pub fn new(analyzer: AudioAnalyzer, controller: VolumeController) -> (r: Self)
        ensures
            r.analyzer == analyzer,
            r.controller == controller,
    {
        Pipeline { analyzer, controller }
    }

    /// Feeds one batch of mono samples received at `now_ms` through the
    /// estimator and, when a reading is due, through the controller.
    pub fn on_batch(&mut self, samples: &[i32], now_ms: u64) -> (r: BatchOutcome)
        requires
            old(self).wf(),
            old(self).analyzer.total_seen() + samples@.len() <= u64::MAX,
        ensures
            final(self).wf(),
            final(self).analyzer.capacity() == old(self).analyzer.capacity(),
            final(self).analyzer.total_seen() == old(self).analyzer.total_seen() + samples@.len(),
            final(self).analyzer.window() == trailing(
                old(self).analyzer.window() + samples@,
                old(self).analyzer.capacity(),
            ),
            r.loudness is Some <==> reading_due(
                final(self).analyzer.total_seen(),
                final(self).analyzer.window().len(),
                final(self).analyzer.capacity(),
            ),
            r.loudness matches Some(l) ==> is_rms(l as nat, final(self).analyzer.window())
                && final(self).controller@ == next_state(old(self).controller@, l as int, now_ms as int)
                && as_int(r.volume) == emission(old(self).controller@, l as int, now_ms as int),
            r.loudness is None ==> final(self).controller@ == old(self).controller@
                && r.volume is None,
    {
        let loudness = self.analyzer.add_samples(samples);
        let volume = match loudness {
            Some(l) => self.controller.update(l, now_ms),
            None => None,
        };
        BatchOutcome { loudness, volume }
    }
}

} // verus!
