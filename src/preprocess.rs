//! Per-frame preprocessing before voice activity detection, on 16-bit samples.
use vstd::prelude::*;
use crate::segmenter::{
    frame_outcome, ordered_within, seg_end, valid_emitted, SmartAudioBuffer, SpeechSegment,
    MIN_SEGMENT_SAMPLES,
};
use crate::vad::{frame_score, lemma_zero_frame, next_history, smoothed_speech};
use crate::vad::{sum_of_squares, sum_sq, ENERGY_THRESHOLD};

verus! {

/// Peak after normalisation: 0.95 of full scale.
pub const NORMALIZED_PEAK: i64 = 31129;

/// Division rounding toward zero.
pub open spec fn tdiv(a: int, b: int) -> int {
    if a >= 0 {
        a / b
    } else {
        -((-a) / b)
    }
}

/// Attenuates a frame tenfold when its mean square is below the threshold.
pub open spec fn gated(a: Seq<i16>) -> Seq<i16> {
    if sum_sq(a) < ENERGY_THRESHOLD * a.len() {
        Seq::new(a.len(), |i: int| tdiv(a[i] as int, 10) as i16)
    } else {
        a
    }
}

/// `y[n] = x[n] - 0.97 x[n - 1]`, rounded toward zero; the first sample stays.
pub open spec fn emphasized(a: Seq<i16>) -> Seq<i32> {
    Seq::new(
        a.len(),
        |i: int|
            if i == 0 {
                a[0] as i32
            } else {
                tdiv(100 * a[i] - 97 * a[i - 1], 100) as i32
            },
    )
}

pub open spec fn iabs(x: int) -> int {
    if x >= 0 {
        x
    } else {
        -x
    }
}

/// Largest magnitude among the first `n` samples.
pub open spec fn peak(a: Seq<i32>, n: nat) -> int
    decreases n,
{
    if n == 0 {
        0
    } else {
        let p = peak(a, (n - 1) as nat);
        if iabs(a[n - 1] as int) > p {
            iabs(a[n - 1] as int)
        } else {
            p
        }
    }
}

/// Scales the frame so its peak is 0.95 of full scale; silence stays silent.
pub open spec fn normalized(a: Seq<i32>) -> Seq<i16> {
    let m = peak(a, a.len());
    Seq::new(
        a.len(),
        |i: int|
            if m > 0 {
                tdiv(a[i] * NORMALIZED_PEAK, m) as i16
            } else {
                a[i] as i16
            },
    )
}

pub open spec fn preprocessed(a: Seq<i16>) -> Seq<i16> {
    normalized(emphasized(gated(a)))
}

/// Preprocessing keeps the number of samples.
pub proof fn lemma_preprocessed_len(a: Seq<i16>)
    ensures
        preprocessed(a).len() == a.len(),
{
}

proof fn lemma_peak_zero(a: Seq<i32>, n: nat)
    requires
        n <= a.len(),
        forall|i: int| 0 <= i < a.len() ==> a[i] == 0,
    ensures
        peak(a, n) == 0,
    decreases n,
{
    if n > 0 {
        lemma_peak_zero(a, (n - 1) as nat);
    }
}

/// A frame of zeros stays zeros through preprocessing and scores no speech.
pub proof fn lemma_silent_frame(a: Seq<i16>)
    requires
        forall|i: int| 0 <= i < a.len() ==> a[i] == 0,
    ensures
        preprocessed(a).len() == a.len(),
        forall|i: int| 0 <= i < a.len() ==> preprocessed(a)[i] == 0,
        frame_score(preprocessed(a), ENERGY_THRESHOLD as nat) == 0,
{
    lemma_zero_frame(a, ENERGY_THRESHOLD as nat);
    let g = gated(a);
    assert forall|i: int| 0 <= i < g.len() implies g[i] == 0 by {
        if sum_sq(a) < ENERGY_THRESHOLD * a.len() {
            assert(g[i] == tdiv(a[i] as int, 10) as i16);
        }
    }
    let e = emphasized(g);
    assert forall|i: int| 0 <= i < e.len() implies e[i] == 0 by {
        if i > 0 {
            assert(tdiv(100 * g[i] - 97 * g[i - 1], 100) == 0);
        }
    }
    lemma_peak_zero(e, e.len());
    let p = preprocessed(a);
    assert forall|i: int| 0 <= i < p.len() implies p[i] == 0 by {}
    lemma_zero_frame(p, ENERGY_THRESHOLD as nat);
}

proof fn lemma_peak(a: Seq<i32>, n: nat)
    requires
        n <= a.len(),
    ensures
        0 <= peak(a, n) <= 0x8000_0000,
        forall|i: int| 0 <= i < n ==> iabs(a[i] as int) <= peak(a, n),
    decreases n,
{
    if n > 0 {
        lemma_peak(a, (n - 1) as nat);
    }
}

proof fn lemma_tdiv_bound(x: int, m: int)
    requires
        m > 0,
        iabs(x) <= m * NORMALIZED_PEAK,
    ensures
        -NORMALIZED_PEAK <= tdiv(x, m) <= NORMALIZED_PEAK,
{
    if x >= 0 {
        assert(x / m <= NORMALIZED_PEAK) by (nonlinear_arith)
            requires
                x <= m * NORMALIZED_PEAK,
                m > 0,
                x >= 0,
        ;
        assert(x / m >= 0) by (nonlinear_arith)
            requires
                x >= 0,
                m > 0,
        ;
    } else {
        assert((-x) / m <= NORMALIZED_PEAK) by (nonlinear_arith)
            requires
                -x <= m * NORMALIZED_PEAK,
                m > 0,
                -x >= 0,
        ;
        assert((-x) / m >= 0) by (nonlinear_arith)
            requires
                -x >= 0,
                m > 0,
        ;
    }
}

fn tdiv_i64(a: i64, b: i64) -> (r: i64)
    requires
        b > 0,
        a > i64::MIN,
    ensures
        r == tdiv(a as int, b as int),
{
    if a >= 0 {
        a / b
    } else {
        -((-a) / b)
    }
}

/// Noise gate at [`ENERGY_THRESHOLD`], pre-emphasis 0.97, peak 0.95.
pub struct AudioPreprocessor {}

impl AudioPreprocessor {
    pub fn new() -> (r: Self) {
        AudioPreprocessor {}
    }

    pub fn apply_noise_gate(&self, audio: &[i16]) -> (r: Vec<i16>)
        ensures
            r@ == gated(audio@),
    {
        let e = sum_of_squares(audio);
        let n = audio.len();
        let mut r: Vec<i16> = Vec::new();
        let quiet = e < (ENERGY_THRESHOLD as u128) * (n as u128);
        let mut i: usize = 0;
        while i < n
            invariant
                n == audio@.len(),
                i <= n,
                r@.len() == i,
                quiet == (sum_sq(audio@) < ENERGY_THRESHOLD * audio@.len()),
                forall|k: int| 0 <= k < i ==> r@[k] == gated(audio@)[k],
            decreases n - i,
        {
            let x = audio[i];
            let y = if quiet {
                tdiv_i64(x as i64, 10) as i16
            } else {
                x
            };
            r.push(y);
            i += 1;
        }
        assert(r@ =~= gated(audio@));
        r
    }

    pub fn apply_preemphasis(&self, audio: &Vec<i16>) -> (r: Vec<i32>)
        ensures
            r@ == emphasized(audio@),
    {
        let n = audio.len();
        let mut r: Vec<i32> = Vec::new();
        let mut i: usize = 0;
        while i < n
            invariant
                n == audio@.len(),
                i <= n,
                r@.len() == i,
                forall|k: int| 0 <= k < i ==> r@[k] == emphasized(audio@)[k],
            decreases n - i,
        {
            let y = if i == 0 {
                audio[0] as i32
            } else {
                let v = 100 * (audio[i] as i64) - 97 * (audio[i - 1] as i64);
                tdiv_i64(v, 100) as i32
            };
            r.push(y);
            i += 1;
        }
        assert(r@ =~= emphasized(audio@));
        r
    }

    pub fn normalize_audio(&self, audio: &Vec<i32>) -> (r: Vec<i16>)
        requires
            forall|k: int| 0 <= k < audio@.len() ==> -0x10000 <= #[trigger] audio@[k] <= 0x10000,
        ensures
            r@ == normalized(audio@),
    {
        let n = audio.len();
        let mut m: i64 = 0;
        let mut i: usize = 0;
        while i < n
            invariant
                n == audio@.len(),
                i <= n,
                m == peak(audio@, i as nat),
            decreases n - i,
        {
            let x = audio[i] as i64;
            let ax = if x >= 0 {
                x
            } else {
                -x
            };
            if ax > m {
                m = ax;
            }
            i += 1;
        }
        proof {
            lemma_peak(audio@, n as nat);
        }
        let mut r: Vec<i16> = Vec::new();
        let mut i: usize = 0;
        while i < n
            invariant
                n == audio@.len(),
                i <= n,
                r@.len() == i,
                m == peak(audio@, n as nat),
                0 <= m <= 0x8000_0000,
                forall|k: int| 0 <= k < n ==> iabs(audio@[k] as int) <= m,
                forall|k: int| 0 <= k < audio@.len() ==> -0x10000 <= #[trigger] audio@[k] <= 0x10000,
                forall|k: int| 0 <= k < i ==> r@[k] == normalized(audio@)[k],
            decreases n - i,
        {
            let x = audio[i] as i64;
            let y = if m > 0 {
                let v = x * NORMALIZED_PEAK;
                proof {
                    assert(iabs(x * NORMALIZED_PEAK) <= m * NORMALIZED_PEAK) by (nonlinear_arith)
                        requires
                            iabs(x as int) <= m,
                    ;
                    lemma_tdiv_bound(x * NORMALIZED_PEAK, m as int);
                }
                tdiv_i64(v, m) as i16
            } else {
                proof {
                    assert(iabs(x as int) <= 0);
                }
                x as i16
            };
            r.push(y);
            i += 1;
        }
        assert(r@ =~= normalized(audio@));
        r
    }

    /// Noise gate, pre-emphasis, then peak normalisation.
    pub fn process(&self, audio: &[i16]) -> (r: Vec<i16>)
        ensures
            r@ == preprocessed(audio@),
    {
        let g = self.apply_noise_gate(audio);
        let e = self.apply_preemphasis(&g);
        assert forall|k: int| 0 <= k < e@.len() implies -0x10000 <= #[trigger] e@[k] <= 0x10000 by {
            if k > 0 {
                let v = 100 * g@[k] - 97 * g@[k - 1];
                assert(-0x10000 * 100 <= v <= 0x10000 * 100);
                if v >= 0 {
                    assert(v / 100 <= 0x10000) by (nonlinear_arith)
                        requires
                            0 <= v <= 0x10000 * 100,
                    ;
                } else {
                    assert((-v) / 100 <= 0x10000) by (nonlinear_arith)
                        requires
                            0 <= -v <= 0x10000 * 100,
                    ;
                }
            }
        }
        self.normalize_audio(&e)
    }
}

/// Preprocessor followed by the segmenter.
pub struct AudioProcessingPipeline {
    buffer: SmartAudioBuffer,
    preprocessor: AudioPreprocessor,
}

impl AudioProcessingPipeline {
    pub closed spec fn segmenter(&self) -> SmartAudioBuffer {
        self.buffer
    }

    pub fn new() -> (r: Self)
        ensures
            r.segmenter().wf(),
            r.segmenter().quiet(),
            r.segmenter().stream().len() == 0,
    {
        AudioProcessingPipeline { buffer: SmartAudioBuffer::new(), preprocessor: AudioPreprocessor::new() }
    }

    /// Preprocesses a frame and feeds it to the segmenter.
    pub fn process_chunk(&mut self, chunk: &[i16]) -> (out: Vec<SpeechSegment>)
        requires
            old(self).segmenter().wf(),
            old(self).segmenter().stream().len() + chunk@.len() <= u64::MAX,
        ensures
            final(self).segmenter().wf(),
            final(self).segmenter().stream() == old(self).segmenter().stream() + preprocessed(chunk@),
            forall|k: int| 0 <= k < out@.len() ==> valid_emitted(out@[k], final(self).segmenter().stream()),
            ordered_within(
                out@,
                old(self).segmenter().emitted_end() as int,
                final(self).segmenter().emitted_end() as int,
            ),
            old(self).segmenter().emitted_end() <= final(self).segmenter().emitted_end(),
            final(self).segmenter().history() == next_history(
                old(self).segmenter().history(),
                frame_score(preprocessed(chunk@), ENERGY_THRESHOLD as nat),
            ),
            frame_outcome(
                old(self).segmenter().current(),
                old(self).segmenter().last_speech(),
                old(self).segmenter().stream().len() as int,
                final(self).segmenter().stream().len() as int,
                smoothed_speech(final(self).segmenter().history()),
                out@,
                final(self).segmenter().current(),
                final(self).segmenter().last_speech(),
            ),
            old(self).segmenter().quiet() && frame_score(preprocessed(chunk@), ENERGY_THRESHOLD as nat)
                == 0 ==> out@.len() == 0 && final(self).segmenter().quiet(),
            old(self).segmenter().quiet() && (forall|i: int| 0 <= i < chunk@.len() ==> chunk@[i] == 0)
                ==> out@.len() == 0 && final(self).segmenter().quiet(),
    {
        let p = self.preprocessor.process(chunk);
        proof {
            if forall|i: int| 0 <= i < chunk@.len() ==> chunk@[i] == 0 {
                lemma_silent_frame(chunk@);
            }
        }
        self.buffer.add_chunk(p.as_slice())
    }

    /// Closes the open segment at the end of the stream; a segment shorter
    /// than the minimum is dropped.
    pub fn force_complete_current(&mut self) -> (r: Option<SpeechSegment>)
        requires
            old(self).segmenter().wf(),
        ensures
            final(self).segmenter().wf(),
            final(self).segmenter().stream() == old(self).segmenter().stream(),
            final(self).segmenter().current().is_none(),
            final(self).segmenter().history() == old(self).segmenter().history(),
            final(self).segmenter().last_speech() == old(self).segmenter().last_speech(),
            r matches Some(s) ==> valid_emitted(s, final(self).segmenter().stream()),
            r.is_some() == (old(self).segmenter().current() matches Some(c) && c.audio_data@.len()
                >= MIN_SEGMENT_SAMPLES),
            r matches Some(s) ==> old(self).segmenter().current() matches Some(c) && s.start_time
                == c.start_time && s.audio_data@ == c.audio_data@,
            r matches Some(s) ==> old(self).segmenter().emitted_end() <= s.start_time && seg_end(s)
                == final(self).segmenter().emitted_end(),
            r.is_none() ==> final(self).segmenter().emitted_end() == old(self).segmenter().emitted_end(),
    {
        self.buffer.force_complete_current()
    }

    pub fn get_speech_probability(&self) -> (r: u32)
        requires
            self.segmenter().wf(),
        ensures
            r == crate::vad::probability_of(self.segmenter().history()),
    {
        self.buffer.get_speech_probability()
    }
}

} // verus!
