//! Voice activity detection on 16-bit PCM frames: energy and zero-crossing
//! features with a ten-frame moving average.
use vstd::prelude::*;

verus! {

/// Energy threshold on the mean square of 16-bit samples (0.001 of full scale squared).
pub const ENERGY_THRESHOLD: u64 = 1_073_742;

/// Number of frame scores in the moving average.
pub const HISTORY_LEN: usize = 10;

#[derive(Debug, Clone, Copy, PartialEq, Eq, Structural)]
pub enum SpeechBoundary {
    SpeechStart,
    SilenceStart,
    Continuing,
}

pub open spec fn sum_sq(a: Seq<i16>) -> nat
    decreases a.len(),
{
    if a.len() == 0 {
        0
    } else {
        sum_sq(a.drop_last()) + (a.last() as int * a.last() as int) as nat
    }
}

/// Number of adjacent pairs whose signs differ (zero counts as positive).
pub open spec fn crossings(a: Seq<i16>) -> nat
    decreases a.len(),
{
    if a.len() < 2 {
        0
    } else {
        crossings(a.drop_last()) + if (a[a.len() - 2] >= 0) != (a.last() >= 0) {
            1nat
        } else {
            0nat
        }
    }
}

/// Mean square above `threshold`.
pub open spec fn energy_above(a: Seq<i16>, threshold: nat) -> bool {
    sum_sq(a) > threshold * a.len()
}

/// Zero-crossing rate above 0.3.
pub open spec fn zcr_above(a: Seq<i16>) -> bool {
    a.len() >= 2 && 10 * crossings(a) > 3 * (a.len() - 1)
}

/// Frame score in tenths: 7 for energy, 3 for zero crossings.
pub open spec fn frame_score(a: Seq<i16>, threshold: nat) -> u8 {
    ((if energy_above(a, threshold) {
        7int
    } else {
        0int
    }) + (if zcr_above(a) {
        3int
    } else {
        0int
    })) as u8
}

pub open spec fn score_sum(h: Seq<u8>) -> nat
    decreases h.len(),
{
    if h.len() == 0 {
        0
    } else {
        score_sum(h.drop_last()) + h.last() as nat
    }
}

/// The history after one more score: the last ten scores.
pub open spec fn next_history(h: Seq<u8>, score: u8) -> Seq<u8> {
    if h.len() + 1 > 10 {
        h.push(score).drop_first()
    } else {
        h.push(score)
    }
}

/// Speech when the mean score is above 3 tenths.
pub open spec fn smoothed_speech(h: Seq<u8>) -> bool {
    score_sum(h) > 3 * h.len()
}

/// Mean score, as a probability in thousandths.
pub open spec fn probability_of(h: Seq<u8>) -> u32 {
    if h.len() == 0 {
        0
    } else {
        (score_sum(h) * 100 / h.len()) as u32
    }
}

pub open spec fn boundary_of(a: Seq<i16>, threshold: nat) -> SpeechBoundary {
    if 10 * sum_sq(a) < threshold * a.len() {
        SpeechBoundary::SilenceStart
    } else if sum_sq(a) > 2 * (threshold * a.len()) {
        SpeechBoundary::SpeechStart
    } else {
        SpeechBoundary::Continuing
    }
}

pub proof fn lemma_sum_sq_bound(a: Seq<i16>)
    ensures
        sum_sq(a) <= a.len() * 0x4000_0000,
    decreases a.len(),
{
    if a.len() > 0 {
        lemma_sum_sq_bound(a.drop_last());
        let x = a.last() as int;
        assert(0 <= x * x <= 0x4000_0000) by (nonlinear_arith)
            requires
                -32768 <= x <= 32767,
        ;
        assert(sum_sq(a) <= a.len() * 0x4000_0000) by (nonlinear_arith)
            requires
                sum_sq(a) == sum_sq(a.drop_last()) + x * x,
                sum_sq(a.drop_last()) <= (a.len() - 1) * 0x4000_0000,
                x * x <= 0x4000_0000,
        ;
    }
}

proof fn lemma_crossings_bound(a: Seq<i16>)
    ensures
        crossings(a) <= a.len(),
    decreases a.len(),
{
    if a.len() >= 2 {
        lemma_crossings_bound(a.drop_last());
    }
}

proof fn lemma_score_sum_bound(h: Seq<u8>)
    requires
        forall|i: int| 0 <= i < h.len() ==> h[i] <= 10,
    ensures
        score_sum(h) <= 10 * h.len(),
    decreases h.len(),
{
    if h.len() > 0 {
        lemma_score_sum_bound(h.drop_last());
    }
}

pub proof fn lemma_mean_square_bound(a: Seq<i16>)
    requires
        a.len() > 0,
    ensures
        sum_sq(a) / a.len() as nat <= 0x4000_0000,
{
    lemma_sum_sq_bound(a);
    let s = sum_sq(a);
    let n = a.len() as nat;
    assert(s / n <= 0x4000_0000) by (nonlinear_arith)
        requires
            s <= n * 0x4000_0000,
            n > 0,
    ;
}

/// A frame of zeros has no energy and no zero crossings, so it scores nothing.
pub proof fn lemma_zero_frame(a: Seq<i16>, threshold: nat)
    requires
        forall|i: int| 0 <= i < a.len() ==> a[i] == 0,
    ensures
        sum_sq(a) == 0,
        crossings(a) == 0,
        frame_score(a, threshold) == 0,
    decreases a.len(),
{
    if a.len() > 0 {
        lemma_zero_frame(a.drop_last(), threshold);
        assert(a.drop_last().len() >= 1 ==> a[a.len() - 2] == 0);
    }
}

/// A history of silent frames stays silent and does not report speech.
pub proof fn lemma_zero_history(h: Seq<u8>)
    requires
        forall|i: int| 0 <= i < h.len() ==> h[i] == 0,
    ensures
        forall|i: int| 0 <= i < next_history(h, 0).len() ==> next_history(h, 0)[i] == 0,
        score_sum(next_history(h, 0)) == 0,
        !smoothed_speech(next_history(h, 0)),
{
    let nh = next_history(h, 0);
    assert forall|i: int| 0 <= i < nh.len() implies nh[i] == 0 by {}
    lemma_zero_sum(nh);
}

proof fn lemma_zero_sum(h: Seq<u8>)
    requires
        forall|i: int| 0 <= i < h.len() ==> h[i] == 0,
    ensures
        score_sum(h) == 0,
    decreases h.len(),
{
    if h.len() > 0 {
        lemma_zero_sum(h.drop_last());
    }
}

/// Sum of squares of the samples.
pub fn sum_of_squares(a: &[i16]) -> (r: u128)
    ensures
        r == sum_sq(a@),
{
    let mut s: u128 = 0;
    let mut i: usize = 0;
    while i < a.len()
        invariant
            i <= a@.len(),
            s == sum_sq(a@.subrange(0, i as int)),
            s <= i * 0x4000_0000,
        decreases a@.len() - i,
    {
        let ghost nxt = a@.subrange(0, i + 1);
        assert(nxt.drop_last() =~= a@.subrange(0, i as int));
        let x = a[i] as i64;
        assert(0 <= x * x <= 0x4000_0000) by (nonlinear_arith)
            requires
                -32768 <= x <= 32767,
        ;
        let sq = (x * x) as u128;
        assert(s + sq <= (i + 1) * 0x4000_0000) by (nonlinear_arith)
            requires
                s <= i * 0x4000_0000,
                sq <= 0x4000_0000,
        ;
        assert(i * 0x4000_0000 <= 0xffff_ffff_ffff_ffff * 0x4000_0000) by (nonlinear_arith)
            requires
                i <= 0xffff_ffff_ffff_ffff,
        ;
        s = s + sq;
        i += 1;
    }
    assert(a@.subrange(0, a@.len() as int) =~= a@);
    s
}

/// Number of sign changes between adjacent samples.
pub fn count_crossings(a: &[i16]) -> (r: usize)
    ensures
        r == crossings(a@),
{
    if a.len() < 2 {
        return 0;
    }
    let mut n: usize = 0;
    let mut i: usize = 1;
    while i < a.len()
        invariant
            1 <= i <= a@.len(),
            n == crossings(a@.subrange(0, i as int)),
            n < i,
        decreases a@.len() - i,
    {
        let ghost nxt = a@.subrange(0, i + 1);
        assert(nxt.drop_last() =~= a@.subrange(0, i as int));
        assert(nxt[nxt.len() - 2] == a@[i - 1] && nxt.last() == a@[i as int]);
        if (a[i - 1] >= 0) != (a[i] >= 0) {
            n += 1;
        }
        i += 1;
    }
    assert(a@.subrange(0, a@.len() as int) =~= a@);
    n
}

/// Energy and zero-crossing voice activity detector.
pub struct VoiceActivityDetector {
    energy_threshold: u64,
    history_window: Vec<u8>,
    speech_probability: u32,
}

impl VoiceActivityDetector {
    pub closed spec fn history(&self) -> Seq<u8> {
        self.history_window@
    }

    pub closed spec fn threshold(&self) -> nat {
        self.energy_threshold as nat
    }

    pub closed spec fn probability(&self) -> u32 {
        self.speech_probability
    }

    pub closed spec fn wf(&self) -> bool {
        &&& self.history_window@.len() <= 10
        &&& forall|i: int| 0 <= i < self.history_window@.len() ==> self.history_window@[i] <= 10
        &&& self.energy_threshold <= ENERGY_THRESHOLD
        &&& self.speech_probability == probability_of(self.history_window@)
    }

    pub fn new() -> (r: Self)
        ensures
            r.wf(),
            r.history().len() == 0,
            r.threshold() == ENERGY_THRESHOLD,
            r.probability() == 0,
    {
        let r = VoiceActivityDetector {
            energy_threshold: ENERGY_THRESHOLD,
            history_window: Vec::new(),
            speech_probability: 0,
        };
        assert(r.history_window@.len() == 0);
        r
    }

    /// Scores the frame, adds the score to the ten-frame history, and reports
    /// speech when the mean score is above 0.3.
    pub fn is_speech(&mut self, audio: &[i16]) -> (r: bool)
        requires
            old(self).wf(),
        ensures
            final(self).wf(),
            final(self).threshold() == old(self).threshold(),
            final(self).history() == next_history(
                old(self).history(),
                frame_score(audio@, old(self).threshold()),
            ),
            final(self).probability() == probability_of(final(self).history()),
            r == smoothed_speech(final(self).history()),
    {
        let energy = sum_of_squares(audio);
        let zc = count_crossings(audio);
        proof {
            lemma_crossings_bound(audio@);
        }
        let n = audio.len();
        let tn = self.energy_threshold as u128;
        let nn = n as u128;
        assert(tn * nn <= ENERGY_THRESHOLD * 0xffff_ffff_ffff_ffff) by (nonlinear_arith)
            requires
                tn <= ENERGY_THRESHOLD,
                nn <= 0xffff_ffff_ffff_ffff,
        ;
        let e_above = energy > tn * nn;
        let z_above = n >= 2 && 10 * (zc as u128) > 3 * ((n - 1) as u128);
        let score: u8 = if e_above {
            7
        } else {
            0
        } + if z_above {
            3
        } else {
            0
        };
        assert(score == frame_score(audio@, self.threshold()));
        let ghost h0 = self.history_window@;
        self.history_window.push(score);
        if self.history_window.len() > 10 {
            self.history_window.remove(0);
        }
        assert(self.history_window@ =~= next_history(h0, score));
        let ghost h = self.history_window@;
        let mut sum: u64 = 0;
        let mut i: usize = 0;
        while i < self.history_window.len()
            invariant
                h == self.history_window@,
                h.len() <= 10,
                forall|k: int| 0 <= k < h.len() ==> h[k] <= 10,
                i <= h.len(),
                sum == score_sum(h.subrange(0, i as int)),
                sum <= 10 * i,
            decreases h.len() - i,
        {
            let ghost nxt = h.subrange(0, i + 1);
            assert(nxt.drop_last() =~= h.subrange(0, i as int));
            sum = sum + self.history_window[i] as u64;
            i += 1;
        }
        assert(h.subrange(0, h.len() as int) =~= h);
        let len = self.history_window.len() as u64;
        self.speech_probability = if len == 0 {
            0
        } else {
            let num = sum * 100;
            let p = num / len;
            assert(p <= 1000) by (nonlinear_arith)
                requires
                    p == num / len,
                    num == sum * 100,
                    sum <= 10 * len,
                    len > 0,
            ;
            p as u32
        };
        sum > 3 * len
    }

    /// Mean of the recent frame scores, in thousandths.
    pub fn get_speech_probability(&self) -> (r: u32)
        requires
            self.wf(),
        ensures
            r == self.probability(),
            r == probability_of(self.history()),
    {
        self.speech_probability
    }

    /// A hint: below a tenth of the threshold starts silence, above twice the
    /// threshold starts speech.
    pub fn detect_speech_boundary(&self, audio: &[i16]) -> (r: SpeechBoundary)
        requires
            self.wf(),
        ensures
            r == boundary_of(audio@, self.threshold()),
    {
        let energy = sum_of_squares(audio);
        proof {
            lemma_sum_sq_bound(audio@);
        }
        let n = audio.len() as u128;
        let t = self.energy_threshold as u128;
        assert(t * n <= ENERGY_THRESHOLD * 0xffff_ffff_ffff_ffff) by (nonlinear_arith)
            requires
                t <= ENERGY_THRESHOLD,
                n <= 0xffff_ffff_ffff_ffff,
        ;
        if 10 * energy < t * n {
            SpeechBoundary::SilenceStart
        } else if energy > 2 * (t * n) {
            SpeechBoundary::SpeechStart
        } else {
            SpeechBoundary::Continuing
        }
    }
}

} // verus!
