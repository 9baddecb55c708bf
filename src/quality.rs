//! Per-segment quality scores and the session quality report. Scores are in
//! thousandths.
use vstd::prelude::*;
use crate::segments::{segment_views, ManagedTranscriptSegment, SegmentView, text_chars_len};

verus! {

#[derive(Debug, Clone, Copy, Default)]
pub struct QualityScore {
    pub confidence_score: u32,
    pub length_score: u32,
    pub consistency_score: u32,
    pub overall_score: u32,
}

/// Saturates at full score once the text has `min_len` characters.
pub open spec fn length_score(len: nat, min_len: nat) -> nat {
    if len >= min_len {
        1000
    } else {
        len * 1000 / min_len
    }
}

/// Full score without corrections, then `1000 / (1 + n)` but never below 100.
pub open spec fn consistency_score(n: nat) -> nat {
    if n == 0 {
        1000
    } else if 1000nat / (1 + n) < 100 {
        100
    } else {
        1000nat / (1 + n)
    }
}

/// `0.5 * confidence + 0.3 * length + 0.2 * consistency`.
pub open spec fn overall_score(confidence: nat, length: nat, consistency: nat) -> nat {
    (5 * confidence + 3 * length + 2 * consistency) / 10
}

pub open spec fn score_of(s: SegmentView, min_len: nat) -> QualityScore {
    let l = length_score(s.text.len(), min_len);
    let c = consistency_score(s.corrections.len());
    QualityScore {
        confidence_score: s.confidence,
        length_score: l as u32,
        consistency_score: c as u32,
        overall_score: overall_score(s.confidence as nat, l, c) as u32,
    }
}

pub struct QualityAssessor {
    length_threshold: usize,
}

impl QualityAssessor {
    pub closed spec fn min_len(&self) -> nat {
        self.length_threshold as nat
    }

    pub closed spec fn wf(&self) -> bool {
        self.length_threshold == 3
    }

    pub proof fn lemma_min_len(&self)
        requires
            self.wf(),
        ensures
            self.min_len() == 3,
    {
    }

    /// Texts of three characters or more get the full length score.
    pub fn new() -> (r: Self)
        ensures
            r.wf(),
            r.min_len() == 3,
    {
        QualityAssessor { length_threshold: 3 }
    }

    pub fn assess_quality(&self, segment: &ManagedTranscriptSegment) -> (r: QualityScore)
        requires
            self.wf(),
        ensures
            r == score_of(segment@, self.min_len()),
    {
        let len = text_chars_len(&segment.text);
        let min = self.length_threshold;
        let l: u64 = if len >= min {
            1000
        } else {
            let num = len as u128 * 1000;
            let den = min as u128;
            assert(num / den <= 1000) by (nonlinear_arith)
                requires
                    num == len * 1000,
                    len < den,
                    den > 0,
            ;
            (num / den) as u64
        };
        let n = segment.corrections.len();
        assert(segment@.corrections.len() == n);
        let c: u64 = if n == 0 {
            1000
        } else {
            let q = (1000 / (1 + n as u128)) as u64;
            if q < 100 {
                100
            } else {
                q
            }
        };
        let o = (5 * segment.confidence as u64 + 3 * l + 2 * c) / 10;
        QualityScore {
            confidence_score: segment.confidence,
            length_score: l as u32,
            consistency_score: c as u32,
            overall_score: o as u32,
        }
    }

    /// Overall score above 700.
    pub fn is_high_quality(&self, segment: &ManagedTranscriptSegment) -> (r: bool)
        requires
            self.wf(),
        ensures
            r == (score_of(segment@, self.min_len()).overall_score > 700),
    {
        self.assess_quality(segment).overall_score > 700
    }
}

#[derive(Debug, Clone, Copy, Default)]
pub struct QualityReport {
    pub total_segments: usize,
    /// Overall score above 800.
    pub high_quality_segments: usize,
    /// Overall score below 500.
    pub low_quality_segments: usize,
    pub corrected_segments: usize,
    /// Mean confidence, thousandths.
    pub average_confidence: u32,
    /// Share of high-quality segments, in percent (rounded down).
    pub quality_percentage: u32,
    pub total_confidence: u128,
}

pub open spec fn count_high(s: Seq<SegmentView>, min_len: nat) -> nat
    decreases s.len(),
{
    if s.len() == 0 {
        0
    } else {
        count_high(s.drop_last(), min_len) + if score_of(s.last(), min_len).overall_score
            > 800 {
            1nat
        } else {
            0nat
        }
    }
}

pub open spec fn count_low(s: Seq<SegmentView>, min_len: nat) -> nat
    decreases s.len(),
{
    if s.len() == 0 {
        0
    } else {
        count_low(s.drop_last(), min_len) + if score_of(s.last(), min_len).overall_score < 500 {
            1nat
        } else {
            0nat
        }
    }
}

pub open spec fn count_corrected(s: Seq<SegmentView>) -> nat
    decreases s.len(),
{
    if s.len() == 0 {
        0
    } else {
        count_corrected(s.drop_last()) + if s.last().corrections.len() > 0 {
            1nat
        } else {
            0nat
        }
    }
}

pub open spec fn confidence_total(s: Seq<SegmentView>) -> nat
    decreases s.len(),
{
    if s.len() == 0 {
        0
    } else {
        confidence_total(s.drop_last()) + s.last().confidence as nat
    }
}

pub open spec fn report_of(s: Seq<SegmentView>, min_len: nat) -> QualityReport {
    let n = s.len();
    QualityReport {
        total_segments: n as usize,
        high_quality_segments: count_high(s, min_len) as usize,
        low_quality_segments: count_low(s, min_len) as usize,
        corrected_segments: count_corrected(s) as usize,
        average_confidence: if n > 0 {
            (confidence_total(s) / n) as u32
        } else {
            0
        },
        quality_percentage: if n > 0 {
            (count_high(s, min_len) * 100 / n) as u32
        } else {
            0
        },
        total_confidence: confidence_total(s) as u128,
    }
}

proof fn lemma_counts_bounded(s: Seq<SegmentView>, min_len: nat)
    ensures
        count_high(s, min_len) <= s.len(),
        count_low(s, min_len) <= s.len(),
        count_corrected(s) <= s.len(),
        confidence_total(s) <= s.len() * 0xffff_ffff,
    decreases s.len(),
{
    if s.len() > 0 {
        lemma_counts_bounded(s.drop_last(), min_len);
    }
}

/// Aggregates the scores of all segments.
pub fn quality_report(assessor: &QualityAssessor, segments: &Vec<ManagedTranscriptSegment>) -> (r:
    QualityReport)
    requires
        assessor.wf(),
    ensures
        r == report_of(segment_views(segments@), assessor.min_len()),
{
    let ghost v = segment_views(segments@);
    let mut high: usize = 0;
    let mut low: usize = 0;
    let mut corrected: usize = 0;
    let mut total: u128 = 0;
    let mut i: usize = 0;
    while i < segments.len()
        invariant
            assessor.wf(),
            v == segment_views(segments@),
            i <= segments@.len(),
            high == count_high(v.subrange(0, i as int), assessor.min_len()),
            low == count_low(v.subrange(0, i as int), assessor.min_len()),
            corrected == count_corrected(v.subrange(0, i as int)),
            total == confidence_total(v.subrange(0, i as int)),
            high <= i,
            low <= i,
            corrected <= i,
            total <= i * 0xffff_ffff,
        decreases segments@.len() - i,
    {
        let ghost nxt = v.subrange(0, i + 1);
        assert(nxt.drop_last() =~= v.subrange(0, i as int));
        assert(nxt.last() == segments@[i as int]@);
        let q = assessor.assess_quality(&segments[i]);
        if q.overall_score > 800 {
            high += 1;
        } else if q.overall_score < 500 {
            low += 1;
        }
        if segments[i].corrections.len() > 0 {
            corrected += 1;
        }
        total = total + segments[i].confidence as u128;
        i += 1;
    }
    assert(v.subrange(0, segments@.len() as int) =~= v);
    let n = segments.len();
    let (avg, pct) = if n > 0 {
        let nd = n as u128;
        let a = total / nd;
        assert(a <= 0xffff_ffff) by (nonlinear_arith)
            requires
                a == total / nd,
                total <= nd * 0xffff_ffff,
                nd > 0,
        ;
        let hn = high as u128 * 100;
        let nn = n as u128;
        let p = hn / nn;
        assert(p <= 100) by (nonlinear_arith)
            requires
                p == hn / nn,
                hn == high * 100,
                high <= nn,
                nn > 0,
        ;
        (a as u32, p as u32)
    } else {
        (0, 0)
    };
    QualityReport {
        total_segments: n,
        high_quality_segments: high,
        low_quality_segments: low,
        corrected_segments: corrected,
        average_confidence: avg,
        quality_percentage: pct,
        total_confidence: total,
    }
}

} // verus!
