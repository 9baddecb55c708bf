//! Recognition results as produced by either tier.
use vstd::prelude::*;

verus! {

/// Confidence is held in thousandths: 1000 stands for full confidence.
pub const FULL_CONFIDENCE: u32 = 1000;

/// One output of a recognition tier. Immutable once produced.
#[derive(Debug, Clone)]
pub struct TranscriptResult {
    pub text: String,
    /// Thousandths, in `0..=1000`.
    pub confidence: u32,
    pub is_temporary: bool,
    pub speaker: Option<String>,
    /// Milliseconds.
    pub timestamp: u64,
    pub processing_time_ms: u64,
    pub segment_id: String,
}

/// The mathematical value of a [`TranscriptResult`].
pub ghost struct ResultView {
    pub text: Seq<char>,
    pub confidence: u32,
    pub is_temporary: bool,
    pub speaker: Option<Seq<char>>,
    pub timestamp: u64,
    pub processing_time_ms: u64,
    pub segment_id: Seq<char>,
}

pub open spec fn opt_view(o: Option<String>) -> Option<Seq<char>> {
    match o {
        Some(s) => Some(s@),
        None => None,
    }
}

impl View for TranscriptResult {
    type V = ResultView;

    open spec fn view(&self) -> ResultView {
        ResultView {
            text: self.text@,
            confidence: self.confidence,
            is_temporary: self.is_temporary,
            speaker: opt_view(self.speaker),
            timestamp: self.timestamp,
            processing_time_ms: self.processing_time_ms,
            segment_id: self.segment_id@,
        }
    }
}

pub open spec fn result_views(v: Seq<TranscriptResult>) -> Seq<ResultView> {
    Seq::new(v.len(), |i: int| v[i]@)
}

pub fn copy_opt_string(o: &Option<String>) -> (r: Option<String>)
    ensures
        opt_view(r) == opt_view(*o),
{
    match o {
        Some(s) => Some(s.clone()),
        None => None,
    }
}

pub fn opt_string_eq(a: &Option<String>, b: &Option<String>) -> (r: bool)
    ensures
        r == (opt_view(*a) == opt_view(*b)),
{
    match a {
        Some(x) => match b {
            Some(y) => {
                let e = x.eq(y);
                e
            },
            None => false,
        },
        None => b.is_none(),
    }
}

impl TranscriptResult {
    /// A copy with the same view.
    pub fn copy(&self) -> (r: TranscriptResult)
        ensures
            r@ == self@,
    {
        TranscriptResult {
            text: self.text.clone(),
            confidence: self.confidence,
            is_temporary: self.is_temporary,
            speaker: copy_opt_string(&self.speaker),
            timestamp: self.timestamp,
            processing_time_ms: self.processing_time_ms,
            segment_id: self.segment_id.clone(),
        }
    }
}

} // verus!
