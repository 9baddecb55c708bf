//! Dual-tier scheduling decisions: which tier takes a segment, how the accurate
//! tier windows long audio, and how engine outputs become results. The engine
//! calls themselves happen outside the library.
use vstd::prelude::*;
use crate::segmenter::SpeechSegment;
use crate::text::{append_chars, chars_of, decimal, decimal_chars, spec_is_space, string_of, is_space};
use crate::transcript::TranscriptResult;

verus! {

#[derive(Debug, Clone, Copy, PartialEq, Eq, Structural)]
pub enum ProcessingChannel {
    Fast,
    Accurate,
}

/// Longest segment the fast tier takes: 2 s.
pub const FAST_MAX_SAMPLES: usize = 32000;

/// Segments longer than 5 s are windowed for the accurate tier.
pub const ACCURATE_SPLIT_SAMPLES: usize = 80000;

/// Accurate-tier window: 3 s.
pub const CHUNK_SAMPLES: usize = 48000;

/// Overlap between windows: 0.25 s.
pub const OVERLAP_SAMPLES: usize = 4000;

/// Fast results that took longer than this are discarded.
pub const FAST_LATENCY_BUDGET_MS: u64 = 150;

/// Recognition engine parameters of one tier.
#[derive(Debug, Clone)]
pub struct RealtimeRecognitionConfig {
    pub language: String,
    /// `fast` or `accurate`.
    pub mode: String,
    pub speaker_diarization: bool,
    pub noise_reduction: bool,
    pub beam_size: u32,
    /// Sampling temperature in thousandths.
    pub temperature: u32,
    pub max_tokens: u32,
    pub initial_prompt: Option<String>,
}

pub open spec fn fast_word() -> Seq<char> {
    seq!['f', 'a', 's', 't']
}

pub open spec fn accurate_word() -> Seq<char> {
    seq!['a', 'c', 'c', 'u', 'r', 'a', 't', 'e']
}

/// Minimal search breadth, temperature 0.2, 20 tokens.
pub fn fast_config(language: String, initial_prompt: Option<String>) -> (r: RealtimeRecognitionConfig)
    ensures
        r.mode@ == fast_word(),
        r.language@ == language@,
        r.beam_size == 1,
        r.temperature == 200,
        r.max_tokens == 20,
        !r.speaker_diarization,
        !r.noise_reduction,
        r.initial_prompt == initial_prompt,
{
    let m = vec!['f', 'a', 's', 't'];
    assert(m@ =~= fast_word());
    RealtimeRecognitionConfig {
        language,
        mode: string_of(&m),
        speaker_diarization: false,
        noise_reduction: false,
        beam_size: 1,
        temperature: 200,
        max_tokens: 20,
        initial_prompt,
    }
}

/// Beam of five, temperature zero, 50 tokens, diarization and noise reduction.
pub fn accurate_config(language: String, initial_prompt: Option<String>) -> (r: RealtimeRecognitionConfig)
    ensures
        r.mode@ == accurate_word(),
        r.language@ == language@,
        r.beam_size == 5,
        r.temperature == 0,
        r.max_tokens == 50,
        r.speaker_diarization,
        r.noise_reduction,
        r.initial_prompt == initial_prompt,
{
    let m = vec!['a', 'c', 'c', 'u', 'r', 'a', 't', 'e'];
    assert(m@ =~= accurate_word());
    RealtimeRecognitionConfig {
        language,
        mode: string_of(&m),
        speaker_diarization: true,
        noise_reduction: true,
        beam_size: 5,
        temperature: 0,
        max_tokens: 50,
        initial_prompt,
    }
}

/// The tiers a completed segment goes to: fast when it lasts at most 2 s,
/// accurate always.
pub fn channels_for(segment: &SpeechSegment) -> (r: Vec<ProcessingChannel>)
    ensures
        segment.audio_data@.len() <= FAST_MAX_SAMPLES ==> r@ == seq![
            ProcessingChannel::Fast,
            ProcessingChannel::Accurate,
        ],
        segment.audio_data@.len() > FAST_MAX_SAMPLES ==> r@ == seq![ProcessingChannel::Accurate],
{
    let mut r: Vec<ProcessingChannel> = Vec::new();
    if segment.audio_data.len() <= FAST_MAX_SAMPLES {
        r.push(ProcessingChannel::Fast);
    }
    r.push(ProcessingChannel::Accurate);
    proof {
        if segment.audio_data@.len() <= FAST_MAX_SAMPLES {
            assert(r@ =~= seq![ProcessingChannel::Fast, ProcessingChannel::Accurate]);
        } else {
            assert(r@ =~= seq![ProcessingChannel::Accurate]);
        }
    }
    r
}

/// Windows `[start, end)` of the accurate tier over `len` samples, from `start`:
/// 3 s each, the next starting 0.25 s before the previous ends.
pub open spec fn windows(start: int, len: int) -> Seq<(int, int)>
    decreases len - start,
{
    if start >= len || start < 0 {
        Seq::empty()
    } else {
        let end = if start + CHUNK_SAMPLES < len {
            start + CHUNK_SAMPLES
        } else {
            len
        };
        if end >= len {
            seq![(start, end)]
        } else {
            seq![(start, end)] + windows(end - OVERLAP_SAMPLES, len)
        }
    }
}

pub open spec fn window_audio(a: Seq<i16>, w: Seq<(int, int)>) -> Seq<Seq<i16>> {
    Seq::new(w.len(), |i: int| a.subrange(w[i].0, w[i].1))
}

pub open spec fn sample_views(v: Seq<Vec<i16>>) -> Seq<Seq<i16>> {
    Seq::new(v.len(), |i: int| v[i]@)
}

fn slice_copy(a: &[i16], from: usize, to: usize) -> (r: Vec<i16>)
    requires
        from <= to <= a@.len(),
    ensures
        r@ == a@.subrange(from as int, to as int),
{
    let mut r: Vec<i16> = Vec::new();
    let mut i = from;
    while i < to
        invariant
            from <= i <= to,
            to <= a@.len(),
            r@ == a@.subrange(from as int, i as int),
        decreases to - i,
    {
        r.push(a[i]);
        i += 1;
        assert(r@ =~= a@.subrange(from as int, i as int));
    }
    r
}

/// Splits long audio into overlapping 3 s windows.
pub fn split_long_audio(audio: &[i16]) -> (r: Vec<Vec<i16>>)
    ensures
        sample_views(r@) == window_audio(audio@, windows(0, audio@.len() as int)),
{
    let len = audio.len();
    let ghost target = window_audio(audio@, windows(0, len as int));
    let mut chunks: Vec<Vec<i16>> = Vec::new();
    if len == 0 {
        assert(sample_views(chunks@) =~= target);
        return chunks;
    }
    let mut start: usize = 0;
    assert(sample_views(chunks@) + window_audio(audio@, windows(0, len as int)) =~= target);
    loop
        invariant
            len == audio@.len(),
            start < len,
            target == window_audio(audio@, windows(0, len as int)),
            target == sample_views(chunks@) + window_audio(audio@, windows(start as int, len as int)),
        decreases len - start,
    {
        let end = if len - start > CHUNK_SAMPLES {
            start + CHUNK_SAMPLES
        } else {
            len
        };
        let ghost c0 = sample_views(chunks@);
        let ghost rest = windows(start as int, len as int);
        chunks.push(slice_copy(audio, start, end));
        assert(sample_views(chunks@) =~= c0.push(audio@.subrange(start as int, end as int)));
        if end >= len {
            assert(rest =~= seq![(start as int, end as int)]);
            assert(window_audio(audio@, rest) =~= seq![audio@.subrange(start as int, end as int)]);
            assert(sample_views(chunks@) =~= target);
            return chunks;
        }
        let next = end - OVERLAP_SAMPLES;
        assert(rest =~= seq![(start as int, end as int)] + windows(next as int, len as int));
        assert(window_audio(audio@, rest) =~= seq![audio@.subrange(start as int, end as int)]
            + window_audio(audio@, windows(next as int, len as int)));
        assert(target =~= sample_views(chunks@) + window_audio(audio@, windows(next as int, len as int)));
        start = next;
    }
}

/// The audio the accurate tier sends: windows for segments over 5 s, else whole.
pub fn accurate_chunks(audio: &[i16]) -> (r: Vec<Vec<i16>>)
    ensures
        audio@.len() > ACCURATE_SPLIT_SAMPLES ==> sample_views(r@) == window_audio(
            audio@,
            windows(0, audio@.len() as int),
        ),
        audio@.len() <= ACCURATE_SPLIT_SAMPLES ==> sample_views(r@) == seq![audio@],
{
    if audio.len() > ACCURATE_SPLIT_SAMPLES {
        split_long_audio(audio)
    } else {
        let mut r: Vec<Vec<i16>> = Vec::new();
        r.push(slice_copy(audio, 0, audio.len()));
        assert(audio@.subrange(0, audio@.len() as int) =~= audio@);
        assert(sample_views(r@) =~= seq![audio@]);
        r
    }
}

/// What the recognition engine returned for one window.
#[derive(Debug, Clone)]
pub struct EngineOutput {
    pub text: String,
    /// Thousandths.
    pub confidence: u32,
}

pub open spec fn fast_id(timestamp: u64) -> Seq<char> {
    seq!['f', 'a', 's', 't', '_'] + decimal(timestamp as nat)
}

pub open spec fn accurate_id(start_ms: u64) -> Seq<char> {
    seq!['a', 'c', 'c', 'u', 'r', 'a', 't', 'e', '_'] + decimal(start_ms as nat)
}

fn prefixed_decimal(prefix: Vec<char>, n: u64) -> (r: String)
    ensures
        r@ == prefix@ + decimal(n as nat),
{
    let mut v = prefix;
    let ds = decimal_chars(n);
    append_chars(&mut v, &ds);
    string_of(&v)
}

/// A fast-tier result, discarded when it took longer than the latency budget;
/// its confidence is discounted to four fifths.
pub fn draft_result(output: EngineOutput, speaker: Option<String>, timestamp: u64, elapsed_ms: u64) -> (r:
    Option<TranscriptResult>)
    ensures
        elapsed_ms > FAST_LATENCY_BUDGET_MS ==> r.is_none(),
        elapsed_ms <= FAST_LATENCY_BUDGET_MS ==> r.is_some() && r.unwrap()@.text == output.text@
            && r.unwrap().confidence == output.confidence as int * 8 / 10 && r.unwrap().is_temporary
            && r.unwrap().speaker == speaker && r.unwrap().timestamp == timestamp
            && r.unwrap().processing_time_ms == elapsed_ms && r.unwrap()@.segment_id == fast_id(
            timestamp,
        ),
{
    if elapsed_ms > FAST_LATENCY_BUDGET_MS {
        return None;
    }
    let id = prefixed_decimal(vec!['f', 'a', 's', 't', '_'], timestamp);
    Some(
        TranscriptResult {
            text: output.text,
            confidence: ((output.confidence as u64 * 8) / 10) as u32,
            is_temporary: true,
            speaker,
            timestamp,
            processing_time_ms: elapsed_ms,
            segment_id: id,
        },
    )
}

/// Drops leading and trailing white space.
pub open spec fn trimmed(s: Seq<char>) -> Seq<char>
    decreases s.len(),
{
    if s.len() == 0 {
        s
    } else if spec_is_space(s[0]) {
        trimmed(s.drop_first())
    } else if spec_is_space(s.last()) {
        trimmed(s.drop_last())
    } else {
        s
    }
}

/// Each successful window's text followed by a space, in order.
pub open spec fn concatenated(outs: Seq<Option<(Seq<char>, u32)>>) -> Seq<char>
    decreases outs.len(),
{
    if outs.len() == 0 {
        Seq::empty()
    } else {
        match outs.last() {
            Some(o) => concatenated(outs.drop_last()) + o.0 + seq![' '],
            None => concatenated(outs.drop_last()),
        }
    }
}

pub open spec fn success_count(outs: Seq<Option<(Seq<char>, u32)>>) -> nat
    decreases outs.len(),
{
    if outs.len() == 0 {
        0
    } else {
        success_count(outs.drop_last()) + if outs.last() is Some {
            1nat
        } else {
            0nat
        }
    }
}

pub open spec fn success_confidence(outs: Seq<Option<(Seq<char>, u32)>>) -> nat
    decreases outs.len(),
{
    if outs.len() == 0 {
        0
    } else {
        success_confidence(outs.drop_last()) + match outs.last() {
            Some(o) => o.1 as nat,
            None => 0nat,
        }
    }
}

pub open spec fn output_views(v: Seq<Option<EngineOutput>>) -> Seq<Option<(Seq<char>, u32)>> {
    Seq::new(
        v.len(),
        |i: int|
            match v[i] {
                Some(o) => Some((o.text@, o.confidence)),
                None => None,
            },
    )
}

proof fn lemma_success_bounds(outs: Seq<Option<(Seq<char>, u32)>>)
    ensures
        success_count(outs) <= outs.len(),
        success_confidence(outs) <= success_count(outs) * 0xffff_ffff,
    decreases outs.len(),
{
    if outs.len() > 0 {
        lemma_success_bounds(outs.drop_last());
    }
}

fn trim_chars(s: &Vec<char>) -> (r: Vec<char>)
    ensures
        r@ == trimmed(s@),
{
    let mut a: usize = 0;
    let mut b: usize = s.len();
    assert(s@.subrange(0, s@.len() as int) =~= s@);
    while a < b && is_space(s[a])
        invariant
            a <= b <= s@.len(),
            b == s@.len(),
            trimmed(s@) == trimmed(s@.subrange(a as int, b as int)),
        decreases b - a,
    {
        assert(s@.subrange(a as int, b as int).drop_first() =~= s@.subrange(a + 1, b as int));
        a += 1;
    }
    while a < b && is_space(s[b - 1])
        invariant
            a <= b <= s@.len(),
            a < b ==> !spec_is_space(s@[a as int]),
            trimmed(s@) == trimmed(s@.subrange(a as int, b as int)),
        decreases b - a,
    {
        assert(s@.subrange(a as int, b as int).drop_last() =~= s@.subrange(a as int, b - 1));
        b -= 1;
    }
    let mut r: Vec<char> = Vec::new();
    let mut i = a;
    while i < b
        invariant
            a <= i <= b,
            b <= s@.len(),
            r@ == s@.subrange(a as int, i as int),
        decreases b - i,
    {
        r.push(s[i]);
        i += 1;
        assert(r@ =~= s@.subrange(a as int, i as int));
    }
    r
}

/// Joins the accurate tier's window outputs: texts in order, trimmed, with the
/// mean confidence of the windows that succeeded; none when all failed.
pub fn combine_accurate(
    outputs: &Vec<Option<EngineOutput>>,
    timestamp: u64,
    elapsed_ms: u64,
    start_ms: u64,
) -> (r: Option<TranscriptResult>)
    ensures
        success_count(output_views(outputs@)) == 0 ==> r.is_none(),
        success_count(output_views(outputs@)) > 0 ==> r.is_some() && r.unwrap()@.text == trimmed(
            concatenated(output_views(outputs@)),
        ) && r.unwrap().confidence == success_confidence(output_views(outputs@)) / success_count(
            output_views(outputs@),
        ) && !r.unwrap().is_temporary && r.unwrap().speaker.is_none() && r.unwrap().timestamp
            == timestamp && r.unwrap().processing_time_ms == elapsed_ms && r.unwrap()@.segment_id
            == accurate_id(start_ms),
{
    let ghost ov = output_views(outputs@);
    let mut text: Vec<char> = Vec::new();
    let mut total: u128 = 0;
    let mut count: usize = 0;
    let mut i: usize = 0;
    while i < outputs.len()
        invariant
            ov == output_views(outputs@),
            i <= outputs@.len(),
            text@ == concatenated(ov.subrange(0, i as int)),
            total == success_confidence(ov.subrange(0, i as int)),
            count == success_count(ov.subrange(0, i as int)),
            count <= i,
            total <= count * 0xffff_ffff,
        decreases outputs@.len() - i,
    {
        let ghost nxt = ov.subrange(0, i + 1);
        assert(nxt.drop_last() =~= ov.subrange(0, i as int));
        match &outputs[i] {
            Some(o) => {
                let cs = chars_of(o.text.as_str());
                append_chars(&mut text, &cs);
                text.push(' ');
                total = total + o.confidence as u128;
                count = count + 1;
            },
            None => {},
        }
        i += 1;
    }
    assert(ov.subrange(0, outputs@.len() as int) =~= ov);
    if count == 0 {
        return None;
    }
    let avg = total / count as u128;
    assert(avg <= 0xffff_ffff) by (nonlinear_arith)
        requires
            avg == total / count as u128,
            total <= count * 0xffff_ffff,
            count > 0,
    ;
    let t = trim_chars(&text);
    Some(
        TranscriptResult {
            text: string_of(&t),
            confidence: avg as u32,
            is_temporary: false,
            speaker: None,
            timestamp,
            processing_time_ms: elapsed_ms,
            segment_id: prefixed_decimal(vec!['a', 'c', 'c', 'u', 'r', 'a', 't', 'e', '_'], start_ms),
        },
    )
}


pub open spec fn sum_u64(s: Seq<u64>) -> nat
    decreases s.len(),
{
    if s.len() == 0 {
        0
    } else {
        sum_u64(s.drop_last()) + s.last() as nat
    }
}

/// The history after recording one more time: the last 100 times.
pub open spec fn recorded(h: Seq<u64>, t: u64) -> Seq<u64> {
    if h.len() + 1 > 100 {
        h.push(t).drop_first()
    } else {
        h.push(t)
    }
}

pub open spec fn mean_u64(h: Seq<u64>) -> u64 {
    if h.len() == 0 {
        0
    } else {
        (sum_u64(h) / h.len()) as u64
    }
}

proof fn lemma_sum_u64_bound(h: Seq<u64>)
    ensures
        sum_u64(h) <= h.len() * 0xffff_ffff_ffff_ffff,
    decreases h.len(),
{
    if h.len() > 0 {
        lemma_sum_u64_bound(h.drop_last());
    }
}

fn mean_of(h: &Vec<u64>) -> (r: u64)
    requires
        h@.len() <= 100,
    ensures
        r == mean_u64(h@),
{
    let mut s: u128 = 0;
    let mut i: usize = 0;
    while i < h.len()
        invariant
            h@.len() <= 100,
            i <= h@.len(),
            s == sum_u64(h@.subrange(0, i as int)),
            s <= i * 0xffff_ffff_ffff_ffff,
        decreases h@.len() - i,
    {
        let ghost nxt = h@.subrange(0, i + 1);
        assert(nxt.drop_last() =~= h@.subrange(0, i as int));
        s = s + h[i] as u128;
        i += 1;
    }
    assert(h@.subrange(0, h@.len() as int) =~= h@);
    if h.len() == 0 {
        return 0;
    }
    let n = h.len() as u128;
    let m = s / n;
    assert(m <= 0xffff_ffff_ffff_ffff) by (nonlinear_arith)
        requires
            m == s / n,
            s <= n * 0xffff_ffff_ffff_ffff,
            n > 0,
    ;
    m as u64
}

/// Processing times of the last 100 results of each tier.
pub struct TierStats {
    fast_processing_times: Vec<u64>,
    accurate_processing_times: Vec<u64>,
}

impl TierStats {
    pub closed spec fn fast_times(&self) -> Seq<u64> {
        self.fast_processing_times@
    }

    pub closed spec fn accurate_times(&self) -> Seq<u64> {
        self.accurate_processing_times@
    }

    pub open spec fn wf(&self) -> bool {
        self.fast_times().len() <= 100 && self.accurate_times().len() <= 100
    }

    pub fn new() -> (r: Self)
        ensures
            r.wf(),
            r.fast_times().len() == 0,
            r.accurate_times().len() == 0,
    {
        TierStats { fast_processing_times: Vec::new(), accurate_processing_times: Vec::new() }
    }

    /// Records a result's processing time under its tier.
    pub fn update_stats(&mut self, result: &TranscriptResult)
        requires
            old(self).wf(),
        ensures
            final(self).wf(),
            result.is_temporary ==> final(self).fast_times() == recorded(
                old(self).fast_times(),
                result.processing_time_ms,
            ) && final(self).accurate_times() == old(self).accurate_times(),
            !result.is_temporary ==> final(self).accurate_times() == recorded(
                old(self).accurate_times(),
                result.processing_time_ms,
            ) && final(self).fast_times() == old(self).fast_times(),
    {
        if result.is_temporary {
            let ghost h = self.fast_processing_times@;
            self.fast_processing_times.push(result.processing_time_ms);
            if self.fast_processing_times.len() > 100 {
                self.fast_processing_times.remove(0);
            }
            assert(self.fast_processing_times@ =~= recorded(h, result.processing_time_ms));
        } else {
            let ghost h = self.accurate_processing_times@;
            self.accurate_processing_times.push(result.processing_time_ms);
            if self.accurate_processing_times.len() > 100 {
                self.accurate_processing_times.remove(0);
            }
            assert(self.accurate_processing_times@ =~= recorded(h, result.processing_time_ms));
        }
    }

    /// Mean processing time of the fast tier and of the accurate tier, in
    /// milliseconds (0 without results).
    pub fn get_stats(&self) -> (r: (u64, u64))
        requires
            self.wf(),
        ensures
            r.0 == mean_u64(self.fast_times()),
            r.1 == mean_u64(self.accurate_times()),
    {
        (mean_of(&self.fast_processing_times), mean_of(&self.accurate_processing_times))
    }
}


/// Most recognition workers in the pool.
pub const MAX_WORKERS: usize = 8;

/// Workers for `cores` cores: one core is left to capture, at least one
/// worker, at most [`MAX_WORKERS`].
pub open spec fn pool_size(cores: nat) -> nat {
    let w: nat = if cores >= 2 {
        (cores - 1) as nat
    } else {
        1
    };
    if w > MAX_WORKERS {
        MAX_WORKERS as nat
    } else {
        w
    }
}

pub fn worker_pool_size(cores: usize) -> (r: usize)
    ensures
        r == pool_size(cores as nat),
        1 <= r <= MAX_WORKERS,
{
    let w = if cores >= 2 {
        cores - 1
    } else {
        1
    };
    if w > MAX_WORKERS {
        MAX_WORKERS
    } else {
        w
    }
}

/// Relies on `num_cpus::get`: the number of logical cores available to this
/// process. It depends on the machine, so nothing is promised of it here.
#[verifier::external_body]
fn available_cores() -> (r: usize) {
    num_cpus::get()
}

/// The pool size for this machine.
pub fn default_worker_count() -> (r: usize)
    ensures
        1 <= r <= MAX_WORKERS,
{
    worker_pool_size(available_cores())
}

} // verus!
