//! Assembles frames into bounded speech segments. Time is counted in samples
//! at 16 kHz from the start of the stream.
use vstd::prelude::*;
use crate::vad::{
    frame_score, next_history, sum_of_squares, VoiceActivityDetector, ENERGY_THRESHOLD,
};

verus! {

pub const SAMPLE_RATE: u64 = 16000;

/// Shortest segment kept: 500 ms.
pub const MIN_SEGMENT_SAMPLES: u64 = 8000;

/// Longest segment: 10 s; longer speech is split.
pub const MAX_SEGMENT_SAMPLES: u64 = 160000;

/// Silence that closes a segment: 800 ms.
pub const SILENCE_SAMPLES: u64 = 12800;

/// A span of the stream judged to hold one utterance.
#[derive(Debug, Clone)]
pub struct SpeechSegment {
    pub audio_data: Vec<i16>,
    /// Position of the first sample in the stream.
    pub start_time: u64,
    /// Position just past the last sample, once complete.
    pub end_time: Option<u64>,
    pub is_complete: bool,
}

impl SpeechSegment {
    pub fn new(audio_data: Vec<i16>, start_time: u64) -> (r: Self)
        ensures
            r.audio_data@ == audio_data@,
            r.start_time == start_time,
            r.end_time.is_none(),
            !r.is_complete,
    {
        SpeechSegment { audio_data, start_time, end_time: None, is_complete: false }
    }

    pub fn add_audio(&mut self, audio: &[i16])
        ensures
            final(self).audio_data@ == old(self).audio_data@ + audio@,
            final(self).start_time == old(self).start_time,
            final(self).end_time == old(self).end_time,
            final(self).is_complete == old(self).is_complete,
    {
        let mut i: usize = 0;
        while i < audio.len()
            invariant
                i <= audio@.len(),
                self.audio_data@ == old(self).audio_data@ + audio@.subrange(0, i as int),
                self.start_time == old(self).start_time,
                self.end_time == old(self).end_time,
                self.is_complete == old(self).is_complete,
            decreases audio@.len() - i,
        {
            self.audio_data.push(audio[i]);
            i += 1;
            assert(self.audio_data@ =~= old(self).audio_data@ + audio@.subrange(0, i as int));
        }
        assert(audio@.subrange(0, audio@.len() as int) =~= audio@);
    }

    pub fn complete(&mut self, end_time: u64)
        ensures
            final(self).audio_data@ == old(self).audio_data@,
            final(self).start_time == old(self).start_time,
            final(self).end_time == Some(end_time),
            final(self).is_complete,
    {
        self.end_time = Some(end_time);
        self.is_complete = true;
    }

    /// Duration in samples: end minus start once complete, else the samples held.
    pub fn duration(&self) -> (r: u64)
        ensures
            self.end_time.is_some() && self.end_time.unwrap() >= self.start_time ==> r
                == self.end_time.unwrap() - self.start_time,
            self.end_time.is_some() && self.end_time.unwrap() < self.start_time ==> r == 0,
            self.end_time.is_none() ==> r == self.audio_data@.len(),
    {
        match self.end_time {
            Some(end) => if end >= self.start_time {
                end - self.start_time
            } else {
                0
            },
            None => self.audio_data.len() as u64,
        }
    }

    pub fn length_samples(&self) -> (r: usize)
        ensures
            r == self.audio_data@.len(),
    {
        self.audio_data.len()
    }

    /// Length in milliseconds, rounded down.
    pub fn length_ms(&self) -> (r: u64)
        ensures
            r == self.audio_data@.len() as nat * 1000 / SAMPLE_RATE as nat,
    {
        ((self.audio_data.len() as u128 * 1000) / 16000) as u64
    }

    /// Mean square of the samples (0 when empty).
    pub fn energy_level(&self) -> (r: u64)
        ensures
            self.audio_data@.len() == 0 ==> r == 0,
            self.audio_data@.len() > 0 ==> r == crate::vad::sum_sq(self.audio_data@)
                / self.audio_data@.len() as nat,
    {
        let s = sum_of_squares(self.audio_data.as_slice());
        let n = self.audio_data.len() as u128;
        if n == 0 {
            0
        } else {
            proof {
                crate::vad::lemma_mean_square_bound(self.audio_data@);
            }
            (s / n) as u64
        }
    }
}

/// A segment handed downstream: complete, an exact slice of the stream, and
/// between the minimum and the maximum length.
pub open spec fn valid_emitted(s: SpeechSegment, stream: Seq<i16>) -> bool {
    let len = s.audio_data@.len();
    &&& s.is_complete
    &&& s.end_time == Some((s.start_time + len) as u64)
    &&& MIN_SEGMENT_SAMPLES <= len <= MAX_SEGMENT_SAMPLES
    &&& s.start_time + len <= stream.len()
    &&& s.audio_data@ == stream.subrange(s.start_time as int, s.start_time + len)
}

pub open spec fn seg_end(s: SpeechSegment) -> int {
    s.start_time + s.audio_data@.len()
}

/// Segments in order, none overlapping the next, all starting at or after `from`
/// and ending at or before `upto`.
pub open spec fn ordered_within(out: Seq<SpeechSegment>, from: int, upto: int) -> bool {
    &&& forall|k: int| 0 <= k < out.len() ==> from <= out[k].start_time && seg_end(out[k]) <= upto
    &&& forall|k: int| 0 <= k < out.len() - 1 ==> seg_end(out[k]) <= out[k + 1].start_time
}

/// Segments handed out by successive frames never overlap: two outputs, each
/// ordered within its stretch of the emitted end, are ordered together.
pub proof fn lemma_ordered_concat(o1: Seq<SpeechSegment>, o2: Seq<SpeechSegment>, e0: int, e1: int, e2: int)
    requires
        e0 <= e1 <= e2,
        ordered_within(o1, e0, e1),
        ordered_within(o2, e1, e2),
    ensures
        ordered_within(o1 + o2, e0, e2),
{
    let o = o1 + o2;
    assert forall|k: int| 0 <= k < o.len() - 1 implies seg_end(o[k]) <= o[k + 1].start_time by {
        if k < o1.len() - 1 {
            assert(o[k] == o1[k] && o[k + 1] == o1[k + 1]);
        } else if k == o1.len() - 1 {
            assert(o[k] == o1[k] && o[k + 1] == o2[0]);
        } else {
            assert(o[k] == o2[k - o1.len()] && o[k + 1] == o2[k + 1 - o1.len()]);
        }
    }
    assert forall|k: int| 0 <= k < o.len() implies e0 <= o[k].start_time && seg_end(o[k]) <= e2 by {
        if k < o1.len() {
            assert(o[k] == o1[k]);
        } else {
            assert(o[k] == o2[k - o1.len()]);
        }
    }
}

/// A segment handed out stays an exact slice of the stream as the stream grows.
pub proof fn lemma_valid_extends(s: SpeechSegment, stream: Seq<i16>, more: Seq<i16>)
    requires
        valid_emitted(s, stream),
    ensures
        valid_emitted(s, stream + more),
{
    let len = s.audio_data@.len();
    assert((stream + more).subrange(s.start_time as int, s.start_time + len) =~= stream.subrange(
        s.start_time as int,
        s.start_time + len,
    ));
}

/// Where the span being accumulated starts: at the open segment, else at `t0`.
pub open spec fn span_start(cur: Option<SpeechSegment>, t0: int) -> int {
    match cur {
        Some(c) => c.start_time as int,
        None => t0,
    }
}

pub open spec fn open_len(cur: Option<SpeechSegment>) -> int {
    match cur {
        Some(c) => c.audio_data@.len() as int,
        None => 0,
    }
}

/// `[s0, t1)` is cut into maximum-length segments from `s0`, in order, and the
/// rest, shorter than the maximum, stays open.
pub open spec fn tiled(out: Seq<SpeechSegment>, s0: int, t1: int, cur: Option<SpeechSegment>) -> bool {
    &&& forall|k: int|
        0 <= k < out.len() ==> (#[trigger] out[k]).start_time == s0 + k * MAX_SEGMENT_SAMPLES
            && out[k].audio_data@.len() == MAX_SEGMENT_SAMPLES
    &&& out.len() * MAX_SEGMENT_SAMPLES + open_len(cur) == t1 - s0
    &&& (cur matches Some(c) ==> c.start_time == s0 + out.len() * MAX_SEGMENT_SAMPLES)
}

/// Silence since the latest speech has lasted long enough to close a segment.
pub open spec fn silence_closes(last_speech: Option<u64>, t1: int) -> bool {
    last_speech matches Some(ls) && t1 - ls >= SILENCE_SAMPLES
}

/// What one frame does to the open segment and which segments it hands out.
pub open spec fn frame_outcome(
    old_cur: Option<SpeechSegment>,
    old_last: Option<u64>,
    t0: int,
    t1: int,
    speech: bool,
    out: Seq<SpeechSegment>,
    new_cur: Option<SpeechSegment>,
    new_last: Option<u64>,
) -> bool {
    if speech {
        new_last == Some(t1 as u64) && tiled(out, span_start(old_cur, t0), t1, new_cur)
    } else if silence_closes(old_last, t1) {
        &&& new_last == old_last
        &&& new_cur.is_none()
        &&& match old_cur {
            Some(c) => if old_last->0 - c.start_time >= MIN_SEGMENT_SAMPLES {
                out.len() == 1 && out[0].start_time == c.start_time && seg_end(out[0]) == old_last->0
            } else {
                out.len() == 0
            },
            None => out.len() == 0,
        }
    } else {
        &&& new_last == old_last
        &&& match old_cur {
            Some(c) => if t1 - c.start_time >= MAX_SEGMENT_SAMPLES {
                out.len() == 1 && out[0].start_time == c.start_time && new_cur.is_none()
            } else {
                out.len() == 0 && (new_cur matches Some(c2) && c2.start_time == c.start_time)
            },
            None => out.len() == 0 && new_cur.is_none(),
        }
    }
}

/// The open segment: an exact, non-empty, shorter-than-maximum tail of the stream.
pub open spec fn open_ok(seg: SpeechSegment, stream: Seq<i16>, emitted_end: u64) -> bool {
    &&& !seg.is_complete
    &&& seg.end_time.is_none()
    &&& emitted_end <= seg.start_time
    &&& seg.start_time + seg.audio_data@.len() == stream.len()
    &&& 0 < seg.audio_data@.len() < MAX_SEGMENT_SAMPLES
    &&& seg.audio_data@ == stream.subrange(seg.start_time as int, stream.len() as int)
}

/// Stateful segmenter: Idle (no open segment) or Accumulating.
pub struct SmartAudioBuffer {
    current_segment: Option<SpeechSegment>,
    vad: VoiceActivityDetector,
    clock: u64,
    last_speech_time: Option<u64>,
    last_emitted_end: u64,
    stream: Ghost<Seq<i16>>,
}

impl SmartAudioBuffer {
    /// Every sample received so far.
    pub closed spec fn stream(&self) -> Seq<i16> {
        self.stream@
    }

    /// Recent frame scores of the voice activity detector.
    pub closed spec fn history(&self) -> Seq<u8> {
        self.vad.history()
    }

    /// End of the latest frame judged as speech.
    pub closed spec fn last_speech(&self) -> Option<u64> {
        self.last_speech_time
    }

    /// End of the last segment handed out.
    pub closed spec fn emitted_end(&self) -> u64 {
        self.last_emitted_end
    }

    pub closed spec fn current(&self) -> Option<SpeechSegment> {
        self.current_segment
    }

    /// Idle, with a detector that has heard nothing but silence.
    pub open spec fn quiet(&self) -> bool {
        &&& self.current().is_none()
        &&& forall|i: int| 0 <= i < self.history().len() ==> self.history()[i] == 0
    }

    pub closed spec fn wf(&self) -> bool {
        &&& self.vad.wf()
        &&& self.vad.threshold() == ENERGY_THRESHOLD
        &&& self.clock == self.stream@.len()
        &&& self.last_emitted_end <= self.clock
        &&& (self.last_speech_time matches Some(ls) ==> ls <= self.clock)
        &&& (self.current_segment matches Some(seg) ==> {
            &&& open_ok(seg, self.stream@, self.last_emitted_end)
            &&& self.last_speech_time matches Some(ls) && seg.start_time < ls
        })
    }

    pub fn new() -> (r: Self)
        ensures
            r.wf(),
            r.quiet(),
            r.stream().len() == 0,
            r.emitted_end() == 0,
    {
        SmartAudioBuffer {
            current_segment: None,
            vad: VoiceActivityDetector::new(),
            clock: 0,
            last_speech_time: None,
            last_emitted_end: 0,
            stream: Ghost(Seq::empty()),
        }
    }

    /// Appends `chunk[pos..]` to the open segment, closing it whenever it
    /// reaches the maximum length; opens segments only when `speech`.
    fn feed(&mut self, chunk: &[i16], t0: u64, speech: bool, out: &mut Vec<SpeechSegment>)
        requires
            old(self).vad.wf(),
            old(self).stream@.len() == t0 + chunk@.len(),
            t0 + chunk@.len() <= u64::MAX,
            old(self).last_emitted_end <= t0,
            speech ==> old(self).last_speech_time == Some((t0 + chunk@.len()) as u64),
            old(self).current_segment matches Some(seg) ==> {
                &&& open_ok(seg, old(self).stream@.subrange(0, t0 as int), old(self).last_emitted_end)
                &&& old(self).last_speech_time matches Some(ls) && seg.start_time < ls
            },
            forall|k: int| 0 <= k < old(out)@.len() ==> valid_emitted(old(out)@[k], old(self).stream@),
            old(out)@.len() == 0,
            chunk@ == old(self).stream@.subrange(t0 as int, t0 + chunk@.len()),
        ensures
            final(self).vad == old(self).vad,
            final(self).stream == old(self).stream,
            final(self).last_speech_time == old(self).last_speech_time,
            final(self).clock == old(self).clock,
            old(self).last_emitted_end <= final(self).last_emitted_end <= t0 + chunk@.len(),
            final(self).current_segment matches Some(seg) ==> {
                &&& open_ok(seg, final(self).stream@, final(self).last_emitted_end)
                &&& final(self).last_speech_time matches Some(ls) && seg.start_time < ls
            },
            forall|k: int| 0 <= k < final(out)@.len() ==> valid_emitted(final(out)@[k], final(self).stream@),
            ordered_within(final(out)@, old(self).last_emitted_end as int, final(self).last_emitted_end as int),
            !speech && old(self).current_segment.is_none() ==> final(out)@.len() == 0 && final(self).current_segment.is_none(),
            speech ==> tiled(
                final(out)@,
                span_start(old(self).current_segment, t0 as int),
                t0 + chunk@.len(),
                final(self).current_segment,
            ),
            !speech && old(self).current_segment is Some ==> {
                let c = old(self).current_segment->0;
                &&& t0 + chunk@.len() - c.start_time >= MAX_SEGMENT_SAMPLES ==> final(out)@.len() == 1
                    && final(out)@[0].start_time == c.start_time && final(self).current_segment.is_none()
                &&& t0 + chunk@.len() - c.start_time < MAX_SEGMENT_SAMPLES ==> final(out)@.len() == 0
                    && (final(self).current_segment matches Some(c2) && c2.start_time == c.start_time)
            },
    {
        let ghost st = self.stream@;
        let ghost e0 = self.last_emitted_end;
        let ghost s0 = span_start(self.current_segment, t0 as int);
        let ghost had_open = self.current_segment is Some;
        let n = chunk.len();
        let mut pos: usize = 0;
        proof {
            if self.current_segment is Some {
                let seg = self.current_segment->0;
                assert(st.subrange(0, t0 as int).subrange(seg.start_time as int, t0 as int) =~= st.subrange(
                    seg.start_time as int,
                    t0 as int,
                ));
            }
        }
        while pos < n && (speech || self.current_segment.is_some())
            invariant
                self.vad == old(self).vad,
                self.stream == old(self).stream,
                st == self.stream@,
                self.last_speech_time == old(self).last_speech_time,
                self.clock == old(self).clock,
                st.len() == t0 + n,
                n == chunk@.len(),
                t0 + n <= u64::MAX,
                pos <= n,
                e0 == old(self).last_emitted_end,
                e0 <= self.last_emitted_end <= t0 + pos,
                speech ==> self.last_speech_time == Some((t0 + n) as u64),
                chunk@ == st.subrange(t0 as int, t0 + n),
                self.current_segment matches Some(seg) ==> {
                    &&& !seg.is_complete
                    &&& seg.end_time.is_none()
                    &&& self.last_emitted_end <= seg.start_time
                    &&& seg.start_time + seg.audio_data@.len() == t0 + pos
                    &&& 0 < seg.audio_data@.len() < MAX_SEGMENT_SAMPLES
                    &&& seg.audio_data@ == st.subrange(seg.start_time as int, t0 + pos)
                    &&& self.last_speech_time matches Some(ls) && seg.start_time < ls
                },
                forall|k: int| 0 <= k < out@.len() ==> valid_emitted(out@[k], st),
                ordered_within(out@, e0 as int, self.last_emitted_end as int),
                !speech && old(self).current_segment.is_none() ==> out@.len() == 0 && self.current_segment.is_none(),
                s0 == span_start(old(self).current_segment, t0 as int),
                had_open == old(self).current_segment is Some,
                forall|k: int|
                    0 <= k < out@.len() ==> (#[trigger] out@[k]).start_time == s0 + k * MAX_SEGMENT_SAMPLES
                        && out@[k].audio_data@.len() == MAX_SEGMENT_SAMPLES,
                self.current_segment matches Some(c) ==> c.start_time == s0 + out@.len() * MAX_SEGMENT_SAMPLES,
                self.current_segment.is_none() && (speech || out@.len() > 0) ==> t0 + pos == s0 + out@.len() * MAX_SEGMENT_SAMPLES,
                !speech ==> out@.len() <= 1 && (out@.len() == 1 ==> self.current_segment.is_none()),
                !speech && had_open ==> s0 <= t0,
                had_open && out@.len() == 0 ==> self.current_segment is Some,
            decreases n - pos,
        {
            let mut seg = match self.current_segment.take() {
                Some(s) => s,
                None => SpeechSegment::new(Vec::new(), t0 + pos as u64),
            };
            let len = seg.audio_data.len();
            let room = (MAX_SEGMENT_SAMPLES as usize) - len;
            let take = if room < n - pos {
                room
            } else {
                n - pos
            };
            let ghost a0 = seg.audio_data@;
            let ghost s0 = seg.start_time;
            assert(a0 == st.subrange(s0 as int, t0 + pos));
            assert(s0 + a0.len() == t0 + pos);
            let mut j: usize = 0;
            while j < take
                invariant
                    j <= take,
                    pos + take <= n,
                    n == chunk@.len(),
                    seg.audio_data@ == a0 + chunk@.subrange(pos as int, pos + j),
                    seg.start_time == s0,
                    a0 == st.subrange(s0 as int, t0 + pos),
                    s0 + a0.len() == t0 + pos,
                    chunk@ == st.subrange(t0 as int, t0 + n),
                    st.len() == t0 + n,
                    !seg.is_complete,
                    seg.end_time.is_none(),
                decreases take - j,
            {
                seg.audio_data.push(chunk[pos + j]);
                j += 1;
                assert(seg.audio_data@ =~= a0 + chunk@.subrange(pos as int, pos + j));
            }
            assert(a0 + chunk@.subrange(pos as int, pos + take) =~= st.subrange(
                seg.start_time as int,
                t0 + pos + take,
            ));
            pos = pos + take;
            if seg.audio_data.len() == MAX_SEGMENT_SAMPLES as usize {
                let end = seg.start_time + MAX_SEGMENT_SAMPLES;
                seg.complete(end);
                self.last_emitted_end = end;
                let ghost o0 = out@;
                assert(s0 + o0.len() * MAX_SEGMENT_SAMPLES + MAX_SEGMENT_SAMPLES == s0 + (o0.len() + 1)
                    * MAX_SEGMENT_SAMPLES) by (nonlinear_arith);
                out.push(seg);
                assert(forall|k: int| 0 <= k < o0.len() ==> out@[k] == o0[k]);
            } else {
                self.current_segment = Some(seg);
            }
        }
        assert(self.current_segment is Some ==> pos == n);
        proof {
            if speech {
                assert(out@.len() * MAX_SEGMENT_SAMPLES + open_len(self.current_segment) == t0 + n - s0);
            }
            if !speech && had_open {
                if out@.len() == 1 {
                    assert(t0 + pos == s0 + 1 * MAX_SEGMENT_SAMPLES);
                    assert(out@[0].start_time == s0 + 0 * MAX_SEGMENT_SAMPLES);
                } else {
                    assert(out@.len() == 0);
                    assert(pos == n);
                }
            }
        }
    }

    /// Feeds one frame; returns the segments it completed, in order.
    pub fn add_chunk(&mut self, chunk: &[i16]) -> (out: Vec<SpeechSegment>)
        requires
            old(self).wf(),
            old(self).stream().len() + chunk@.len() <= u64::MAX,
        ensures
            final(self).wf(),
            final(self).stream() == old(self).stream() + chunk@,
            forall|k: int| 0 <= k < out@.len() ==> valid_emitted(out@[k], final(self).stream()),
            ordered_within(out@, old(self).emitted_end() as int, final(self).emitted_end() as int),
            old(self).emitted_end() <= final(self).emitted_end(),
            old(self).quiet() && frame_score(chunk@, ENERGY_THRESHOLD as nat) == 0 ==> out@.len()
                == 0 && final(self).quiet(),
            final(self).history() == next_history(
                old(self).history(),
                frame_score(chunk@, ENERGY_THRESHOLD as nat),
            ),
            frame_outcome(
                old(self).current(),
                old(self).last_speech(),
                old(self).stream().len() as int,
                final(self).stream().len() as int,
                crate::vad::smoothed_speech(final(self).history()),
                out@,
                final(self).current(),
                final(self).last_speech(),
            ),
    {
        let t0 = self.clock;
        let n = chunk.len() as u64;
        let ghost h0 = self.vad.history();
        assert(old(self).history() == h0);
        let ghost was_quiet = self.quiet() && frame_score(chunk@, ENERGY_THRESHOLD as nat) == 0;
        assert(self.vad.threshold() == ENERGY_THRESHOLD as nat);
        let speech = self.vad.is_speech(chunk);
        assert(self.vad.history() == next_history(h0, frame_score(chunk@, ENERGY_THRESHOLD as nat)));
        proof {
            if was_quiet {
                assert forall|i: int| 0 <= i < h0.len() implies h0[i] == 0 by {
                    assert(old(self).history()[i] == 0);
                }
                crate::vad::lemma_zero_history(h0);
                assert(!speech);
            }
        }
        let ghost old_stream = self.stream@;
        self.stream = Ghost(self.stream@ + chunk@);
        assert(self.stream@.subrange(0, t0 as int) =~= old_stream);
        assert(chunk@ =~= self.stream@.subrange(t0 as int, t0 + n));
        let mut out: Vec<SpeechSegment> = Vec::new();
        if speech {
            self.last_speech_time = Some(t0 + n);
            self.feed(chunk, t0, true, &mut out);
        } else {
            let silence_closes = match self.last_speech_time {
                Some(ls) => t0 + n - ls >= SILENCE_SAMPLES,
                None => false,
            };
            if silence_closes {
                let ls = self.last_speech_time.unwrap();
                if let Some(mut seg) = self.current_segment.take() {
                    let keep = ls - seg.start_time;
                    if keep >= MIN_SEGMENT_SAMPLES {
                        let ghost a0 = seg.audio_data@;
                        seg.audio_data.truncate(keep as usize);
                        assert(seg.audio_data@ =~= self.stream@.subrange(seg.start_time as int, ls as int));
                        seg.complete(ls);
                        self.last_emitted_end = ls;
                        out.push(seg);
                    }
                }
            } else {
                self.feed(chunk, t0, false, &mut out);
            }
        }
        self.clock = t0 + n;
        proof {
            if was_quiet {
                assert(!speech);
                assert(out@.len() == 0);
                assert(self.current_segment.is_none());
                assert(self.quiet());
            }
        }
        out
    }

    /// Closes the open segment at the end of the stream; a segment shorter
    /// than the minimum is dropped.
    pub fn force_complete_current(&mut self) -> (r: Option<SpeechSegment>)
        requires
            old(self).wf(),
        ensures
            final(self).wf(),
            final(self).stream() == old(self).stream(),
            final(self).current().is_none(),
            final(self).history() == old(self).history(),
            final(self).last_speech() == old(self).last_speech(),
            r.is_none() ==> final(self).emitted_end() == old(self).emitted_end(),
            old(self).emitted_end() <= final(self).emitted_end(),
            r matches Some(s) ==> valid_emitted(s, final(self).stream()) && old(self).emitted_end()
                <= s.start_time && seg_end(s) == final(self).emitted_end(),
            r.is_some() == (old(self).current() matches Some(c) && c.audio_data@.len()
                >= MIN_SEGMENT_SAMPLES),
            r matches Some(s) ==> old(self).current() matches Some(c) && s.start_time == c.start_time
                && s.audio_data@ == c.audio_data@,
    {
        match self.current_segment.take() {
            Some(mut seg) => {
                let len = seg.audio_data.len() as u64;
                if len >= MIN_SEGMENT_SAMPLES {
                    let end = seg.start_time + len;
                    seg.complete(end);
                    self.last_emitted_end = end;
                    Some(seg)
                } else {
                    None
                }
            },
            None => None,
        }
    }

    pub fn get_current_segment(&self) -> (r: Option<&SpeechSegment>)
        ensures
            r matches Some(s) ==> self.current() == Some(*s),
            r.is_none() ==> self.current().is_none(),
    {
        self.current_segment.as_ref()
    }

    /// Mean of the recent frame scores, in thousandths.
    pub fn get_speech_probability(&self) -> (r: u32)
        requires
            self.wf(),
        ensures
            r == crate::vad::probability_of(self.history()),
    {
        self.vad.get_speech_probability()
    }
}

} // verus!
