//! One streaming session: frames in, segments and transcript events out. The
//! recognition calls happen outside; their results come back through
//! [`Orchestrator::on_result`].
use vstd::prelude::*;
use crate::context::ContextAwareProcessor;
use crate::preprocess::AudioProcessingPipeline;
use crate::quality::{report_of, QualityReport};
use crate::dedup::{dups_of, merge_fix, others_of};
use crate::result_manager::{
    commit_all, drained, keep_recent, pending_index, promoted, string_views, with_pending,
    ResultManager,
};
use crate::preprocess::preprocessed;
use crate::segmenter::{frame_outcome, ordered_within, seg_end, SmartAudioBuffer, MIN_SEGMENT_SAMPLES};
use crate::segments::corrected;
use crate::vad::{frame_score, next_history, smoothed_speech, ENERGY_THRESHOLD};
use crate::transcript::{opt_view, ResultView};
use crate::segmenter::{valid_emitted, SpeechSegment};
use crate::segments::{find_index, sorted_by_start, ManagedTranscriptSegment, SegmentView};
use crate::session::{next_state, transition, SessionCommand, SessionState};
use crate::speaker::VoiceFeatures;
use crate::transcript::{copy_opt_string, TranscriptResult};

verus! {

/// Events toward the presentation layer.
#[derive(Debug, Clone)]
pub enum TranscriptEvent {
    AudioLevelUpdate { level: u32, speech_probability: u32, timestamp: u64 },
    TranscriptionResult {
        segment_id: String,
        text: String,
        confidence: u32,
        is_temporary: bool,
        speaker: Option<String>,
        timestamp: u64,
        latency_ms: u64,
    },
    SegmentUpdated { segment_id: String },
    ProcessingStats { segments_processed: u64, quality_report: QualityReport, speaker_count: usize },
    RecordingStopped,
}

pub open spec fn peak_abs(a: Seq<i16>, n: nat) -> nat
    decreases n,
{
    if n == 0 {
        0
    } else {
        let p = peak_abs(a, (n - 1) as nat);
        let x = a[n - 1] as int;
        let m = if x >= 0 {
            x
        } else {
            -x
        };
        if m > p {
            m as nat
        } else {
            p
        }
    }
}

proof fn lemma_peak_abs(a: Seq<i16>, n: nat)
    ensures
        peak_abs(a, n) <= 32768,
    decreases n,
{
    if n > 0 {
        lemma_peak_abs(a, (n - 1) as nat);
    }
}

/// Frame level: peak magnitude in thousandths of full scale.
pub fn audio_level(samples: &[i16]) -> (r: u32)
    ensures
        r == peak_abs(samples@, samples@.len()) * 1000 / 32768,
{
    let mut m: u32 = 0;
    let mut i: usize = 0;
    while i < samples.len()
        invariant
            i <= samples@.len(),
            m == peak_abs(samples@, i as nat),
        decreases samples@.len() - i,
    {
        let x = samples[i] as i32;
        let a = if x >= 0 {
            x as u32
        } else {
            (-x) as u32
        };
        if a > m {
            m = a;
        }
        i += 1;
    }
    proof {
        lemma_peak_abs(samples@, samples@.len());
    }
    m * 1000 / 32768
}

/// Three formants and twelve cepstral bands.
pub fn features_ok(f: &VoiceFeatures) -> (r: bool)
    ensures
        r == f.wf(),
{
    f.formant_frequencies.len() == 3 && f.cepstrum.len() == 12
}

/// Pending fast results older than this are purged.
pub const PENDING_MAX_AGE_MS: u64 = 10_000;

pub struct Orchestrator {
    state: SessionState,
    pipeline: AudioProcessingPipeline,
    context: ContextAwareProcessor,
    results: ResultManager,
    samples_seen: u64,
    segments_processed: u64,
    context_awareness: bool,
}

impl Orchestrator {
    pub closed spec fn wf(&self) -> bool {
        &&& self.pipeline.segmenter().wf()
        &&& self.samples_seen == self.pipeline.segmenter().stream().len()
        &&& self.context.wf()
        &&& self.results.wf()
    }

    /// Every preprocessed sample of the session.
    pub closed spec fn stream(&self) -> Seq<i16> {
        self.pipeline.segmenter().stream()
    }

    /// The segmenter, after preprocessing.
    pub closed spec fn segmenter(&self) -> SmartAudioBuffer {
        self.pipeline.segmenter()
    }

    /// Number of speaker profiles.
    pub closed spec fn speakers(&self) -> nat {
        self.context.profiles().len()
    }

    pub closed spec fn session(&self) -> SessionState {
        self.state
    }

    pub closed spec fn committed(&self) -> Seq<SegmentView> {
        self.results.segments()
    }

    pub closed spec fn capacity(&self) -> nat {
        self.results.capacity()
    }

    /// Fast results waiting for their final result.
    pub closed spec fn pending(&self) -> Seq<ResultView> {
        self.results.pending()
    }

    pub closed spec fn paragraph_gap(&self) -> u64 {
        self.results.paragraph_gap()
    }

    pub closed spec fn dedup_window(&self) -> u64 {
        self.results.window()
    }

    pub closed spec fn dedup_threshold(&self) -> u64 {
        self.results.threshold()
    }

    pub closed spec fn history(&self) -> Seq<crate::context::ConversationView> {
        self.context.history()
    }

    pub closed spec fn profiles(&self) -> Seq<crate::speaker::ProfileView> {
        self.context.profiles()
    }

    pub closed spec fn context_pairs(&self) -> Seq<(Seq<char>, Seq<char>)> {
        self.context.pairs()
    }

    pub closed spec fn context_rules(&self) -> Seq<crate::context::RuleView> {
        self.context.rules()
    }

    pub closed spec fn uses_context(&self) -> bool {
        self.context_awareness
    }

    pub closed spec fn processed(&self) -> u64 {
        self.segments_processed
    }

    pub fn new(max_segments: usize, context_awareness: bool) -> (r: Self)
        ensures
            r.wf(),
            r.session() == SessionState::Idle,
            r.committed().len() == 0,
            r.capacity() == max_segments,
            r.processed() == 0,
    {
        Orchestrator {
            state: SessionState::Idle,
            pipeline: AudioProcessingPipeline::new(),
            context: ContextAwareProcessor::new(),
            results: ResultManager::new(max_segments),
            samples_seen: 0,
            segments_processed: 0,
            context_awareness,
        }
    }

    pub fn state(&self) -> (r: SessionState)
        ensures
            r == self.session(),
    {
        self.state
    }

    /// Start, pause or resume; a stop goes through [`Orchestrator::stop`].
    pub fn command(&mut self, c: SessionCommand) -> (ok: bool)
        requires
            old(self).wf(),
        ensures
            final(self).wf(),
            final(self).committed() == old(self).committed(),
            final(self).capacity() == old(self).capacity(),
            final(self).processed() == old(self).processed(),
            c == SessionCommand::Stop ==> !ok && final(self).session() == old(self).session(),
            c != SessionCommand::Stop ==> ok == next_state(old(self).session(), c).is_some(),
            ok ==> final(self).session() == next_state(old(self).session(), c).unwrap(),
            !ok ==> final(self).session() == old(self).session(),
    {
        if c == SessionCommand::Stop {
            return false;
        }
        match transition(self.state, c) {
            Some(s) => {
                self.state = s;
                true
            },
            None => false,
        }
    }

    /// Takes one frame while recording; returns the segments it completed,
    /// which go to the recognition tiers. Frames outside recording, or past
    /// the sample counter's range, are ignored.
    pub fn on_audio_frame(&mut self, samples: &[i16]) -> (out: Vec<SpeechSegment>)
        requires
            old(self).wf(),
        ensures
            final(self).wf(),
            final(self).session() == old(self).session(),
            final(self).committed() == old(self).committed(),
            final(self).pending() == old(self).pending(),
            final(self).capacity() == old(self).capacity(),
            final(self).processed() == old(self).processed(),
            final(self).stream() == final(self).segmenter().stream(),
            old(self).stream() == old(self).segmenter().stream(),
            forall|k: int| 0 <= k < out@.len() ==> valid_emitted(out@[k], final(self).stream()),
            !(old(self).session() == SessionState::Recording && old(self).stream().len()
                + samples@.len() <= u64::MAX) ==> out@.len() == 0 && final(self).segmenter()
                == old(self).segmenter(),
            old(self).session() == SessionState::Recording && old(self).stream().len()
                + samples@.len() <= u64::MAX ==> {
                let b0 = old(self).segmenter();
                let b1 = final(self).segmenter();
                &&& b1.stream() == b0.stream() + preprocessed(samples@)
                &&& b1.history() == next_history(
                    b0.history(),
                    frame_score(preprocessed(samples@), ENERGY_THRESHOLD as nat),
                )
                &&& frame_outcome(
                    b0.current(),
                    b0.last_speech(),
                    b0.stream().len() as int,
                    b1.stream().len() as int,
                    smoothed_speech(b1.history()),
                    out@,
                    b1.current(),
                    b1.last_speech(),
                )
                &&& ordered_within(out@, b0.emitted_end() as int, b1.emitted_end() as int)
                &&& b0.emitted_end() <= b1.emitted_end()
                &&& b0.quiet() && frame_score(preprocessed(samples@), ENERGY_THRESHOLD as nat) == 0
                    ==> out@.len() == 0 && b1.quiet()
                &&& b0.quiet() && (forall|i: int| 0 <= i < samples@.len() ==> samples@[i] == 0)
                    ==> out@.len() == 0 && b1.quiet()
            },
    {
        if self.state != SessionState::Recording {
            return Vec::new();
        }
        if samples.len() as u128 > (u64::MAX - self.samples_seen) as u128 {
            return Vec::new();
        }
        let out = self.pipeline.process_chunk(samples);
        proof {
            crate::preprocess::lemma_preprocessed_len(samples@);
        }
        self.samples_seen = self.samples_seen + samples.len() as u64;
        out
    }

    /// The level event for a frame.
    pub fn audio_level_event(&self, samples: &[i16], timestamp: u64) -> (e: TranscriptEvent)
        requires
            self.wf(),
        ensures
            (e matches TranscriptEvent::AudioLevelUpdate { level, timestamp: t, .. } && level
                == peak_abs(samples@, samples@.len()) * 1000 / 32768 && t == timestamp),
    {
        TranscriptEvent::AudioLevelUpdate {
            level: audio_level(samples),
            speech_probability: self.pipeline.get_speech_probability(),
            timestamp,
        }
    }

    /// A recognition result: optionally enhanced with context, reconciled by
    /// the result manager, and reported. A final result also reports every
    /// segment it changed and counts as processed.
    pub fn on_result(&mut self, result: TranscriptResult, features: &Option<VoiceFeatures>, now_ms: u64) -> (events: Vec<
        TranscriptEvent,
    >)
        requires
            old(self).wf(),
        ensures
            final(self).wf(),
            final(self).session() == old(self).session(),
            final(self).capacity() == old(self).capacity(),
            final(self).committed().len() <= final(self).capacity(),
            sorted_by_start(final(self).committed()),
            events@.len() >= 1,
            (events@[0] matches TranscriptEvent::TranscriptionResult { is_temporary, timestamp, latency_ms, segment_id, .. }
                && is_temporary == result.is_temporary && timestamp == result.timestamp && latency_ms
                == result.processing_time_ms && segment_id@ == result.segment_id@),
            result.is_temporary ==> events@.len() == 1 && final(self).committed() == old(self).committed()
                && final(self).processed() == old(self).processed(),
            !result.is_temporary ==> final(self).processed() == if old(self).processed() < u64::MAX {
                (old(self).processed() + 1) as u64
            } else {
                old(self).processed()
            },
            forall|k: int| 1 <= k < events@.len() ==> events@[k] is SegmentUpdated,
            final(self).paragraph_gap() == old(self).paragraph_gap(),
            final(self).dedup_window() == old(self).dedup_window(),
            final(self).dedup_threshold() == old(self).dedup_threshold(),
            final(self).uses_context() == old(self).uses_context(),
            events@[0] matches TranscriptEvent::TranscriptionResult {
                segment_id,
                text,
                confidence,
                is_temporary,
                speaker,
                timestamp,
                latency_ms,
            } ==> {
                let e = ResultView {
                    text: text@,
                    confidence,
                    is_temporary,
                    speaker: opt_view(speaker),
                    timestamp,
                    processing_time_ms: latency_ms,
                    segment_id: segment_id@,
                };
                let w = old(self).dedup_window();
                let t = old(self).dedup_threshold();
                &&& !(old(self).uses_context() && (features matches Some(v) ==> v.wf())
                    && old(self).speakers() < u64::MAX) ==> e == result@
                &&& old(self).uses_context() && (features matches Some(v) ==> v.wf())
                    && old(self).speakers() < u64::MAX ==> {
                    &&& e.text == crate::context::corrected_text(
                        result@.text,
                        old(self).context_pairs(),
                        old(self).context_rules(),
                        crate::context::recent_context(old(self).history(), 100),
                    )
                    &&& e.confidence == crate::context::boosted(result@.confidence)
                    &&& e.speaker == crate::context::speaker_after(
                        old(self).profiles(),
                        *features,
                        result@.speaker,
                    )
                    &&& e.is_temporary == result@.is_temporary
                    &&& e.timestamp == result@.timestamp
                    &&& e.segment_id == result@.segment_id
                }
                &&& is_temporary ==> final(self).pending() == with_pending(old(self).pending(), e)
                &&& !is_temporary ==> final(self).pending() == others_of(e, old(self).pending(), w, t)
                &&& !is_temporary ==> final(self).committed() == commit_all(
                    old(self).committed(),
                    merge_fix(seq![e] + dups_of(e, old(self).pending(), w, t), w, t),
                    old(self).capacity(),
                    old(self).paragraph_gap(),
                )
            },
    {
        let usable = match features {
            Some(f) => features_ok(f),
            None => true,
        };
        let room = (self.context.get_speaker_count() as u128) < (u64::MAX as u128);
        let enhanced = if self.context_awareness && usable && room {
            self.context.process_with_context(result, features, now_ms)
        } else {
            result
        };
        let mut events: Vec<TranscriptEvent> = Vec::new();
        events.push(
            TranscriptEvent::TranscriptionResult {
                segment_id: enhanced.segment_id.clone(),
                text: enhanced.text.clone(),
                confidence: enhanced.confidence,
                is_temporary: enhanced.is_temporary,
                speaker: copy_opt_string(&enhanced.speaker),
                timestamp: enhanced.timestamp,
                latency_ms: enhanced.processing_time_ms,
            },
        );
        let temporary = enhanced.is_temporary;
        let ghost first = events@[0];
        let ids = self.results.process_result(enhanced);
        if !temporary {
            let mut i: usize = 0;
            while i < ids.len()
                invariant
                    i <= ids@.len(),
                    events@.len() == 1 + i,
                    events@[0] == first,
                    forall|k: int| 1 <= k < events@.len() ==> events@[k] is SegmentUpdated,
                decreases ids@.len() - i,
            {
                events.push(TranscriptEvent::SegmentUpdated { segment_id: ids[i].clone() });
                i += 1;
            }
            if self.segments_processed < u64::MAX {
                self.segments_processed = self.segments_processed + 1;
            }
        }
        events
    }

    /// Ends the session: flushes the open segment, promotes every pending fast
    /// result (no final result will come), and reports the final statistics.
    /// Allowed while recording or paused. The events are one `SegmentUpdated`
    /// per changed segment, then `ProcessingStats`, then `RecordingStopped`.
    pub fn stop(&mut self) -> (r: (Option<SpeechSegment>, Vec<TranscriptEvent>))
        requires
            old(self).wf(),
        ensures
            final(self).wf(),
            next_state(old(self).session(), SessionCommand::Stop).is_none() ==> r.0.is_none()
                && r.1@.len() == 0 && final(self).session() == old(self).session()
                && final(self).committed() == old(self).committed() && final(self).pending()
                == old(self).pending() && final(self).segmenter() == old(self).segmenter(),
            next_state(old(self).session(), SessionCommand::Stop).is_some() ==> {
                let b0 = old(self).segmenter();
                let n = r.1@.len();
                &&& final(self).session() == SessionState::Stopped
                &&& final(self).processed() == old(self).processed()
                &&& final(self).segmenter().current().is_none()
                &&& final(self).segmenter().stream() == b0.stream()
                &&& r.0.is_some() == (b0.current() matches Some(c) && c.audio_data@.len()
                    >= MIN_SEGMENT_SAMPLES)
                &&& r.0 matches Some(s) ==> b0.current() matches Some(c) && s.start_time
                    == c.start_time && s.audio_data@ == c.audio_data@ && valid_emitted(
                    s,
                    b0.stream(),
                )
                &&& final(self).pending().len() == 0
                &&& final(self).committed() == drained(
                    old(self).pending(),
                    old(self).committed(),
                    old(self).dedup_window(),
                    old(self).dedup_threshold(),
                    old(self).capacity(),
                    old(self).paragraph_gap(),
                )
                &&& n >= 2
                &&& forall|k: int| 0 <= k < n - 2 ==> r.1@[k] is SegmentUpdated
                &&& r.1@[n - 2] == (TranscriptEvent::ProcessingStats {
                    segments_processed: final(self).processed(),
                    quality_report: report_of(final(self).committed(), 3),
                    speaker_count: final(self).speakers() as usize,
                })
                &&& (r.1@[n - 1] is RecordingStopped)
            },
    {
        match transition(self.state, SessionCommand::Stop) {
            None => (None, Vec::new()),
            Some(s) => {
                self.state = s;
                let flushed = self.pipeline.force_complete_current();
                let ids = self.results.drain_pending();
                let mut events: Vec<TranscriptEvent> = Vec::new();
                let mut i: usize = 0;
                while i < ids.len()
                    invariant
                        i <= ids@.len(),
                        events@.len() == i,
                        forall|k: int| 0 <= k < events@.len() ==> events@[k] is SegmentUpdated,
                    decreases ids@.len() - i,
                {
                    events.push(TranscriptEvent::SegmentUpdated { segment_id: ids[i].clone() });
                    i += 1;
                }
                events.push(self.stats_event());
                events.push(TranscriptEvent::RecordingStopped);
                (flushed, events)
            },
        }
    }

    /// Current statistics.
    pub fn stats_event(&self) -> (e: TranscriptEvent)
        requires
            self.wf(),
        ensures
            e == (TranscriptEvent::ProcessingStats {
                segments_processed: self.processed(),
                quality_report: report_of(self.committed(), 3),
                speaker_count: self.speakers() as usize,
            }),
    {
        proof {
            self.results.lemma_min_len();
        }
        TranscriptEvent::ProcessingStats {
            segments_processed: self.segments_processed,
            quality_report: self.results.get_quality_report(),
            speaker_count: self.context.get_speaker_count(),
        }
    }

    /// A manual correction: the segment takes the text, is tagged as
    /// user-corrected and becomes final; reported when it exists.
    pub fn update_segment(&mut self, segment_id: &str, new_text: String) -> (events: Vec<TranscriptEvent>)
        requires
            old(self).wf(),
        ensures
            final(self).wf(),
            final(self).session() == old(self).session(),
            final(self).pending() == old(self).pending(),
            final(self).capacity() == old(self).capacity(),
            (events@.len() == 1) == (find_index(old(self).committed(), segment_id@) >= 0),
            events@.len() <= 1,
            events@.len() == 1 ==> (events@[0] matches TranscriptEvent::SegmentUpdated { segment_id: id } && id@
                == segment_id@),
            find_index(old(self).committed(), segment_id@) == -1 ==> final(self).committed()
                == old(self).committed(),
            find_index(old(self).committed(), segment_id@) >= 0 ==> final(self).committed()
                == old(self).committed().update(
                find_index(old(self).committed(), segment_id@),
                corrected(
                    old(self).committed()[find_index(old(self).committed(), segment_id@)],
                    new_text@,
                    crate::segments::SegmentSource::UserCorrected,
                ),
            ),
    {
        let mut events: Vec<TranscriptEvent> = Vec::new();
        if self.results.update_segment_text(segment_id, new_text) {
            events.push(TranscriptEvent::SegmentUpdated { segment_id: crate::text::string_of(&crate::text::chars_of(segment_id)) });
        }
        events
    }

    /// The accurate tier failed for this segment id: its pending fast result
    /// becomes final (see [`ResultManager::promote_pending`]); each changed
    /// segment is reported.
    pub fn promote_pending(&mut self, segment_id: &str) -> (events: Vec<TranscriptEvent>)
        requires
            old(self).wf(),
        ensures
            final(self).wf(),
            final(self).session() == old(self).session(),
            final(self).capacity() == old(self).capacity(),
            final(self).processed() == old(self).processed(),
            forall|k: int| 0 <= k < events@.len() ==> events@[k] is SegmentUpdated,
            pending_index(old(self).pending(), segment_id@) == -1 ==> {
                &&& final(self).pending() == old(self).pending()
                &&& final(self).committed() == old(self).committed()
                &&& events@.len() == 0
            },
            pending_index(old(self).pending(), segment_id@) >= 0 ==> {
                let k = pending_index(old(self).pending(), segment_id@);
                let w = old(self).dedup_window();
                let t = old(self).dedup_threshold();
                let f = promoted(old(self).pending()[k]);
                let rest = old(self).pending().remove(k);
                &&& final(self).pending() == others_of(f, rest, w, t)
                &&& final(self).committed() == commit_all(
                    old(self).committed(),
                    merge_fix(seq![f] + dups_of(f, rest, w, t), w, t),
                    old(self).capacity(),
                    old(self).paragraph_gap(),
                )
            },
            final(self).committed().len() <= final(self).capacity(),
            sorted_by_start(final(self).committed()),
    {
        let ids = self.results.promote_pending(segment_id);
        let mut events: Vec<TranscriptEvent> = Vec::new();
        let mut i: usize = 0;
        while i < ids.len()
            invariant
                i <= ids@.len(),
                events@.len() == i,
                forall|k: int| 0 <= k < events@.len() ==> events@[k] is SegmentUpdated,
            decreases ids@.len() - i,
        {
            events.push(TranscriptEvent::SegmentUpdated { segment_id: ids[i].clone() });
            i += 1;
        }
        events
    }

    /// Purges pending fast results more than ten seconds older than `now_ms`.
    pub fn cleanup_old_pending(&mut self, now_ms: u64)
        requires
            old(self).wf(),
        ensures
            final(self).wf(),
            final(self).session() == old(self).session(),
            final(self).committed() == old(self).committed(),
            final(self).capacity() == old(self).capacity(),
            final(self).processed() == old(self).processed(),
            final(self).pending() == keep_recent(
                old(self).pending(),
                if now_ms >= PENDING_MAX_AGE_MS {
                    (now_ms - PENDING_MAX_AGE_MS) as u64
                } else {
                    0
                },
            ),
    {
        self.results.cleanup_old_pending(now_ms, PENDING_MAX_AGE_MS);
    }

    /// All committed texts, oldest first, joined by single spaces.
    pub fn get_current_transcript(&self) -> (r: String)
        ensures
            r@ == crate::text::join(crate::segments::texts_of(self.committed())),
    {
        let r = self.results.get_continuous_text(None);
        assert(self.committed().subrange(0, self.committed().len() as int) =~= self.committed());
        r
    }

    pub fn get_segments(&self) -> (r: &Vec<ManagedTranscriptSegment>)
        ensures
            crate::segments::segment_views(r@) == self.committed(),
    {
        self.results.get_all_segments()
    }
}

} // verus!
