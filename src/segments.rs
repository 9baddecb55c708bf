//! Committed transcript segments and their ordered, bounded buffer.
use vstd::prelude::*;
use crate::text::{append_chars, chars_eq, chars_of, decimal, decimal_chars, join, string_of};
use crate::transcript::{copy_opt_string, opt_string_eq, opt_view, ResultView, TranscriptResult};

verus! {

#[derive(Debug, Clone, Copy, PartialEq, Eq, Structural)]
pub enum SegmentSource {
    FastProcessing,
    AccurateProcessing,
    Merged,
    UserCorrected,
}

#[derive(Debug, Clone, Copy, PartialEq, Eq, Structural)]
pub enum CorrectionReason {
    DeduplicationMerge,
    ContextualCorrection,
    GrammarFix,
    SpeakerConsistency,
    UserEdit,
}

#[derive(Debug, Clone)]
pub struct TextCorrection {
    pub original: String,
    pub corrected: String,
    pub reason: CorrectionReason,
    /// Thousandths.
    pub confidence: u32,
}

pub ghost struct CorrectionView {
    pub original: Seq<char>,
    pub corrected: Seq<char>,
    pub reason: CorrectionReason,
    pub confidence: u32,
}

impl View for TextCorrection {
    type V = CorrectionView;

    open spec fn view(&self) -> CorrectionView {
        CorrectionView {
            original: self.original@,
            corrected: self.corrected@,
            reason: self.reason,
            confidence: self.confidence,
        }
    }
}

/// The durable unit surfaced to consumers.
#[derive(Debug, Clone)]
pub struct ManagedTranscriptSegment {
    pub id: String,
    pub text: String,
    /// Thousandths.
    pub confidence: u32,
    pub speaker: Option<String>,
    pub timestamp: u64,
    pub start_time: u64,
    pub end_time: u64,
    pub is_final: bool,
    pub source: SegmentSource,
    pub corrections: Vec<TextCorrection>,
}

pub ghost struct SegmentView {
    pub id: Seq<char>,
    pub text: Seq<char>,
    pub confidence: u32,
    pub speaker: Option<Seq<char>>,
    pub timestamp: u64,
    pub start_time: u64,
    pub end_time: u64,
    pub is_final: bool,
    pub source: SegmentSource,
    pub corrections: Seq<CorrectionView>,
}

pub open spec fn correction_views(v: Seq<TextCorrection>) -> Seq<CorrectionView> {
    Seq::new(v.len(), |i: int| v[i]@)
}

impl View for ManagedTranscriptSegment {
    type V = SegmentView;

    open spec fn view(&self) -> SegmentView {
        SegmentView {
            id: self.id@,
            text: self.text@,
            confidence: self.confidence,
            speaker: opt_view(self.speaker),
            timestamp: self.timestamp,
            start_time: self.start_time,
            end_time: self.end_time,
            is_final: self.is_final,
            source: self.source,
            corrections: correction_views(self.corrections@),
        }
    }
}

pub open spec fn segment_views(v: Seq<ManagedTranscriptSegment>) -> Seq<SegmentView> {
    Seq::new(v.len(), |i: int| v[i]@)
}

/// Segments in non-decreasing order of start time.
pub open spec fn sorted_by_start(s: Seq<SegmentView>) -> bool {
    forall|i: int, j: int| 0 <= i <= j < s.len() ==> s[i].start_time <= s[j].start_time
}

/// `seg_<timestamp>_<result id>`.
pub open spec fn segment_id_for(r: ResultView) -> Seq<char> {
    seq!['s', 'e', 'g', '_'] + decimal(r.timestamp as nat) + seq!['_'] + r.segment_id
}

pub open spec fn sat_add(a: u64, b: u64) -> u64 {
    if a + b > u64::MAX {
        u64::MAX
    } else {
        (a + b) as u64
    }
}

/// The segment that a result becomes when it is committed.
pub open spec fn segment_of(r: ResultView, source: SegmentSource) -> SegmentView {
    SegmentView {
        id: segment_id_for(r),
        text: r.text,
        confidence: r.confidence,
        speaker: r.speaker,
        timestamp: r.timestamp,
        start_time: r.timestamp,
        end_time: sat_add(r.timestamp, r.processing_time_ms),
        is_final: !r.is_temporary,
        source: source,
        corrections: Seq::empty(),
    }
}

/// A new segment joins the previous one when it starts less than `threshold`
/// after the previous one ends, has the same speaker, and the previous one is
/// not final.
pub open spec fn should_merge(new: SegmentView, last: SegmentView, threshold: u64) -> bool {
    let gap: int = if new.start_time > last.end_time {
        new.start_time - last.end_time
    } else {
        0
    };
    gap < threshold && new.speaker == last.speaker && !last.is_final
}

pub open spec fn joined_text(a: Seq<char>, b: Seq<char>) -> Seq<char> {
    if a.len() > 0 && b.len() > 0 {
        a + seq![' '] + b
    } else if a.len() == 0 {
        b
    } else {
        a
    }
}

/// Confidence averaged with the text lengths as weights.
pub open spec fn weighted_confidence(c1: u32, l1: nat, c2: u32, l2: nat) -> u32 {
    if l1 + l2 > 0 {
        ((c1 as nat * l1 + c2 as nat * l2) / (l1 + l2)) as u32
    } else {
        c1
    }
}

/// `last` with `new` merged into it.
pub open spec fn merged_into(last: SegmentView, new: SegmentView) -> SegmentView {
    SegmentView {
        text: joined_text(last.text, new.text),
        end_time: new.end_time,
        confidence: weighted_confidence(
            last.confidence,
            last.text.len(),
            new.confidence,
            new.text.len(),
        ),
        corrections: last.corrections + new.corrections,
        source: SegmentSource::Merged,
        ..last
    }
}

/// Where a segment starting at `t` goes: after every segment that starts no later.
pub open spec fn insert_pos(s: Seq<SegmentView>, t: u64) -> int
    decreases s.len(),
{
    if s.len() == 0 {
        0
    } else if s.last().start_time <= t {
        s.len() as int
    } else {
        insert_pos(s.drop_last(), t)
    }
}

pub proof fn lemma_insert_pos(s: Seq<SegmentView>, t: u64)
    requires
        sorted_by_start(s),
    ensures
        0 <= insert_pos(s, t) <= s.len(),
        forall|i: int| 0 <= i < insert_pos(s, t) ==> s[i].start_time <= t,
        forall|i: int| insert_pos(s, t) <= i < s.len() ==> s[i].start_time > t,
    decreases s.len(),
{
    if s.len() > 0 && s.last().start_time > t {
        lemma_insert_pos(s.drop_last(), t);
        assert forall|i: int| insert_pos(s, t) <= i < s.len() implies s[i].start_time > t by {
            if i < s.len() - 1 {
                assert(s.drop_last()[i] == s[i]);
            }
        }
        assert forall|i: int| 0 <= i < insert_pos(s, t) implies s[i].start_time <= t by {
            assert(s.drop_last()[i] == s[i]);
        }
    } else if s.len() > 0 {
        assert forall|i: int| 0 <= i < insert_pos(s, t) implies s[i].start_time <= t by {
            assert(s[i].start_time <= s[s.len() - 1].start_time);
        }
    }
}

pub proof fn lemma_insert_sorted(s: Seq<SegmentView>, v: SegmentView)
    requires
        sorted_by_start(s),
    ensures
        sorted_by_start(s.insert(insert_pos(s, v.start_time), v)),
{
    lemma_insert_pos(s, v.start_time);
}

/// What committing `nv` does to the buffer `s` of capacity `max`.
pub open spec fn add_outcome(s: Seq<SegmentView>, nv: SegmentView, max: nat, threshold: u64) -> Seq<
    SegmentView,
> {
    if s.len() > 0 && insert_pos(s, nv.start_time) == s.len() && should_merge(
        nv,
        s.last(),
        threshold,
    ) {
        s.update(s.len() - 1, merged_into(s.last(), nv))
    } else {
        let s1 = if s.len() >= max && s.len() > 0 {
            s.drop_first()
        } else {
            s
        };
        if max > 0 {
            s1.insert(insert_pos(s1, nv.start_time), nv)
        } else {
            s1
        }
    }
}

/// The id that committing `nv` into `s` reports.
pub open spec fn add_outcome_id(s: Seq<SegmentView>, nv: SegmentView, threshold: u64) -> Seq<
    char,
> {
    if s.len() > 0 && insert_pos(s, nv.start_time) == s.len() && should_merge(
        nv,
        s.last(),
        threshold,
    ) {
        s.last().id
    } else {
        nv.id
    }
}

/// Index of the first segment with this id, if any.
pub open spec fn find_index(s: Seq<SegmentView>, id: Seq<char>) -> int
    decreases s.len(),
{
    if s.len() == 0 {
        -1
    } else {
        let p = find_index(s.drop_last(), id);
        if p >= 0 {
            p
        } else if s.last().id == id {
            s.len() - 1
        } else {
            -1
        }
    }
}

pub proof fn lemma_find_index(s: Seq<SegmentView>, id: Seq<char>)
    ensures
        -1 <= find_index(s, id) < s.len(),
        find_index(s, id) >= 0 ==> s[find_index(s, id)].id == id,
        find_index(s, id) >= 0 ==> forall|k: int| 0 <= k < find_index(s, id) ==> s[k].id != id,
        find_index(s, id) == -1 ==> forall|k: int| 0 <= k < s.len() ==> s[k].id != id,
    decreases s.len(),
{
    if s.len() > 0 {
        lemma_find_index(s.drop_last(), id);
        assert forall|k: int| 0 <= k < s.len() - 1 implies s.drop_last()[k] == s[k] by {}
    }
}

/// The segment after a correction to `text` from `source`.
pub open spec fn corrected(seg: SegmentView, text: Seq<char>, source: SegmentSource) -> SegmentView {
    SegmentView {
        corrections: seg.corrections.push(
            CorrectionView {
                original: seg.text,
                corrected: text,
                reason: if source == SegmentSource::UserCorrected {
                    CorrectionReason::UserEdit
                } else {
                    CorrectionReason::ContextualCorrection
                },
                confidence: 900,
            },
        ),
        text: text,
        source: source,
        is_final: true,
        ..seg
    }
}

impl ManagedTranscriptSegment {
    pub fn copy(&self) -> (r: ManagedTranscriptSegment)
        ensures
            r@ == self@,
    {
        let mut cs: Vec<TextCorrection> = Vec::new();
        let mut i: usize = 0;
        while i < self.corrections.len()
            invariant
                i <= self.corrections@.len(),
                cs@.len() == i,
                correction_views(cs@) == correction_views(self.corrections@).subrange(0, i as int),
            decreases self.corrections@.len() - i,
        {
            let c = &self.corrections[i];
            let ghost c0 = correction_views(cs@);
            cs.push(
                TextCorrection {
                    original: c.original.clone(),
                    corrected: c.corrected.clone(),
                    reason: c.reason,
                    confidence: c.confidence,
                },
            );
            assert(cs@[i as int]@ == self.corrections@[i as int]@);
            i += 1;
            assert(correction_views(cs@) =~= correction_views(self.corrections@).subrange(
                0,
                i as int,
            ));
        }
        assert(correction_views(cs@) =~= correction_views(self.corrections@));
        ManagedTranscriptSegment {
            id: self.id.clone(),
            text: self.text.clone(),
            confidence: self.confidence,
            speaker: copy_opt_string(&self.speaker),
            timestamp: self.timestamp,
            start_time: self.start_time,
            end_time: self.end_time,
            is_final: self.is_final,
            source: self.source,
            corrections: cs,
        }
    }
}

/// Builds `seg_<timestamp>_<result id>`.
pub fn segment_id(r: &TranscriptResult) -> (id: String)
    ensures
        id@ == segment_id_for(r@),
{
    let mut cs: Vec<char> = vec!['s', 'e', 'g', '_'];
    let ds = decimal_chars(r.timestamp);
    append_chars(&mut cs, &ds);
    cs.push('_');
    let tail = chars_of(r.segment_id.as_str());
    append_chars(&mut cs, &tail);
    assert(cs@ =~= segment_id_for(r@));
    string_of(&cs)
}


pub proof fn lemma_add_outcome(s: Seq<SegmentView>, nv: SegmentView, max: nat, threshold: u64)
    requires
        s.len() <= max,
        sorted_by_start(s),
    ensures
        add_outcome(s, nv, max, threshold).len() <= max,
        sorted_by_start(add_outcome(s, nv, max, threshold)),
{
    if s.len() > 0 && insert_pos(s, nv.start_time) == s.len() && should_merge(
        nv,
        s.last(),
        threshold,
    ) {
        let r = add_outcome(s, nv, max, threshold);
        assert forall|i: int| 0 <= i < r.len() implies r[i].start_time == s[i].start_time by {}
    } else {
        let s1 = if s.len() >= max && s.len() > 0 {
            s.drop_first()
        } else {
            s
        };
        assert(sorted_by_start(s1)) by {
            if s.len() >= max && s.len() > 0 {
                assert forall|i: int, j: int| 0 <= i <= j < s1.len() implies s1[i].start_time
                    <= s1[j].start_time by {
                    assert(s1[i] == s[i + 1] && s1[j] == s[j + 1]);
                }
            }
        }
        if max > 0 {
            lemma_insert_sorted(s1, nv);
            lemma_insert_pos(s1, nv.start_time);
        }
    }
}

/// Ordered, bounded buffer of committed segments. A new segment goes after
/// every segment that starts no later, or joins the last segment (see
/// [`should_merge`]); when the buffer is full the oldest segment leaves first.
pub struct SegmentOrganizer {
    segments: Vec<ManagedTranscriptSegment>,
    max_segments: usize,
    auto_paragraph_threshold_ms: u64,
}

impl View for SegmentOrganizer {
    type V = Seq<SegmentView>;

    closed spec fn view(&self) -> Seq<SegmentView> {
        segment_views(self.segments@)
    }
}

fn insert_position(segs: &Vec<ManagedTranscriptSegment>, t: u64) -> (p: usize)
    ensures
        p == insert_pos(segment_views(segs@), t),
{
    let ghost v = segment_views(segs@);
    let mut p = segs.len();
    assert(v.subrange(0, p as int) =~= v);
    while p > 0 && segs[p - 1].start_time > t
        invariant
            v == segment_views(segs@),
            p <= segs@.len(),
            insert_pos(v, t) == insert_pos(v.subrange(0, p as int), t),
        decreases p,
    {
        assert(v.subrange(0, p as int).drop_last() =~= v.subrange(0, p - 1));
        p -= 1;
    }
    p
}

pub fn text_chars_len(s: &String) -> (n: usize)
    ensures
        n == s@.len(),
{
    s.as_str().unicode_len()
}

fn merge_into(last: ManagedTranscriptSegment, new: ManagedTranscriptSegment) -> (r:
    ManagedTranscriptSegment)
    requires
        new.corrections@.len() == 0,
    ensures
        r@ == merged_into(last@, new@),
{
    let a = chars_of(last.text.as_str());
    let b = chars_of(new.text.as_str());
    let l1 = a.len() as u128;
    let l2 = b.len() as u128;
    let text = if a.len() > 0 && b.len() > 0 {
        let mut t = a;
        t.push(' ');
        append_chars(&mut t, &b);
        assert(t@ =~= last.text@ + seq![' '] + new.text@);
        string_of(&t)
    } else if a.len() == 0 {
        new.text
    } else {
        last.text
    };
    let c1 = last.confidence as u128;
    let c2 = new.confidence as u128;
    let confidence = if l1 + l2 > 0 {
        assert(c1 * l1 <= 0xffff_ffff * l1) by (nonlinear_arith)
            requires
                c1 <= 0xffff_ffff,
        ;
        assert(c2 * l2 <= 0xffff_ffff * l2) by (nonlinear_arith)
            requires
                c2 <= 0xffff_ffff,
        ;
        assert(0xffff_ffff * l1 <= 0xffff_ffff * 0xffff_ffff_ffff_ffff) by (nonlinear_arith)
            requires
                l1 <= 0xffff_ffff_ffff_ffff,
        ;
        assert(0xffff_ffff * l2 <= 0xffff_ffff * 0xffff_ffff_ffff_ffff) by (nonlinear_arith)
            requires
                l2 <= 0xffff_ffff_ffff_ffff,
        ;
        let num = c1 * l1 + c2 * l2;
        let den = l1 + l2;
        let q = num / den;
        assert(q <= 0xffff_ffff) by (nonlinear_arith)
            requires
                q == num / den,
                num <= 0xffff_ffff * den,
                den > 0,
        ;
        q as u32
    } else {
        last.confidence
    };
    assert(correction_views(last.corrections@) + correction_views(new.corrections@)
        =~= correction_views(last.corrections@));
    ManagedTranscriptSegment {
        id: last.id,
        text,
        confidence,
        speaker: last.speaker,
        timestamp: last.timestamp,
        start_time: last.start_time,
        end_time: new.end_time,
        is_final: last.is_final,
        source: SegmentSource::Merged,
        corrections: last.corrections,
    }
}

impl SegmentOrganizer {
    pub closed spec fn wf(&self) -> bool {
        &&& self.segments@.len() <= self.max_segments
        &&& sorted_by_start(self@)
    }

    pub proof fn lemma_wf(&self)
        requires
            self.wf(),
        ensures
            self@.len() <= self.capacity(),
            sorted_by_start(self@),
    {
    }

    /// The most segments the buffer holds.
    pub closed spec fn capacity(&self) -> nat {
        self.max_segments as nat
    }

    /// Largest gap, in milliseconds, across which a segment joins the previous one.
    pub closed spec fn paragraph_gap(&self) -> u64 {
        self.auto_paragraph_threshold_ms
    }

    pub fn new(max_segments: usize) -> (r: Self)
        ensures
            r.wf(),
            r@.len() == 0,
            r.capacity() == max_segments,
            r.paragraph_gap() == 3000,
    {
        let r = SegmentOrganizer {
            segments: Vec::new(),
            max_segments,
            auto_paragraph_threshold_ms: 3000,
        };
        assert(r@ =~= Seq::<SegmentView>::empty());
        r
    }

    /// Commits a result as a segment; returns the id of the segment that now
    /// holds its text.
    pub fn add_segment(&mut self, result: TranscriptResult, source: SegmentSource) -> (id: String)
        requires
            old(self).wf(),
        ensures
            final(self).wf(),
            final(self).capacity() == old(self).capacity(),
            final(self).paragraph_gap() == old(self).paragraph_gap(),
            final(self)@ == add_outcome(
                old(self)@,
                segment_of(result@, source),
                old(self).capacity(),
                old(self).paragraph_gap(),
            ),
            id@ == add_outcome_id(old(self)@, segment_of(result@, source), old(self).paragraph_gap()),
            final(self)@.len() <= final(self).capacity(),
            sorted_by_start(final(self)@),
    {
        let ghost s = self@;
        let ghost nv = segment_of(result@, source);
        proof {
            lemma_add_outcome(s, nv, self.max_segments as nat, self.auto_paragraph_threshold_ms);
            lemma_insert_pos(s, nv.start_time);
        }
        let id = segment_id(&result);
        let t = result.timestamp;
        let end = if result.processing_time_ms > u64::MAX - t {
            u64::MAX
        } else {
            t + result.processing_time_ms
        };
        let seg = ManagedTranscriptSegment {
            id,
            text: result.text,
            confidence: result.confidence,
            speaker: result.speaker,
            timestamp: t,
            start_time: t,
            end_time: end,
            is_final: !result.is_temporary,
            source,
            corrections: Vec::new(),
        };
        assert(correction_views(seg.corrections@) =~= Seq::<CorrectionView>::empty());
        assert(seg@ == nv);
        let n = self.segments.len();
        if n > 0 {
            let li = n - 1;
            let last_start = self.segments[li].start_time;
            let last_end = self.segments[li].end_time;
            let gap = if t > last_end {
                t - last_end
            } else {
                0
            };
            let same = opt_string_eq(&seg.speaker, &self.segments[li].speaker);
            assert(s.last() == self.segments@[li as int]@);
            if last_start <= t && gap < self.auto_paragraph_threshold_ms && same
                && !self.segments[li].is_final {
                assert(insert_pos(s, t) == s.len());
                let last = self.segments.pop().unwrap();
                let last_id = last.id.clone();
                let m = merge_into(last, seg);
                self.segments.push(m);
                assert(self@ =~= s.update(s.len() - 1, merged_into(s.last(), nv)));
                return last_id;
            }
            assert(!(insert_pos(s, t) == s.len() && should_merge(nv, s.last(), self.auto_paragraph_threshold_ms)));
        }
        let ret = seg.id.clone();
        if n >= self.max_segments && n > 0 {
            self.segments.remove(0);
            assert(self@ =~= s.drop_first());
        }
        if self.max_segments > 0 {
            let ghost s1 = self@;
            assert(sorted_by_start(s1)) by {
                if n >= self.max_segments && n > 0 {
                    assert forall|i: int, j: int| 0 <= i <= j < s1.len() implies s1[i].start_time
                        <= s1[j].start_time by {
                        assert(s1[i] == s[i + 1] && s1[j] == s[j + 1]);
                    }
                }
            }
            proof {
                lemma_insert_pos(s1, t);
            }
            let p = insert_position(&self.segments, t);
            self.segments.insert(p, seg);
            assert(self@ =~= s1.insert(p as int, nv));
        }
        ret
    }

    /// Replaces the text of the first segment with this id, records the
    /// correction and marks the segment final; false when no segment has the id.
    pub fn update_segment(&mut self, segment_id: &str, new_text: String, source: SegmentSource) -> (r:
        bool)
        requires
            old(self).wf(),
        ensures
            final(self).wf(),
            final(self).capacity() == old(self).capacity(),
            final(self).paragraph_gap() == old(self).paragraph_gap(),
            r == (find_index(old(self)@, segment_id@) >= 0),
            !r ==> final(self)@ == old(self)@,
            r ==> final(self)@ == old(self)@.update(
                find_index(old(self)@, segment_id@),
                corrected(old(self)@[find_index(old(self)@, segment_id@)], new_text@, source),
            ),
    {
        let ghost s = self@;
        proof {
            lemma_find_index(s, segment_id@);
        }
        let want = chars_of(segment_id);
        let mut i: usize = 0;
        while i < self.segments.len()
            invariant
                s == self@,
                s == old(self)@,
                self.wf(),
                self.max_segments == old(self).max_segments,
                self.auto_paragraph_threshold_ms == old(self).auto_paragraph_threshold_ms,
                want@ == segment_id@,
                i <= self.segments@.len(),
                forall|k: int| 0 <= k < i ==> s[k].id != segment_id@,
            decreases self.segments@.len() - i,
        {
            let have = chars_of(self.segments[i].id.as_str());
            if chars_eq(&have, &want) {
                assert(s[i as int].id == segment_id@);
                proof {
                    lemma_find_index(s, segment_id@);
                }
                assert(find_index(s, segment_id@) == i);
                let old_seg = self.segments.remove(i);
                let ghost cs0 = correction_views(old_seg.corrections@);
                let reason = match source {
                    SegmentSource::UserCorrected => CorrectionReason::UserEdit,
                    _ => CorrectionReason::ContextualCorrection,
                };
                let correction = TextCorrection {
                    original: old_seg.text,
                    corrected: new_text.clone(),
                    reason,
                    confidence: 900,
                };
                let mut corrections = old_seg.corrections;
                corrections.push(correction);
                let seg = ManagedTranscriptSegment {
                    id: old_seg.id,
                    text: new_text,
                    confidence: old_seg.confidence,
                    speaker: old_seg.speaker,
                    timestamp: old_seg.timestamp,
                    start_time: old_seg.start_time,
                    end_time: old_seg.end_time,
                    is_final: true,
                    source,
                    corrections,
                };
                assert(correction_views(seg.corrections@) =~= cs0.push(correction@));
                assert(seg@ == corrected(s[i as int], new_text@, source));
                self.segments.insert(i, seg);
                assert(self@ =~= s.update(i as int, corrected(s[i as int], new_text@, source)));
                assert(sorted_by_start(self@)) by {
                    assert forall|k: int| 0 <= k < self@.len() implies self@[k].start_time
                        == s[k].start_time by {}
                }
                return true;
            }
            i += 1;
        }
        false
    }

    pub fn get_segments(&self) -> (r: &Vec<ManagedTranscriptSegment>)
        ensures
            segment_views(r@) == self@,
    {
        &self.segments
    }

    /// The first segment with this id.
    pub fn get_segment(&self, segment_id: &str) -> (r: Option<&ManagedTranscriptSegment>)
        ensures
            find_index(self@, segment_id@) == -1 ==> r.is_none(),
            find_index(self@, segment_id@) >= 0 ==> r.is_some() && r.unwrap()@ == self@[find_index(
                self@,
                segment_id@,
            )],
    {
        proof {
            lemma_find_index(self@, segment_id@);
        }
        let want = chars_of(segment_id);
        let mut i: usize = 0;
        while i < self.segments.len()
            invariant
                want@ == segment_id@,
                i <= self.segments@.len(),
                forall|k: int| 0 <= k < i ==> self@[k].id != segment_id@,
            decreases self.segments@.len() - i,
        {
            let have = chars_of(self.segments[i].id.as_str());
            if chars_eq(&have, &want) {
                assert(self@[i as int].id == segment_id@);
                proof {
                    lemma_find_index(self@, segment_id@);
                }
                assert(find_index(self@, segment_id@) == i);
                return Some(&self.segments[i]);
            }
            i += 1;
        }
        None
    }

    /// The texts of the last `max_segments` segments (all when `None`), oldest
    /// first, joined by single spaces.
    pub fn get_continuous_text(&self, max_segments: Option<usize>) -> (r: String)
        ensures
            r@ == join(
                texts_of(
                    self@.subrange(
                        self@.len() - last_count(self@.len(), max_segments),
                        self@.len() as int,
                    ),
                ),
            ),
    {
        let n = self.segments.len();
        let k = match max_segments {
            Some(m) => if m < n {
                m
            } else {
                n
            },
            None => n,
        };
        let start = n - k;
        let ghost sub = self@.subrange(start as int, n as int);
        let mut out: Vec<char> = Vec::new();
        let mut i: usize = start;
        while i < n
            invariant
                n == self.segments@.len(),
                sub == self@.subrange(start as int, n as int),
                start <= i <= n,
                out@ == join(texts_of(sub.subrange(0, i - start))),
            decreases n - i,
        {
            let ghost pre = texts_of(sub.subrange(0, i - start));
            let ghost nxt = texts_of(sub.subrange(0, i - start + 1));
            assert(nxt.drop_last() =~= pre);
            assert(nxt.last() == self@[i as int].text);
            let t = chars_of(self.segments[i].text.as_str());
            if i > start {
                out.push(' ');
            }
            append_chars(&mut out, &t);
            if i == start {
                assert(out@ =~= nxt[0]);
            } else {
                assert(out@ =~= join(pre) + seq![' '] + nxt.last());
            }
            i += 1;
        }
        assert(sub.subrange(0, n - start) =~= sub);
        string_of(&out)
    }
}

pub open spec fn texts_of(s: Seq<SegmentView>) -> Seq<Seq<char>> {
    Seq::new(s.len(), |i: int| s[i].text)
}

pub open spec fn last_count(n: nat, limit: Option<usize>) -> int {
    match limit {
        Some(m) => if m < n {
            m as int
        } else {
            n as int
        },
        None => n as int,
    }
}

} // verus!
