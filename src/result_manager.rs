//! Reconciles fast and accurate results into committed segments.
use vstd::prelude::*;
use crate::dedup::{dups_of, has_merged_prefix, is_merged_id, merge_fix, others_of, DeduplicationEngine};
use crate::quality::{quality_report, report_of, QualityAssessor, QualityReport};
use crate::segments::{
    add_outcome, add_outcome_id, find_index, segment_of, segment_views, sorted_by_start,
    corrected, ManagedTranscriptSegment, SegmentOrganizer, SegmentSource, SegmentView,
};
use crate::text::chars_eq;
use crate::text::chars_of;
use crate::transcript::{result_views, ResultView, TranscriptResult};

verus! {

pub open spec fn fast_prefix() -> Seq<char> {
    seq!['f', 'a', 's', 't', '_']
}

/// Fast-tier results carry ids that start with `fast_`.
pub open spec fn has_fast_prefix(id: Seq<char>) -> bool {
    id.len() >= 5 && id.subrange(0, 5) == fast_prefix()
}

/// The source tag of a committed result: merged, else fast for a temporary
/// result or a promoted fast-tier result, else accurate.
pub open spec fn source_for(m: ResultView) -> SegmentSource {
    if has_merged_prefix(m.segment_id) {
        SegmentSource::Merged
    } else if m.is_temporary || has_fast_prefix(m.segment_id) {
        SegmentSource::FastProcessing
    } else {
        SegmentSource::AccurateProcessing
    }
}

/// Whether the id is a fast-tier id.
pub fn is_fast_id(id: &String) -> (r: bool)
    ensures
        r == has_fast_prefix(id@),
{
    let cs = chars_of(id.as_str());
    let p = vec!['f', 'a', 's', 't', '_'];
    assert(p@ =~= fast_prefix());
    if cs.len() < 5 {
        return false;
    }
    let mut i: usize = 0;
    while i < 5
        invariant
            i <= 5,
            cs@.len() >= 5,
            cs@ == id@,
            p@ == fast_prefix(),
            forall|k: int| 0 <= k < i ==> cs@[k] == p@[k],
        decreases 5 - i,
    {
        if cs[i] != p[i] {
            assert(cs@.subrange(0, 5)[i as int] != fast_prefix()[i as int]);
            assert(cs@.subrange(0, 5) != fast_prefix());
            return false;
        }
        i += 1;
    }
    assert(cs@.subrange(0, 5) =~= fast_prefix());
    true
}

/// The buffer after committing `ms` in order.
pub open spec fn commit_all(s: Seq<SegmentView>, ms: Seq<ResultView>, cap: nat, gap: u64) -> Seq<
    SegmentView,
>
    decreases ms.len(),
{
    if ms.len() == 0 {
        s
    } else {
        add_outcome(
            commit_all(s, ms.drop_last(), cap, gap),
            segment_of(ms.last(), source_for(ms.last())),
            cap,
            gap,
        )
    }
}

/// The ids reported while committing `ms` in order.
pub open spec fn commit_ids(s: Seq<SegmentView>, ms: Seq<ResultView>, cap: nat, gap: u64) -> Seq<
    Seq<char>,
>
    decreases ms.len(),
{
    if ms.len() == 0 {
        Seq::empty()
    } else {
        commit_ids(s, ms.drop_last(), cap, gap).push(
            add_outcome_id(
                commit_all(s, ms.drop_last(), cap, gap),
                segment_of(ms.last(), source_for(ms.last())),
                gap,
            ),
        )
    }
}

/// Committing any results, in any arrival order, keeps the committed segments
/// in non-decreasing order of start time and never beyond the capacity.
pub proof fn lemma_commit_ordered_and_bounded(
    s: Seq<SegmentView>,
    ms: Seq<ResultView>,
    cap: nat,
    gap: u64,
)
    requires
        s.len() <= cap,
        sorted_by_start(s),
    ensures
        commit_all(s, ms, cap, gap).len() <= cap,
        sorted_by_start(commit_all(s, ms, cap, gap)),
    decreases ms.len(),
{
    if ms.len() > 0 {
        lemma_commit_ordered_and_bounded(s, ms.drop_last(), cap, gap);
        crate::segments::lemma_add_outcome(
            commit_all(s, ms.drop_last(), cap, gap),
            segment_of(ms.last(), source_for(ms.last())),
            cap,
            gap,
        );
    }
}

pub open spec fn starts(s: Seq<SegmentView>) -> Seq<u64> {
    Seq::new(s.len(), |i: int| s[i].start_time)
}

pub open spec fn stamps(ms: Seq<ResultView>) -> Seq<u64> {
    Seq::new(ms.len(), |i: int| ms[i].timestamp)
}

pub open spec fn sorted_u64(a: Seq<u64>) -> bool {
    forall|i: int, j: int| 0 <= i <= j < a.len() ==> a[i] <= a[j]
}

/// Two sorted sequences holding the same values are equal.
pub proof fn lemma_sorted_same_values(a: Seq<u64>, b: Seq<u64>)
    requires
        sorted_u64(a),
        sorted_u64(b),
        a.to_multiset() == b.to_multiset(),
    ensures
        a == b,
    decreases a.len(),
{
    broadcast use vstd::seq_lib::to_multiset_len, vstd::seq_lib::to_multiset_contains, vstd::seq_lib::to_multiset_remove;

    assert(a.len() == a.to_multiset().len());
    assert(b.len() == b.to_multiset().len());
    if a.len() == 0 {
        assert(a =~= b);
    } else {
        let n = a.len() - 1;
        let x = a[n];
        let y = b[n];
        assert(a.contains(x));
        assert(a.to_multiset().count(x) > 0);
        assert(b.contains(x));
        let j = choose|j: int| 0 <= j < b.len() && b[j] == x;
        assert(x <= y);
        assert(b.contains(y));
        assert(b.to_multiset().count(y) > 0);
        assert(a.contains(y));
        let k = choose|k: int| 0 <= k < a.len() && a[k] == y;
        assert(y <= x);
        assert(a.remove(n) =~= a.drop_last());
        assert(b.remove(n) =~= b.drop_last());
        assert(a.remove(n).to_multiset() == a.to_multiset().remove(x));
        assert(b.remove(n).to_multiset() == b.to_multiset().remove(y));
        lemma_sorted_same_values(a.drop_last(), b.drop_last());
        assert(a =~= b.drop_last().push(y));
        assert(b =~= b.drop_last().push(y));
    }
}

pub open spec fn all_final(s: Seq<SegmentView>) -> bool {
    forall|i: int| 0 <= i < s.len() ==> s[i].is_final
}

pub open spec fn all_final_results(ms: Seq<ResultView>) -> bool {
    forall|i: int| 0 <= i < ms.len() ==> !ms[i].is_temporary
}

proof fn lemma_commit_finals(s: Seq<SegmentView>, ms: Seq<ResultView>, cap: nat, gap: u64)
    requires
        s.len() + ms.len() <= cap,
        sorted_by_start(s),
        all_final(s),
        all_final_results(ms),
    ensures
        commit_all(s, ms, cap, gap).len() == s.len() + ms.len(),
        all_final(commit_all(s, ms, cap, gap)),
        sorted_by_start(commit_all(s, ms, cap, gap)),
        starts(commit_all(s, ms, cap, gap)).to_multiset() == starts(s).to_multiset().add(
            stamps(ms).to_multiset(),
        ),
    decreases ms.len(),
{
    broadcast use vstd::seq_lib::to_multiset_insert, vstd::seq_lib::to_multiset_build;
    broadcast use vstd::multiset::group_multiset_axioms;

    if ms.len() == 0 {
        assert(stamps(ms).to_multiset() =~= vstd::multiset::Multiset::<u64>::empty()) by {
            broadcast use vstd::seq_lib::to_multiset_len, vstd::multiset::lemma_multiset_empty_len;
            assert(stamps(ms).len() == 0);
            assert(stamps(ms).to_multiset().len() == 0);
        }
        assert(starts(s).to_multiset().add(stamps(ms).to_multiset()) =~= starts(s).to_multiset());
    } else {
        let q = ms.drop_last();
        lemma_commit_finals(s, q, cap, gap);
        lemma_commit_ordered_and_bounded(s, q, cap, gap);
        let p = commit_all(s, q, cap, gap);
        let f = ms.last();
        let nv = segment_of(f, source_for(f));
        assert(!f.is_temporary);
        crate::segments::lemma_insert_pos(p, nv.start_time);
        if p.len() > 0 {
            assert(p.last().is_final);
        }
        let i = crate::segments::insert_pos(p, nv.start_time);
        let r = p.insert(i, nv);
        assert(commit_all(s, ms, cap, gap) == r);
        crate::segments::lemma_insert_sorted(p, nv);
        assert(starts(r) =~= starts(p).insert(i, f.timestamp));
        assert(stamps(ms) =~= stamps(q).push(f.timestamp));
        assert(starts(r).to_multiset() =~= starts(s).to_multiset().add(stamps(ms).to_multiset()));
    }
}

/// A final result with nothing pending is committed alone.
pub proof fn lemma_merge_alone(f: ResultView, w: u64, t: u64)
    ensures
        merge_fix(seq![f] + dups_of(f, Seq::empty(), w, t), w, t) == seq![f],
{
    let g = seq![f] + dups_of(f, Seq::<ResultView>::empty(), w, t);
    assert(g =~= seq![f]);
    assert(g.drop_first() =~= Seq::<ResultView>::empty());
    assert(others_of(f, g.drop_first(), w, t) =~= Seq::<ResultView>::empty());
    assert(dups_of(f, g.drop_first(), w, t) =~= Seq::<ResultView>::empty());
    assert(seq![g[0]] + dups_of(f, g.drop_first(), w, t) =~= seq![f]);
    assert(crate::dedup::merge_all(g, w, t) =~= seq![f] + crate::dedup::merge_all(Seq::<ResultView>::empty(), w, t));
    assert(crate::dedup::merge_all(g, w, t) =~= seq![f]);
    assert(merge_fix(g, w, t) == g);
}

/// Committing `a` and then `b` is committing `a + b`.
pub proof fn lemma_commit_concat(s: Seq<SegmentView>, a: Seq<ResultView>, b: Seq<ResultView>, cap: nat, gap: u64)
    ensures
        commit_all(s, a + b, cap, gap) == commit_all(commit_all(s, a, cap, gap), b, cap, gap),
    decreases b.len(),
{
    if b.len() == 0 {
        assert(a + b =~= a);
    } else {
        lemma_commit_concat(s, a, b.drop_last(), cap, gap);
        assert((a + b).drop_last() =~= a + b.drop_last());
        assert((a + b).last() == b.last());
    }
}

/// The order of committed segments does not depend on the order in which
/// final results arrive: committing final results whose timestamps are the
/// same values (for instance the same results in another order) into a buffer
/// with room for them all gives the same start times, in non-decreasing order.
pub proof fn lemma_arrival_order_irrelevant(
    f: Seq<ResultView>,
    g: Seq<ResultView>,
    cap: nat,
    gap: u64,
)
    requires
        f.len() <= cap,
        g.len() <= cap,
        all_final_results(f),
        all_final_results(g),
        stamps(f).to_multiset() == stamps(g).to_multiset(),
    ensures
        starts(commit_all(Seq::empty(), f, cap, gap)) == starts(commit_all(Seq::empty(), g, cap, gap)),
        sorted_u64(starts(commit_all(Seq::empty(), f, cap, gap))),
{
    broadcast use vstd::multiset::group_multiset_axioms;

    let e = Seq::<SegmentView>::empty();
    lemma_commit_finals(e, f, cap, gap);
    lemma_commit_finals(e, g, cap, gap);
    assert(starts(e) =~= Seq::<u64>::empty());
    assert(starts(e).to_multiset() =~= vstd::multiset::Multiset::<u64>::empty()) by {
        broadcast use vstd::seq_lib::to_multiset_len, vstd::multiset::lemma_multiset_empty_len;
        assert(starts(e).to_multiset().len() == 0);
    }
    let a = starts(commit_all(e, f, cap, gap));
    let b = starts(commit_all(e, g, cap, gap));
    assert(a.to_multiset() =~= b.to_multiset());
    lemma_sorted_same_values(a, b);
}

/// Index of the pending result with this segment id, or -1.
pub open spec fn pending_index(p: Seq<ResultView>, id: Seq<char>) -> int
    decreases p.len(),
{
    if p.len() == 0 {
        -1
    } else {
        let k = pending_index(p.drop_last(), id);
        if k >= 0 {
            k
        } else if p.last().segment_id == id {
            p.len() - 1
        } else {
            -1
        }
    }
}

proof fn lemma_pending_index(p: Seq<ResultView>, id: Seq<char>)
    ensures
        -1 <= pending_index(p, id) < p.len(),
        pending_index(p, id) >= 0 ==> p[pending_index(p, id)].segment_id == id,
        pending_index(p, id) >= 0 ==> forall|k: int|
            0 <= k < pending_index(p, id) ==> p[k].segment_id != id,
        pending_index(p, id) == -1 ==> forall|k: int| 0 <= k < p.len() ==> p[k].segment_id != id,
    decreases p.len(),
{
    if p.len() > 0 {
        lemma_pending_index(p.drop_last(), id);
        assert forall|k: int| 0 <= k < p.len() - 1 implies p.drop_last()[k] == p[k] by {}
    }
}

/// A temporary result held under its segment id, replacing an earlier one.
pub open spec fn with_pending(p: Seq<ResultView>, r: ResultView) -> Seq<ResultView> {
    let k = pending_index(p, r.segment_id);
    if k >= 0 {
        p.update(k, r)
    } else {
        p.push(r)
    }
}

/// The pending results whose timestamp is at least `cutoff`, in order.
pub open spec fn keep_recent(p: Seq<ResultView>, cutoff: u64) -> Seq<ResultView>
    decreases p.len(),
{
    if p.len() == 0 {
        p
    } else {
        let k = keep_recent(p.drop_last(), cutoff);
        if p.last().timestamp >= cutoff {
            k.push(p.last())
        } else {
            k
        }
    }
}

/// A pending fast result turned final, with four fifths of its confidence.
pub open spec fn promoted(r: ResultView) -> ResultView {
    ResultView { is_temporary: false, confidence: (r.confidence * 4 / 5) as u32, ..r }
}

/// The committed buffer after every pending result is promoted in turn, the
/// oldest first, each pulling in its pending duplicates.
pub open spec fn drained(
    p: Seq<ResultView>,
    s: Seq<SegmentView>,
    w: u64,
    t: u64,
    cap: nat,
    gap: u64,
) -> Seq<SegmentView>
    decreases p.len(),
    via drained_decreases
{
    if p.len() == 0 {
        s
    } else {
        let f = promoted(p[0]);
        let rest = p.drop_first();
        drained(
            others_of(f, rest, w, t),
            commit_all(s, merge_fix(seq![f] + dups_of(f, rest, w, t), w, t), cap, gap),
            w,
            t,
            cap,
            gap,
        )
    }
}

#[via_fn]
proof fn drained_decreases(p: Seq<ResultView>, s: Seq<SegmentView>, w: u64, t: u64, cap: nat, gap: u64) {
    if p.len() > 0 {
        crate::dedup::lemma_others_len(promoted(p[0]), p.drop_first(), w, t);
    }
}

pub open spec fn string_views(v: Seq<String>) -> Seq<Seq<char>> {
    Seq::new(v.len(), |i: int| v[i]@)
}

/// Pending fast results, the deduplication engine, the committed-segment buffer
/// and the quality assessor.
pub struct ResultManager {
    deduplication_engine: DeduplicationEngine,
    segment_organizer: SegmentOrganizer,
    quality_assessor: QualityAssessor,
    pending_results: Vec<TranscriptResult>,
}

impl ResultManager {
    pub closed spec fn wf(&self) -> bool {
        &&& self.deduplication_engine.wf()
        &&& self.segment_organizer.wf()
        &&& self.quality_assessor.wf()
    }

    pub closed spec fn pending(&self) -> Seq<ResultView> {
        result_views(self.pending_results@)
    }

    pub closed spec fn segments(&self) -> Seq<SegmentView> {
        self.segment_organizer@
    }

    pub closed spec fn capacity(&self) -> nat {
        self.segment_organizer.capacity()
    }

    pub closed spec fn paragraph_gap(&self) -> u64 {
        self.segment_organizer.paragraph_gap()
    }

    pub closed spec fn window(&self) -> u64 {
        self.deduplication_engine.window()
    }

    pub closed spec fn threshold(&self) -> u64 {
        self.deduplication_engine.threshold()
    }

    pub closed spec fn min_len(&self) -> nat {
        self.quality_assessor.min_len()
    }

    /// Texts of three characters or more get the full length score.
    pub proof fn lemma_min_len(&self)
        requires
            self.wf(),
        ensures
            self.min_len() == 3,
    {
        self.quality_assessor.lemma_min_len();
    }

    pub fn new(max_segments: usize) -> (r: Self)
        ensures
            r.wf(),
            r.pending().len() == 0,
            r.segments().len() == 0,
            r.capacity() == max_segments,
            r.paragraph_gap() == 3000,
            r.window() == 2000,
            r.threshold() == 800,
            r.min_len() == 3,
    {
        let r = ResultManager {
            deduplication_engine: DeduplicationEngine::new(),
            segment_organizer: SegmentOrganizer::new(max_segments),
            quality_assessor: QualityAssessor::new(),
            pending_results: Vec::new(),
        };
        assert(r.pending() =~= Seq::<ResultView>::empty());
        r
    }

    /// A temporary result waits under its segment id. A final result pulls in
    /// every pending duplicate of itself, the group is deduplicated and merged,
    /// and each merged result is committed; the ids of the segments that
    /// changed are returned.
    pub fn process_result(&mut self, result: TranscriptResult) -> (ids: Vec<String>)
        requires
            old(self).wf(),
        ensures
            final(self).wf(),
            final(self).capacity() == old(self).capacity(),
            final(self).paragraph_gap() == old(self).paragraph_gap(),
            final(self).window() == old(self).window(),
            final(self).threshold() == old(self).threshold(),
            final(self).min_len() == old(self).min_len(),
            result.is_temporary ==> {
                &&& final(self).pending() == with_pending(old(self).pending(), result@)
                &&& final(self).segments() == old(self).segments()
                &&& ids@.len() == 0
            },
            !result.is_temporary ==> {
                let w = old(self).window();
                let t = old(self).threshold();
                let ms = merge_fix(
                    seq![result@] + dups_of(result@, old(self).pending(), w, t),
                    w,
                    t,
                );
                &&& final(self).pending() == others_of(result@, old(self).pending(), w, t)
                &&& final(self).segments() == commit_all(
                    old(self).segments(),
                    ms,
                    old(self).capacity(),
                    old(self).paragraph_gap(),
                )
                &&& string_views(ids@) == commit_ids(
                    old(self).segments(),
                    ms,
                    old(self).capacity(),
                    old(self).paragraph_gap(),
                )
            },
            final(self).segments().len() <= final(self).capacity(),
            sorted_by_start(final(self).segments()),
    {
        let mut ids: Vec<String> = Vec::new();
        proof {
            self.segment_organizer.lemma_wf();
        }
        if result.is_temporary {
            let ghost p = self.pending();
            proof {
                lemma_pending_index(p, result@.segment_id);
            }
            let want = chars_of(result.segment_id.as_str());
            let mut i: usize = 0;
            while i < self.pending_results.len()
                invariant
                    p == result_views(self.pending_results@),
                    want@ == result@.segment_id,
                    p == old(self).pending(),
                    result.is_temporary,
                    ids@.len() == 0,
                    self.wf(),
                    self.segments() == old(self).segments(),
                    self.capacity() == old(self).capacity(),
                    self.paragraph_gap() == old(self).paragraph_gap(),
                    self.window() == old(self).window(),
                    self.threshold() == old(self).threshold(),
                    self.min_len() == old(self).min_len(),
                    self.segments().len() <= self.capacity(),
                    sorted_by_start(self.segments()),
                    i <= p.len(),
                    forall|k: int| 0 <= k < i ==> p[k].segment_id != result@.segment_id,
                decreases p.len() - i,
            {
                let have = chars_of(self.pending_results[i].segment_id.as_str());
                if chars_eq(&have, &want) {
                    assert(p[i as int].segment_id == result@.segment_id);
                    proof {
                        lemma_pending_index(p, result@.segment_id);
                    }
                    assert(pending_index(p, result@.segment_id) == i);
                    self.pending_results.set(i, result);
                    assert(self.pending() =~= p.update(i as int, result@));
                    assert(string_views(ids@) =~= Seq::<Seq<char>>::empty());
                    return ids;
                }
                i += 1;
            }
            let ghost rv = result@;
            self.pending_results.push(result);
            assert(self.pending() =~= p.push(rv));
            return ids;
        }
        let ghost p = self.pending();
        let ghost s0 = self.segments();
        let ghost w = self.window();
        let ghost t = self.threshold();
        let mut group: Vec<TranscriptResult> = Vec::new();
        group.push(result.copy());
        let mut others: Vec<TranscriptResult> = Vec::new();
        let mut j: usize = 0;
        while j < self.pending_results.len()
            invariant
                p == result_views(self.pending_results@),
                self.wf(),
                w == self.window(),
                t == self.threshold(),
                j <= p.len(),
                result_views(group@) == seq![result@] + dups_of(result@, p.subrange(0, j as int), w, t),
                result_views(others@) == others_of(result@, p.subrange(0, j as int), w, t),
            decreases p.len() - j,
        {
            let ghost nxt = p.subrange(0, j + 1);
            assert(nxt.drop_last() =~= p.subrange(0, j as int));
            let ghost g0 = result_views(group@);
            let ghost o0 = result_views(others@);
            if self.deduplication_engine.is_duplicate(&result, &self.pending_results[j]) {
                group.push(self.pending_results[j].copy());
                assert(result_views(group@) =~= g0.push(p[j as int]));
            } else {
                others.push(self.pending_results[j].copy());
                assert(result_views(others@) =~= o0.push(p[j as int]));
            }
            j += 1;
        }
        assert(p.subrange(0, p.len() as int) =~= p);
        self.pending_results = others;
        let merged = self.deduplication_engine.merge_similar_results(group);
        let ghost ms = result_views(merged@);
        let mut i: usize = 0;
        assert(ms.subrange(0, 0) =~= Seq::<ResultView>::empty());
        assert(string_views(ids@) =~= Seq::<Seq<char>>::empty());
        while i < merged.len()
            invariant
                ms == result_views(merged@),
                self.wf(),
                i <= ms.len(),
                self.capacity() == old(self).capacity(),
                self.paragraph_gap() == old(self).paragraph_gap(),
                self.window() == old(self).window(),
                self.threshold() == old(self).threshold(),
                self.min_len() == old(self).min_len(),
                self.pending() == others_of(result@, p, w, t),
                self.segments().len() <= self.capacity(),
                sorted_by_start(self.segments()),
                self.segments() == commit_all(
                    s0,
                    ms.subrange(0, i as int),
                    self.capacity(),
                    self.paragraph_gap(),
                ),
                string_views(ids@) == commit_ids(
                    s0,
                    ms.subrange(0, i as int),
                    self.capacity(),
                    self.paragraph_gap(),
                ),
            decreases ms.len() - i,
        {
            let ghost nxt = ms.subrange(0, i + 1);
            assert(nxt.drop_last() =~= ms.subrange(0, i as int));
            assert(nxt.last() == ms[i as int]);
            let m = merged[i].copy();
            let source = if is_merged_id(&m.segment_id) {
                SegmentSource::Merged
            } else if m.is_temporary || is_fast_id(&m.segment_id) {
                SegmentSource::FastProcessing
            } else {
                SegmentSource::AccurateProcessing
            };
            let ghost i0 = string_views(ids@);
            let id = self.segment_organizer.add_segment(m, source);
            ids.push(id);
            assert(string_views(ids@) =~= i0.push(id@));
            i += 1;
        }
        assert(ms.subrange(0, ms.len() as int) =~= ms);
        ids
    }

    /// When the accurate tier failed for a segment, its pending fast result
    /// becomes the final answer: it leaves the pending set, is marked final with
    /// four fifths of its confidence, and is processed as a final result.
    pub fn promote_pending(&mut self, segment_id: &str) -> (ids: Vec<String>)
        requires
            old(self).wf(),
        ensures
            final(self).wf(),
            final(self).capacity() == old(self).capacity(),
            final(self).paragraph_gap() == old(self).paragraph_gap(),
            final(self).window() == old(self).window(),
            final(self).threshold() == old(self).threshold(),
            final(self).min_len() == old(self).min_len(),
            pending_index(old(self).pending(), segment_id@) == -1 ==> {
                &&& final(self).pending() == old(self).pending()
                &&& final(self).segments() == old(self).segments()
                &&& ids@.len() == 0
            },
            pending_index(old(self).pending(), segment_id@) >= 0 ==> {
                let k = pending_index(old(self).pending(), segment_id@);
                let w = old(self).window();
                let t = old(self).threshold();
                let f = promoted(old(self).pending()[k]);
                let rest = old(self).pending().remove(k);
                let ms = merge_fix(seq![f] + dups_of(f, rest, w, t), w, t);
                &&& final(self).pending() == others_of(f, rest, w, t)
                &&& final(self).segments() == commit_all(
                    old(self).segments(),
                    ms,
                    old(self).capacity(),
                    old(self).paragraph_gap(),
                )
                &&& string_views(ids@) == commit_ids(
                    old(self).segments(),
                    ms,
                    old(self).capacity(),
                    old(self).paragraph_gap(),
                )
            },
            final(self).segments().len() <= final(self).capacity(),
            sorted_by_start(final(self).segments()),
    {
        let ghost p = self.pending();
        proof {
            lemma_pending_index(p, segment_id@);
            self.segment_organizer.lemma_wf();
        }
        let want = chars_of(segment_id);
        let mut i: usize = 0;
        while i < self.pending_results.len()
            invariant
                p == result_views(self.pending_results@),
                p == old(self).pending(),
                *self == *old(self),
                self.wf(),
                self.segments().len() <= self.capacity(),
                sorted_by_start(self.segments()),
                want@ == segment_id@,
                i <= p.len(),
                forall|k: int| 0 <= k < i ==> p[k].segment_id != segment_id@,
            decreases p.len() - i,
        {
            let have = chars_of(self.pending_results[i].segment_id.as_str());
            if chars_eq(&have, &want) {
                assert(p[i as int].segment_id == segment_id@);
                proof {
                    lemma_pending_index(p, segment_id@);
                }
                assert(pending_index(p, segment_id@) == i);
                let r = self.pending_results.remove(i);
                assert(self.pending() =~= p.remove(i as int));
                let lowered = ((r.confidence as u64 * 4) / 5) as u32;
                let f = TranscriptResult {
                    text: r.text,
                    confidence: lowered,
                    is_temporary: false,
                    speaker: r.speaker,
                    timestamp: r.timestamp,
                    processing_time_ms: r.processing_time_ms,
                    segment_id: r.segment_id,
                };
                assert(f@ == promoted(p[i as int]));
                assert(self.deduplication_engine == old(self).deduplication_engine);
                assert(self.segment_organizer == old(self).segment_organizer);
                assert(self.quality_assessor == old(self).quality_assessor);
                return self.process_result(f);
            }
            i += 1;
        }
        let ids: Vec<String> = Vec::new();
        assert(string_views(ids@) =~= Seq::<Seq<char>>::empty());
        ids
    }

    /// At the end of a session no final result will come: every pending fast
    /// result is promoted, oldest first. Returns the ids of changed segments.
    pub fn drain_pending(&mut self) -> (ids: Vec<String>)
        requires
            old(self).wf(),
        ensures
            final(self).wf(),
            final(self).capacity() == old(self).capacity(),
            final(self).paragraph_gap() == old(self).paragraph_gap(),
            final(self).window() == old(self).window(),
            final(self).threshold() == old(self).threshold(),
            final(self).min_len() == old(self).min_len(),
            final(self).pending().len() == 0,
            final(self).segments() == drained(
                old(self).pending(),
                old(self).segments(),
                old(self).window(),
                old(self).threshold(),
                old(self).capacity(),
                old(self).paragraph_gap(),
            ),
            final(self).segments().len() <= final(self).capacity(),
            sorted_by_start(final(self).segments()),
    {
        let mut ids: Vec<String> = Vec::new();
        proof {
            self.segment_organizer.lemma_wf();
        }
        while self.pending_results.len() > 0
            invariant
                self.wf(),
                self.capacity() == old(self).capacity(),
                self.paragraph_gap() == old(self).paragraph_gap(),
                self.window() == old(self).window(),
                self.threshold() == old(self).threshold(),
                self.min_len() == old(self).min_len(),
                drained(
                    old(self).pending(),
                    old(self).segments(),
                    old(self).window(),
                    old(self).threshold(),
                    old(self).capacity(),
                    old(self).paragraph_gap(),
                ) == drained(
                    self.pending(),
                    self.segments(),
                    self.window(),
                    self.threshold(),
                    self.capacity(),
                    self.paragraph_gap(),
                ),
                self.segments().len() <= self.capacity(),
                sorted_by_start(self.segments()),
            decreases self.pending().len(),
        {
            let ghost p = self.pending();
            let r = self.pending_results.remove(0);
            assert(self.pending() =~= p.drop_first());
            let lowered = ((r.confidence as u64 * 4) / 5) as u32;
            let f = TranscriptResult {
                text: r.text,
                confidence: lowered,
                is_temporary: false,
                speaker: r.speaker,
                timestamp: r.timestamp,
                processing_time_ms: r.processing_time_ms,
                segment_id: r.segment_id,
            };
            assert(f@ == promoted(p[0]));
            let more = self.process_result(f);
            proof {
                crate::dedup::lemma_others_len(promoted(p[0]), p.drop_first(), self.window(), self.threshold());
            }
            let mut k: usize = 0;
            while k < more.len()
                invariant
                    k <= more@.len(),
                decreases more@.len() - k,
            {
                ids.push(more[k].clone());
                k += 1;
            }
        }
        ids
    }

    /// Drops pending results older than `max_age_ms` before `now_ms`.
    pub fn cleanup_old_pending(&mut self, now_ms: u64, max_age_ms: u64)
        requires
            old(self).wf(),
        ensures
            final(self).wf(),
            final(self).segments() == old(self).segments(),
            final(self).capacity() == old(self).capacity(),
            final(self).paragraph_gap() == old(self).paragraph_gap(),
            final(self).window() == old(self).window(),
            final(self).threshold() == old(self).threshold(),
            final(self).min_len() == old(self).min_len(),
            final(self).pending() == keep_recent(
                old(self).pending(),
                if now_ms >= max_age_ms {
                    (now_ms - max_age_ms) as u64
                } else {
                    0
                },
            ),
    {
        let cutoff = if now_ms >= max_age_ms {
            now_ms - max_age_ms
        } else {
            0
        };
        let ghost p = self.pending();
        let mut kept: Vec<TranscriptResult> = Vec::new();
        let mut i: usize = 0;
        while i < self.pending_results.len()
            invariant
                p == result_views(self.pending_results@),
                i <= p.len(),
                result_views(kept@) == keep_recent(p.subrange(0, i as int), cutoff),
            decreases p.len() - i,
        {
            let ghost nxt = p.subrange(0, i + 1);
            assert(nxt.drop_last() =~= p.subrange(0, i as int));
            let ghost k0 = result_views(kept@);
            if self.pending_results[i].timestamp >= cutoff {
                kept.push(self.pending_results[i].copy());
                assert(result_views(kept@) =~= k0.push(p[i as int]));
            }
            i += 1;
        }
        assert(p.subrange(0, p.len() as int) =~= p);
        self.pending_results = kept;
    }

    /// A manual correction: the segment takes the new text, is tagged as
    /// user-corrected and becomes final.
    pub fn update_segment_text(&mut self, segment_id: &str, new_text: String) -> (r: bool)
        requires
            old(self).wf(),
        ensures
            final(self).wf(),
            final(self).pending() == old(self).pending(),
            final(self).capacity() == old(self).capacity(),
            final(self).paragraph_gap() == old(self).paragraph_gap(),
            final(self).window() == old(self).window(),
            final(self).threshold() == old(self).threshold(),
            final(self).min_len() == old(self).min_len(),
            r == (find_index(old(self).segments(), segment_id@) >= 0),
            !r ==> final(self).segments() == old(self).segments(),
            r ==> final(self).segments() == old(self).segments().update(
                find_index(old(self).segments(), segment_id@),
                corrected(
                    old(self).segments()[find_index(old(self).segments(), segment_id@)],
                    new_text@,
                    SegmentSource::UserCorrected,
                ),
            ),
    {
        self.segment_organizer.update_segment(segment_id, new_text, SegmentSource::UserCorrected)
    }

    pub fn get_segment(&self, segment_id: &str) -> (r: Option<&ManagedTranscriptSegment>)
        ensures
            find_index(self.segments(), segment_id@) == -1 ==> r.is_none(),
            find_index(self.segments(), segment_id@) >= 0 ==> r.is_some() && r.unwrap()@
                == self.segments()[find_index(self.segments(), segment_id@)],
    {
        self.segment_organizer.get_segment(segment_id)
    }

    pub fn get_all_segments(&self) -> (r: &Vec<ManagedTranscriptSegment>)
        ensures
            segment_views(r@) == self.segments(),
    {
        self.segment_organizer.get_segments()
    }

    pub fn get_continuous_text(&self, max_segments: Option<usize>) -> (r: String)
        ensures
            r@ == crate::text::join(
                crate::segments::texts_of(
                    self.segments().subrange(
                        self.segments().len() - crate::segments::last_count(
                            self.segments().len(),
                            max_segments,
                        ),
                        self.segments().len() as int,
                    ),
                ),
            ),
    {
        self.segment_organizer.get_continuous_text(max_segments)
    }

    pub fn get_quality_report(&self) -> (r: QualityReport)
        requires
            self.wf(),
        ensures
            r == report_of(self.segments(), self.min_len()),
    {
        quality_report(&self.quality_assessor, self.segment_organizer.get_segments())
    }

    /// Number of results waiting for a final result.
    pub fn pending_count(&self) -> (n: usize)
        ensures
            n == self.pending().len(),
    {
        self.pending_results.len()
    }
}

} // verus!
