//! Cross-tier deduplication: finding results that say the same thing at about
//! the same time, and merging each such group into one result.
use vstd::prelude::*;
use crate::text::{chars_of, is_similar, similar_at_least, string_of};
use crate::transcript::{copy_opt_string, result_views, ResultView, TranscriptResult};

verus! {

pub open spec fn abs_diff(a: u64, b: u64) -> int {
    if a > b {
        a - b
    } else {
        b - a
    }
}

/// Two results are duplicates when their timestamps are less than `window`
/// apart and their word-level Jaccard similarity is at least `threshold / 1000`.
pub open spec fn is_dup(a: ResultView, b: ResultView, window: u64, threshold: u64) -> bool {
    abs_diff(a.timestamp, b.timestamp) < window && similar_at_least(
        a.text,
        b.text,
        threshold as nat,
        1000,
    )
}

/// Lexicographic order on index pairs.
pub open spec fn pair_before(p: (usize, usize), q: (usize, usize)) -> bool {
    p.0 < q.0 || (p.0 == q.0 && p.1 < q.1)
}

/// Index of the most confident result; the last one among equals.
pub open spec fn best_index(g: Seq<ResultView>) -> int
    decreases g.len(),
{
    if g.len() <= 1 {
        0
    } else {
        let p = best_index(g.drop_last());
        if g.last().confidence >= g[p].confidence {
            g.len() - 1
        } else {
            p
        }
    }
}

/// Index of the result with the longest text; the last one among equals.
pub open spec fn longest_index(g: Seq<ResultView>) -> int
    decreases g.len(),
{
    if g.len() <= 1 {
        0
    } else {
        let p = longest_index(g.drop_last());
        if g.last().text.len() >= g[p].text.len() {
            g.len() - 1
        } else {
            p
        }
    }
}

pub open spec fn confidence_sum(g: Seq<ResultView>) -> nat
    decreases g.len(),
{
    if g.len() == 0 {
        0
    } else {
        confidence_sum(g.drop_last()) + g.last().confidence as nat
    }
}

pub open spec fn min_latency(g: Seq<ResultView>) -> u64
    decreases g.len(),
{
    if g.len() <= 1 {
        if g.len() == 0 {
            0
        } else {
            g[0].processing_time_ms
        }
    } else {
        let p = min_latency(g.drop_last());
        if g.last().processing_time_ms < p {
            g.last().processing_time_ms
        } else {
            p
        }
    }
}

pub open spec fn merged_prefix() -> Seq<char> {
    seq!['m', 'e', 'r', 'g', 'e', 'd', '_']
}

pub open spec fn has_merged_prefix(id: Seq<char>) -> bool {
    id.len() >= 7 && id.subrange(0, 7) == merged_prefix()
}

/// The id of a merged result: tagged once with the merge prefix.
pub open spec fn merged_id(id: Seq<char>) -> Seq<char> {
    if has_merged_prefix(id) {
        id
    } else {
        merged_prefix() + id
    }
}

/// A duplicate group merged into one final result: the longest text, the mean
/// confidence, the speaker, timestamp and id of the most confident result, and
/// the smallest processing latency.
pub open spec fn merge_group_spec(g: Seq<ResultView>) -> ResultView {
    let b = g[best_index(g)];
    ResultView {
        text: g[longest_index(g)].text,
        confidence: (confidence_sum(g) / g.len()) as u32,
        is_temporary: false,
        speaker: b.speaker,
        timestamp: b.timestamp,
        processing_time_ms: min_latency(g),
        segment_id: merged_id(b.segment_id),
    }
}

/// The results of `s` that duplicate `h`, in order.
pub open spec fn dups_of(h: ResultView, s: Seq<ResultView>, window: u64, threshold: u64) -> Seq<
    ResultView,
>
    decreases s.len(),
{
    if s.len() == 0 {
        s
    } else {
        let p = dups_of(h, s.drop_last(), window, threshold);
        if is_dup(h, s.last(), window, threshold) {
            p.push(s.last())
        } else {
            p
        }
    }
}

/// The results of `s` that do not duplicate `h`, in order.
pub open spec fn others_of(h: ResultView, s: Seq<ResultView>, window: u64, threshold: u64) -> Seq<
    ResultView,
>
    decreases s.len(),
{
    if s.len() == 0 {
        s
    } else {
        let p = others_of(h, s.drop_last(), window, threshold);
        if is_dup(h, s.last(), window, threshold) {
            p
        } else {
            p.push(s.last())
        }
    }
}

pub proof fn lemma_others_len(h: ResultView, s: Seq<ResultView>, window: u64, threshold: u64)
    ensures
        others_of(h, s, window, threshold).len() <= s.len(),
    decreases s.len(),
{
    if s.len() > 0 {
        lemma_others_len(h, s.drop_last(), window, threshold);
    }
}

/// Greedy grouping in order: the first result takes every later duplicate of
/// itself; the rest are grouped in the same way. Singletons stay as they are.
pub open spec fn merge_all(rs: Seq<ResultView>, window: u64, threshold: u64) -> Seq<ResultView>
    decreases rs.len(),
    via merge_all_decreases
{
    if rs.len() == 0 {
        rs
    } else {
        let h = rs[0];
        let rest = rs.drop_first();
        let g = seq![h] + dups_of(h, rest, window, threshold);
        let m = if g.len() == 1 {
            h
        } else {
            merge_group_spec(g)
        };
        seq![m] + merge_all(others_of(h, rest, window, threshold), window, threshold)
    }
}

#[via_fn]
proof fn merge_all_decreases(rs: Seq<ResultView>, window: u64, threshold: u64) {
    if rs.len() > 0 {
        lemma_others_len(rs[0], rs.drop_first(), window, threshold);
    }
}

proof fn lemma_confidence_sum_bound(g: Seq<ResultView>)
    ensures
        confidence_sum(g) <= g.len() * 0xffff_ffff,
    decreases g.len(),
{
    if g.len() > 0 {
        lemma_confidence_sum_bound(g.drop_last());
    }
}

proof fn lemma_best_in_range(g: Seq<ResultView>)
    ensures
        g.len() > 0 ==> 0 <= best_index(g) < g.len(),
        g.len() > 0 ==> 0 <= longest_index(g) < g.len(),
    decreases g.len(),
{
    if g.len() > 1 {
        lemma_best_in_range(g.drop_last());
    }
}

/// The fields that a merge of copies keeps: text, confidence, speaker,
/// timestamp and latency.
pub open spec fn same_content(a: ResultView, b: ResultView) -> bool {
    &&& a.text == b.text
    &&& a.confidence == b.confidence
    &&& a.speaker == b.speaker
    &&& a.timestamp == b.timestamp
    &&& a.processing_time_ms == b.processing_time_ms
}

/// Merging a result with a copy of itself keeps its content.
pub proof fn lemma_merge_pair(r: ResultView)
    ensures
        same_content(merge_group_spec(seq![r, r]), r),
{
    let g = seq![r, r];
    assert(g.drop_last() =~= seq![r]);
    assert(best_index(g.drop_last()) == 0);
    assert(longest_index(g.drop_last()) == 0);
    assert(g.last() == r && g[0] == r);
    assert(best_index(g) == 1);
    assert(longest_index(g) == 1);
    assert(g.drop_last().drop_last() =~= Seq::<ResultView>::empty());
    assert(g.drop_last().last() == r);
    assert(confidence_sum(g.drop_last().drop_last()) == 0);
    assert(confidence_sum(g.drop_last()) == r.confidence);
    assert(confidence_sum(g) == 2 * r.confidence);
    assert(min_latency(g.drop_last()) == r.processing_time_ms);
    assert(merge_group_spec(g).confidence == r.confidence);
}

/// No result of `s` duplicates `h`.
pub open spec fn none_dup(h: ResultView, s: Seq<ResultView>, window: u64, threshold: u64) -> bool {
    forall|i: int| 0 <= i < s.len() ==> !is_dup(h, s[i], window, threshold)
}

/// No result duplicates a later one.
pub open spec fn pairwise_distinct(m: Seq<ResultView>, window: u64, threshold: u64) -> bool {
    forall|i: int, j: int| 0 <= i < j < m.len() ==> !is_dup(m[i], m[j], window, threshold)
}

proof fn lemma_filters_none(h: ResultView, s: Seq<ResultView>, window: u64, threshold: u64)
    requires
        none_dup(h, s, window, threshold),
    ensures
        dups_of(h, s, window, threshold) == Seq::<ResultView>::empty(),
        others_of(h, s, window, threshold) == s,
    decreases s.len(),
{
    if s.len() > 0 {
        lemma_filters_none(h, s.drop_last(), window, threshold);
        assert(s.drop_last().push(s.last()) =~= s);
    }
}

proof fn lemma_others_full(h: ResultView, s: Seq<ResultView>, window: u64, threshold: u64)
    requires
        others_of(h, s, window, threshold).len() == s.len(),
    ensures
        none_dup(h, s, window, threshold),
    decreases s.len(),
{
    if s.len() > 0 {
        lemma_others_len(h, s.drop_last(), window, threshold);
        let p = others_of(h, s.drop_last(), window, threshold);
        assert(!is_dup(h, s.last(), window, threshold));
        lemma_others_full(h, s.drop_last(), window, threshold);
        assert forall|i: int| 0 <= i < s.len() implies !is_dup(h, s[i], window, threshold) by {
            if i < s.len() - 1 {
                assert(s.drop_last()[i] == s[i]);
            }
        }
    }
}

proof fn lemma_filters_concat(h: ResultView, a: Seq<ResultView>, b: Seq<ResultView>, window: u64, threshold: u64)
    ensures
        dups_of(h, a + b, window, threshold) == dups_of(h, a, window, threshold) + dups_of(h, b, window, threshold),
        others_of(h, a + b, window, threshold) == others_of(h, a, window, threshold) + others_of(h, b, window, threshold),
    decreases b.len(),
{
    if b.len() == 0 {
        assert(a + b =~= a);
        assert(dups_of(h, a, window, threshold) + dups_of(h, b, window, threshold) =~= dups_of(h, a, window, threshold));
        assert(others_of(h, a, window, threshold) + others_of(h, b, window, threshold) =~= others_of(h, a, window, threshold));
    } else {
        lemma_filters_concat(h, a, b.drop_last(), window, threshold);
        assert((a + b).drop_last() =~= a + b.drop_last());
        assert((a + b).last() == b.last());
        assert(dups_of(h, a, window, threshold) + dups_of(h, b.drop_last(), window, threshold).push(b.last())
            =~= (dups_of(h, a, window, threshold) + dups_of(h, b.drop_last(), window, threshold)).push(b.last()));
        assert(others_of(h, a, window, threshold) + others_of(h, b.drop_last(), window, threshold).push(b.last())
            =~= (others_of(h, a, window, threshold) + others_of(h, b.drop_last(), window, threshold)).push(b.last()));
    }
}

/// One pass never lengthens the results; a pass that merges nothing leaves
/// them as they are, and then no result duplicates a later one.
pub proof fn lemma_merge_all_len(rs: Seq<ResultView>, window: u64, threshold: u64)
    ensures
        merge_all(rs, window, threshold).len() <= rs.len(),
        merge_all(rs, window, threshold).len() == rs.len() ==> pairwise_distinct(rs, window, threshold)
            && merge_all(rs, window, threshold) == rs,
    decreases rs.len(),
{
    if rs.len() > 0 {
        let h = rs[0];
        let rest = rs.drop_first();
        let o = others_of(h, rest, window, threshold);
        lemma_others_len(h, rest, window, threshold);
        lemma_merge_all_len(o, window, threshold);
        if merge_all(rs, window, threshold).len() == rs.len() {
            assert(o.len() == rest.len());
            lemma_others_full(h, rest, window, threshold);
            lemma_filters_none(h, rest, window, threshold);
            assert(seq![h] + dups_of(h, rest, window, threshold) =~= seq![h]);
            assert(merge_all(rs, window, threshold) == seq![h] + rest);
            assert(seq![h] + rest =~= rs);
            assert forall|i: int, j: int| 0 <= i < j < rs.len() implies !is_dup(rs[i], rs[j], window, threshold) by {
                if i == 0 {
                    assert(rest[j - 1] == rs[j]);
                } else {
                    assert(rest[i - 1] == rs[i] && rest[j - 1] == rs[j]);
                }
            }
        }
    } else {
        assert(rs =~= Seq::<ResultView>::empty());
    }
}

/// Greedy passes repeated until a pass merges nothing.
pub open spec fn merge_fix(rs: Seq<ResultView>, window: u64, threshold: u64) -> Seq<ResultView>
    decreases rs.len(),
    via merge_fix_decreases
{
    let m = merge_all(rs, window, threshold);
    if m.len() == rs.len() {
        rs
    } else {
        merge_fix(m, window, threshold)
    }
}

#[via_fn]
proof fn merge_fix_decreases(rs: Seq<ResultView>, window: u64, threshold: u64) {
    lemma_merge_all_len(rs, window, threshold);
}

/// The merged results: no one duplicates a later one, and a further pass
/// changes nothing.
pub proof fn lemma_merge_fix(rs: Seq<ResultView>, window: u64, threshold: u64)
    ensures
        pairwise_distinct(merge_fix(rs, window, threshold), window, threshold),
        merge_all(merge_fix(rs, window, threshold), window, threshold) == merge_fix(rs, window, threshold),
    decreases rs.len(),
{
    lemma_merge_all_len(rs, window, threshold);
    let m = merge_all(rs, window, threshold);
    if m.len() != rs.len() {
        lemma_merge_fix(m, window, threshold);
    }
}

/// Results of which none duplicates a later one merge to themselves.
pub proof fn lemma_merge_distinct_set(m: Seq<ResultView>, window: u64, threshold: u64)
    requires
        pairwise_distinct(m, window, threshold),
    ensures
        merge_all(m, window, threshold) == m,
        merge_fix(m, window, threshold) == m,
    decreases m.len(),
{
    if m.len() > 0 {
        let h = m[0];
        let rest = m.drop_first();
        assert(none_dup(h, rest, window, threshold)) by {
            assert forall|i: int| 0 <= i < rest.len() implies !is_dup(h, rest[i], window, threshold) by {
                assert(rest[i] == m[i + 1]);
            }
        }
        lemma_filters_none(h, rest, window, threshold);
        assert(pairwise_distinct(rest, window, threshold)) by {
            assert forall|i: int, j: int| 0 <= i < j < rest.len() implies !is_dup(rest[i], rest[j], window, threshold) by {
                assert(rest[i] == m[i + 1] && rest[j] == m[j + 1]);
            }
        }
        lemma_merge_distinct_set(rest, window, threshold);
        assert(seq![h] + dups_of(h, rest, window, threshold) =~= seq![h]);
        assert(merge_all(m, window, threshold) =~= seq![h] + rest);
        assert(seq![h] + rest =~= m);
    } else {
        assert(merge_all(m, window, threshold) =~= m);
    }
}

/// One pass over a set of distinct results followed by itself pairs each
/// result with its copy and keeps its content.
proof fn lemma_pass_with_itself(m: Seq<ResultView>, window: u64, threshold: u64)
    requires
        window > 0,
        pairwise_distinct(m, window, threshold),
    ensures
        merge_all(m + m, window, threshold).len() == m.len(),
        forall|i: int| 0 <= i < m.len() ==> same_content(#[trigger] merge_all(m + m, window, threshold)[i], m[i]),
    decreases m.len(),
{
    if m.len() == 0 {
        assert(m + m =~= Seq::<ResultView>::empty());
    } else {
        let h = m[0];
        let m1 = m.drop_first();
        let rest = (m + m).drop_first();
        assert(rest =~= m1 + (seq![h] + m1));
        assert(none_dup(h, m1, window, threshold)) by {
            assert forall|i: int| 0 <= i < m1.len() implies !is_dup(h, m1[i], window, threshold) by {
                assert(m1[i] == m[i + 1]);
            }
        }
        lemma_filters_none(h, m1, window, threshold);
        lemma_filters_concat(h, seq![h], m1, window, threshold);
        lemma_filters_concat(h, m1, seq![h] + m1, window, threshold);
        assert(abs_diff(h.timestamp, h.timestamp) == 0);
        assert(is_dup(h, h, window, threshold));
        assert(seq![h].drop_last() =~= Seq::<ResultView>::empty());
        assert(seq![h].last() == h);
        assert(dups_of(h, Seq::<ResultView>::empty(), window, threshold) =~= Seq::<ResultView>::empty());
        assert(others_of(h, Seq::<ResultView>::empty(), window, threshold) =~= Seq::<ResultView>::empty());
        assert(dups_of(h, seq![h], window, threshold) =~= seq![h]);
        assert(others_of(h, seq![h], window, threshold) =~= Seq::<ResultView>::empty());
        assert(dups_of(h, rest, window, threshold) =~= seq![h]);
        assert(others_of(h, rest, window, threshold) =~= m1 + m1);
        lemma_merge_pair(h);
        assert(seq![h] + dups_of(h, rest, window, threshold) =~= seq![h, h]);
        assert(pairwise_distinct(m1, window, threshold)) by {
            assert forall|i: int, j: int| 0 <= i < j < m1.len() implies !is_dup(m1[i], m1[j], window, threshold) by {
                assert(m1[i] == m[i + 1] && m1[j] == m[j + 1]);
            }
        }
        lemma_pass_with_itself(m1, window, threshold);
        let x = merge_all(m + m, window, threshold);
        let x1 = merge_all(m1 + m1, window, threshold);
        assert(x == seq![merge_group_spec(seq![h, h])] + x1);
        assert forall|i: int| 0 <= i < m.len() implies same_content(#[trigger] x[i], m[i]) by {
            if i > 0 {
                assert(x[i] == x1[i - 1]);
                assert(same_content(x1[i - 1], m1[i - 1]));
                assert(m1[i - 1] == m[i]);
            }
        }
    }
}

proof fn lemma_distinct_by_content(a: Seq<ResultView>, b: Seq<ResultView>, window: u64, threshold: u64)
    requires
        a.len() == b.len(),
        forall|i: int| 0 <= i < a.len() ==> same_content(#[trigger] a[i], b[i]),
        pairwise_distinct(b, window, threshold),
    ensures
        pairwise_distinct(a, window, threshold),
{
    assert forall|i: int, j: int| 0 <= i < j < a.len() implies !is_dup(a[i], a[j], window, threshold) by {
        assert(same_content(a[i], b[i]) && same_content(a[j], b[j]));
        assert(!is_dup(b[i], b[j], window, threshold));
    }
}

/// Merging is idempotent: merging the merged results again gives them back.
pub proof fn lemma_merge_idempotent(rs: Seq<ResultView>, window: u64, threshold: u64)
    ensures
        merge_fix(merge_fix(rs, window, threshold), window, threshold) == merge_fix(rs, window, threshold),
{
    lemma_merge_fix(rs, window, threshold);
    lemma_merge_distinct_set(merge_fix(rs, window, threshold), window, threshold);
}

/// Merging an already-merged set with itself yields the same results, in
/// order: same text, confidence, speaker, timestamp and latency.
pub proof fn lemma_merged_set_with_itself(rs: Seq<ResultView>, window: u64, threshold: u64)
    requires
        window > 0,
    ensures
        ({
            let m = merge_fix(rs, window, threshold);
            let r = merge_fix(m + m, window, threshold);
            &&& r.len() == m.len()
            &&& forall|i: int| 0 <= i < m.len() ==> same_content(#[trigger] r[i], m[i])
        }),
{
    let m = merge_fix(rs, window, threshold);
    lemma_merge_fix(rs, window, threshold);
    lemma_pass_with_itself(m, window, threshold);
    let x = merge_all(m + m, window, threshold);
    lemma_distinct_by_content(x, m, window, threshold);
    lemma_merge_distinct_set(x, window, threshold);
    if m.len() == 0 {
        assert(m + m =~= Seq::<ResultView>::empty());
        assert(merge_all(m + m, window, threshold) =~= m + m);
    } else {
        assert((m + m).len() != x.len());
    }
}

/// Whether the id already carries the merge prefix.
pub fn is_merged_id(id: &String) -> (r: bool)
    ensures
        r == has_merged_prefix(id@),
{
    let cs = chars_of(id.as_str());
    let p = merged_prefix_chars();
    if cs.len() < 7 {
        return false;
    }
    let mut i: usize = 0;
    while i < 7
        invariant
            i <= 7,
            cs@.len() >= 7,
            cs@ == id@,
            p@ == merged_prefix(),
            forall|k: int| 0 <= k < i ==> cs@[k] == p@[k],
        decreases 7 - i,
    {
        if cs[i] != p[i] {
            assert(cs@.subrange(0, 7)[i as int] != merged_prefix()[i as int]);
            assert(cs@.subrange(0, 7) != merged_prefix());
            return false;
        }
        i += 1;
    }
    assert(cs@.subrange(0, 7) =~= merged_prefix());
    true
}

fn merged_prefix_chars() -> (r: Vec<char>)
    ensures
        r@ == merged_prefix(),
{
    let r = vec!['m', 'e', 'r', 'g', 'e', 'd', '_'];
    assert(r@ =~= merged_prefix());
    r
}

/// The id of a merged result.
pub fn make_merged_id(id: &String) -> (r: String)
    ensures
        r@ == merged_id(id@),
{
    if is_merged_id(id) {
        id.clone()
    } else {
        let mut cs = merged_prefix_chars();
        let tail = chars_of(id.as_str());
        let mut i: usize = 0;
        while i < tail.len()
            invariant
                i <= tail@.len(),
                cs@ == merged_prefix() + tail@.subrange(0, i as int),
            decreases tail@.len() - i,
        {
            cs.push(tail[i]);
            i += 1;
            assert(cs@ =~= merged_prefix() + tail@.subrange(0, i as int));
        }
        assert(tail@.subrange(0, tail@.len() as int) =~= tail@);
        string_of(&cs)
    }
}

/// Finds and merges duplicate recognition results.
pub struct DeduplicationEngine {
    similarity_threshold: u64,
    time_window_ms: u64,
}

impl DeduplicationEngine {
    pub closed spec fn wf(&self) -> bool {
        self.similarity_threshold <= 1000
    }

    /// Similarity threshold in thousandths.
    pub closed spec fn threshold(&self) -> u64 {
        self.similarity_threshold
    }

    pub closed spec fn window(&self) -> u64 {
        self.time_window_ms
    }

    /// Duplicates: less than 2 s apart and at least 80% word overlap.
    pub fn new() -> (r: Self)
        ensures
            r.wf(),
            r.threshold() == 800,
            r.window() == 2000,
    {
        DeduplicationEngine { similarity_threshold: 800, time_window_ms: 2000 }
    }

    pub fn is_duplicate(&self, a: &TranscriptResult, b: &TranscriptResult) -> (r: bool)
        requires
            self.wf(),
        ensures
            r == is_dup(a@, b@, self.window(), self.threshold()),
    {
        let diff = if a.timestamp > b.timestamp {
            a.timestamp - b.timestamp
        } else {
            b.timestamp - a.timestamp
        };
        if diff >= self.time_window_ms {
            return false;
        }
        let ta = chars_of(a.text.as_str());
        let tb = chars_of(b.text.as_str());
        is_similar(&ta, &tb, self.similarity_threshold, 1000)
    }

    /// Every pair of indices `(i, j)`, `i < j`, whose results are duplicates, in
    /// lexicographic order.
    pub fn find_duplicates(&self, results: &Vec<TranscriptResult>) -> (r: Vec<(usize, usize)>)
        requires
            self.wf(),
        ensures
            forall|k: int|
                0 <= k < r@.len() ==> {
                    let (i, j) = #[trigger] r@[k];
                    &&& i < j < results@.len()
                    &&& is_dup(results@[i as int]@, results@[j as int]@, self.window(), self.threshold())
                },
            forall|k: int| 0 <= k < r@.len() - 1 ==> pair_before(#[trigger] r@[k], r@[k + 1]),
            forall|i: int, j: int|
                0 <= i < j < results@.len() && is_dup(
                    results@[i]@,
                    results@[j]@,
                    self.window(),
                    self.threshold(),
                ) ==> #[trigger] r@.contains((i as usize, j as usize)),
    {
        let n = results.len();
        let mut r: Vec<(usize, usize)> = Vec::new();
        let mut i: usize = 0;
        while i < n
            invariant
                self.wf(),
                n == results@.len(),
                i <= n,
                forall|k: int|
                    0 <= k < r@.len() ==> {
                        let (a, b) = #[trigger] r@[k];
                        &&& a < b < n
                        &&& a < i
                        &&& is_dup(results@[a as int]@, results@[b as int]@, self.window(), self.threshold())
                    },
                forall|k: int| 0 <= k < r@.len() - 1 ==> pair_before(#[trigger] r@[k], r@[k + 1]),
                forall|a: int, b: int|
                    0 <= a < i && a < b < n && is_dup(
                        results@[a]@,
                        results@[b]@,
                        self.window(),
                        self.threshold(),
                    ) ==> #[trigger] r@.contains((a as usize, b as usize)),
            decreases n - i,
        {
            let mut j: usize = i + 1;
            let ghost r0 = r@;
            while j < n
                invariant
                    self.wf(),
                    n == results@.len(),
                    i < n,
                    i + 1 <= j <= n,
                    r0.len() <= r@.len(),
                    forall|k: int| 0 <= k < r0.len() ==> r@[k] == r0[k],
                    forall|k: int| 0 <= k < r0.len() ==> (#[trigger] r0[k]).0 < i,
                    forall|k: int|
                        r0.len() <= k < r@.len() ==> (#[trigger] r@[k]).0 == i && i < r@[k].1 < j,
                    forall|k: int|
                        0 <= k < r@.len() ==> {
                            let (a, b) = #[trigger] r@[k];
                            &&& a < b < n
                            &&& is_dup(results@[a as int]@, results@[b as int]@, self.window(), self.threshold())
                        },
                    forall|k: int| 0 <= k < r@.len() - 1 ==> pair_before(#[trigger] r@[k], r@[k + 1]),
                    forall|a: int, b: int|
                        0 <= a < i && a < b < n && is_dup(
                            results@[a]@,
                            results@[b]@,
                            self.window(),
                            self.threshold(),
                        ) ==> #[trigger] r@.contains((a as usize, b as usize)),
                    forall|b: int|
                        i < b < j && is_dup(
                            results@[i as int]@,
                            results@[b]@,
                            self.window(),
                            self.threshold(),
                        ) ==> #[trigger] r@.contains((i, b as usize)),
                decreases n - j,
            {
                if self.is_duplicate(&results[i], &results[j]) {
                    let ghost r1 = r@;
                    proof {
                        if r1.len() > 0 {
                            let l = (r1.len() - 1) as int;
                            if l >= r0.len() {
                                assert(r1[l].0 == i && r1[l].1 < j);
                            } else {
                                assert(r1[l] == r0[l]);
                                assert(r0[l].0 < i);
                            }
                            assert(pair_before(r1[l], (i, j)));
                        }
                    }
                    r.push((i, j));
                    assert forall|k: int| 0 <= k < r@.len() - 1 implies pair_before(#[trigger] r@[k], r@[k + 1]) by {
                        if k < r1.len() - 1 {
                            assert(r@[k] == r1[k] && r@[k + 1] == r1[k + 1]);
                        }
                    }
                    assert forall|a: int, b: int|
                        0 <= a < i && a < b < n && is_dup(
                            results@[a]@,
                            results@[b]@,
                            self.window(),
                            self.threshold(),
                        ) implies #[trigger] r@.contains((a as usize, b as usize)) by {
                        assert(r1.contains((a as usize, b as usize)));
                        let k = choose|k: int| 0 <= k < r1.len() && r1[k] == (a as usize, b as usize);
                        assert(r@[k] == r1[k]);
                    }
                    assert forall|b: int|
                        i < b < j + 1 && is_dup(
                            results@[i as int]@,
                            results@[b]@,
                            self.window(),
                            self.threshold(),
                        ) implies #[trigger] r@.contains((i, b as usize)) by {
                        if b < j {
                            assert(r1.contains((i, b as usize)));
                            let k = choose|k: int| 0 <= k < r1.len() && r1[k] == (i, b as usize);
                            assert(r@[k] == r1[k]);
                        } else {
                            assert(r@[r1.len() as int] == (i, j));
                        }
                    }
                }
                j += 1;
            }
            assert forall|k: int| 0 <= k < r@.len() implies (#[trigger] r@[k]).0 < i + 1 by {
                if k < r0.len() {
                    assert(r@[k] == r0[k]);
                }
            }
            i += 1;
        }
        r
    }

    /// Merges a non-empty group of duplicates into one final result.
    pub fn merge_group(&self, group: &Vec<TranscriptResult>) -> (r: TranscriptResult)
        requires
            group@.len() > 0,
        ensures
            r@ == merge_group_spec(result_views(group@)),
    {
        let ghost g = result_views(group@);
        let mut best: usize = 0;
        let mut longest: usize = 0;
        let mut sum: u128 = group[0].confidence as u128;
        let mut min_lat: u64 = group[0].processing_time_ms;
        let mut i: usize = 1;
        assert(g.subrange(0, 1).drop_last() =~= g.subrange(0, 0));
        assert(g.subrange(0, 1).last() == g[0]);
        assert(confidence_sum(g.subrange(0, 0)) == 0);
        assert(min_latency(g.subrange(0, 1)) == g[0].processing_time_ms);
        while i < group.len()
            invariant
                g == result_views(group@),
                1 <= i <= group@.len(),
                best < i,
                longest < i,
                best == best_index(g.subrange(0, i as int)),
                longest == longest_index(g.subrange(0, i as int)),
                sum == confidence_sum(g.subrange(0, i as int)),
                sum <= i * 0xffff_ffff,
                min_lat == min_latency(g.subrange(0, i as int)),
            decreases group@.len() - i,
        {
            let ghost nxt = g.subrange(0, i + 1);
            assert(nxt.drop_last() =~= g.subrange(0, i as int));
            assert(nxt.last() == group@[i as int]@);
            assert(nxt[best as int] == g[best as int]);
            assert(nxt[longest as int] == g[longest as int]);
            if group[i].confidence >= group[best].confidence {
                best = i;
            }
            let li = group[i].text.as_str().unicode_len();
            let ll = group[longest].text.as_str().unicode_len();
            if li >= ll {
                longest = i;
            }
            sum = sum + group[i].confidence as u128;
            if group[i].processing_time_ms < min_lat {
                min_lat = group[i].processing_time_ms;
            }
            i += 1;
        }
        assert(g.subrange(0, group@.len() as int) =~= g);
        proof {
            lemma_confidence_sum_bound(g);
        }
        let n = group.len() as u128;
        let avg = sum / n;
        assert(avg <= 0xffff_ffff) by (nonlinear_arith)
            requires
                avg == sum / n,
                sum <= n * 0xffff_ffff,
                n > 0,
        ;
        let b = &group[best];
        TranscriptResult {
            text: group[longest].text.clone(),
            confidence: avg as u32,
            is_temporary: false,
            speaker: copy_opt_string(&b.speaker),
            timestamp: b.timestamp,
            processing_time_ms: min_lat,
            segment_id: make_merged_id(&b.segment_id),
        }
    }

    /// Groups duplicates until no result duplicates a later one: each pass
    /// groups greedily, in order, and merges every group of two or more; a
    /// result without duplicates passes through unchanged.
    pub fn merge_similar_results(&self, results: Vec<TranscriptResult>) -> (r: Vec<
        TranscriptResult,
    >)
        requires
            self.wf(),
        ensures
            result_views(r@) == merge_fix(result_views(results@), self.window(), self.threshold()),
            pairwise_distinct(result_views(r@), self.window(), self.threshold()),
    {
        let ghost w = self.window();
        let ghost t = self.threshold();
        let ghost target = merge_fix(result_views(results@), w, t);
        let mut cur = results;
        loop
            invariant
                self.wf(),
                w == self.window(),
                t == self.threshold(),
                target == merge_fix(result_views(cur@), w, t),
                target == merge_fix(result_views(results@), w, t),
            decreases cur@.len(),
        {
            let ghost cv = result_views(cur@);
            let n = cur.len();
            let next = self.merge_pass(cur);
            proof {
                lemma_merge_all_len(cv, w, t);
            }
            if next.len() == n {
                assert(result_views(next@) == cv);
                assert(merge_fix(cv, w, t) == cv);
                proof {
                    lemma_merge_fix(cv, w, t);
                }
                return next;
            }
            assert(merge_fix(cv, w, t) == merge_fix(result_views(next@), w, t));
            cur = next;
        }
    }

    /// One greedy pass in order: the first result takes every later duplicate
    /// of itself and the group of two or more is merged; the rest is grouped in
    /// the same way.
    pub fn merge_pass(&self, results: Vec<TranscriptResult>) -> (r: Vec<
        TranscriptResult,
    >)
        requires
            self.wf(),
        ensures
            result_views(r@) == merge_all(result_views(results@), self.window(), self.threshold()),
    {
        let w = self.time_window_ms;
        let t = self.similarity_threshold;
        let mut out: Vec<TranscriptResult> = Vec::new();
        let mut rest = results;
        while rest.len() > 0
            invariant
                self.wf(),
                w == self.window(),
                t == self.threshold(),
                merge_all(result_views(results@), w, t) == result_views(out@) + merge_all(
                    result_views(rest@),
                    w,
                    t,
                ),
            decreases rest@.len(),
        {
            let ghost rv = result_views(rest@);
            let h = rest[0].copy();
            let mut group: Vec<TranscriptResult> = Vec::new();
            group.push(rest[0].copy());
            let mut others: Vec<TranscriptResult> = Vec::new();
            let mut j: usize = 1;
            while j < rest.len()
                invariant
                    rv == result_views(rest@),
                    rv.len() > 0,
                    h@ == rv[0],
                    1 <= j <= rest@.len(),
                    self.wf(),
                    w == self.window(),
                    t == self.threshold(),
                    result_views(group@) == seq![rv[0]] + dups_of(
                        rv[0],
                        rv.drop_first().subrange(0, j - 1),
                        w,
                        t,
                    ),
                    others@.len() <= j - 1,
                    result_views(others@) == others_of(
                        rv[0],
                        rv.drop_first().subrange(0, j - 1),
                        w,
                        t,
                    ),
                decreases rest@.len() - j,
            {
                let ghost pre = rv.drop_first().subrange(0, j - 1);
                let ghost nxt = rv.drop_first().subrange(0, j as int);
                assert(nxt.drop_last() =~= pre);
                assert(nxt.last() == rest@[j as int]@);
                let ghost g0 = result_views(group@);
                let ghost o0 = result_views(others@);
                if self.is_duplicate(&h, &rest[j]) {
                    group.push(rest[j].copy());
                    assert(result_views(group@) =~= g0.push(rest@[j as int]@));
                } else {
                    others.push(rest[j].copy());
                    assert(result_views(others@) =~= o0.push(rest@[j as int]@));
                }
                j += 1;
            }
            assert(rv.drop_first().subrange(0, rest@.len() - 1) =~= rv.drop_first());
            let ghost m;
            let ghost o0 = result_views(out@);
            if group.len() == 1 {
                out.push(h);
                proof {
                    m = rv[0];
                }
            } else {
                let merged = self.merge_group(&group);
                out.push(merged);
                proof {
                    m = merge_group_spec(result_views(group@));
                }
            }
            assert(result_views(out@) =~= o0.push(m));
            assert(merge_all(rv, w, t) == seq![m] + merge_all(result_views(others@), w, t));
            assert(result_views(out@) + merge_all(result_views(others@), w, t) =~= o0 + (seq![m]
                + merge_all(result_views(others@), w, t)));
            rest = others;
        }
        assert(result_views(rest@) =~= Seq::<ResultView>::empty());
        assert(result_views(out@) + Seq::<ResultView>::empty() =~= result_views(out@));
        out
    }
}

} // verus!
