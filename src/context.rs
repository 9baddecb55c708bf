//! Conversation history and context-aware text correction.
use vstd::prelude::*;
use crate::speaker::{assign, assigned_index, RealtimeSpeakerDiarization, VoiceFeatures};
use crate::text::{
    chars_of, contains_word, copy_chars, join, join_words, replace_all, replaced, split_words,
    string_of, utf8_len, utf8_len_of, views, words, chars_eq,
};
use crate::transcript::{copy_opt_string, opt_view, TranscriptResult};

verus! {

#[derive(Debug, Clone)]
pub struct ConversationSegment {
    pub text: String,
    pub speaker_id: Option<String>,
    pub timestamp: u64,
    /// Thousandths.
    pub confidence: u32,
    pub segment_id: String,
}

pub ghost struct ConversationView {
    pub text: Seq<char>,
    pub speaker_id: Option<Seq<char>>,
    pub timestamp: u64,
    pub confidence: u32,
    pub segment_id: Seq<char>,
}

impl View for ConversationSegment {
    type V = ConversationView;

    open spec fn view(&self) -> ConversationView {
        ConversationView {
            text: self.text@,
            speaker_id: opt_view(self.speaker_id),
            timestamp: self.timestamp,
            confidence: self.confidence,
            segment_id: self.segment_id@,
        }
    }
}

pub open spec fn conversation_views(v: Seq<ConversationSegment>) -> Seq<ConversationView> {
    Seq::new(v.len(), |i: int| v[i]@)
}

/// The words of all segments, oldest first.
pub open spec fn all_words(s: Seq<ConversationView>) -> Seq<Seq<char>>
    decreases s.len(),
{
    if s.len() == 0 {
        Seq::empty()
    } else {
        all_words(s.drop_last()) + words(s.last().text)
    }
}

/// The last `max_words` words of the history, joined by single spaces.
pub open spec fn recent_context(s: Seq<ConversationView>, max_words: nat) -> Seq<char> {
    let a = all_words(s);
    let k = if max_words < a.len() {
        max_words
    } else {
        a.len()
    };
    join(a.subrange(a.len() - k, a.len() as int))
}

/// Drops entries from the front while they are older than `cutoff`.
pub open spec fn drop_old(s: Seq<ConversationView>, cutoff: u64) -> Seq<ConversationView>
    decreases s.len(),
{
    if s.len() > 0 && s[0].timestamp < cutoff {
        drop_old(s.drop_first(), cutoff)
    } else {
        s
    }
}

pub open spec fn history_after_add(
    s: Seq<ConversationView>,
    seg: ConversationView,
    cutoff: u64,
    max: nat,
) -> Seq<ConversationView> {
    let s1 = drop_old(s, cutoff);
    let s2 = if s1.len() >= max && s1.len() > 0 {
        s1.drop_first()
    } else {
        s1
    };
    if max > 0 {
        s2.push(seg)
    } else {
        s2
    }
}

pub open spec fn prompt_prefix() -> Seq<char> {
    seq![
        'P',
        'r',
        'e',
        'v',
        'i',
        'o',
        'u',
        's',
        ' ',
        'c',
        'o',
        'n',
        't',
        'e',
        'x',
        't',
        ':',
        ' ',
    ]
}

/// Bounded, time-windowed history of recent transcript text.
pub struct ConversationBuffer {
    segments: Vec<ConversationSegment>,
    max_segments: usize,
    max_age_ms: u64,
}

impl View for ConversationBuffer {
    type V = Seq<ConversationView>;

    closed spec fn view(&self) -> Seq<ConversationView> {
        conversation_views(self.segments@)
    }
}

fn copy_segment(s: &ConversationSegment) -> (r: ConversationSegment)
    ensures
        r@ == s@,
{
    ConversationSegment {
        text: s.text.clone(),
        speaker_id: copy_opt_string(&s.speaker_id),
        timestamp: s.timestamp,
        confidence: s.confidence,
        segment_id: s.segment_id.clone(),
    }
}

impl ConversationBuffer {
    pub closed spec fn capacity(&self) -> nat {
        self.max_segments as nat
    }

    pub closed spec fn max_age(&self) -> u64 {
        self.max_age_ms
    }

    pub fn new(max_segments: usize, max_age_ms: u64) -> (r: Self)
        ensures
            r@.len() == 0,
            r.capacity() == max_segments,
            r.max_age() == max_age_ms,
    {
        let r = ConversationBuffer { segments: Vec::new(), max_segments, max_age_ms };
        assert(r@ =~= Seq::<ConversationView>::empty());
        r
    }

    /// Evicts entries older than the maximum age before `now_ms`, then the
    /// oldest entry when full, and appends the segment.
    pub fn add_segment(&mut self, segment: ConversationSegment, now_ms: u64)
        ensures
            final(self).capacity() == old(self).capacity(),
            final(self).max_age() == old(self).max_age(),
            final(self)@ == history_after_add(
                old(self)@,
                segment@,
                if now_ms >= old(self).max_age() {
                    (now_ms - old(self).max_age()) as u64
                } else {
                    0
                },
                old(self).capacity(),
            ),
    {
        let cutoff = if now_ms >= self.max_age_ms {
            now_ms - self.max_age_ms
        } else {
            0
        };
        let ghost s0 = self@;
        while self.segments.len() > 0 && self.segments[0].timestamp < cutoff
            invariant
                drop_old(s0, cutoff) == drop_old(self@, cutoff),
                self.max_segments == old(self).max_segments,
                self.max_age_ms == old(self).max_age_ms,
            decreases self.segments@.len(),
        {
            let ghost s1 = self@;
            self.segments.remove(0);
            assert(self@ =~= s1.drop_first());
        }
        assert(drop_old(self@, cutoff) == self@);
        let ghost s1 = self@;
        if self.segments.len() >= self.max_segments && self.segments.len() > 0 {
            self.segments.remove(0);
            assert(self@ =~= s1.drop_first());
        }
        if self.max_segments > 0 {
            let ghost s2 = self@;
            self.segments.push(segment);
            assert(self@ =~= s2.push(segment@));
        }
    }

    /// The last `max_words` words of the history, oldest first, joined by
    /// single spaces.
    pub fn get_recent_context(&self, max_words: usize) -> (r: String)
        ensures
            r@ == recent_context(self@, max_words as nat),
    {
        let ghost s = self@;
        let mut all: Vec<Vec<char>> = Vec::new();
        let mut i: usize = 0;
        while i < self.segments.len()
            invariant
                s == self@,
                i <= s.len(),
                views(all@) == all_words(s.subrange(0, i as int)),
            decreases s.len() - i,
        {
            let ghost nxt = s.subrange(0, i + 1);
            assert(nxt.drop_last() =~= s.subrange(0, i as int));
            let ws = split_words(&chars_of(self.segments[i].text.as_str()));
            let ghost a0 = views(all@);
            let mut j: usize = 0;
            while j < ws.len()
                invariant
                    j <= ws@.len(),
                    views(all@) == a0 + views(ws@).subrange(0, j as int),
                decreases ws@.len() - j,
            {
                let ghost b = views(all@);
                let w = copy_chars(&ws[j]);
                all.push(w);
                assert(views(all@) =~= b.push(ws@[j as int]@));
                j += 1;
                assert(views(all@) =~= a0 + views(ws@).subrange(0, j as int));
            }
            assert(views(ws@).subrange(0, ws@.len() as int) =~= views(ws@));
            i += 1;
        }
        assert(s.subrange(0, s.len() as int) =~= s);
        let n = all.len();
        let k = if max_words < n {
            max_words
        } else {
            n
        };
        let mut tail: Vec<Vec<char>> = Vec::new();
        let mut j: usize = n - k;
        while j < n
            invariant
                n == all@.len(),
                k <= n,
                n - k <= j <= n,
                views(tail@) == views(all@).subrange(n - k, j as int),
            decreases n - j,
        {
            let ghost t0 = views(tail@);
            let w = copy_chars(&all[j]);
            tail.push(w);
            assert(views(tail@) =~= t0.push(all@[j as int]@));
            j += 1;
            assert(views(tail@) =~= views(all@).subrange(n - k, j as int));
        }
        string_of(&join_words(&tail))
    }

    /// `Previous context: ` and the last 50 words, or empty without history.
    pub fn generate_whisper_prompt(&self) -> (r: String)
        ensures
            recent_context(self@, 50).len() == 0 ==> r@.len() == 0,
            recent_context(self@, 50).len() > 0 ==> r@ == prompt_prefix() + recent_context(self@, 50),
    {
        let ctx = self.get_recent_context(50);
        let cs = chars_of(ctx.as_str());
        if cs.len() == 0 {
            String::new()
        } else {
            let mut v: Vec<char> = vec![
                'P',
                'r',
                'e',
                'v',
                'i',
                'o',
                'u',
                's',
                ' ',
                'c',
                'o',
                'n',
                't',
                'e',
                'x',
                't',
                ':',
                ' ',
            ];
            assert(v@ =~= prompt_prefix());
            crate::text::append_chars(&mut v, &cs);
            string_of(&v)
        }
    }

    /// Up to `max_segments` entries of this speaker, newest first.
    pub fn get_speaker_context(&self, speaker_id: &str, max_segments: usize) -> (r: Vec<
        ConversationSegment,
    >)
        ensures
            conversation_views(r@) == speaker_entries(self@, speaker_id@, max_segments as nat),
    {
        let ghost s = self@;
        let want = chars_of(speaker_id);
        let mut out: Vec<ConversationSegment> = Vec::new();
        let mut i: usize = self.segments.len();
        assert(s.subrange(0, i as int) =~= s);
        assert(conversation_views(out@) =~= Seq::<ConversationView>::empty());
        assert(conversation_views(out@) + speaker_entries(s, speaker_id@, max_segments as nat)
            =~= speaker_entries(s, speaker_id@, max_segments as nat));
        while i > 0 && out.len() < max_segments
            invariant
                s == self@,
                i <= s.len(),
                want@ == speaker_id@,
                out@.len() <= max_segments,
                conversation_views(out@) + speaker_entries(
                    s.subrange(0, i as int),
                    speaker_id@,
                    (max_segments - out@.len()) as nat,
                ) == speaker_entries(s, speaker_id@, max_segments as nat),
            decreases i,
        {
            let ghost pre = s.subrange(0, i as int);
            assert(pre.drop_last() =~= s.subrange(0, i - 1));
            assert(pre.last() == self.segments@[i - 1]@);
            i -= 1;
            let seg = &self.segments[i];
            let hit = match &seg.speaker_id {
                Some(sp) => {
                    let have = chars_of(sp.as_str());
                    chars_eq(&have, &want)
                },
                None => false,
            };
            assert(hit == (pre.last().speaker_id == Some(speaker_id@)));
            if hit {
                let ghost o0 = conversation_views(out@);
                out.push(copy_segment(seg));
                assert(conversation_views(out@) =~= o0.push(seg@));
                assert(conversation_views(out@) + speaker_entries(
                    s.subrange(0, i as int),
                    speaker_id@,
                    (max_segments - out@.len()) as nat,
                ) =~= o0 + (seq![seg@] + speaker_entries(
                    s.subrange(0, i as int),
                    speaker_id@,
                    (max_segments - out@.len()) as nat,
                )));
            }
        }
        proof {
            if out@.len() == max_segments {
                assert(speaker_entries(s.subrange(0, i as int), speaker_id@, 0) =~= Seq::<ConversationView>::empty());
            } else {
                assert(i == 0);
                assert(s.subrange(0, 0) =~= Seq::<ConversationView>::empty());
            }
            assert(conversation_views(out@) + Seq::<ConversationView>::empty() =~= conversation_views(out@));
        }
        out
    }
}

/// Up to `max` entries of the speaker, newest first.
pub open spec fn speaker_entries(s: Seq<ConversationView>, id: Seq<char>, max: nat) -> Seq<
    ConversationView,
>
    decreases s.len(),
{
    if s.len() == 0 || max == 0 {
        Seq::empty()
    } else if s.last().speaker_id == Some(id) {
        seq![s.last()] + speaker_entries(s.drop_last(), id, (max - 1) as nat)
    } else {
        speaker_entries(s.drop_last(), id, max)
    }
}

/// Words whose immediate repetition is collapsed; words of two UTF-8 bytes or
/// fewer (short function words such as `a`, `is`, `ok`) may repeat.
pub open spec fn collapse(ws: Seq<Seq<char>>) -> Seq<Seq<char>>
    decreases ws.len(),
{
    if ws.len() == 0 {
        ws
    } else {
        let p = collapse(ws.drop_last());
        let w = ws.last();
        if p.len() > 0 && p.last() == w && utf8_len(w) > 2 {
            p
        } else {
            p.push(w)
        }
    }
}

/// No space before `,`, `.`, `!` or `?`.
pub open spec fn punctuation_fixed(t: Seq<char>) -> Seq<char> {
    replaced(
        replaced(replaced(replaced(t, seq![' ', ','], seq![',']), seq![' ', '.'], seq!['.']), seq![' ', '!'], seq!['!']),
        seq![' ', '?'],
        seq!['?'],
    )
}

pub open spec fn grammar_fixed(t: Seq<char>) -> Seq<char> {
    punctuation_fixed(join(collapse(words(t))))
}

/// A replacement applied only when every required word occurs in the context.
#[derive(Debug, Clone)]
pub struct ContextRule {
    pub pattern: String,
    pub replacement: String,
    pub context_required: Vec<String>,
}

pub ghost struct RuleView {
    pub pattern: Seq<char>,
    pub replacement: Seq<char>,
    pub required: Seq<Seq<char>>,
}

impl View for ContextRule {
    type V = RuleView;

    open spec fn view(&self) -> RuleView {
        RuleView {
            pattern: self.pattern@,
            replacement: self.replacement@,
            required: Seq::new(self.context_required@.len(), |i: int| self.context_required@[i]@),
        }
    }
}

pub open spec fn rule_views(v: Seq<ContextRule>) -> Seq<RuleView> {
    Seq::new(v.len(), |i: int| v[i]@)
}

pub open spec fn rule_applies(r: RuleView, context: Seq<Seq<char>>) -> bool {
    r.pattern.len() > 0 && forall|i: int| 0 <= i < r.required.len() ==> context.contains(r.required[i])
}

pub open spec fn apply_rules(t: Seq<char>, rules: Seq<RuleView>, context: Seq<Seq<char>>) -> Seq<char>
    decreases rules.len(),
{
    if rules.len() == 0 {
        t
    } else {
        let p = apply_rules(t, rules.drop_last(), context);
        if rule_applies(rules.last(), context) {
            replaced(p, rules.last().pattern, rules.last().replacement)
        } else {
            p
        }
    }
}

pub open spec fn apply_pairs(t: Seq<char>, pairs: Seq<(Seq<char>, Seq<char>)>) -> Seq<char>
    decreases pairs.len(),
{
    if pairs.len() == 0 {
        t
    } else {
        replaced(apply_pairs(t, pairs.drop_last()), pairs.last().0, pairs.last().1)
    }
}

/// Repeated filler words that recognition tends to produce, and their fix.
pub open spec fn common_pairs() -> Seq<(Seq<char>, Seq<char>)> {
    seq![
        (seq!['那', '个', '那', '个'], seq!['那', '个']),
        (seq!['就', '是', '就', '是'], seq!['就', '是']),
        (seq!['然', '后', '然', '后'], seq!['然', '后']),
        (seq!['这', '个', '这', '个'], seq!['这', '个']),
    ]
}

pub open spec fn corrected_text(
    t: Seq<char>,
    pairs: Seq<(Seq<char>, Seq<char>)>,
    rules: Seq<RuleView>,
    context: Seq<char>,
) -> Seq<char> {
    grammar_fixed(apply_rules(apply_pairs(t, pairs), rules, words(context)))
}

/// Collapses immediate repetitions of words longer than two characters.
pub fn collapse_repeats(ws: &Vec<Vec<char>>) -> (r: Vec<Vec<char>>)
    ensures
        views(r@) == collapse(views(ws@)),
{
    let mut out: Vec<Vec<char>> = Vec::new();
    let mut i: usize = 0;
    while i < ws.len()
        invariant
            i <= ws@.len(),
            views(out@) == collapse(views(ws@).subrange(0, i as int)),
        decreases ws@.len() - i,
    {
        let ghost nxt = views(ws@).subrange(0, i + 1);
        assert(nxt.drop_last() =~= views(ws@).subrange(0, i as int));
        let w = &ws[i];
        let skip = out.len() > 0 && utf8_len_of(w) > 2 && chars_eq(&out[out.len() - 1], w);
        if !skip {
            let ghost o0 = views(out@);
            out.push(copy_chars(w));
            assert(views(out@) =~= o0.push(w@));
        }
        i += 1;
    }
    assert(views(ws@).subrange(0, ws@.len() as int) =~= views(ws@));
    out
}

fn pattern_chars(a: char, b: char) -> (r: Vec<char>)
    ensures
        r@ == seq![a, b],
{
    let r = vec![a, b];
    assert(r@ =~= seq![a, b]);
    r
}

fn single_char(a: char) -> (r: Vec<char>)
    ensures
        r@ == seq![a],
{
    let r = vec![a];
    assert(r@ =~= seq![a]);
    r
}

/// Whitespace normalisation, duplicate-word collapse and punctuation spacing.
pub fn apply_basic_grammar_fixes(text: &Vec<char>) -> (r: Vec<char>)
    ensures
        r@ == grammar_fixed(text@),
{
    let ws = split_words(text);
    let c = collapse_repeats(&ws);
    let joined = join_words(&c);
    let t1 = replace_all(&joined, &pattern_chars(' ', ','), &single_char(','));
    let t2 = replace_all(&t1, &pattern_chars(' ', '.'), &single_char('.'));
    let t3 = replace_all(&t2, &pattern_chars(' ', '!'), &single_char('!'));
    replace_all(&t3, &pattern_chars(' ', '?'), &single_char('?'))
}

/// Fixed corrections, context rules and grammar fixes.
pub struct LanguageContextModel {
    common_corrections: Vec<(Vec<char>, Vec<char>)>,
    context_rules: Vec<ContextRule>,
}

impl LanguageContextModel {
    pub closed spec fn pairs(&self) -> Seq<(Seq<char>, Seq<char>)> {
        Seq::new(self.common_corrections@.len(), |i: int| (self.common_corrections@[i].0@, self.common_corrections@[i].1@))
    }

    pub closed spec fn rules(&self) -> Seq<RuleView> {
        rule_views(self.context_rules@)
    }

    pub closed spec fn wf(&self) -> bool {
        forall|i: int| 0 <= i < self.common_corrections@.len() ==> self.common_corrections@[i].0@.len() > 0
    }

    /// The four filler-word corrections and no context rules.
    pub fn new() -> (r: Self)
        ensures
            r.wf(),
            r.pairs() == common_pairs(),
            r.rules().len() == 0,
    {
        let mut common_corrections: Vec<(Vec<char>, Vec<char>)> = Vec::new();
        common_corrections.push((vec!['那', '个', '那', '个'], vec!['那', '个']));
        common_corrections.push((vec!['就', '是', '就', '是'], vec!['就', '是']));
        common_corrections.push((vec!['然', '后', '然', '后'], vec!['然', '后']));
        common_corrections.push((vec!['这', '个', '这', '个'], vec!['这', '个']));
        let r = LanguageContextModel { common_corrections, context_rules: Vec::new() };
        assert(r.pairs() =~= common_pairs());
        assert(r.rules() =~= Seq::<RuleView>::empty());
        r
    }

    pub fn add_rule(&mut self, rule: ContextRule)
        requires
            old(self).wf(),
        ensures
            final(self).wf(),
            final(self).pairs() == old(self).pairs(),
            final(self).rules() == old(self).rules().push(rule@),
    {
        let ghost r0 = self.rules();
        let ghost p0 = self.pairs();
        self.context_rules.push(rule);
        assert(self.rules() =~= r0.push(rule@));
        assert(self.pairs() =~= p0);
    }

    /// Applies the rules whose required words all occur in the context.
    pub fn apply_context_rules(&self, text: &Vec<char>, context: &str) -> (r: Vec<char>)
        ensures
            r@ == apply_rules(text@, self.rules(), words(context@)),
    {
        let ctx = split_words(&chars_of(context));
        let ghost cw = words(context@);
        let mut t = copy_chars(text);
        let mut i: usize = 0;
        while i < self.context_rules.len()
            invariant
                views(ctx@) == cw,
                i <= self.rules().len(),
                t@ == apply_rules(text@, self.rules().subrange(0, i as int), cw),
            decreases self.rules().len() - i,
        {
            let ghost nxt = self.rules().subrange(0, i + 1);
            assert(nxt.drop_last() =~= self.rules().subrange(0, i as int));
            let rule = &self.context_rules[i];
            let ghost rv = rule@;
            assert(nxt.last() == rv);
            let pat = chars_of(rule.pattern.as_str());
            let mut ok = pat.len() > 0;
            let mut j: usize = 0;
            while j < rule.context_required.len()
                invariant
                    views(ctx@) == cw,
                    rv == rule@,
                    j <= rv.required.len(),
                    ok == (pat@.len() > 0 && forall|k: int| 0 <= k < j ==> cw.contains(rv.required[k])),
                decreases rv.required.len() - j,
            {
                let req = chars_of(rule.context_required[j].as_str());
                let c = contains_word(&ctx, &req);
                assert(c == cw.contains(rv.required[j as int]));
                let ghost ok0 = ok;
                ok = ok && c;
                j += 1;
                assert(ok == (pat@.len() > 0 && forall|k: int| 0 <= k < j ==> cw.contains(rv.required[k]))) by {
                    if ok {
                        assert forall|k: int| 0 <= k < j implies cw.contains(rv.required[k]) by {
                            if k < j - 1 {
                                assert(ok0);
                            }
                        }
                    }
                }
            }
            if ok {
                let rep = chars_of(rule.replacement.as_str());
                t = replace_all(&t, &pat, &rep);
            }
            i += 1;
        }
        assert(self.rules().subrange(0, self.rules().len() as int) =~= self.rules());
        t
    }

    /// Corrects a recognised text: filler-word fixes, then context rules, then
    /// grammar fixes. The speaker is accepted for callers' symmetry and does
    /// not change the outcome.
    pub fn correct_text(&self, text: &str, context: &str, speaker_info: &Option<String>) -> (r: String)
        requires
            self.wf(),
        ensures
            r@ == corrected_text(text@, self.pairs(), self.rules(), context@),
    {
        let mut t = chars_of(text);
        let mut i: usize = 0;
        while i < self.common_corrections.len()
            invariant
                self.wf(),
                i <= self.pairs().len(),
                t@ == apply_pairs(text@, self.pairs().subrange(0, i as int)),
            decreases self.pairs().len() - i,
        {
            let ghost nxt = self.pairs().subrange(0, i + 1);
            assert(nxt.drop_last() =~= self.pairs().subrange(0, i as int));
            let pair = &self.common_corrections[i];
            assert(self.common_corrections@[i as int].0@.len() > 0);
            t = replace_all(&t, &pair.0, &pair.1);
            i += 1;
        }
        assert(self.pairs().subrange(0, self.pairs().len() as int) =~= self.pairs());
        let t = self.apply_context_rules(&t, context);
        string_of(&apply_basic_grammar_fixes(&t))
    }
}


/// Heuristic nudge: a confidence below one half is raised by a tenth after
/// contextual correction. It is not a statistical recalibration.
pub open spec fn boosted(c: u32) -> u32 {
    if c < 500 {
        (c * 11 / 10) as u32
    } else {
        c
    }
}

/// Speaker of a result after context processing.
pub open spec fn speaker_after(
    profiles: Seq<crate::speaker::ProfileView>,
    features: Option<VoiceFeatures>,
    given: Option<Seq<char>>,
) -> Option<Seq<char>> {
    match features {
        Some(f) => Some(assign(profiles, f)[assigned_index(profiles, f)].name),
        None => given,
    }
}

/// Conversation history, speaker diarizer and language model together.
pub struct ContextAwareProcessor {
    conversation_buffer: ConversationBuffer,
    speaker_model: RealtimeSpeakerDiarization,
    language_model: LanguageContextModel,
}

impl ContextAwareProcessor {
    pub closed spec fn wf(&self) -> bool {
        self.speaker_model.wf() && self.language_model.wf()
    }

    pub closed spec fn history(&self) -> Seq<ConversationView> {
        self.conversation_buffer@
    }

    pub closed spec fn history_capacity(&self) -> nat {
        self.conversation_buffer.capacity()
    }

    pub closed spec fn history_age(&self) -> u64 {
        self.conversation_buffer.max_age()
    }

    pub closed spec fn profiles(&self) -> Seq<crate::speaker::ProfileView> {
        self.speaker_model.profiles()
    }

    pub closed spec fn current_speaker(&self) -> Option<usize> {
        self.speaker_model.current()
    }

    pub closed spec fn pairs(&self) -> Seq<(Seq<char>, Seq<char>)> {
        self.language_model.pairs()
    }

    pub closed spec fn rules(&self) -> Seq<RuleView> {
        self.language_model.rules()
    }

    /// A history of 100 entries over five minutes.
    pub fn new() -> (r: Self)
        ensures
            r.wf(),
            r.history().len() == 0,
            r.history_capacity() == 100,
            r.history_age() == 300_000,
            r.profiles().len() == 0,
            r.pairs() == common_pairs(),
            r.rules().len() == 0,
    {
        ContextAwareProcessor {
            conversation_buffer: ConversationBuffer::new(100, 300_000),
            speaker_model: RealtimeSpeakerDiarization::new(),
            language_model: LanguageContextModel::new(),
        }
    }

    /// Attributes a speaker (from the voice features when given), corrects the
    /// text against the last 100 words of history, records the corrected text
    /// in the history and nudges a low confidence up.
    pub fn process_with_context(
        &mut self,
        result: TranscriptResult,
        features: &Option<VoiceFeatures>,
        now_ms: u64,
    ) -> (r: TranscriptResult)
        requires
            old(self).wf(),
            features matches Some(f) ==> f.wf(),
            old(self).profiles().len() < u64::MAX,
        ensures
            final(self).wf(),
            final(self).pairs() == old(self).pairs(),
            final(self).rules() == old(self).rules(),
            final(self).history_capacity() == old(self).history_capacity(),
            final(self).history_age() == old(self).history_age(),
            features matches Some(f) ==> final(self).profiles() == assign(old(self).profiles(), *f),
            features.is_none() ==> final(self).profiles() == old(self).profiles(),
            r@.text == corrected_text(
                result@.text,
                old(self).pairs(),
                old(self).rules(),
                recent_context(old(self).history(), 100),
            ),
            r@.speaker == speaker_after(old(self).profiles(), *features, result@.speaker),
            r@.confidence == boosted(result@.confidence),
            r@.is_temporary == result@.is_temporary,
            r@.timestamp == result@.timestamp,
            r@.processing_time_ms == result@.processing_time_ms,
            r@.segment_id == result@.segment_id,
            final(self).history() == history_after_add(
                old(self).history(),
                ConversationView {
                    text: r@.text,
                    speaker_id: r@.speaker,
                    timestamp: result@.timestamp,
                    confidence: result@.confidence,
                    segment_id: result@.segment_id,
                },
                if now_ms >= old(self).history_age() {
                    (now_ms - old(self).history_age()) as u64
                } else {
                    0
                },
                old(self).history_capacity(),
            ),
    {
        let speaker = match features {
            Some(f) => Some(self.speaker_model.identify_speaker(f)),
            None => copy_opt_string(&result.speaker),
        };
        let context = self.conversation_buffer.get_recent_context(100);
        let corrected = self.language_model.correct_text(result.text.as_str(), context.as_str(), &speaker);
        let segment = ConversationSegment {
            text: corrected.clone(),
            speaker_id: copy_opt_string(&speaker),
            timestamp: result.timestamp,
            confidence: result.confidence,
            segment_id: result.segment_id.clone(),
        };
        self.conversation_buffer.add_segment(segment, now_ms);
        let confidence = if result.confidence < 500 {
            result.confidence * 11 / 10
        } else {
            result.confidence
        };
        TranscriptResult {
            text: corrected,
            confidence,
            is_temporary: result.is_temporary,
            speaker,
            timestamp: result.timestamp,
            processing_time_ms: result.processing_time_ms,
            segment_id: result.segment_id,
        }
    }

    pub fn get_conversation_context(&self, max_words: usize) -> (r: String)
        ensures
            r@ == recent_context(self.history(), max_words as nat),
    {
        self.conversation_buffer.get_recent_context(max_words)
    }

    pub fn get_whisper_prompt(&self) -> (r: String)
        ensures
            recent_context(self.history(), 50).len() == 0 ==> r@.len() == 0,
            recent_context(self.history(), 50).len() > 0 ==> r@ == prompt_prefix() + recent_context(
                self.history(),
                50,
            ),
    {
        self.conversation_buffer.generate_whisper_prompt()
    }

    pub fn get_current_speaker(&self) -> (r: Option<String>)
        requires
            self.wf(),
        ensures
            self.current_speaker().is_none() ==> r.is_none(),
            self.current_speaker() matches Some(k) ==> r.is_some() && r.unwrap()@ == self.profiles()[k as int].name,
    {
        self.speaker_model.get_current_speaker()
    }

    pub fn get_speaker_count(&self) -> (r: usize)
        ensures
            r == self.profiles().len(),
    {
        self.speaker_model.get_speaker_count()
    }
}

} // verus!
