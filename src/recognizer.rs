//! The checks and post-processing around one recognition-engine call. The
//! engine itself is an outside collaborator.
use vstd::prelude::*;
use crate::context::apply_pairs;
use crate::text::{chars_eq, chars_of, join, join_words, replace_all, split_words, string_of, words};
use crate::vad::{sum_of_squares, sum_sq};

verus! {

/// Shortest chunk sent to the engine: 100 ms.
pub const MIN_CHUNK_SAMPLES: usize = 1600;

#[derive(Debug, Clone, Copy, PartialEq, Eq, Structural)]
pub enum ChunkError {
    TooShort,
    Silent,
}

/// Root mean square below 0.005 of full scale, compared on squares:
/// `mean square < 2^30 / 40000`.
pub open spec fn is_silent(a: Seq<i16>) -> bool {
    40000 * sum_sq(a) < 1_073_741_824 * a.len()
}

/// Chunks too short or too quiet for recognition are dropped before the call.
pub fn check_chunk(audio: &[i16]) -> (r: Result<(), ChunkError>)
    ensures
        audio@.len() < MIN_CHUNK_SAMPLES ==> r == Err::<(), ChunkError>(ChunkError::TooShort),
        audio@.len() >= MIN_CHUNK_SAMPLES && is_silent(audio@) ==> r == Err::<(), ChunkError>(
            ChunkError::Silent,
        ),
        audio@.len() >= MIN_CHUNK_SAMPLES && !is_silent(audio@) ==> r is Ok,
{
    if audio.len() < MIN_CHUNK_SAMPLES {
        return Err(ChunkError::TooShort);
    }
    let e = sum_of_squares(audio);
    proof {
        crate::vad::lemma_sum_sq_bound(audio@);
    }
    let n = audio.len() as u128;
    assert(e <= n * 0x4000_0000);
    assert(40000 * e <= 40000 * (n * 0x4000_0000)) by (nonlinear_arith)
        requires
            e <= n * 0x4000_0000,
    ;
    assert(n * 0x4000_0000 <= 0xffff_ffff_ffff_ffff * 0x4000_0000) by (nonlinear_arith)
        requires
            n <= 0xffff_ffff_ffff_ffff,
    ;
    if 40000 * e < 1_073_741_824 * n {
        Err(ChunkError::Silent)
    } else {
        Ok(())
    }
}

/// Chinese doubled characters that recognition tends to produce.
pub open spec fn chinese_fixes() -> Seq<(Seq<char>, Seq<char>)> {
    seq![
        (seq!['的', '的'], seq!['的']),
        (seq!['了', '了'], seq!['了']),
        (seq!['是', '是'], seq!['是']),
        (seq!['在', '在'], seq!['在']),
        (seq!['我', '我'], seq!['我']),
        (seq!['你', '你'], seq!['你']),
        (seq!['他', '他'], seq!['他']),
        (seq!['她', '她'], seq!['她']),
    ]
}

/// English spacing fixes.
pub open spec fn english_fixes() -> Seq<(Seq<char>, Seq<char>)> {
    seq![
        (seq![' ', ' '], seq![' ']),
        (seq![' ', '.'], seq!['.']),
        (seq![' ', ','], seq![',']),
        (seq![' ', '!'], seq!['!']),
        (seq![' ', '?'], seq!['?']),
    ]
}

pub open spec fn language_fixes(language: Seq<char>) -> Seq<(Seq<char>, Seq<char>)> {
    if language == seq!['z', 'h'] {
        chinese_fixes()
    } else if language == seq!['e', 'n'] {
        english_fixes()
    } else {
        Seq::empty()
    }
}

/// White space collapsed to single spaces, then the fixes of the language.
pub open spec fn post_processed(text: Seq<char>, language: Seq<char>) -> Seq<char> {
    apply_pairs(join(words(text)), language_fixes(language))
}

fn two(a: char, b: char) -> (r: Vec<char>)
    ensures
        r@ == seq![a, b],
{
    let r = vec![a, b];
    assert(r@ =~= seq![a, b]);
    r
}

fn one(a: char) -> (r: Vec<char>)
    ensures
        r@ == seq![a],
{
    let r = vec![a];
    assert(r@ =~= seq![a]);
    r
}

fn pair(a: Vec<char>, b: Vec<char>) -> (r: (Vec<char>, Vec<char>))
    ensures
        r.0@ == a@,
        r.1@ == b@,
{
    (a, b)
}

pub open spec fn pair_views(v: Seq<(Vec<char>, Vec<char>)>) -> Seq<(Seq<char>, Seq<char>)> {
    Seq::new(v.len(), |i: int| (v[i].0@, v[i].1@))
}

fn fixes_for(language: &str) -> (r: Vec<(Vec<char>, Vec<char>)>)
    ensures
        pair_views(r@) == language_fixes(language@),
        forall|i: int| 0 <= i < r@.len() ==> r@[i].0@.len() > 0,
{
    let lang = chars_of(language);
    let zh = vec!['z', 'h'];
    let en = vec!['e', 'n'];
    assert(zh@ =~= seq!['z', 'h']);
    assert(en@ =~= seq!['e', 'n']);
    let mut r: Vec<(Vec<char>, Vec<char>)> = Vec::new();
    if chars_eq(&lang, &zh) {
        r.push(pair(two('的', '的'), one('的')));
        r.push(pair(two('了', '了'), one('了')));
        r.push(pair(two('是', '是'), one('是')));
        r.push(pair(two('在', '在'), one('在')));
        r.push(pair(two('我', '我'), one('我')));
        r.push(pair(two('你', '你'), one('你')));
        r.push(pair(two('他', '他'), one('他')));
        r.push(pair(two('她', '她'), one('她')));
        assert(pair_views(r@) =~= chinese_fixes());
    } else if chars_eq(&lang, &en) {
        r.push(pair(two(' ', ' '), one(' ')));
        r.push(pair(two(' ', '.'), one('.')));
        r.push(pair(two(' ', ','), one(',')));
        r.push(pair(two(' ', '!'), one('!')));
        r.push(pair(two(' ', '?'), one('?')));
        assert(pair_views(r@) =~= english_fixes());
    } else {
        assert(pair_views(r@) =~= Seq::<(Seq<char>, Seq<char>)>::empty());
    }
    r
}

/// Cleans the engine's text: trims it, collapses white space, and applies the
/// fixes of the language (`zh` or `en`).
pub fn post_process_text(text: &str, language: &str) -> (r: String)
    ensures
        r@ == post_processed(text@, language@),
{
    let ws = split_words(&chars_of(text));
    let mut t = join_words(&ws);
    let fixes = fixes_for(language);
    let ghost pv = pair_views(fixes@);
    let mut i: usize = 0;
    while i < fixes.len()
        invariant
            pv == pair_views(fixes@),
            forall|k: int| 0 <= k < fixes@.len() ==> fixes@[k].0@.len() > 0,
            i <= fixes@.len(),
            t@ == apply_pairs(join(words(text@)), pv.subrange(0, i as int)),
        decreases fixes@.len() - i,
    {
        let ghost nxt = pv.subrange(0, i + 1);
        assert(nxt.drop_last() =~= pv.subrange(0, i as int));
        t = replace_all(&t, &fixes[i].0, &fixes[i].1);
        i += 1;
    }
    assert(pv.subrange(0, pv.len() as int) =~= pv);
    string_of(&t)
}

/// In the hybrid mode two results of three are temporary; otherwise none is.
pub fn is_temporary_for(mode: &str, counter: u64) -> (r: bool)
    ensures
        r == (mode@ == seq!['h', 'y', 'b', 'r', 'i', 'd'] && counter % 3 != 0),
{
    let h = vec!['h', 'y', 'b', 'r', 'i', 'd'];
    assert(h@ =~= seq!['h', 'y', 'b', 'r', 'i', 'd']);
    let m = chars_of(mode);
    chars_eq(&m, &h) && counter % 3 != 0
}

/// Unicode `Alphabetic` property of a character, as `char::is_alphabetic` reports it.
pub uninterp spec fn alphabetic(c: char) -> bool;

/// Relies on `char::is_alphabetic`: whether the character has the Unicode
/// `Alphabetic` property.
#[verifier::external_body]
fn is_alphabetic(c: char) -> (r: bool)
    ensures
        r == alphabetic(c),
{
    c.is_alphabetic()
}

pub open spec fn is_ascii_digit(c: char) -> bool {
    '0' <= c && c <= '9'
}

/// Some character is a letter or an ASCII digit.
pub open spec fn has_alphanumeric(t: Seq<char>) -> bool {
    exists|i: int| 0 <= i < t.len() && (alphabetic(t[i]) || is_ascii_digit(t[i]))
}

/// Heuristic confidence of an engine result, in thousandths: 800, plus 150 for
/// audio that passed the silence check, plus 50 for three to five bytes of text
/// or 100 for more, plus 50 when the text holds a letter or digit; at most 980.
pub open spec fn confidence_for(byte_len: nat, alphanumeric: bool) -> u32 {
    let bonus: nat = if byte_len <= 2 {
        0
    } else if byte_len <= 5 {
        50
    } else {
        100
    };
    let total = 950 + bonus + if alphanumeric {
        50nat
    } else {
        0nat
    };
    if total > 980 {
        980
    } else {
        total as u32
    }
}

/// Confidence from the text's byte length and whether it holds a letter or digit.
pub fn confidence_from(byte_len: usize, alphanumeric: bool) -> (r: u32)
    ensures
        r == confidence_for(byte_len as nat, alphanumeric),
{
    let bonus: u32 = if byte_len <= 2 {
        0
    } else if byte_len <= 5 {
        50
    } else {
        100
    };
    let total = 950 + bonus + if alphanumeric {
        50
    } else {
        0
    };
    if total > 980 {
        980
    } else {
        total
    }
}

/// Confidence of a post-processed text that passed [`check_chunk`].
pub fn calculate_confidence(text: &String) -> (r: u32)
    ensures
        r == confidence_for((vstd::utf8::encode_utf8(text@).len() as usize) as nat, has_alphanumeric(text@)),
{
    let cs = chars_of(text.as_str());
    let mut found = false;
    let mut i: usize = 0;
    while i < cs.len()
        invariant
            cs@ == text@,
            i <= cs@.len(),
            found == exists|k: int| 0 <= k < i && (alphabetic(cs@[k]) || is_ascii_digit(cs@[k])),
        decreases cs@.len() - i,
    {
        let c = cs[i];
        let hit = is_alphabetic(c) || ('0' <= c && c <= '9');
        if hit {
            assert(alphabetic(cs@[i as int]) || is_ascii_digit(cs@[i as int]));
        }
        found = found || hit;
        i += 1;
    }
    let s = text.as_str();
    assert(s@ == text@);
    confidence_from(s.len(), found)
}

} // verus!
