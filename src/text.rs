//! Character-level text helpers shared by the deduplication and correction logic.
use vstd::prelude::*;

verus! {

/// Unicode `White_Space`, the property that `char::is_whitespace` reports.
pub open spec fn spec_is_space(c: char) -> bool {
    let u = c as u32;
    (9 <= u && u <= 13) || u == 32 || u == 0x85 || u == 0xA0 || u == 0x1680 || (0x2000 <= u
        && u <= 0x200A) || u == 0x2028 || u == 0x2029 || u == 0x202F || u == 0x205F || u
        == 0x3000
}

pub fn is_space(c: char) -> (r: bool)
    ensures
        r == spec_is_space(c),
{
    let u = c as u32;
    (9 <= u && u <= 13) || u == 32 || u == 0x85 || u == 0xA0 || u == 0x1680 || (0x2000 <= u
        && u <= 0x200A) || u == 0x2028 || u == 0x2029 || u == 0x202F || u == 0x205F || u
        == 0x3000
}

/// The maximal runs of non-space characters of `s`, in order.
pub open spec fn words(s: Seq<char>) -> Seq<Seq<char>>
    decreases s.len(),
{
    if s.len() == 0 {
        Seq::empty()
    } else {
        let prev = words(s.drop_last());
        let c = s.last();
        if spec_is_space(c) {
            prev
        } else if s.len() >= 2 && !spec_is_space(s[s.len() - 2]) {
            prev.drop_last().push(prev.last().push(c))
        } else {
            prev.push(seq![c])
        }
    }
}

/// The views of a sequence of character vectors.
pub open spec fn views(v: Seq<Vec<char>>) -> Seq<Seq<char>> {
    Seq::new(v.len(), |i: int| v[i]@)
}

/// The words joined by single spaces.
pub open spec fn join(ws: Seq<Seq<char>>) -> Seq<char>
    decreases ws.len(),
{
    if ws.len() == 0 {
        Seq::empty()
    } else if ws.len() == 1 {
        ws[0]
    } else {
        join(ws.drop_last()) + seq![' '] + ws.last()
    }
}

/// The words of `ws` with later repetitions left out.
pub open spec fn distinct(ws: Seq<Seq<char>>) -> Seq<Seq<char>>
    decreases ws.len(),
{
    if ws.len() == 0 {
        ws
    } else {
        let p = distinct(ws.drop_last());
        if p.contains(ws.last()) {
            p
        } else {
            p.push(ws.last())
        }
    }
}

/// How many words of `a` occur in `b`.
pub open spec fn count_shared(a: Seq<Seq<char>>, b: Seq<Seq<char>>) -> nat
    decreases a.len(),
{
    if a.len() == 0 {
        0
    } else {
        count_shared(a.drop_last(), b) + if b.contains(a.last()) {
            1nat
        } else {
            0nat
        }
    }
}

/// Size of the intersection of the word sets of two texts.
pub open spec fn shared_words(a: Seq<char>, b: Seq<char>) -> nat {
    count_shared(distinct(words(a)), distinct(words(b)))
}

/// Size of the union of the word sets of two texts.
pub open spec fn union_words(a: Seq<char>, b: Seq<char>) -> int {
    distinct(words(a)).len() + distinct(words(b)).len() - shared_words(a, b)
}

/// Word-level Jaccard similarity of two texts is at least `num / den`.
/// Equal texts, and two texts without words, count as fully similar; a text
/// without words is not similar to one with words.
pub open spec fn similar_at_least(a: Seq<char>, b: Seq<char>, num: nat, den: nat) -> bool {
    if a == b {
        true
    } else if words(a).len() == 0 && words(b).len() == 0 {
        true
    } else if words(a).len() == 0 || words(b).len() == 0 {
        false
    } else {
        den * shared_words(a, b) >= num * union_words(a, b)
    }
}

proof fn lemma_count_shared_le(a: Seq<Seq<char>>, b: Seq<Seq<char>>)
    ensures
        count_shared(a, b) <= a.len(),
    decreases a.len(),
{
    if a.len() > 0 {
        lemma_count_shared_le(a.drop_last(), b);
    }
}

/// Relies on `str::chars`: the characters of the text, in order.
#[verifier::external_body]
pub(crate) fn chars_of(s: &str) -> (r: Vec<char>)
    ensures
        r@ == s@,
{
    s.chars().collect()
}

/// Relies on `String: FromIterator<char>`: the text made of these characters.
#[verifier::external_body]
pub(crate) fn string_of(v: &Vec<char>) -> (r: String)
    ensures
        r@ == v@,
{
    v.iter().collect()
}

pub fn chars_eq(a: &Vec<char>, b: &Vec<char>) -> (r: bool)
    ensures
        r == (a@ == b@),
{
    if a.len() != b.len() {
        return false;
    }
    let mut i: usize = 0;
    while i < a.len()
        invariant
            a@.len() == b@.len(),
            i <= a@.len(),
            forall|k: int| 0 <= k < i ==> a@[k] == b@[k],
        decreases a@.len() - i,
    {
        if a[i] != b[i] {
            return false;
        }
        i += 1;
    }
    assert(a@ =~= b@);
    true
}

pub fn copy_chars(a: &Vec<char>) -> (r: Vec<char>)
    ensures
        r@ == a@,
{
    let mut r: Vec<char> = Vec::new();
    let mut i: usize = 0;
    while i < a.len()
        invariant
            i <= a@.len(),
            r@ == a@.subrange(0, i as int),
        decreases a@.len() - i,
    {
        r.push(a[i]);
        i += 1;
        assert(r@ =~= a@.subrange(0, i as int));
    }
    assert(r@ =~= a@);
    r
}

/// Splits a text into its words.
pub fn split_words(s: &Vec<char>) -> (r: Vec<Vec<char>>)
    ensures
        views(r@) == words(s@),
{
    let mut ws: Vec<Vec<char>> = Vec::new();
    let mut cur: Vec<char> = Vec::new();
    let mut i: usize = 0;
    while i < s.len()
        invariant
            i <= s@.len(),
            cur@.len() == 0 ==> views(ws@) == words(s@.subrange(0, i as int)),
            cur@.len() > 0 ==> views(ws@).push(cur@) == words(s@.subrange(0, i as int)),
            cur@.len() > 0 <==> (i > 0 && !spec_is_space(s@[i - 1])),
        decreases s@.len() - i,
    {
        let c = s[i];
        let ghost pre = s@.subrange(0, i as int);
        let ghost nxt = s@.subrange(0, i + 1);
        assert(nxt.drop_last() =~= pre);
        if is_space(c) {
            if cur.len() > 0 {
                let ghost ws0 = ws@;
                let w = cur;
                ws.push(w);
                cur = Vec::new();
                assert(views(ws@) =~= views(ws0).push(w@));
            }
            assert(views(ws@) == words(nxt));
        } else {
            if cur.len() > 0 {
                assert(nxt.len() >= 2 && nxt[nxt.len() - 2] == s@[i - 1]);
                let ghost before = cur@;
                cur.push(c);
                assert(words(pre).drop_last() =~= views(ws@));
                assert(words(pre).last() == before);
            } else {
                cur.push(c);
                assert(cur@ =~= seq![c]);
            }
            assert(views(ws@).push(cur@) == words(nxt));
        }
        i += 1;
    }
    assert(s@.subrange(0, s@.len() as int) =~= s@);
    if cur.len() > 0 {
        let ghost w = cur@;
        let ghost ws0 = ws@;
        ws.push(cur);
        assert(views(ws@) =~= views(ws0).push(w));
    }
    ws
}


pub fn contains_word(ws: &Vec<Vec<char>>, w: &Vec<char>) -> (r: bool)
    ensures
        r == views(ws@).contains(w@),
{
    let mut i: usize = 0;
    while i < ws.len()
        invariant
            i <= ws@.len(),
            forall|k: int| 0 <= k < i ==> views(ws@)[k] != w@,
        decreases ws@.len() - i,
    {
        if chars_eq(&ws[i], w) {
            assert(views(ws@)[i as int] == w@);
            return true;
        }
        i += 1;
    }
    false
}

/// The words with later repetitions left out.
pub fn distinct_words(ws: &Vec<Vec<char>>) -> (r: Vec<Vec<char>>)
    ensures
        views(r@) == distinct(views(ws@)),
{
    let mut r: Vec<Vec<char>> = Vec::new();
    let mut i: usize = 0;
    while i < ws.len()
        invariant
            i <= ws@.len(),
            views(r@) == distinct(views(ws@).subrange(0, i as int)),
        decreases ws@.len() - i,
    {
        let ghost pre = views(ws@).subrange(0, i as int);
        let ghost nxt = views(ws@).subrange(0, i + 1);
        assert(nxt.drop_last() =~= pre);
        assert(nxt.last() == ws@[i as int]@);
        if !contains_word(&r, &ws[i]) {
            let ghost r0 = r@;
            r.push(copy_chars(&ws[i]));
            assert(views(r@) =~= views(r0).push(ws@[i as int]@));
        }
        i += 1;
    }
    assert(views(ws@).subrange(0, ws@.len() as int) =~= views(ws@));
    r
}

/// How many words of `a` occur in `b`.
pub fn shared_count(a: &Vec<Vec<char>>, b: &Vec<Vec<char>>) -> (r: usize)
    ensures
        r == count_shared(views(a@), views(b@)),
{
    let mut n: usize = 0;
    let mut i: usize = 0;
    while i < a.len()
        invariant
            i <= a@.len(),
            n == count_shared(views(a@).subrange(0, i as int), views(b@)),
            n <= i,
        decreases a@.len() - i,
    {
        let ghost nxt = views(a@).subrange(0, i + 1);
        assert(nxt.drop_last() =~= views(a@).subrange(0, i as int));
        if contains_word(b, &a[i]) {
            n += 1;
        }
        i += 1;
    }
    assert(views(a@).subrange(0, a@.len() as int) =~= views(a@));
    n
}

/// Whether the word-level Jaccard similarity of two texts is at least `num / den`.
pub fn is_similar(a: &Vec<char>, b: &Vec<char>, num: u64, den: u64) -> (r: bool)
    requires
        num <= 1000,
        den <= 1000,
    ensures
        r == similar_at_least(a@, b@, num as nat, den as nat),
{
    if chars_eq(a, b) {
        return true;
    }
    let wa = split_words(a);
    let wb = split_words(b);
    if wa.len() == 0 && wb.len() == 0 {
        return true;
    }
    if wa.len() == 0 || wb.len() == 0 {
        return false;
    }
    let da = distinct_words(&wa);
    let db = distinct_words(&wb);
    let shared = shared_count(&da, &db);
    proof {
        lemma_count_shared_le(views(da@), views(db@));
    }
    let total: u128 = (da.len() as u128 - shared as u128) + db.len() as u128;
    let sh: u128 = shared as u128;
    let dn: u128 = den as u128;
    let nm: u128 = num as u128;
    assert(dn * sh <= 1000 * 0x1_0000_0000_0000_0000) by (nonlinear_arith)
        requires dn <= 1000, sh <= 0xffff_ffff_ffff_ffff;
    assert(nm * total <= 1000 * 0x2_0000_0000_0000_0000) by (nonlinear_arith)
        requires nm <= 1000, total <= 0x1_ffff_ffff_ffff_fffe;
    dn * sh >= nm * total
}

/// Joins words with single spaces.
pub fn join_words(ws: &Vec<Vec<char>>) -> (r: Vec<char>)
    ensures
        r@ == join(views(ws@)),
{
    let mut r: Vec<char> = Vec::new();
    let mut i: usize = 0;
    while i < ws.len()
        invariant
            i <= ws@.len(),
            r@ == join(views(ws@).subrange(0, i as int)),
        decreases ws@.len() - i,
    {
        let ghost nxt = views(ws@).subrange(0, i + 1);
        assert(nxt.drop_last() =~= views(ws@).subrange(0, i as int));
        let ghost r0 = r@;
        if i > 0 {
            r.push(' ');
        }
        let w = &ws[i];
        let mut j: usize = 0;
        while j < w.len()
            invariant
                j <= w@.len(),
                i > 0 ==> r@ == r0 + seq![' '] + w@.subrange(0, j as int),
                i == 0 ==> r@ == r0 + w@.subrange(0, j as int),
            decreases w@.len() - j,
        {
            r.push(w[j]);
            j += 1;
            assert(w@.subrange(0, j as int) =~= w@.subrange(0, j - 1).push(w@[j - 1]));
        }
        assert(w@.subrange(0, w@.len() as int) =~= w@);
        if i == 0 {
            assert(r0.len() == 0);
            assert(r@ =~= nxt[0]);
        }
        i += 1;
    }
    assert(views(ws@).subrange(0, ws@.len() as int) =~= views(ws@));
    r
}


pub open spec fn digit_char(d: nat) -> char {
    seq!['0', '1', '2', '3', '4', '5', '6', '7', '8', '9'][d as int]
}

/// Decimal notation of a natural number, without leading zeros.
pub open spec fn decimal(n: nat) -> Seq<char>
    decreases n,
{
    if n < 10 {
        seq![digit_char(n)]
    } else {
        decimal(n / 10).push(digit_char(n % 10))
    }
}

fn digit_of(d: u64) -> (c: char)
    requires
        d < 10,
    ensures
        c == digit_char(d as nat),
{
    let ds = vec!['0', '1', '2', '3', '4', '5', '6', '7', '8', '9'];
    assert(ds@ =~= seq!['0', '1', '2', '3', '4', '5', '6', '7', '8', '9']);
    ds[d as usize]
}

/// Decimal digits of `n`.
pub fn decimal_chars(n: u64) -> (r: Vec<char>)
    ensures
        r@ == decimal(n as nat),
{
    let mut acc: Vec<char> = Vec::new();
    let mut m: u64 = n;
    loop
        invariant
            decimal(n as nat) == decimal(m as nat) + acc@,
        decreases m,
    {
        let d = digit_of(m % 10);
        let ghost a0 = acc@;
        acc.insert(0, d);
        assert(acc@ =~= seq![d] + a0);
        if m < 10 {
            assert(decimal(m as nat) =~= seq![d]);
            assert(decimal(n as nat) =~= acc@);
            return acc;
        }
        assert(decimal(m as nat) == decimal((m / 10) as nat).push(d));
        assert(decimal(m as nat) + a0 =~= decimal((m / 10) as nat) + acc@);
        m = m / 10;
    }
}

/// Appends the characters of `b` to `a`.
pub fn append_chars(a: &mut Vec<char>, b: &Vec<char>)
    ensures
        final(a)@ == old(a)@ + b@,
{
    let mut i: usize = 0;
    while i < b.len()
        invariant
            i <= b@.len(),
            a@ == old(a)@ + b@.subrange(0, i as int),
        decreases b@.len() - i,
    {
        a.push(b[i]);
        i += 1;
        assert(a@ =~= old(a)@ + b@.subrange(0, i as int));
    }
    assert(b@.subrange(0, b@.len() as int) =~= b@);
}


/// Leftmost, non-overlapping replacement of every occurrence of `pat` by `rep`.
pub open spec fn replaced(s: Seq<char>, pat: Seq<char>, rep: Seq<char>) -> Seq<char>
    decreases s.len(),
{
    if pat.len() == 0 || s.len() == 0 {
        s
    } else if s.len() >= pat.len() && s.subrange(0, pat.len() as int) == pat {
        rep + replaced(s.subrange(pat.len() as int, s.len() as int), pat, rep)
    } else {
        seq![s[0]] + replaced(s.drop_first(), pat, rep)
    }
}

fn starts_at(s: &Vec<char>, i: usize, pat: &Vec<char>) -> (r: bool)
    requires
        i <= s@.len(),
    ensures
        r == (s@.len() - i >= pat@.len() && s@.subrange(i as int, i + pat@.len()) == pat@),
{
    if s.len() - i < pat.len() {
        return false;
    }
    let mut k: usize = 0;
    while k < pat.len()
        invariant
            i + pat@.len() <= s@.len(),
            s@.len() <= usize::MAX,
            k <= pat@.len(),
            forall|j: int| 0 <= j < k ==> s@[i + j] == pat@[j],
        decreases pat@.len() - k,
    {
        if s[i + k] != pat[k] {
            assert(s@.subrange(i as int, i + pat@.len())[k as int] != pat@[k as int]);
            return false;
        }
        k += 1;
    }
    assert(s@.subrange(i as int, i + pat@.len()) =~= pat@);
    true
}

/// Replaces every occurrence of a non-empty pattern, scanning left to right.
pub fn replace_all(s: &Vec<char>, pat: &Vec<char>, rep: &Vec<char>) -> (r: Vec<char>)
    requires
        pat@.len() > 0,
    ensures
        r@ == replaced(s@, pat@, rep@),
{
    let mut out: Vec<char> = Vec::new();
    let mut i: usize = 0;
    assert(s@.subrange(0, s@.len() as int) =~= s@);
    assert(out@ + replaced(s@, pat@, rep@) =~= replaced(s@, pat@, rep@));
    while i < s.len()
        invariant
            pat@.len() > 0,
            i <= s@.len(),
            replaced(s@, pat@, rep@) == out@ + replaced(s@.subrange(i as int, s@.len() as int), pat@, rep@),
        decreases s@.len() - i,
    {
        let ghost rest = s@.subrange(i as int, s@.len() as int);
        let ghost o0 = out@;
        if starts_at(s, i, pat) {
            assert(rest.subrange(0, pat@.len() as int) =~= s@.subrange(i as int, i + pat@.len()));
            assert(rest.subrange(pat@.len() as int, rest.len() as int) =~= s@.subrange(i + pat@.len(), s@.len() as int));
            append_chars(&mut out, rep);
            i = i + pat.len();
            assert(o0 + (rep@ + replaced(s@.subrange(i as int, s@.len() as int), pat@, rep@)) =~= out@ + replaced(s@.subrange(i as int, s@.len() as int), pat@, rep@));
        } else {
            assert(rest.len() >= pat@.len() ==> rest.subrange(0, pat@.len() as int) =~= s@.subrange(i as int, i + pat@.len()));
            assert(rest.drop_first() =~= s@.subrange(i + 1, s@.len() as int));
            out.push(s[i]);
            i = i + 1;
            assert(o0 + (seq![s@[i - 1]] + replaced(s@.subrange(i as int, s@.len() as int), pat@, rep@)) =~= out@ + replaced(s@.subrange(i as int, s@.len() as int), pat@, rep@));
        }
    }
    assert(s@.subrange(s@.len() as int, s@.len() as int) =~= Seq::<char>::empty());
    assert(out@ + Seq::<char>::empty() =~= out@);
    out
}


/// Bytes that UTF-8 takes for one character.
pub open spec fn char_utf8_len(c: char) -> nat {
    let u = c as u32;
    if u < 0x80 {
        1
    } else if u < 0x800 {
        2
    } else if u < 0x10000 {
        3
    } else {
        4
    }
}

/// Bytes that UTF-8 takes for the text.
pub open spec fn utf8_len(w: Seq<char>) -> nat
    decreases w.len(),
{
    if w.len() == 0 {
        0
    } else {
        utf8_len(w.drop_last()) + char_utf8_len(w.last())
    }
}

/// Length of the text in UTF-8 bytes.
pub fn utf8_len_of(w: &Vec<char>) -> (r: u128)
    ensures
        r == utf8_len(w@),
{
    let mut n: u128 = 0;
    let mut i: usize = 0;
    while i < w.len()
        invariant
            i <= w@.len(),
            n == utf8_len(w@.subrange(0, i as int)),
            n <= 4 * i,
        decreases w@.len() - i,
    {
        let ghost nxt = w@.subrange(0, i + 1);
        assert(nxt.drop_last() =~= w@.subrange(0, i as int));
        let u = w[i] as u32;
        let b: u128 = if u < 0x80 {
            1
        } else if u < 0x800 {
            2
        } else if u < 0x10000 {
            3
        } else {
            4
        };
        n = n + b;
        i += 1;
    }
    assert(w@.subrange(0, w@.len() as int) =~= w@);
    n
}

} // verus!
