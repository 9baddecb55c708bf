//! Speaker assignment by nearest voice profile, with online profile adaptation.
//! Frequencies are in hertz, scores in thousandths.
use vstd::prelude::*;
use crate::text::{append_chars, decimal, decimal_chars, string_of};
use vstd::arithmetic::div_mod::{
    lemma_div_is_ordered, lemma_div_is_ordered_by_denominator, lemma_fundamental_div_mod,
    lemma_mod_pos_bound,
};

verus! {

pub const FORMANT_COUNT: usize = 3;

pub const CEPSTRUM_BANDS: usize = 12;

/// Voice features of one segment. Cepstral energies are in thousandths.
#[derive(Debug, Clone)]
pub struct VoiceFeatures {
    pub fundamental_freq: u32,
    pub formant_frequencies: Vec<u32>,
    pub spectral_centroid: u32,
    pub spectral_bandwidth: u32,
    /// Thousandths.
    pub zero_crossing_rate: u32,
    pub energy: u64,
    pub cepstrum: Vec<i32>,
}

impl VoiceFeatures {
    /// Three formants and twelve cepstral bands.
    pub open spec fn wf(&self) -> bool {
        self.formant_frequencies@.len() == FORMANT_COUNT && self.cepstrum@.len() == CEPSTRUM_BANDS
    }
}

#[derive(Debug, Clone)]
pub struct SpeakerProfile {
    pub id: String,
    pub name: String,
    pub fundamental_freq: u32,
    pub formant_frequencies: Vec<u32>,
    pub spectral_centroid: u32,
    pub cepstrum: Vec<i32>,
    /// Thousandths.
    pub confidence: u32,
    pub sample_count: u32,
}

pub ghost struct ProfileView {
    pub id: Seq<char>,
    pub name: Seq<char>,
    pub f0: u32,
    pub formants: Seq<u32>,
    pub centroid: u32,
    pub cepstrum: Seq<i32>,
    pub confidence: u32,
    pub sample_count: u32,
}

impl View for SpeakerProfile {
    type V = ProfileView;

    open spec fn view(&self) -> ProfileView {
        ProfileView {
            id: self.id@,
            name: self.name@,
            f0: self.fundamental_freq,
            formants: self.formant_frequencies@,
            centroid: self.spectral_centroid,
            cepstrum: self.cepstrum@,
            confidence: self.confidence,
            sample_count: self.sample_count,
        }
    }
}

pub open spec fn profile_views(v: Seq<SpeakerProfile>) -> Seq<ProfileView> {
    Seq::new(v.len(), |i: int| v[i]@)
}

pub open spec fn profile_ok(p: ProfileView) -> bool {
    p.formants.len() == FORMANT_COUNT && p.cepstrum.len() == CEPSTRUM_BANDS
}

/// The `i`-th profile: well-shaped, with the label and id of its position.
pub open spec fn profile_at(p: ProfileView, i: int) -> bool {
    profile_ok(p) && p.name == label_for(i as nat) && p.id == id_for(i as nat)
}

pub open spec fn udist(a: int, b: int) -> nat {
    if a >= b {
        (a - b) as nat
    } else {
        (b - a) as nat
    }
}

/// `1 - min(1, 2|a - b| / (a + b))`, in thousandths; equal zeros are fully close.
pub open spec fn closeness(a: nat, b: nat) -> nat {
    if a + b == 0 {
        1000
    } else {
        let r = 2000 * udist(a as int, b as int) / (a + b);
        if r >= 1000 {
            0
        } else {
            (1000 - r) as nat
        }
    }
}

pub open spec fn formant_total(f: Seq<u32>, p: Seq<u32>, n: nat) -> nat
    decreases n,
{
    if n == 0 {
        0
    } else {
        formant_total(f, p, (n - 1) as nat) + closeness(f[n - 1] as nat, p[n - 1] as nat)
    }
}

pub open spec fn cepstral_distance(f: Seq<i32>, p: Seq<i32>, n: nat) -> nat
    decreases n,
{
    if n == 0 {
        0
    } else {
        cepstral_distance(f, p, (n - 1) as nat) + udist(f[n - 1] as int, p[n - 1] as int)
    }
}

/// Weighted similarity: fundamental frequency 0.3, spectral centroid 0.2,
/// formants 0.3 (mean closeness), cepstrum 0.2 (`1000 / (1000 + L1 distance)`).
pub open spec fn similarity(f: VoiceFeatures, p: ProfileView) -> nat {
    let c0 = closeness(f.fundamental_freq as nat, p.f0 as nat);
    let cc = closeness(f.spectral_centroid as nat, p.centroid as nat);
    let cf = formant_total(f.formant_frequencies@, p.formants, 3) / 3;
    let cd = 1_000_000nat / (1000 + cepstral_distance(f.cepstrum@, p.cepstrum, 12));
    (3 * c0 + 2 * cc + 3 * cf + 2 * cd) / 10
}

/// Exponential moving average with rate 0.1, rounded toward the old value.
pub open spec fn ema(p: int, f: int) -> int {
    if p >= f {
        p - (p - f) / 10
    } else {
        p + (f - p) / 10
    }
}

/// The moving average for a measured value; a feature of zero was not
/// measured and leaves the profile value as it is.
pub open spec fn ema_kept(p: int, f: int) -> int {
    if f == 0 {
        p
    } else {
        ema(p, f)
    }
}

pub open spec fn ema_u32s(p: Seq<u32>, f: Seq<u32>) -> Seq<u32> {
    Seq::new(p.len(), |i: int| ema_kept(p[i] as int, f[i] as int) as u32)
}

pub open spec fn ema_i32s(p: Seq<i32>, f: Seq<i32>) -> Seq<i32> {
    Seq::new(p.len(), |i: int| ema(p[i] as int, f[i] as int) as i32)
}

/// A matched profile moved toward the features. Frequencies of zero leave the
/// profile's value; cepstral energies are signed logarithms, where zero is an
/// ordinary value, so they always move.
pub open spec fn adapted(p: ProfileView, f: VoiceFeatures) -> ProfileView {
    ProfileView {
        f0: ema_kept(p.f0 as int, f.fundamental_freq as int) as u32,
        centroid: ema_kept(p.centroid as int, f.spectral_centroid as int) as u32,
        formants: ema_u32s(p.formants, f.formant_frequencies@),
        cepstrum: ema_i32s(p.cepstrum, f.cepstrum@),
        sample_count: if p.sample_count < u32::MAX {
            (p.sample_count + 1) as u32
        } else {
            p.sample_count
        },
        confidence: if p.confidence * 9 / 10 + 100 > 1000 {
            1000
        } else {
            (p.confidence * 9 / 10 + 100) as u32
        },
        ..p
    }
}

/// Display name of the `k`-th profile (from zero): `Speaker <k + 1>`.
pub open spec fn label_for(k: nat) -> Seq<char> {
    seq!['S', 'p', 'e', 'a', 'k', 'e', 'r', ' '] + decimal(k + 1)
}

/// Id of the `k`-th profile (from zero): `Speaker_<k + 1>`.
pub open spec fn id_for(k: nat) -> Seq<char> {
    seq!['S', 'p', 'e', 'a', 'k', 'e', 'r', '_'] + decimal(k + 1)
}

pub open spec fn fresh_profile(f: VoiceFeatures, k: nat) -> ProfileView {
    ProfileView {
        id: id_for(k),
        name: label_for(k),
        f0: f.fundamental_freq,
        formants: f.formant_frequencies@,
        centroid: f.spectral_centroid,
        cepstrum: f.cepstrum@,
        confidence: 1000,
        sample_count: 1,
    }
}

/// The first profile with the highest positive similarity among the first `n`,
/// with that similarity; `(-1, 0)` when none is positive.
pub open spec fn best_match(ps: Seq<ProfileView>, f: VoiceFeatures, n: nat) -> (int, nat)
    decreases n,
{
    if n == 0 {
        (-1, 0)
    } else {
        let b = best_match(ps, f, (n - 1) as nat);
        let s = similarity(f, ps[n - 1]);
        if s > b.1 {
            (n - 1, s)
        } else {
            b
        }
    }
}

/// Profiles after assigning `f`: the best match adapts when its similarity is
/// above 700, otherwise a new profile joins.
pub open spec fn assign(ps: Seq<ProfileView>, f: VoiceFeatures) -> Seq<ProfileView> {
    let b = best_match(ps, f, ps.len());
    if b.1 > 700 {
        ps.update(b.0, adapted(ps[b.0], f))
    } else {
        ps.push(fresh_profile(f, ps.len()))
    }
}

/// Index of the profile that `f` is assigned to.
pub open spec fn assigned_index(ps: Seq<ProfileView>, f: VoiceFeatures) -> int {
    let b = best_match(ps, f, ps.len());
    if b.1 > 700 {
        b.0
    } else {
        ps.len() as int
    }
}

pub proof fn lemma_best_match(ps: Seq<ProfileView>, f: VoiceFeatures, n: nat)
    requires
        n <= ps.len(),
    ensures
        best_match(ps, f, n).1 > 0 ==> 0 <= best_match(ps, f, n).0 < n && similarity(
            f,
            ps[best_match(ps, f, n).0],
        ) == best_match(ps, f, n).1,
        forall|i: int| 0 <= i < n ==> similarity(f, ps[i]) <= best_match(ps, f, n).1,
        best_match(ps, f, n).1 > 0 ==> forall|i: int|
            0 <= i < best_match(ps, f, n).0 ==> similarity(f, ps[i]) < best_match(ps, f, n).1,
    decreases n,
{
    if n > 0 {
        lemma_best_match(ps, f, (n - 1) as nat);
    }
}

/// The best match is the first profile that reaches the highest positive similarity.
pub proof fn lemma_best_match_is(ps: Seq<ProfileView>, f: VoiceFeatures, n: nat, k: int)
    requires
        n <= ps.len(),
        0 <= k < n,
        similarity(f, ps[k]) > 0,
        forall|j: int| 0 <= j < k ==> similarity(f, ps[j]) < similarity(f, ps[k]),
        forall|j: int| 0 <= j < n ==> similarity(f, ps[j]) <= similarity(f, ps[k]),
    ensures
        best_match(ps, f, n) == (k, similarity(f, ps[k])),
    decreases n,
{
    if n - 1 == k {
        lemma_best_match(ps, f, (n - 1) as nat);
        let b = best_match(ps, f, (n - 1) as nat);
        if b.1 > 0 {
            assert(similarity(f, ps[b.0]) < similarity(f, ps[k]));
        }
    } else {
        lemma_best_match_is(ps, f, (n - 1) as nat, k);
    }
}


proof fn lemma_decimal_len(n: nat)
    ensures
        decimal(n).len() >= 1,
        n >= 10 ==> decimal(n).len() >= 2,
    decreases n,
{
    if n >= 10 {
        lemma_decimal_len(n / 10);
    }
}

/// Distinct numbers have distinct decimal notations.
pub proof fn lemma_decimal_injective(a: nat, b: nat)
    requires
        decimal(a) == decimal(b),
    ensures
        a == b,
    decreases a + b,
{
    let digits = seq!['0', '1', '2', '3', '4', '5', '6', '7', '8', '9'];
    lemma_decimal_len(a);
    lemma_decimal_len(b);
    if a < 10 && b < 10 {
        assert(decimal(a)[0] == digits[a as int]);
        assert(decimal(b)[0] == digits[b as int]);
    } else if a >= 10 && b >= 10 {
        lemma_decimal_len(a / 10);
        lemma_decimal_len(b / 10);
        assert(decimal(a).drop_last() =~= decimal(a / 10));
        assert(decimal(b).drop_last() =~= decimal(b / 10));
        lemma_decimal_injective(a / 10, b / 10);
        assert(decimal(a).last() == digits[(a % 10) as int]);
        assert(decimal(b).last() == digits[(b % 10) as int]);
    } else if a < 10 {
        assert(decimal(a).len() == 1);
    } else {
        assert(decimal(b).len() == 1);
    }
}

/// Profiles at different positions have different labels and ids.
pub proof fn lemma_labels_distinct(j: nat, k: nat)
    requires
        j != k,
    ensures
        label_for(j) != label_for(k),
        id_for(j) != id_for(k),
{
    let pre = seq!['S', 'p', 'e', 'a', 'k', 'e', 'r', ' '];
    let ipre = seq!['S', 'p', 'e', 'a', 'k', 'e', 'r', '_'];
    if label_for(j) == label_for(k) {
        assert(label_for(j).subrange(8, label_for(j).len() as int) =~= decimal(j + 1));
        assert(label_for(k).subrange(8, label_for(k).len() as int) =~= decimal(k + 1));
        lemma_decimal_injective(j + 1, k + 1);
    }
    if id_for(j) == id_for(k) {
        assert(id_for(j).subrange(8, id_for(j).len() as int) =~= decimal(j + 1));
        assert(id_for(k).subrange(8, id_for(k).len() as int) =~= decimal(k + 1));
        lemma_decimal_injective(j + 1, k + 1);
    }
}

proof fn lemma_div_bounds(x: int, d: int)
    requires
        x >= 0,
        d > 0,
    ensures
        (x / d) * d <= x < (x / d + 1) * d,
        x / d >= 0,
{
    lemma_fundamental_div_mod(x, d);
    lemma_mod_pos_bound(x, d);
    assert((x / d) * d == d * (x / d)) by (nonlinear_arith);
    assert((x / d + 1) * d == (x / d) * d + d) by (nonlinear_arith);
    assert(x / d >= 0) by (nonlinear_arith)
        requires
            x == d * (x / d) + (x % d),
            0 <= x % d < d,
            d > 0,
            x >= 0,
    ;
}

/// `x / s2 <= y / s1` as real numbers gives the same order after scaling and flooring.
proof fn lemma_scaled_floor_mono(x: int, y: int, s1: int, s2: int)
    requires
        x >= 0,
        y >= 0,
        s1 > 0,
        s2 > 0,
        x * s1 <= y * s2,
    ensures
        (2000 * x) / s2 <= (2000 * y) / s1,
{
    let a = (2000 * x) / s2;
    let b = (2000 * y) / s1;
    lemma_div_bounds(2000 * x, s2);
    lemma_div_bounds(2000 * y, s1);
    assert(a * s2 * s1 <= 2000 * x * s1) by (nonlinear_arith)
        requires
            a * s2 <= 2000 * x,
            s1 > 0,
    ;
    assert(2000 * x * s1 <= 2000 * y * s2) by (nonlinear_arith)
        requires
            x * s1 <= y * s2,
    ;
    assert(a * s1 <= 2000 * y) by (nonlinear_arith)
        requires
            a * s2 * s1 <= 2000 * y * s2,
            s2 > 0,
    ;
    assert(a <= b) by (nonlinear_arith)
        requires
            a * s1 <= 2000 * y,
            2000 * y < (b + 1) * s1,
            s1 > 0,
    ;
}

proof fn lemma_closeness_le(a: nat, b: nat)
    ensures
        closeness(a, b) <= 1000,
{
}

proof fn lemma_closeness_self(a: nat)
    ensures
        closeness(a, a) == 1000,
{
    if a + a > 0 {
        assert(udist(a as int, a as int) == 0);
        assert(2000 * 0nat / (a + a) == 0) by (nonlinear_arith)
            requires
                a + a > 0,
        ;
    }
}

/// Moving `b` toward `a` never lowers their closeness.
proof fn lemma_closeness_mono(a: nat, b: nat)
    ensures
        0 <= ema(b as int, a as int),
        ema(b as int, a as int) <= if a >= b { a } else { b },
        udist(a as int, ema(b as int, a as int)) <= udist(a as int, b as int),
        closeness(a, ema(b as int, a as int) as nat) >= closeness(a, b),
{
    let d = udist(a as int, b as int) as int;
    let q = d / 10;
    lemma_div_bounds(d, 10);
    let b2 = ema(b as int, a as int);
    assert(0 <= q <= d);
    let d2 = udist(a as int, b2);
    assert(d2 == d - q);
    let s = a + b;
    let s2 = a + b2;
    lemma_closeness_le(a, b);
    if s2 > 0 {
        assert(s > 0);
        if b >= a {
            assert(d == b - a);
            assert(s2 == s - q);
            assert((d - q) * s <= d * (s - q)) by (nonlinear_arith)
                requires
                    0 <= q <= d,
                    d <= s,
            ;
        } else {
            assert(s2 == s + q);
            assert((d - q) * s <= d * (s + q)) by (nonlinear_arith)
                requires
                    0 <= q <= d,
                    s >= 0,
            ;
        }
        lemma_scaled_floor_mono(d2 as int, d, s as int, s2 as int);
    }
}

proof fn lemma_closeness_kept(a: nat, b: nat)
    ensures
        0 <= ema_kept(b as int, a as int),
        ema_kept(b as int, a as int) <= if a >= b { a } else { b },
        closeness(a, ema_kept(b as int, a as int) as nat) >= closeness(a, b),
{
    if a != 0 {
        lemma_closeness_mono(a, b);
    }
}

proof fn lemma_formant_total_mono(f: Seq<u32>, p: Seq<u32>, n: nat)
    requires
        n <= p.len(),
    ensures
        formant_total(f, ema_u32s(p, f), n) >= formant_total(f, p, n),
    decreases n,
{
    if n > 0 {
        lemma_formant_total_mono(f, p, (n - 1) as nat);
        let i = n - 1;
        lemma_closeness_kept(f[i] as nat, p[i] as nat);
        assert(ema_u32s(p, f)[i] as int == ema_kept(p[i] as int, f[i] as int));
    }
}

proof fn lemma_formant_total_self(f: Seq<u32>, n: nat)
    ensures
        formant_total(f, f, n) == 1000 * n,
    decreases n,
{
    if n > 0 {
        lemma_formant_total_self(f, (n - 1) as nat);
        lemma_closeness_self(f[n - 1] as nat);
    }
}

proof fn lemma_ema_i32(p: int, f: int)
    requires
        -0x8000_0000 <= p <= 0x7fff_ffff,
        -0x8000_0000 <= f <= 0x7fff_ffff,
    ensures
        -0x8000_0000 <= ema(p, f) <= 0x7fff_ffff,
        udist(f, ema(p, f)) <= udist(f, p),
{
    if p >= f {
        lemma_div_bounds(p - f, 10);
    } else {
        lemma_div_bounds(f - p, 10);
    }
}

proof fn lemma_cepstral_mono(f: Seq<i32>, p: Seq<i32>, n: nat)
    requires
        n <= p.len(),
    ensures
        cepstral_distance(f, ema_i32s(p, f), n) <= cepstral_distance(f, p, n),
    decreases n,
{
    if n > 0 {
        lemma_cepstral_mono(f, p, (n - 1) as nat);
        let i = n - 1;
        lemma_ema_i32(p[i] as int, f[i] as int);
        assert(ema_i32s(p, f)[i] as int == ema(p[i] as int, f[i] as int));
    }
}

proof fn lemma_cepstral_self(f: Seq<i32>, n: nat)
    ensures
        cepstral_distance(f, f, n) == 0,
    decreases n,
{
    if n > 0 {
        lemma_cepstral_self(f, (n - 1) as nat);
    }
}

/// A profile made from the features matches them fully.
pub proof fn lemma_fresh_similarity(f: VoiceFeatures, k: nat)
    ensures
        similarity(f, fresh_profile(f, k)) == 1000,
{
    lemma_closeness_self(f.fundamental_freq as nat);
    lemma_closeness_self(f.spectral_centroid as nat);
    lemma_formant_total_self(f.formant_frequencies@, 3);
    lemma_cepstral_self(f.cepstrum@, 12);
    let q = fresh_profile(f, k);
    assert(formant_total(f.formant_frequencies@, q.formants, 3) / 3 == 1000);
    assert(cepstral_distance(f.cepstrum@, q.cepstrum, 12) == 0);
    assert(1_000_000nat / 1000nat == 1000) by (nonlinear_arith);
}

/// Adapting a profile toward the features never lowers their similarity.
pub proof fn lemma_adapted_similarity(f: VoiceFeatures, p: ProfileView)
    requires
        f.wf(),
        profile_ok(p),
    ensures
        similarity(f, adapted(p, f)) >= similarity(f, p),
{
    let q = adapted(p, f);
    lemma_closeness_kept(f.fundamental_freq as nat, p.f0 as nat);
    lemma_closeness_kept(f.spectral_centroid as nat, p.centroid as nat);
    lemma_formant_total_mono(f.formant_frequencies@, p.formants, 3);
    lemma_cepstral_mono(f.cepstrum@, p.cepstrum, 12);
    let ft = formant_total(f.formant_frequencies@, p.formants, 3);
    let ft2 = formant_total(f.formant_frequencies@, q.formants, 3);
    lemma_div_is_ordered(ft as int, ft2 as int, 3);
    let cd = cepstral_distance(f.cepstrum@, p.cepstrum, 12);
    let cd2 = cepstral_distance(f.cepstrum@, q.cepstrum, 12);
    lemma_div_is_ordered_by_denominator(1_000_000, (1000 + cd2) as int, (1000 + cd) as int);
    let c0 = closeness(f.fundamental_freq as nat, p.f0 as nat);
    let c02 = closeness(f.fundamental_freq as nat, q.f0 as nat);
    let cc = closeness(f.spectral_centroid as nat, p.centroid as nat);
    let cc2 = closeness(f.spectral_centroid as nat, q.centroid as nat);
    let w = 3 * c0 + 2 * cc + 3 * (ft / 3) + 2 * (1_000_000nat / (1000 + cd));
    let w2 = 3 * c02 + 2 * cc2 + 3 * (ft2 / 3) + 2 * (1_000_000nat / (1000 + cd2));
    assert(w <= w2);
    lemma_div_is_ordered(w as int, w2 as int, 10);
}

/// Feeding the same features twice in succession never creates a second
/// profile: the second assignment goes to the profile of the first, under the
/// same label.
pub proof fn lemma_speaker_stability(ps: Seq<ProfileView>, f: VoiceFeatures)
    requires
        f.wf(),
        forall|i: int| 0 <= i < ps.len() ==> profile_ok(#[trigger] ps[i]),
    ensures
        assign(assign(ps, f), f).len() == assign(ps, f).len(),
        assigned_index(assign(ps, f), f) == assigned_index(ps, f),
        assign(assign(ps, f), f)[assigned_index(ps, f)].name == assign(ps, f)[assigned_index(ps, f)].name,
{
    let ps1 = assign(ps, f);
    let k = assigned_index(ps, f);
    lemma_best_match(ps, f, ps.len());
    let b = best_match(ps, f, ps.len());
    if b.1 > 700 {
        lemma_adapted_similarity(f, ps[b.0]);
        assert(ps1[k] == adapted(ps[b.0], f));
        assert forall|j: int| 0 <= j < ps1.len() && j != k implies ps1[j] == ps[j] by {}
    } else {
        lemma_fresh_similarity(f, ps.len());
        assert(ps1[k] == fresh_profile(f, ps.len()));
        assert forall|j: int| 0 <= j < ps.len() implies ps1[j] == ps[j] by {}
    }
    assert(similarity(f, ps1[k]) > 700);
    assert forall|j: int| 0 <= j < k implies similarity(f, ps1[j]) < similarity(f, ps1[k]) by {
        assert(ps1[j] == ps[j]);
    }
    assert forall|j: int| 0 <= j < ps1.len() implies similarity(f, ps1[j]) <= similarity(f, ps1[k]) by {
        if j != k {
            assert(ps1[j] == ps[j]);
        }
    }
    lemma_best_match_is(ps1, f, ps1.len(), k);
    lemma_best_match(ps1, f, ps1.len());
}


fn closeness_of(a: u32, b: u32) -> (r: u64)
    ensures
        r == closeness(a as nat, b as nat),
{
    let s = a as u64 + b as u64;
    if s == 0 {
        return 1000;
    }
    let d = if a >= b {
        (a - b) as u64
    } else {
        (b - a) as u64
    };
    let r = 2000 * d / s;
    if r >= 1000 {
        0
    } else {
        1000 - r
    }
}

fn ema_u32(p: u32, f: u32) -> (r: u32)
    ensures
        r == ema_kept(p as int, f as int),
{
    if f == 0 {
        p
    } else if p >= f {
        p - (p - f) / 10
    } else {
        p + (f - p) / 10
    }
}

fn ema_i32(p: i32, f: i32) -> (r: i32)
    ensures
        r == ema(p as int, f as int),
{
    proof {
        lemma_ema_i32(p as int, f as int);
    }
    let pp = p as i64;
    let ff = f as i64;
    let r = if pp >= ff {
        pp - (pp - ff) / 10
    } else {
        pp + (ff - pp) / 10
    };
    r as i32
}

/// Similarity of the features to a profile, in thousandths.
pub fn similarity_of(f: &VoiceFeatures, p: &SpeakerProfile) -> (r: u64)
    requires
        f.wf(),
        profile_ok(p@),
    ensures
        r == similarity(*f, p@),
{
    let c0 = closeness_of(f.fundamental_freq, p.fundamental_freq);
    let cc = closeness_of(f.spectral_centroid, p.spectral_centroid);
    let mut ft: u64 = 0;
    let mut i: usize = 0;
    while i < 3
        invariant
            f.wf(),
            profile_ok(p@),
            i <= 3,
            ft == formant_total(f.formant_frequencies@, p.formant_frequencies@, i as nat),
            ft <= 1000 * i,
        decreases 3 - i,
    {
        let c = closeness_of(f.formant_frequencies[i], p.formant_frequencies[i]);
        proof {
            lemma_closeness_le(f.formant_frequencies@[i as int] as nat, p.formant_frequencies@[i as int] as nat);
        }
        ft = ft + c;
        i += 1;
    }
    let mut cd: u64 = 0;
    let mut j: usize = 0;
    while j < 12
        invariant
            f.wf(),
            profile_ok(p@),
            j <= 12,
            cd == cepstral_distance(f.cepstrum@, p.cepstrum@, j as nat),
            cd <= 0x1_0000_0000 * j,
        decreases 12 - j,
    {
        let a = f.cepstrum[j] as i64;
        let b = p.cepstrum[j] as i64;
        let d = if a >= b {
            (a - b) as u64
        } else {
            (b - a) as u64
        };
        cd = cd + d;
        j += 1;
    }
    let sc = 1_000_000 / (1000 + cd);
    proof {
        lemma_closeness_le(f.fundamental_freq as nat, p.fundamental_freq as nat);
        lemma_closeness_le(f.spectral_centroid as nat, p.spectral_centroid as nat);
        lemma_div_is_ordered_by_denominator(1_000_000, 1000, (1000 + cd) as int);
        assert(1_000_000nat / 1000nat == 1000) by (nonlinear_arith);
    }
    (3 * c0 + 2 * cc + 3 * (ft / 3) + 2 * sc) / 10
}

fn copy_u32s(v: &Vec<u32>) -> (r: Vec<u32>)
    ensures
        r@ == v@,
{
    let mut r: Vec<u32> = Vec::new();
    let mut i: usize = 0;
    while i < v.len()
        invariant
            i <= v@.len(),
            r@ == v@.subrange(0, i as int),
        decreases v@.len() - i,
    {
        r.push(v[i]);
        i += 1;
        assert(r@ =~= v@.subrange(0, i as int));
    }
    assert(r@ =~= v@);
    r
}

fn copy_i32s(v: &Vec<i32>) -> (r: Vec<i32>)
    ensures
        r@ == v@,
{
    let mut r: Vec<i32> = Vec::new();
    let mut i: usize = 0;
    while i < v.len()
        invariant
            i <= v@.len(),
            r@ == v@.subrange(0, i as int),
        decreases v@.len() - i,
    {
        r.push(v[i]);
        i += 1;
        assert(r@ =~= v@.subrange(0, i as int));
    }
    assert(r@ =~= v@);
    r
}

fn label_of(k: usize) -> (r: String)
    requires
        k < u64::MAX,
    ensures
        r@ == label_for(k as nat),
{
    let mut v = vec!['S', 'p', 'e', 'a', 'k', 'e', 'r', ' '];
    let ds = decimal_chars(k as u64 + 1);
    append_chars(&mut v, &ds);
    assert(v@ =~= label_for(k as nat));
    string_of(&v)
}

fn id_of(k: usize) -> (r: String)
    requires
        k < u64::MAX,
    ensures
        r@ == id_for(k as nat),
{
    let mut v = vec!['S', 'p', 'e', 'a', 'k', 'e', 'r', '_'];
    let ds = decimal_chars(k as u64 + 1);
    append_chars(&mut v, &ds);
    assert(v@ =~= id_for(k as nat));
    string_of(&v)
}

/// Labels each segment's speaker by matching its voice features against the
/// profiles seen so far in this session.
pub struct RealtimeSpeakerDiarization {
    speaker_profiles: Vec<SpeakerProfile>,
    current_speaker: Option<usize>,
}

impl RealtimeSpeakerDiarization {
    pub closed spec fn profiles(&self) -> Seq<ProfileView> {
        profile_views(self.speaker_profiles@)
    }

    pub closed spec fn current(&self) -> Option<usize> {
        self.current_speaker
    }

    pub closed spec fn wf(&self) -> bool {
        &&& forall|i: int| 0 <= i < self.profiles().len() ==> profile_at(#[trigger] self.profiles()[i], i)
        &&& (self.current_speaker matches Some(k) ==> k < self.speaker_profiles@.len())
    }

    /// Every profile has three formants and twelve cepstral bands, and the
    /// `i`-th is labelled `Speaker <i + 1>` with id `Speaker_<i + 1>`.
    pub proof fn lemma_wf(&self)
        requires
            self.wf(),
        ensures
            forall|i: int| 0 <= i < self.profiles().len() ==> profile_at(#[trigger] self.profiles()[i], i),
            forall|i: int| 0 <= i < self.profiles().len() ==> profile_ok(#[trigger] self.profiles()[i]),
    {
    }

    pub fn new() -> (r: Self)
        ensures
            r.wf(),
            r.profiles().len() == 0,
            r.current().is_none(),
    {
        let r = RealtimeSpeakerDiarization { speaker_profiles: Vec::new(), current_speaker: None };
        assert(r.profiles() =~= Seq::<ProfileView>::empty());
        r
    }

    /// Assigns the features to the best-matching profile when its similarity is
    /// above 700, adapting that profile; otherwise mints a new profile. Returns
    /// the display name of the assigned profile.
    pub fn identify_speaker(&mut self, features: &VoiceFeatures) -> (name: String)
        requires
            old(self).wf(),
            features.wf(),
            old(self).profiles().len() < u64::MAX,
        ensures
            final(self).wf(),
            final(self).profiles() == assign(old(self).profiles(), *features),
            final(self).current() == Some(assigned_index(old(self).profiles(), *features) as usize),
            name@ == final(self).profiles()[assigned_index(old(self).profiles(), *features)].name,
            final(self).profiles().len() == old(self).profiles().len() || final(self).profiles().len()
                == old(self).profiles().len() + 1,
            final(self).profiles().len() == old(self).profiles().len() + 1 ==> forall|i: int|
                0 <= i < old(self).profiles().len() ==> #[trigger] old(self).profiles()[i].name != name@,
    {
        let ghost ps = self.profiles();
        let n = self.speaker_profiles.len();
        let mut best: usize = 0;
        let mut best_sim: u64 = 0;
        let mut found = false;
        let mut i: usize = 0;
        while i < n
            invariant
                n == self.speaker_profiles@.len(),
                ps == self.profiles(),
                self.wf(),
                features.wf(),
                i <= n,
                found == (best_match(ps, *features, i as nat).1 > 0),
                best_sim == best_match(ps, *features, i as nat).1,
                found ==> best == best_match(ps, *features, i as nat).0,
            decreases n - i,
        {
            assert(profile_at(ps[i as int], i as int));
            assert(ps[i as int] == self.speaker_profiles@[i as int]@);
            let s = similarity_of(features, &self.speaker_profiles[i]);
            if s > best_sim {
                best_sim = s;
                best = i;
                found = true;
            }
            i += 1;
        }
        proof {
            lemma_best_match(ps, *features, n as nat);
        }
        if found && best_sim > 700 {
            let p = self.speaker_profiles.remove(best);
            assert(p@ == ps[best as int]);
            assert(profile_at(ps[best as int], best as int));
            let mut formants: Vec<u32> = Vec::new();
            let mut k: usize = 0;
            while k < p.formant_frequencies.len()
                invariant
                    profile_ok(p@),
                    features.wf(),
                    k <= p.formant_frequencies@.len(),
                    formants@ == ema_u32s(p.formant_frequencies@, features.formant_frequencies@).subrange(0, k as int),
                decreases p.formant_frequencies@.len() - k,
            {
                formants.push(ema_u32(p.formant_frequencies[k], features.formant_frequencies[k]));
                k += 1;
                assert(formants@ =~= ema_u32s(p.formant_frequencies@, features.formant_frequencies@).subrange(0, k as int));
            }
            let mut ceps: Vec<i32> = Vec::new();
            let mut k: usize = 0;
            while k < p.cepstrum.len()
                invariant
                    profile_ok(p@),
                    features.wf(),
                    k <= p.cepstrum@.len(),
                    ceps@ == ema_i32s(p.cepstrum@, features.cepstrum@).subrange(0, k as int),
                decreases p.cepstrum@.len() - k,
            {
                ceps.push(ema_i32(p.cepstrum[k], features.cepstrum[k]));
                k += 1;
                assert(ceps@ =~= ema_i32s(p.cepstrum@, features.cepstrum@).subrange(0, k as int));
            }
            assert(formants@ =~= ema_u32s(p.formant_frequencies@, features.formant_frequencies@));
            assert(ceps@ =~= ema_i32s(p.cepstrum@, features.cepstrum@));
            let conf = p.confidence as u64 * 9 / 10 + 100;
            let q = SpeakerProfile {
                id: p.id,
                name: p.name,
                fundamental_freq: ema_u32(p.fundamental_freq, features.fundamental_freq),
                formant_frequencies: formants,
                spectral_centroid: ema_u32(p.spectral_centroid, features.spectral_centroid),
                cepstrum: ceps,
                confidence: if conf > 1000 {
                    1000
                } else {
                    conf as u32
                },
                sample_count: if p.sample_count < u32::MAX {
                    p.sample_count + 1
                } else {
                    p.sample_count
                },
            };
            assert(q@ == adapted(ps[best as int], *features));
            let name = q.name.clone();
            self.speaker_profiles.insert(best, q);
            self.current_speaker = Some(best);
            assert(self.profiles() =~= ps.update(best as int, adapted(ps[best as int], *features)));
            assert forall|i: int| 0 <= i < self.profiles().len() implies profile_at(
                #[trigger] self.profiles()[i],
                i,
            ) by {
                if i != best {
                    assert(self.profiles()[i] == ps[i]);
                }
            }
            name
        } else {
            let q = SpeakerProfile {
                id: id_of(n),
                name: label_of(n),
                fundamental_freq: features.fundamental_freq,
                formant_frequencies: copy_u32s(&features.formant_frequencies),
                spectral_centroid: features.spectral_centroid,
                cepstrum: copy_i32s(&features.cepstrum),
                confidence: 1000,
                sample_count: 1,
            };
            assert(q@ == fresh_profile(*features, n as nat));
            assert forall|i: int| 0 <= i < ps.len() implies #[trigger] ps[i].name != q.name@ by {
                assert(profile_at(ps[i], i));
                lemma_labels_distinct(i as nat, n as nat);
            }
            let name = q.name.clone();
            self.speaker_profiles.push(q);
            self.current_speaker = Some(n);
            assert(self.profiles() =~= ps.push(fresh_profile(*features, n as nat)));
            assert forall|i: int| 0 <= i < self.profiles().len() implies profile_at(
                #[trigger] self.profiles()[i],
                i,
            ) by {
                if i < n {
                    assert(self.profiles()[i] == ps[i]);
                }
            }
            name
        }
    }

    pub fn get_speaker_count(&self) -> (r: usize)
        ensures
            r == self.profiles().len(),
    {
        self.speaker_profiles.len()
    }

    /// Display name of the speaker of the latest assignment.
    pub fn get_current_speaker(&self) -> (r: Option<String>)
        requires
            self.wf(),
        ensures
            self.current().is_none() ==> r.is_none(),
            self.current() matches Some(k) ==> r.is_some() && r.unwrap()@ == self.profiles()[k as int].name,
    {
        match self.current_speaker {
            Some(k) => Some(self.speaker_profiles[k].name.clone()),
            None => None,
        }
    }

    pub fn get_speaker_profiles(&self) -> (r: &Vec<SpeakerProfile>)
        ensures
            profile_views(r@) == self.profiles(),
    {
        &self.speaker_profiles
    }
}

} // verus!
