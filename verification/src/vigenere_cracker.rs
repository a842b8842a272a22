//! Statistical key recovery for the Vigenere cipher.
//!
//! All statistics are exact integers. An observed n-gram distribution is the
//! vector of window counts over the codes of a text; a reference frequency is
//! an English n-gram probability scaled by 100000. A correlation score is the
//! dot product of observed counts with reference frequencies: the true
//! probability-level score of a text is that numerator divided by
//! `window count * 100000`, so scores of equally long texts rank identically
//! to the real-valued correlation.

use vstd::prelude::*;
use vstd::pervasive::VecAdditionalExecFns;
use crate::vigenere::{codes_of, lemma_codes_of_in_range, lemma_codes_of_len_le,
    lemma_codes_of_all_letters, is_ascii_letter, numbers_to_string, spec_number_to_letter,
    spec_numbers_to_string, spec_vigenere_decrypt, string_to_numbers, vigenere_decrypt};
use vstd::seq_lib::group_to_multiset_ensures;

verus! {

/// Why an analysis request was rejected.
#[derive(Debug, Clone, Copy, PartialEq, Eq, Structural)]
pub enum CrackError {
    /// The n-gram order is outside the supported range `1..=4`.
    UnsupportedNgramLength,
    /// The text has too few letters to hold a single n-gram window.
    TextTooShort,
    /// The key length is zero.
    InvalidKeyLength,
    /// The key length would make the candidate key space too large to search.
    KeySpaceTooLarge,
}

/// Number of distinct n-grams of length `n`.
pub open spec fn pow26(n: nat) -> nat
    decreases n,
{
    if n == 0 {
        1
    } else {
        26 * pow26((n - 1) as nat)
    }
}

proof fn lemma_pow26_pos(n: nat)
    ensures
        pow26(n) >= 1,
    decreases n,
{
    if n > 0 {
        lemma_pow26_pos((n - 1) as nat);
    }
}

proof fn lemma_pow26_le(a: nat, b: nat)
    requires
        a <= b,
    ensures
        pow26(a) <= pow26(b),
    decreases b,
{
    if a < b {
        lemma_pow26_le(a, (b - 1) as nat);
        lemma_pow26_pos((b - 1) as nat);
    }
}

fn pow26_exec(n: usize) -> (r: usize)
    requires
        n <= 4,
    ensures
        r == pow26(n as nat),
{
    proof {
        assert(pow26(0) == 1);
        assert(pow26(1) == 26);
        assert(pow26(2) == 676);
        assert(pow26(3) == 17576);
        assert(pow26(4) == 456976);
    }
    if n == 0 {
        1
    } else if n == 1 {
        26
    } else if n == 2 {
        676
    } else if n == 3 {
        17576
    } else {
        456976
    }
}

/// The numeric code of an n-gram: its letter codes read as a base-26 number,
/// the first letter most significant.
pub open spec fn ngram_code(w: Seq<u8>) -> int
    decreases w.len(),
{
    if w.len() == 0 {
        0
    } else {
        ngram_code(w.drop_last()) * 26 + w.last()
    }
}

/// How many windows of length `n` starting before `m` in `s` have code `k`.
pub open spec fn count_windows(s: Seq<u8>, n: int, k: int, m: int) -> int
    decreases m,
{
    if m <= 0 {
        0
    } else {
        count_windows(s, n, k, m - 1) + if ngram_code(s.subrange(m - 1, m - 1 + n)) == k {
            1int
        } else {
            0int
        }
    }
}

proof fn lemma_count_windows_le(s: Seq<u8>, n: int, k: int, m: int)
    ensures
        0 <= count_windows(s, n, k, m) <= if m >= 0 {
            m
        } else {
            0
        },
    decreases m,
{
    if m > 0 {
        lemma_count_windows_le(s, n, k, m - 1);
    }
}

/// Sum of a count vector.
pub open spec fn seq_sum(s: Seq<u32>) -> int
    decreases s.len(),
{
    if s.len() == 0 {
        0
    } else {
        seq_sum(s.drop_last()) + s.last()
    }
}

proof fn lemma_seq_sum_update(s: Seq<u32>, i: int, v: u32)
    requires
        0 <= i < s.len(),
    ensures
        seq_sum(s.update(i, v)) == seq_sum(s) - s[i] + v,
    decreases s.len(),
{
    let t = s.update(i, v);
    if i == s.len() - 1 {
        assert(t.drop_last() =~= s.drop_last());
        assert(t.last() == v);
    } else {
        assert(t.drop_last() =~= s.drop_last().update(i, v));
        assert(t.last() == s.last());
        lemma_seq_sum_update(s.drop_last(), i, v);
    }
}

proof fn lemma_seq_sum_element(s: Seq<u32>, i: int)
    requires
        0 <= i < s.len(),
    ensures
        s[i] <= seq_sum(s),
        seq_sum(s) >= 0,
    decreases s.len(),
{
    if s.len() > 0 {
        if i == s.len() - 1 {
            lemma_seq_sum_nonneg(s.drop_last());
        } else {
            lemma_seq_sum_element(s.drop_last(), i);
        }
    }
}

proof fn lemma_seq_sum_nonneg(s: Seq<u32>)
    ensures
        seq_sum(s) >= 0,
    decreases s.len(),
{
    if s.len() > 0 {
        lemma_seq_sum_nonneg(s.drop_last());
    }
}

/// An observed n-gram distribution: the count of every possible n-gram code
/// over the windows of a text, and the total number of windows.
pub struct NgramDist {
    pub n: usize,
    pub counts: Vec<u32>,
    pub total: u32,
}

impl NgramDist {
    /// The shape invariant: a count slot per possible n-gram, summing to the
    /// window total.
    pub open spec fn wf(&self) -> bool {
        &&& 1 <= self.n <= 4
        &&& self.counts@.len() == pow26(self.n as nat)
        &&& self.total == seq_sum(self.counts@)
    }

    /// The distribution describes the letter-code sequence `s`: slot `k`
    /// holds the number of windows of `s` whose n-gram code is `k`.
    pub open spec fn describes(&self, s: Seq<u8>) -> bool {
        &&& s.len() >= self.n
        &&& self.total == s.len() - self.n + 1
        &&& forall|k: int|
            0 <= k < self.counts@.len() ==> self.counts@[k] == count_windows(
                s,
                self.n as int,
                k,
                s.len() - self.n + 1,
            )
    }
}

/// The n-gram window counts of the letter codes `codes`.
fn dist_of_codes(codes: &Vec<u8>, n: usize) -> (r: NgramDist)
    requires
        1 <= n <= 4,
        codes@.len() >= n,
        codes@.len() < 0xffff_ffff,
        forall|i: int| 0 <= i < codes@.len() ==> codes@[i] < 26,
    ensures
        r.wf(),
        r.n == n,
        r.describes(codes@),
{
    let size = pow26_exec(n);
    let mut counts: Vec<u32> = Vec::new();
    let mut z: usize = 0;
    while z < size
        invariant
            z <= size,
            counts@.len() == z,
            forall|k: int| 0 <= k < z ==> counts@[k] == 0,
        decreases size - z,
    {
        counts.push(0);
        z = z + 1;
    }
    proof {
        lemma_seq_sum_zero(counts@);
        assert(forall|k: int| 0 <= k < size ==> counts@[k] == count_windows(codes@, n as int, k, 0));
    }
    let windows = codes.len() - n + 1;
    let mut i: usize = 0;
    while i < windows
        invariant
            1 <= n <= 4,
            codes@.len() >= n,
            codes@.len() < 0xffff_ffff,
            forall|t: int| 0 <= t < codes@.len() ==> codes@[t] < 26,
            windows == codes@.len() - n + 1,
            i <= windows,
            counts@.len() == size,
            size == pow26(n as nat),
            seq_sum(counts@) == i,
            forall|k: int|
                0 <= k < size ==> counts@[k] == count_windows(codes@, n as int, k, i as int),
        decreases windows - i,
    {
        let mut code: usize = 0;
        let mut j: usize = 0;
        while j < n
            invariant
                1 <= n <= 4,
                codes@.len() < 0xffff_ffff,
                i + n <= codes@.len(),
                forall|t: int| 0 <= t < codes@.len() ==> codes@[t] < 26,
                j <= n,
                code == ngram_code(codes@.subrange(i as int, i + j)),
                code < pow26(j as nat),
            decreases n - j,
        {
            proof {
                lemma_pow26_le(j as nat, 3);
                assert(pow26(0) == 1);
                assert(pow26(1) == 26);
                assert(pow26(2) == 676);
                assert(pow26(3) == 17576);
                assert(codes@.subrange(i as int, i + j + 1).drop_last() =~= codes@.subrange(
                    i as int,
                    i + j,
                ));
                assert(codes@.subrange(i as int, i + j + 1).last() == codes@[i + j]);
            }
            code = code * 26 + (codes[i + j] as usize);
            j = j + 1;
        }
        proof {
            assert(codes@.subrange(i as int, i + n) == codes@.subrange(
                i as int,
                i as int + n as int,
            ));
            lemma_count_windows_le(codes@, n as int, code as int, i as int);
        }
        let cur = counts[code];
        let ghost prev = counts@;
        counts.set(code, cur + 1);
        proof {
            lemma_seq_sum_update(prev, code as int, (cur + 1) as u32);
            assert forall|k: int|
                0 <= k < size implies counts@[k] == count_windows(
                codes@,
                n as int,
                k,
                i + 1,
            ) by {
                assert(count_windows(codes@, n as int, k, i + 1) == count_windows(
                    codes@,
                    n as int,
                    k,
                    i as int,
                ) + if ngram_code(codes@.subrange(i as int, i as int + n as int)) == k {
                    1int
                } else {
                    0int
                });
            }
        }
        i = i + 1;
    }
    let total = windows as u32;
    NgramDist { n, counts, total }
}

proof fn lemma_seq_sum_zero(s: Seq<u32>)
    requires
        forall|k: int| 0 <= k < s.len() ==> s[k] == 0,
    ensures
        seq_sum(s) == 0,
    decreases s.len(),
{
    if s.len() > 0 {
        lemma_seq_sum_zero(s.drop_last());
    }
}

/// The n-gram distribution of the letters of `text`: every window of `n`
/// consecutive letter codes is counted, and the counts sum to the number of
/// windows, which is the exact form of the normalization law that the
/// real-valued frequencies sum to one.
pub fn ngram_frequency_distribution(text: &str, n: usize) -> (r: Result<NgramDist, CrackError>)
    requires
        text@.len() < 0xffff_ffff,
    ensures
        r is Ok <==> (1 <= n <= 4 && codes_of(text@).len() >= n),
        r is Ok ==> {
            let d = r->Ok_0;
            &&& d.wf()
            &&& d.n == n
            &&& d.describes(codes_of(text@))
        },
        !(1 <= n <= 4) ==> r == Result::<NgramDist, CrackError>::Err(
            CrackError::UnsupportedNgramLength,
        ),
        (1 <= n <= 4 && codes_of(text@).len() < n) ==> r == Result::<NgramDist, CrackError>::Err(
            CrackError::TextTooShort,
        ),
{
    if n < 1 || n > 4 {
        return Err(CrackError::UnsupportedNgramLength);
    }
    let codes = string_to_numbers(text);
    proof {
        lemma_codes_of_in_range(text@);
        lemma_codes_of_len_le(text@);
    }
    if codes.len() < n {
        return Err(CrackError::TextTooShort);
    }
    Ok(dist_of_codes(&codes, n))
}

/// A reference table is usable against distributions of `size` slots: every
/// code indexes a slot and every scaled frequency is at most 100000.
pub open spec fn table_ok(p: Seq<(usize, u32)>, size: int) -> bool {
    forall|t: int| 0 <= t < p.len() ==> (#[trigger] p[t]).0 < size && p[t].1 <= 100000
}

/// Standard English single-letter frequencies, scaled by 100000.
pub open spec fn spec_single_freqs() -> Seq<(usize, u32)> {
    seq![
        (0usize, 8167u32),
        (1usize, 1492u32),
        (2usize, 2782u32),
        (3usize, 4253u32),
        (4usize, 12702u32),
        (5usize, 2228u32),
        (6usize, 2015u32),
        (7usize, 6094u32),
        (8usize, 6966u32),
        (9usize, 153u32),
        (10usize, 772u32),
        (11usize, 4025u32),
        (12usize, 2406u32),
        (13usize, 6749u32),
        (14usize, 7507u32),
        (15usize, 1929u32),
        (16usize, 95u32),
        (17usize, 5987u32),
        (18usize, 6327u32),
        (19usize, 9056u32),
        (20usize, 2758u32),
        (21usize, 978u32),
        (22usize, 2360u32),
        (23usize, 150u32),
        (24usize, 1974u32),
        (25usize, 74u32),
    ]
}

/// Standard English bigram frequencies, scaled by 100000, keyed by the
/// bigram's base-26 code.
pub open spec fn spec_bigram_freqs() -> Seq<(usize, u32)> {
    seq![
        (501usize, 3870u32),
        (186usize, 3670u32),
        (221usize, 2250u32),
        (121usize, 2100u32),
        (13usize, 2050u32),
        (446usize, 1800u32),
        (122usize, 1750u32),
        (377usize, 1700u32),
        (487usize, 1650u32),
        (357usize, 1600u32),
    ]
}

/// Standard English trigram frequencies, scaled by 100000.
pub open spec fn spec_trigram_freqs() -> Seq<(usize, u32)> {
    seq![
        (13030usize, 2100u32),
        (341usize, 1000u32),
        (5752usize, 750u32),
        (4853usize, 600u32),
        (13026usize, 550u32),
        (3150usize, 500u32),
        (3061usize, 450u32),
        (5785usize, 400u32),
        (2801usize, 350u32),
        (3191usize, 300u32),
    ]
}

/// Standard English quadgram frequencies, scaled by 100000.
pub open spec fn spec_quadgram_freqs() -> Seq<(usize, u32)> {
    seq![
        (338695usize, 200u32),
        (338797usize, 150u32),
        (392581usize, 100u32),
        (339729usize, 90u32),
        (126182usize, 80u32),
        (8844usize, 70u32),
        (213973usize, 60u32),
        (144865usize, 50u32),
        (123582usize, 40u32),
    ]
}

/// The reference frequency table for the n-gram order `n`.
pub open spec fn spec_ref_pairs(n: int) -> Seq<(usize, u32)> {
    if n == 1 {
        spec_single_freqs()
    } else if n == 2 {
        spec_bigram_freqs()
    } else if n == 3 {
        spec_trigram_freqs()
    } else {
        spec_quadgram_freqs()
    }
}

/// Every table indexes within its n-gram space with frequencies at most
/// 100000.
pub proof fn lemma_ref_pairs_ok(n: int)
    requires
        1 <= n <= 4,
    ensures
        table_ok(spec_ref_pairs(n), pow26(n as nat) as int),
        spec_ref_pairs(n).len() <= 26,
{
    assert(pow26(0) == 1);
    assert(pow26(1) == 26);
    assert(pow26(2) == 676);
    assert(pow26(3) == 17576);
    assert(pow26(4) == 456976);
    if n == 1 {
        assert forall|t: int| 0 <= t < spec_single_freqs().len() implies (
        #[trigger] spec_single_freqs()[t]).0 < 26 && spec_single_freqs()[t].1 <= 100000 by {
        }
    } else if n == 2 {
        assert forall|t: int| 0 <= t < spec_bigram_freqs().len() implies (
        #[trigger] spec_bigram_freqs()[t]).0 < 676 && spec_bigram_freqs()[t].1 <= 100000 by {
        }
    } else if n == 3 {
        assert forall|t: int| 0 <= t < spec_trigram_freqs().len() implies (
        #[trigger] spec_trigram_freqs()[t]).0 < 17576 && spec_trigram_freqs()[t].1 <= 100000 by {
        }
    } else {
        assert forall|t: int| 0 <= t < spec_quadgram_freqs().len() implies (
        #[trigger] spec_quadgram_freqs()[t]).0 < 456976 && spec_quadgram_freqs()[t].1
            <= 100000 by {
        }
    }
}

fn single_freq_table() -> (r: Vec<(usize, u32)>)
    ensures
        r@ == spec_single_freqs(),
{
    let mut v: Vec<(usize, u32)> = Vec::new();
    v.push((0, 8167));  // A 0.08167
    v.push((1, 1492));  // B 0.01492
    v.push((2, 2782));  // C 0.02782
    v.push((3, 4253));  // D 0.04253
    v.push((4, 12702));  // E 0.12702
    v.push((5, 2228));  // F 0.02228
    v.push((6, 2015));  // G 0.02015
    v.push((7, 6094));  // H 0.06094
    v.push((8, 6966));  // I 0.06966
    v.push((9, 153));  // J 0.00153
    v.push((10, 772));  // K 0.00772
    v.push((11, 4025));  // L 0.04025
    v.push((12, 2406));  // M 0.02406
    v.push((13, 6749));  // N 0.06749
    v.push((14, 7507));  // O 0.07507
    v.push((15, 1929));  // P 0.01929
    v.push((16, 95));  // Q 0.00095
    v.push((17, 5987));  // R 0.05987
    v.push((18, 6327));  // S 0.06327
    v.push((19, 9056));  // T 0.09056
    v.push((20, 2758));  // U 0.02758
    v.push((21, 978));  // V 0.00978
    v.push((22, 2360));  // W 0.02360
    v.push((23, 150));  // X 0.00150
    v.push((24, 1974));  // Y 0.01974
    v.push((25, 74));  // Z 0.00074
    proof {
        assert(v@ =~= spec_single_freqs());
    }
    v
}

fn bigram_freq_table() -> (r: Vec<(usize, u32)>)
    ensures
        r@ == spec_bigram_freqs(),
{
    let mut v: Vec<(usize, u32)> = Vec::new();
    v.push((501, 3870));  // TH 0.0387
    v.push((186, 3670));  // HE 0.0367
    v.push((221, 2250));  // IN 0.0225
    v.push((121, 2100));  // ER 0.0210
    v.push((13, 2050));  // AN 0.0205
    v.push((446, 1800));  // RE 0.0180
    v.push((122, 1750));  // ES 0.0175
    v.push((377, 1700));  // ON 0.0170
    v.push((487, 1650));  // ST 0.0165
    v.push((357, 1600));  // NT 0.0160
    proof {
        assert(v@ =~= spec_bigram_freqs());
    }
    v
}

fn trigram_freq_table() -> (r: Vec<(usize, u32)>)
    ensures
        r@ == spec_trigram_freqs(),
{
    let mut v: Vec<(usize, u32)> = Vec::new();
    v.push((13030, 2100));  // THE 0.0210
    v.push((341, 1000));  // AND 0.0100
    v.push((5752, 750));  // ING 0.0075
    v.push((4853, 600));  // HER 0.0060
    v.push((13026, 550));  // THA 0.0055
    v.push((3150, 500));  // ERE 0.0050
    v.push((3061, 450));  // ENT 0.0045
    v.push((5785, 400));  // ION 0.0040
    v.push((2801, 350));  // EDT 0.0035
    v.push((3191, 300));  // EST 0.0030
    proof {
        assert(v@ =~= spec_trigram_freqs());
    }
    v
}

fn quadgram_freq_table() -> (r: Vec<(usize, u32)>)
    ensures
        r@ == spec_quadgram_freqs(),
{
    let mut v: Vec<(usize, u32)> = Vec::new();
    v.push((338695, 200));  // THAT 0.0020
    v.push((338797, 150));  // THER 0.0015
    v.push((392581, 100));  // WITH 0.0010
    v.push((339729, 90));  // TION 0.0009
    v.push((126182, 80));  // HERE 0.0008
    v.push((8844, 70));  // ANCE 0.0007
    v.push((213973, 60));  // MENT 0.0006
    v.push((144865, 50));  // IGHT 0.0005
    v.push((123582, 40));  // HAVE 0.0004
    proof {
        assert(v@ =~= spec_quadgram_freqs());
    }
    v
}

/// The reference English frequency table for n-grams of order `n`, keyed by
/// n-gram code, with frequencies scaled by 100000.
pub fn english_frequencies(n: usize) -> (r: Result<Vec<(usize, u32)>, CrackError>)
    ensures
        r is Ok <==> 1 <= n <= 4,
        r is Ok ==> r->Ok_0@ == spec_ref_pairs(n as int),
        r is Err ==> r->Err_0 == CrackError::UnsupportedNgramLength,
{
    if n == 1 {
        Ok(single_freq_table())
    } else if n == 2 {
        Ok(bigram_freq_table())
    } else if n == 3 {
        Ok(trigram_freq_table())
    } else if n == 4 {
        Ok(quadgram_freq_table())
    } else {
        Err(CrackError::UnsupportedNgramLength)
    }
}

/// The correlation score of observed counts against a sparse reference
/// table: the sum, over the table's entries, of the observed count of the
/// entry's n-gram times its scaled frequency.
pub open spec fn spec_dot_pairs(c: Seq<u32>, p: Seq<(usize, u32)>) -> int
    decreases p.len(),
{
    if p.len() == 0 {
        0
    } else {
        spec_dot_pairs(c, p.drop_last()) + c[p.last().0 as int] * p.last().1
    }
}

/// Correlation score of an observed distribution against a reference table.
/// The true real-valued score is `r / (dist.total * 100000)`; texts of equal
/// window counts rank identically by `r`.
pub fn correlation_score(dist: &NgramDist, english_freqs: &Vec<(usize, u32)>) -> (r: u64)
    requires
        dist.wf(),
        table_ok(english_freqs@, dist.counts@.len() as int),
        english_freqs@.len() <= 26,
    ensures
        r == spec_dot_pairs(dist.counts@, english_freqs@),
{
    let mut acc: u64 = 0;
    let mut t: usize = 0;
    while t < english_freqs.len()
        invariant
            dist.wf(),
            table_ok(english_freqs@, dist.counts@.len() as int),
            english_freqs@.len() <= 26,
            t <= english_freqs@.len(),
            acc == spec_dot_pairs(dist.counts@, english_freqs@.take(t as int)),
            acc <= t * 0x2_0000_0000_0000,
        decreases english_freqs@.len() - t,
    {
        let (code, freq) = english_freqs[t];
        let count = dist.counts[code];
        proof {
            lemma_seq_sum_element(dist.counts@, code as int);
            assert(count <= dist.total);
            assert((count as int) * (freq as int) <= 0xffff_ffff * 100000) by (nonlinear_arith)
                requires
                    0 <= count as int <= 0xffff_ffff,
                    0 <= freq as int <= 100000,
            ;
            assert(english_freqs@.take(t + 1).drop_last() =~= english_freqs@.take(t as int));
            assert(english_freqs@.take(t + 1).last() == english_freqs@[t as int]);
        }
        acc = acc + (count as u64) * (freq as u64);
        t = t + 1;
    }
    proof {
        assert(english_freqs@.take(english_freqs@.len() as int) =~= english_freqs@);
    }
    acc
}

/// The canonical count vector of the windows of `s` for order `n`.
pub open spec fn spec_window_counts(s: Seq<u8>, n: int) -> Seq<u32> {
    Seq::new(pow26(n as nat) as nat, |k: int| count_windows(s, n, k, s.len() - n + 1) as u32)
}

/// The correlation score numerator of a letter-code sequence against the
/// English reference table of order `n`.
pub open spec fn spec_text_score(s: Seq<u8>, n: int) -> int {
    spec_dot_pairs(spec_window_counts(s, n), spec_ref_pairs(n))
}

/// Score of the letters of `text` against the English n-gram model: the pair
/// of the correlation numerator and the window count; the real-valued score
/// is `r.0 / (r.1 * 100000)`.
pub fn text_score(text: &str, n: usize) -> (r: Result<(u64, u64), CrackError>)
    requires
        text@.len() < 0xffff_ffff,
    ensures
        r is Ok <==> (1 <= n <= 4 && codes_of(text@).len() >= n),
        r is Ok ==> r->Ok_0.0 == spec_text_score(codes_of(text@), n as int) && r->Ok_0.1
            == codes_of(text@).len() - n + 1,
        !(1 <= n <= 4) ==> r == Result::<(u64, u64), CrackError>::Err(
            CrackError::UnsupportedNgramLength,
        ),
        (1 <= n <= 4 && codes_of(text@).len() < n) ==> r == Result::<(u64, u64), CrackError>::Err(
            CrackError::TextTooShort,
        ),
{
    let dist = match ngram_frequency_distribution(text, n) {
        Ok(d) => d,
        Err(e) => {
            return Err(e);
        },
    };
    let table = match english_frequencies(n) {
        Ok(t) => t,
        Err(e) => {
            return Err(e);
        },
    };
    proof {
        lemma_ref_pairs_ok(n as int);
        assert(dist.counts@ =~= spec_window_counts(codes_of(text@), n as int));
    }
    let score = correlation_score(&dist, &table);
    Ok((score, (dist.total as u64)))
}

/// The dot-product correlation of two equal-length count vectors.
pub open spec fn spec_dot_counts(a: Seq<u32>, b: Seq<u32>) -> int
    recommends
        a.len() == b.len(),
    decreases a.len(),
{
    if a.len() == 0 {
        0
    } else {
        spec_dot_counts(a.drop_last(), b.drop_last()) + a.last() * b.last()
    }
}

/// Self-correlation dominance: twice the correlation of two count vectors
/// never exceeds the sum of their self-correlations. Hence a distribution
/// scored against itself beats being scored against any other distribution
/// whose self-correlation is no larger; an observed distribution can,
/// however, score higher against a reference than that reference scores
/// against itself, so the self-score is the maximum only in this
/// self-correlation-ordered sense.
pub proof fn lemma_self_correlation_maximal(a: Seq<u32>, b: Seq<u32>)
    requires
        a.len() == b.len(),
    ensures
        2 * spec_dot_counts(a, b) <= spec_dot_counts(a, a) + spec_dot_counts(b, b),
        spec_dot_counts(b, b) <= spec_dot_counts(a, a) ==> spec_dot_counts(a, b)
            <= spec_dot_counts(a, a),
    decreases a.len(),
{
    if a.len() > 0 {
        lemma_self_correlation_maximal(a.drop_last(), b.drop_last());
        let x = a.last() as int;
        let y = b.last() as int;
        assert(2 * (x * y) <= x * x + y * y) by (nonlinear_arith);
    }
}

/// A dense count vector written as a reference table: slot `k` becomes the
/// entry `(k, b[k])`.
pub open spec fn pairs_of_counts(b: Seq<u32>) -> Seq<(usize, u32)> {
    Seq::new(b.len(), |k: int| (k as usize, b[k]))
}

proof fn lemma_dot_pairs_of_counts(a: Seq<u32>, b: Seq<u32>, m: int)
    requires
        0 <= m <= a.len(),
        m <= b.len(),
        b.len() <= usize::MAX,
    ensures
        spec_dot_counts(a.take(m), b.take(m)) == spec_dot_pairs(a, pairs_of_counts(b).take(m)),
    decreases m,
{
    if m > 0 {
        lemma_dot_pairs_of_counts(a, b, m - 1);
        assert(a.take(m).drop_last() =~= a.take(m - 1));
        assert(b.take(m).drop_last() =~= b.take(m - 1));
        assert(pairs_of_counts(b).take(m).drop_last() =~= pairs_of_counts(b).take(m - 1));
        assert(pairs_of_counts(b).take(m).last() == (((m - 1) as usize, b[m - 1])));
        assert(a.take(m).last() == a[m - 1]);
        assert(b.take(m).last() == b[m - 1]);
    }
}

/// The self-correlation law at the level of the scoring function itself:
/// with a count vector written as a reference table, twice the cross score
/// never exceeds the sum of the two self scores.
pub proof fn lemma_self_correlation_score(a: Seq<u32>, b: Seq<u32>)
    requires
        a.len() == b.len(),
        a.len() <= usize::MAX,
    ensures
        2 * spec_dot_pairs(a, pairs_of_counts(b)) <= spec_dot_pairs(a, pairs_of_counts(a))
            + spec_dot_pairs(b, pairs_of_counts(b)),
{
    lemma_self_correlation_maximal(a, b);
    lemma_dot_pairs_of_counts(a, b, a.len() as int);
    lemma_dot_pairs_of_counts(a, a, a.len() as int);
    lemma_dot_pairs_of_counts(b, b, b.len() as int);
    assert(a.take(a.len() as int) =~= a);
    assert(b.take(b.len() as int) =~= b);
    assert(pairs_of_counts(a).take(a.len() as int) =~= pairs_of_counts(a));
    assert(pairs_of_counts(b).take(b.len() as int) =~= pairs_of_counts(b));
}

/// An uppercase ASCII letter.
pub open spec fn is_upper_letter(c: char) -> bool {
    65 <= c as u32 <= 90
}

/// The uppercase letter with code `n` (valid for `0 <= n < 26`).
pub open spec fn upper_letter(n: int) -> char {
    ((n + 65) as u8) as char
}

/// What `shift_string_by` returns: each letter of `s` shifted forward by the
/// key letter at its position, the key used cyclically; empty when the key
/// is empty, since there is then no key letter to pair with any position.
pub open spec fn spec_shift_string(s: Seq<char>, k: Seq<char>) -> Seq<char> {
    if k.len() == 0 {
        Seq::empty()
    } else {
        Seq::new(
            s.len(),
            |i: int|
                upper_letter(
                    ((s[i] as u32 - 65) + (k[i % (k.len() as int)] as u32 - 65)) as int % 26,
                ),
        )
    }
}

/// Shifts every letter of the uppercase string `s` forward by the
/// corresponding letter of the uppercase key `key`, used cyclically.
pub fn shift_string_by(s: &str, key: &str) -> (r: String)
    requires
        forall|i: int| 0 <= i < s@.len() ==> is_upper_letter(#[trigger] s@[i]),
        forall|i: int| 0 <= i < key@.len() ==> is_upper_letter(#[trigger] key@[i]),
    ensures
        r@ == spec_shift_string(s@, key@),
{
    let klen = key.unicode_len();
    if klen == 0 {
        let r = String::new();
        proof {
            assert(r@ =~= spec_shift_string(s@, key@));
        }
        return r;
    }
    let len = s.unicode_len();
    let mut r = String::new();
    let mut i: usize = 0;
    while i < len
        invariant
            len == s@.len(),
            klen == key@.len(),
            klen > 0,
            forall|t: int| 0 <= t < s@.len() ==> is_upper_letter(#[trigger] s@[t]),
            forall|t: int| 0 <= t < key@.len() ==> is_upper_letter(#[trigger] key@[t]),
            i <= len,
            r@ == spec_shift_string(s@, key@).take(i as int),
        decreases len - i,
    {
        let c1 = s.get_char(i) as u32;
        let c2 = key.get_char(i % klen) as u32;
        let shifted = (((c1 - 65) + (c2 - 65)) % 26) as u8 + 65;
        crate::vigenere::push_char(&mut r, shifted as char);
        proof {
            assert(r@ =~= spec_shift_string(s@, key@).take(i + 1));
        }
        i = i + 1;
    }
    proof {
        assert(r@ =~= spec_shift_string(s@, key@));
    }
    r
}

/// What `shift_ngram` returns: every letter moved forward by the same shift.
pub open spec fn spec_shift_ngram(s: Seq<char>, shift: int) -> Seq<char> {
    Seq::new(s.len(), |i: int| upper_letter(((s[i] as u32 - 65) + shift % 26) as int % 26))
}

/// Shifts every letter of the uppercase n-gram forward by `shift` places in
/// the alphabet; the order `n` merely names the expected length.
pub fn shift_ngram(ngram: &str, n: usize, shift: usize) -> (r: String)
    requires
        forall|i: int| 0 <= i < ngram@.len() ==> is_upper_letter(#[trigger] ngram@[i]),
    ensures
        r@ == spec_shift_ngram(ngram@, shift as int),
{
    let len = ngram.unicode_len();
    let sh = (shift % 26) as u32;
    let mut r = String::new();
    let mut i: usize = 0;
    while i < len
        invariant
            len == ngram@.len(),
            sh == shift as int % 26,
            forall|t: int| 0 <= t < ngram@.len() ==> is_upper_letter(#[trigger] ngram@[t]),
            i <= len,
            r@ == spec_shift_ngram(ngram@, shift as int).take(i as int),
        decreases len - i,
    {
        let c = ngram.get_char(i) as u32;
        let shifted = ((c - 65 + sh) % 26) as u8 + 65;
        crate::vigenere::push_char(&mut r, shifted as char);
        proof {
            assert(r@ =~= spec_shift_ngram(ngram@, shift as int).take(i + 1));
        }
        i = i + 1;
    }
    proof {
        assert(r@ =~= spec_shift_ngram(ngram@, shift as int));
    }
    r
}

/// What `number_to_key` returns: the base-26 digits of `num`, least
/// significant first, each written as an uppercase letter.
pub open spec fn spec_number_to_key(n: int, num: int) -> Seq<char> {
    Seq::new(n as nat, |i: int| upper_letter((num / (pow26(i as nat) as int)) % 26))
}

/// Writes `num` in base 26 as `n` uppercase letters, least significant digit
/// first; digits beyond the n-th are dropped.
pub fn number_to_key(n: usize, num: usize) -> (r: String)
    ensures
        r@ == spec_number_to_key(n as int, num as int),
{
    let mut key = String::new();
    let mut number = num;
    let mut i: usize = 0;
    proof {
        assert(pow26(0) == 1);
        assert(num as int / 1 == num as int);
    }
    while i < n
        invariant
            i <= n,
            number == num as int / (pow26(i as nat) as int),
            key@ == spec_number_to_key(n as int, num as int).take(i as int),
        decreases n - i,
    {
        let digit = (number % 26) as u8;
        crate::vigenere::push_char(&mut key, (digit + 65) as char);
        proof {
            lemma_pow26_pos(i as nat);
            vstd::arithmetic::div_mod::lemma_div_denominator(
                num as int,
                pow26(i as nat) as int,
                26,
            );
            assert(pow26((i + 1) as nat) == 26 * pow26(i as nat));
            assert((pow26(i as nat) * 26) as int == 26 * pow26(i as nat)) by (nonlinear_arith);
            assert(key@ =~= spec_number_to_key(n as int, num as int).take(i + 1));
        }
        number = number / 26;
        i = i + 1;
    }
    proof {
        assert(key@ =~= spec_number_to_key(n as int, num as int));
    }
    key
}

/// The correlation score of the partition `s` under the hypothesis that it
/// was Caesar-shifted by `shift`: the score of the un-shifted partition
/// against the English reference model of order `n`.
pub open spec fn spec_shift_score(s: Seq<u8>, n: int, shift: u8) -> int {
    spec_text_score(crate::cryptanalysis::spec_caesar_decrypt_codes(s, shift), n)
}

/// The strict ranking order on scored shifts: higher score first, the
/// smaller shift first among equals.
pub open spec fn ranks_before(a: (u64, u8), b: (u64, u8)) -> bool {
    a.0 > b.0 || (a.0 == b.0 && a.1 < b.1)
}

/// `v` is the top-three ranking of the 26 shift hypotheses for the letter
/// codes `s`: scores are exact, the three entries are ranked, and every
/// other shift ranks at or below the third.
pub open spec fn is_top3_for(s: Seq<u8>, n: int, v: Seq<(u64, u8)>) -> bool {
    &&& v.len() == 3
    &&& forall|i: int|
        0 <= i < 3 ==> (#[trigger] v[i]).1 < 26 && v[i].0 == spec_shift_score(s, n, v[i].1)
    &&& ranks_before(v[0], v[1])
    &&& ranks_before(v[1], v[2])
    &&& forall|sh: u8|
        sh < 26 && sh != v[0].1 && sh != v[1].1 && sh != v[2].1 ==> ranks_before(
            v[2],
            (spec_shift_score(s, n, sh) as u64, sh),
        )
}

/// Ranks the 26 possible key letters for one partition of the ciphertext:
/// each shift hypothesis un-shifts the partition and scores it against the
/// English model; the three best-ranked shifts come back, best first, ties
/// broken toward the smaller shift so that the ranking is deterministic.
pub fn frequency_analysis_top_three(group: &str, n: usize, english_freqs: &Vec<(usize, u32)>)
    -> (r: Result<Vec<(u64, u8)>, CrackError>)
    requires
        group@.len() < 0xffff_ffff,
        1 <= n <= 4,
        english_freqs@ == spec_ref_pairs(n as int),
    ensures
        r is Ok <==> codes_of(group@).len() >= n,
        r is Err ==> r->Err_0 == CrackError::TextTooShort,
        r is Ok ==> is_top3_for(codes_of(group@), n as int, r->Ok_0@),
{
    let codes = string_to_numbers(group);
    proof {
        lemma_codes_of_in_range(group@);
        lemma_codes_of_len_le(group@);
        lemma_ref_pairs_ok(n as int);
    }
    if codes.len() < n {
        return Err(CrackError::TextTooShort);
    }
    let mut scores: Vec<u64> = Vec::new();
    let mut sh: usize = 0;
    while sh < 26
        invariant
            codes@ == codes_of(group@),
            codes@.len() < 0xffff_ffff,
            codes@.len() >= n,
            1 <= n <= 4,
            english_freqs@ == spec_ref_pairs(n as int),
            forall|t: int| 0 <= t < codes@.len() ==> codes@[t] < 26,
            sh <= 26,
            scores@.len() == sh,
            forall|t: int|
                0 <= t < sh ==> scores@[t] == spec_shift_score(codes@, n as int, t as u8),
        decreases 26 - sh,
    {
        let shift = sh as u8;
        let mut shifted: Vec<u8> = Vec::new();
        let mut i: usize = 0;
        while i < codes.len()
            invariant
                shift < 26,
                forall|t: int| 0 <= t < codes@.len() ==> codes@[t] < 26,
                i <= codes@.len(),
                shifted@ == crate::cryptanalysis::spec_caesar_decrypt_codes(codes@, shift).take(
                    i as int,
                ),
                forall|t: int| 0 <= t < shifted@.len() ==> shifted@[t] < 26,
            decreases codes@.len() - i,
        {
            shifted.push((codes[i] + 26 - shift) % 26);
            proof {
                assert(shifted@ =~= crate::cryptanalysis::spec_caesar_decrypt_codes(
                    codes@,
                    shift,
                ).take(i + 1));
            }
            i = i + 1;
        }
        proof {
            assert(shifted@ =~= crate::cryptanalysis::spec_caesar_decrypt_codes(codes@, shift));
        }
        proof {
            lemma_ref_pairs_ok(n as int);
        }
        let dist = dist_of_codes(&shifted, n);
        proof {
            assert(dist.counts@ =~= spec_window_counts(shifted@, n as int));
        }
        let score = correlation_score(&dist, english_freqs);
        scores.push(score);
        sh = sh + 1;
    }
    // Three passes: each picks the best-ranked shift not chosen before.
    let mut b0: usize = 0;
    let mut t: usize = 1;
    while t < 26
        invariant
            scores@.len() == 26,
            b0 < t <= 26,
            forall|u: int|
                0 <= u < t && u != b0 ==> ranks_before(
                    (scores@[b0 as int], b0 as u8),
                    (#[trigger] scores@[u], u as u8),
                ),
        decreases 26 - t,
    {
        if scores[t] > scores[b0] {
            b0 = t;
        }
        t = t + 1;
    }
    let mut b1: usize = 26;
    let mut t: usize = 0;
    while t < 26
        invariant
            scores@.len() == 26,
            b0 < 26,
            t <= 26,
            b1 == 26 || (b1 < t && b1 != b0),
            b1 == 26 ==> (t == 0 || (t == 1 && b0 == 0)),
            b1 < 26 ==> forall|u: int|
                0 <= u < t && u != b0 && u != b1 ==> ranks_before(
                    (scores@[b1 as int], b1 as u8),
                    (#[trigger] scores@[u], u as u8),
                ),
        decreases 26 - t,
    {
        if t != b0 && (b1 == 26 || scores[t] > scores[b1]) {
            b1 = t;
        }
        t = t + 1;
    }
    let mut b2: usize = 26;
    let mut t: usize = 0;
    while t < 26
        invariant
            scores@.len() == 26,
            b0 < 26,
            b1 < 26,
            b1 != b0,
            t <= 26,
            b2 == 26 || (b2 < t && b2 != b0 && b2 != b1),
            b2 == 26 ==> t <= 2 && (t >= 1 ==> (b0 == 0 || b1 == 0)) && (t >= 2 ==> ((b0 == 0
                && b1 == 1) || (b0 == 1 && b1 == 0))),
            b2 < 26 ==> forall|u: int|
                0 <= u < t && u != b0 && u != b1 && u != b2 ==> ranks_before(
                    (scores@[b2 as int], b2 as u8),
                    (#[trigger] scores@[u], u as u8),
                ),
        decreases 26 - t,
    {
        if t != b0 && t != b1 && (b2 == 26 || scores[t] > scores[b2]) {
            b2 = t;
        }
        t = t + 1;
    }
    let mut r: Vec<(u64, u8)> = Vec::new();
    r.push((scores[b0], b0 as u8));
    r.push((scores[b1], b1 as u8));
    r.push((scores[b2], b2 as u8));
    proof {
        assert forall|s2: u8|
            s2 < 26 && s2 != r@[0].1 && s2 != r@[1].1 && s2 != r@[2].1 implies ranks_before(
            r@[2],
            (spec_shift_score(codes@, n as int, s2) as u64, s2),
        ) by {
            assert(scores@[s2 as int] == spec_shift_score(codes@, n as int, s2));
        }
    }
    Ok(r)
}

/// The number of entries of the partition of a `len`-long sequence with
/// stride `l` that starts at offset `g`.
pub open spec fn spec_partition_len(len: int, l: int, g: int) -> int
    recommends
        l >= 1,
        g >= 0,
{
    if g >= len {
        0
    } else {
        (len - g - 1) / l + 1
    }
}

/// The partition of `s` at offset `g` with stride `l`: every `l`-th element
/// starting from position `g`, in order.
pub open spec fn spec_partition(s: Seq<u8>, l: int, g: int) -> Seq<u8>
    recommends
        l >= 1,
        0 <= g,
{
    Seq::new(spec_partition_len(s.len() as int, l, g) as nat, |j: int| s[g + j * l])
}

/// Splits the letter codes into `l` interleaved partitions: code `i` lands
/// in partition `i % l`, order preserved, so each partition collects the
/// positions that one key letter encrypted.
fn partition_codes(codes: &Vec<u8>, l: usize) -> (r: Vec<Vec<u8>>)
    requires
        1 <= l <= 0xffff,
        codes@.len() < 0xfff0_0000,
        forall|i: int| 0 <= i < codes@.len() ==> codes@[i] < 26,
    ensures
        r@.len() == l,
        forall|g: int| 0 <= g < l ==> #[trigger] r@[g]@ == spec_partition(codes@, l as int, g),
        forall|g: int, u: int|
            0 <= g < l && 0 <= u < r@[g]@.len() ==> #[trigger] r@[g]@[u] < 26,
{
    let mut r: Vec<Vec<u8>> = Vec::new();
    let mut g: usize = 0;
    while g < l
        invariant
            1 <= l <= 0xffff,
            codes@.len() < 0xfff0_0000,
            forall|i: int| 0 <= i < codes@.len() ==> codes@[i] < 26,
            g <= l,
            r@.len() == g,
            forall|g2: int|
                0 <= g2 < g ==> #[trigger] r@[g2]@ == spec_partition(codes@, l as int, g2),
            forall|g2: int, u: int|
                0 <= g2 < g && 0 <= u < r@[g2]@.len() ==> #[trigger] r@[g2]@[u] < 26,
        decreases l - g,
    {
        let mut group: Vec<u8> = Vec::new();
        let mut j: usize = 0;
        let mut idx: usize = g;
        while idx < codes.len()
            invariant
                1 <= l <= 0xffff,
                g < l,
                codes@.len() < 0xfff0_0000,
                forall|i: int| 0 <= i < codes@.len() ==> codes@[i] < 26,
                idx == g + j * l,
                j <= idx,
                j == 0 || idx - l < codes@.len(),
                group@.len() == j,
                forall|u: int| 0 <= u < j ==> #[trigger] group@[u] == codes@[g + u * (l as int)],
                forall|u: int| 0 <= u < j ==> #[trigger] group@[u] < 26,
            decreases codes@.len() + l - idx,
        {
            group.push(codes[idx]);
            proof {
                assert((j + 1) * (l as int) == j * (l as int) + (l as int)) by (nonlinear_arith);
            }
            j = j + 1;
            idx = idx + l;
        }
        proof {
            let len = codes@.len() as int;
            let li = l as int;
            let ji = j as int;
            if g >= len {
                if ji >= 1 {
                    assert((ji - 1) * li >= 0) by (nonlinear_arith)
                        requires
                            ji >= 1,
                            li >= 1,
                    ;
                    assert(ji * li == (ji - 1) * li + li) by (nonlinear_arith);
                    assert(false);
                }
                assert(ji == 0);
                assert(group@ =~= spec_partition(codes@, li, g as int));
            } else {
                assert(ji >= 1);
                let rem = len - 1 - g - (ji - 1) * li;
                assert(ji * li == (ji - 1) * li + li) by (nonlinear_arith);
                assert(0 <= rem < li);
                vstd::arithmetic::div_mod::lemma_fundamental_div_mod_converse_div(
                    len - g - 1,
                    li,
                    ji - 1,
                    rem,
                );
                assert((len - g - 1) / li == ji - 1);
                assert(spec_partition_len(len, li, g as int) == ji);
                assert(group@ =~= spec_partition(codes@, li, g as int));
            }
        }
        r.push(group);
        g = g + 1;
    }
    r
}

/// Every string of `acc` followed by every candidate of `xs`, in order.
pub open spec fn spec_expand(acc: Seq<Seq<char>>, xs: Seq<Seq<char>>) -> Seq<Seq<char>>
    decreases acc.len(),
{
    if acc.len() == 0 {
        Seq::empty()
    } else {
        spec_expand(acc.drop_last(), xs) + Seq::new(xs.len(), |j: int| acc.last() + xs[j])
    }
}

/// All concatenations of one candidate from each list, in order: the last
/// position varies fastest.
pub open spec fn spec_key_combinations(keys: Seq<Seq<Seq<char>>>) -> Seq<Seq<char>>
    decreases keys.len(),
{
    if keys.len() == 0 {
        seq![Seq::<char>::empty()]
    } else {
        spec_expand(spec_key_combinations(keys.drop_last()), keys.last())
    }
}

/// The character sequences behind a slice of candidate-string lists.
pub open spec fn key_views(keys: Seq<Vec<String>>) -> Seq<Seq<Seq<char>>> {
    Seq::new(keys.len(), |i: int| Seq::new(keys[i]@.len(), |j: int| keys[i]@[j]@))
}

/// Forms every combination of one candidate string per key position, in
/// order with the last position varying fastest, by growing the partial
/// combinations position by position.
pub fn generate_key_combinations(keys: &[Vec<String>]) -> (r: Vec<String>)
    ensures
        r@.len() == spec_key_combinations(key_views(keys@)).len(),
        forall|t: int|
            0 <= t < r@.len() ==> (#[trigger] r@[t])@ == spec_key_combinations(key_views(keys@))[t],
{
    let ghost kv = key_views(keys@);
    let mut acc: Vec<String> = Vec::new();
    acc.push(String::new());
    proof {
        assert(spec_key_combinations(kv.take(0)).len() == 1);
        assert(acc@[0]@ =~= spec_key_combinations(kv.take(0))[0]);
    }
    let mut idx: usize = 0;
    while idx < keys.len()
        invariant
            kv == key_views(keys@),
            kv.len() == keys@.len(),
            idx <= keys@.len(),
            acc@.len() == spec_key_combinations(kv.take(idx as int)).len(),
            forall|t: int|
                0 <= t < acc@.len() ==> (#[trigger] acc@[t])@ == spec_key_combinations(
                    kv.take(idx as int),
                )[t],
        decreases keys@.len() - idx,
    {
        let ghost prev = spec_key_combinations(kv.take(idx as int));
        let ghost xs = kv[idx as int];
        proof {
            assert(xs.len() == keys@[idx as int]@.len());
            assert(forall|j: int| 0 <= j < xs.len() ==> xs[j] == keys@[idx as int]@[j]@);
        }
        let mut next: Vec<String> = Vec::new();
        let mut a: usize = 0;
        while a < acc.len()
            invariant
                kv == key_views(keys@),
                idx < keys@.len(),
                xs == kv[idx as int],
                xs.len() == keys@[idx as int]@.len(),
                forall|j: int| 0 <= j < xs.len() ==> xs[j] == keys@[idx as int]@[j]@,
                acc@.len() == prev.len(),
                forall|t: int| 0 <= t < acc@.len() ==> (#[trigger] acc@[t])@ == prev[t],
                a <= acc@.len(),
                next@.len() == spec_expand(prev.take(a as int), xs).len(),
                forall|t: int|
                    0 <= t < next@.len() ==> (#[trigger] next@[t])@ == spec_expand(
                        prev.take(a as int),
                        xs,
                    )[t],
            decreases acc@.len() - a,
        {
            let ghost block_base = spec_expand(prev.take(a as int), xs).len();
            let klen = keys[idx].len();
            let mut x: usize = 0;
            while x < klen
                invariant
                    kv == key_views(keys@),
                    idx < keys@.len(),
                    a < acc@.len(),
                    xs == kv[idx as int],
                    klen == xs.len(),
                    klen == keys@[idx as int]@.len(),
                    forall|j: int| 0 <= j < xs.len() ==> xs[j] == keys@[idx as int]@[j]@,
                    acc@.len() == prev.len(),
                    forall|t: int| 0 <= t < acc@.len() ==> (#[trigger] acc@[t])@ == prev[t],
                    block_base == spec_expand(prev.take(a as int), xs).len(),
                    x <= klen,
                    next@.len() == block_base + x,
                    forall|t: int|
                        0 <= t < block_base ==> (#[trigger] next@[t])@ == spec_expand(
                            prev.take(a as int),
                            xs,
                        )[t],
                    forall|u: int|
                        0 <= u < x ==> (#[trigger] next@[block_base + u])@ == prev[a as int]
                            + xs[u],
                decreases klen - x,
            {
                let mut scopy = acc[a].clone();
                scopy.append(keys[idx][x].as_str());
                next.push(scopy);
                x = x + 1;
            }
            proof {
                let pa1 = prev.take(a + 1);
                assert(pa1.drop_last() =~= prev.take(a as int));
                assert(pa1.last() == prev[a as int]);
                assert(spec_expand(pa1, xs) == spec_expand(prev.take(a as int), xs) + Seq::new(
                    xs.len(),
                    |j: int| prev[a as int] + xs[j],
                ));
                assert(next@.len() == spec_expand(prev.take(a + 1), xs).len());
                assert forall|t: int|
                    0 <= t < next@.len() implies (#[trigger] next@[t])@ == spec_expand(
                    prev.take(a + 1),
                    xs,
                )[t] by {
                    if t < block_base {
                        assert(next@[t]@ == spec_expand(prev.take(a as int), xs)[t]);
                    } else {
                        let u = t - block_base;
                        assert(next@[block_base + u]@ == prev[a as int] + xs[u]);
                        assert(spec_expand(prev.take(a + 1), xs)[t] == prev[a as int] + xs[u]);
                    }
                }
            }
            a = a + 1;
        }
        proof {
            assert(prev.take(prev.len() as int) =~= prev);
            let kt1 = kv.take(idx + 1);
            assert(kt1.drop_last() =~= kv.take(idx as int));
            assert(kt1.last() == kv[idx as int]);
            assert(spec_key_combinations(kt1) == spec_expand(prev, xs));
        }
        acc = next;
        idx = idx + 1;
    }
    proof {
        assert(kv.take(kv.len() as int) =~= kv);
    }
    acc
}

/// A list of key-candidate lists whose candidates are all single letters.
pub open spec fn all_single_letter_candidates(lists: Seq<Seq<Seq<char>>>) -> bool {
    forall|g: int, j: int|
        0 <= g < lists.len() && 0 <= j < lists[g].len() ==> (#[trigger] lists[g][j]).len() == 1
            && is_ascii_letter(lists[g][j][0])
}

proof fn lemma_expand_letters(acc: Seq<Seq<char>>, xs: Seq<Seq<char>>, len: int)
    // proved by peeling the last accumulated string and its block of combinations
    requires
        forall|t: int|
            0 <= t < acc.len() ==> (#[trigger] acc[t]).len() == len && (forall|c: int|
                0 <= c < acc[t].len() ==> is_ascii_letter(#[trigger] acc[t][c])),
        forall|j: int|
            0 <= j < xs.len() ==> (#[trigger] xs[j]).len() == 1 && is_ascii_letter(xs[j][0]),
    ensures
        forall|t: int|
            0 <= t < spec_expand(acc, xs).len() ==> (#[trigger] spec_expand(acc, xs)[t]).len()
                == len + 1 && (forall|c: int|
                0 <= c < spec_expand(acc, xs)[t].len() ==> is_ascii_letter(
                    #[trigger] spec_expand(acc, xs)[t][c],
                )),
    decreases acc.len(),
{
    if acc.len() > 0 {
        lemma_expand_letters(acc.drop_last(), xs, len);
        let block = Seq::new(xs.len(), |j: int| acc.last() + xs[j]);
        assert forall|j: int|
            0 <= j < block.len() implies (#[trigger] block[j]).len() == len + 1 && (forall|c: int|
            0 <= c < block[j].len() ==> is_ascii_letter(#[trigger] block[j][c])) by {
            assert(acc[acc.len() - 1].len() == len);
            assert forall|c: int| 0 <= c < block[j].len() implies is_ascii_letter(
                #[trigger] block[j][c],
            ) by {
                if c < len {
                    assert(block[j][c] == acc.last()[c]);
                    assert(is_ascii_letter(acc[acc.len() - 1][c]));
                } else {
                    assert(block[j][c] == xs[j][0]);
                }
            }
        }
        let whole = spec_expand(acc, xs);
        let front = spec_expand(acc.drop_last(), xs);
        assert(whole == front + block);
        assert forall|t: int|
            0 <= t < whole.len() implies (#[trigger] whole[t]).len() == len + 1 && (forall|c: int|
            0 <= c < whole[t].len() ==> is_ascii_letter(#[trigger] whole[t][c])) by {
            if t < front.len() {
                assert(whole[t] == front[t]);
                assert(front[t].len() == len + 1 && (forall|c: int|
                    0 <= c < front[t].len() ==> is_ascii_letter(#[trigger] front[t][c])));
            } else {
                assert(whole[t] == block[t - front.len()]);
                assert(block[t - front.len()].len() == len + 1 && (forall|c: int|
                    0 <= c < block[t - front.len()].len() ==> is_ascii_letter(
                        #[trigger] block[t - front.len()][c],
                    )));
            }
        }
    }
}

/// Every combination of single-letter candidates is a string of letters,
/// one per key position.
proof fn lemma_combos_single_letters(lists: Seq<Seq<Seq<char>>>)
    requires
        all_single_letter_candidates(lists),
    ensures
        forall|u: int|
            0 <= u < spec_key_combinations(lists).len() ==> (#[trigger] spec_key_combinations(
                lists,
            )[u]).len() == lists.len() && (forall|c: int|
                0 <= c < spec_key_combinations(lists)[u].len() ==> is_ascii_letter(
                    #[trigger] spec_key_combinations(lists)[u][c],
                )),
    decreases lists.len(),
{
    if lists.len() == 0 {
    } else {
        assert(all_single_letter_candidates(lists.drop_last())) by {
            assert forall|g: int, j: int|
                0 <= g < lists.drop_last().len() && 0 <= j < lists.drop_last()[g].len() implies (
            #[trigger] lists.drop_last()[g][j]).len() == 1 && is_ascii_letter(
                lists.drop_last()[g][j][0],
            ) by {
                assert(lists.drop_last()[g] == lists[g]);
                assert(lists[g][j].len() == 1 && is_ascii_letter(lists[g][j][0]));
            }
        }
        lemma_combos_single_letters(lists.drop_last());
        assert forall|j: int|
            0 <= j < lists.last().len() implies (#[trigger] lists.last()[j]).len() == 1
            && is_ascii_letter(lists.last()[j][0]) by {
            assert(lists[lists.len() - 1][j].len() == 1 && is_ascii_letter(
                lists[lists.len() - 1][j][0],
            ));
        }
        lemma_expand_letters(
            spec_key_combinations(lists.drop_last()),
            lists.last(),
            lists.len() - 1,
        );
    }
}

/// Sorts scored candidates by score, highest first, keeping exactly the
/// same collection of triples.
fn sort_scored_desc(v: Vec<(String, String, u64)>) -> (r: Vec<(String, String, u64)>)
    ensures
        r@.len() == v@.len(),
        r@.to_multiset() == v@.to_multiset(),
        forall|a: int, b: int| 0 <= a < b < r@.len() ==> r@[a].2 >= r@[b].2,
{
    broadcast use group_to_multiset_ensures;

    let ghost orig = v@;
    let mut rest = v;
    let mut out: Vec<(String, String, u64)> = Vec::new();
    while rest.len() > 0
        invariant
            out@.len() + rest@.len() == orig.len(),
            out@.to_multiset().add(rest@.to_multiset()) == orig.to_multiset(),
            forall|a: int, b: int| 0 <= a < b < out@.len() ==> out@[a].2 >= out@[b].2,
        decreases rest@.len(),
    {
        let ghost rest_before = rest@;
        let x = rest.pop().unwrap();
        proof {
            rest@.to_multiset_ensures();
            assert(rest_before =~= rest@.push(x));
            assert(rest_before == rest@.push(x));
            assert(rest@.push(x).to_multiset() =~= rest@.to_multiset().insert(x));
            assert(rest_before.to_multiset() =~= rest@.to_multiset().insert(x));
        }
        let mut pos: usize = 0;
        while pos < out.len() && out[pos].2 >= x.2
            invariant
                pos <= out@.len(),
                forall|t: int| 0 <= t < pos ==> out@[t].2 >= x.2,
            decreases out@.len() - pos,
        {
            pos = pos + 1;
        }
        let ghost out_before = out@;
        let ghost xsnap = x;
        out.insert(pos, x);
        proof {
            out@.to_multiset_ensures();
            assert(out@ == out_before.insert(pos as int, xsnap));
            assert(out@.remove(pos as int) =~= out_before);
            assert(out@[pos as int] == xsnap);
            assert(out@.contains(xsnap));
            assert(out@.to_multiset().count(xsnap) > 0);
            assert(out@.remove(pos as int).to_multiset() =~= out@.to_multiset().remove(xsnap));
            assert(out_before.to_multiset() =~= out@.to_multiset().remove(xsnap));
            assert(out@.to_multiset() =~= out_before.to_multiset().insert(xsnap)) by {
                assert forall|e: (String, String, u64)|
                    out@.to_multiset().count(e) == out_before.to_multiset().insert(
                        xsnap,
                    ).count(e) by {
                    if e == xsnap {
                        assert(out@.to_multiset().remove(xsnap).count(e) == out@.to_multiset().count(
                            e,
                        ) - 1);
                    } else {
                        assert(out@.to_multiset().remove(xsnap).count(e) == out@.to_multiset().count(
                            e,
                        ));
                    }
                }
            }
            assert(out@.to_multiset().add(rest@.to_multiset()) =~= orig.to_multiset());
            assert forall|a: int, b: int| 0 <= a < b < out@.len() implies out@[a].2 >= out@[b].2 by {
                if b < pos {
                    assert(out@[a] == out_before[a] && out@[b] == out_before[b]);
                } else if a < pos && b == pos {
                    assert(out@[a] == out_before[a]);
                    assert(out_before[a].2 >= xsnap.2);
                } else if a < pos {
                    assert(out@[a] == out_before[a] && out@[b] == out_before[b - 1]);
                    assert(out_before[a].2 >= xsnap.2);
                    if pos < out_before.len() {
                        assert(out_before[pos as int].2 < xsnap.2 || out_before.len() == pos);
                    }
                } else if a == pos {
                    assert(out@[b] == out_before[b - 1]);
                    assert(b - 1 >= pos);
                    assert(out_before[pos as int].2 < xsnap.2);
                    if b - 1 > pos {
                        assert(out_before[pos as int].2 >= out_before[b - 1].2);
                    }
                } else {
                    assert(out@[a] == out_before[a - 1] && out@[b] == out_before[b - 1]);
                }
            }
        }
    }
    out
}

/// The score that the combination search assigns to a candidate key: the
/// score of the Vigenere decryption of the ciphertext under that key.
pub open spec fn combo_score(ciphertext: Seq<char>, key: Seq<char>, n: int) -> int {
    spec_text_score(codes_of(spec_vigenere_decrypt(ciphertext, key)), n)
}

/// The one-letter string for a letter code.
pub open spec fn spec_letter_string(code: u8) -> Seq<char> {
    seq![spec_number_to_letter(code)->Some_0]
}

/// The three ranked shifts of a top-three ranking, written as one-letter
/// candidate strings, best first.
pub open spec fn letter_list_of(v: Seq<(u64, u8)>) -> Seq<Seq<char>> {
    Seq::new(3, |j: int| spec_letter_string(v[j].1))
}

/// Position `g` of `lists` holds the one-letter strings of some top-three
/// ranking of that position's partition.
pub open spec fn position_ranked(
    s: Seq<u8>,
    l: int,
    n: int,
    lists: Seq<Seq<Seq<char>>>,
    g: int,
) -> bool {
    exists|v: Seq<(u64, u8)>|
        is_top3_for(spec_partition(s, l, g), n, v) && lists[g] == letter_list_of(v)
}

/// `lists` holds, for every key position, the three top-ranked candidate
/// key letters of that position's partition, best first.
pub open spec fn is_candidate_lists(
    s: Seq<u8>,
    l: int,
    n: int,
    lists: Seq<Seq<Seq<char>>>,
) -> bool {
    &&& lists.len() == l
    &&& forall|g: int| 0 <= g < l ==> #[trigger] position_ranked(s, l, n, lists, g)
}

/// Recovers Vigenere keys of a known length: the ciphertext's letters are
/// split into one partition per key position, the three best-ranked key
/// letters of each partition are combined into candidate keys, and every
/// candidate decryption is scored against the English model of order `n`.
/// The `top_n` best-scoring triples of key, decryption and score come back,
/// best first. Key lengths above 12 are rejected so that the candidate key
/// space stays within bounds.
pub fn break_vigenere_with_known_key_length(
    ciphertext: &str,
    key_length: usize,
    n: usize,
    top_n: usize,
) -> (r: Result<Vec<(String, String, u64)>, CrackError>)
    requires
        ciphertext@.len() < 0xfff0_0000,
    ensures
        r is Ok <==> (1 <= n <= 4 && 1 <= key_length <= 12 && forall|g: int|
            0 <= g < key_length ==> spec_partition_len(
                codes_of(ciphertext@).len() as int,
                key_length as int,
                g,
            ) >= n),
        !(1 <= n <= 4) ==> r == Result::<Vec<(String, String, u64)>, CrackError>::Err(
            CrackError::UnsupportedNgramLength,
        ),
        1 <= n <= 4 && key_length == 0 ==> r == Result::<Vec<(String, String, u64)>, CrackError>::Err(
            CrackError::InvalidKeyLength,
        ),
        1 <= n <= 4 && key_length > 12 ==> r == Result::<Vec<(String, String, u64)>, CrackError>::Err(
            CrackError::KeySpaceTooLarge,
        ),
        r is Err && 1 <= n <= 4 && 1 <= key_length <= 12 ==> r == Result::<
            Vec<(String, String, u64)>,
            CrackError,
        >::Err(CrackError::TextTooShort),
        r is Ok ==> exists|lists: Seq<Seq<Seq<char>>>|
            #[trigger] is_candidate_lists(
                codes_of(ciphertext@),
                key_length as int,
                n as int,
                lists,
            ) && {
                let combos = spec_key_combinations(lists);
                let results = r->Ok_0@;
                &&& results.len() == if top_n <= combos.len() {
                    top_n as int
                } else {
                    combos.len() as int
                }
                &&& forall|t: int|
                    0 <= t < results.len() ==> exists|u: int|
                        0 <= u < combos.len() && #[trigger] combos[u] == (
                        #[trigger] results[t]).0@ && results[t].1@ == spec_vigenere_decrypt(
                            ciphertext@,
                            combos[u],
                        ) && results[t].2 == combo_score(ciphertext@, combos[u], n as int)
                &&& forall|a: int, b: int| 0 <= a < b < results.len() ==> results[a].2 >= results[b].2
                &&& results.len() > 0 ==> forall|u: int|
                    0 <= u < combos.len() ==> combo_score(ciphertext@, #[trigger] combos[u], n as int)
                        <= results[0].2
            },
{
    if n < 1 || n > 4 {
        return Err(CrackError::UnsupportedNgramLength);
    }
    if key_length == 0 {
        return Err(CrackError::InvalidKeyLength);
    }
    if key_length > 12 {
        return Err(CrackError::KeySpaceTooLarge);
    }
    let codes = string_to_numbers(ciphertext);
    proof {
        lemma_codes_of_in_range(ciphertext@);
        lemma_codes_of_len_le(ciphertext@);
    }
    let table = match english_frequencies(n) {
        Ok(t) => t,
        Err(_) => {
            proof {
                assert(false);
            }
            return Err(CrackError::UnsupportedNgramLength);
        },
    };
    let groups = partition_codes(&codes, key_length);
    let mut top_keys: Vec<Vec<String>> = Vec::new();
    let ghost mut wits: Seq<Seq<(u64, u8)>> = Seq::empty();
    let mut g: usize = 0;
    while g < key_length
        invariant
            1 <= n <= 4,
            1 <= key_length <= 12,
            codes@ == codes_of(ciphertext@),
            codes@.len() < 0xfff0_0000,
            forall|t: int| 0 <= t < codes@.len() ==> codes@[t] < 26,
            table@ == spec_ref_pairs(n as int),
            groups@.len() == key_length,
            forall|g2: int|
                0 <= g2 < key_length ==> #[trigger] groups@[g2]@ == spec_partition(
                    codes@,
                    key_length as int,
                    g2,
                ),
            forall|g2: int, t: int|
                0 <= g2 < key_length && 0 <= t < groups@[g2]@.len() ==> #[trigger] groups@[g2]@[t]
                    < 26,
            g <= key_length,
            top_keys@.len() == g,
            forall|g2: int|
                0 <= g2 < g ==> spec_partition_len(
                    codes@.len() as int,
                    key_length as int,
                    g2,
                ) >= n,
            wits.len() == g,
            forall|g2: int|
                0 <= g2 < g ==> is_top3_for(
                    spec_partition(codes@, key_length as int, g2),
                    n as int,
                    #[trigger] wits[g2],
                ) && key_views(top_keys@)[g2] == letter_list_of(wits[g2]),
        decreases key_length - g,
    {
        let group_str = numbers_to_string(groups[g].as_slice());
        proof {
            assert(groups@[g as int]@ == spec_partition(codes@, key_length as int, g as int));
            assert(forall|t: int|
                0 <= t < groups@[g as int]@.len() ==> #[trigger] groups@[g as int]@[t] < 26);
            crate::vigenere::lemma_numbers_to_string_len(groups@[g as int]@);
            crate::vigenere::lemma_string_of_codes_inverse(groups@[g as int]@);
            assert(codes_of(group_str@) == groups@[g as int]@);
        }
        let top3 = match frequency_analysis_top_three(&group_str, n, &table) {
            Ok(t) => t,
            Err(e) => {
                proof {
                    assert(spec_partition_len(codes@.len() as int, key_length as int, g as int)
                        < n);
                }
                return Err(e);
            },
        };
        let mut list: Vec<String> = Vec::new();
        let mut jpos: usize = 0;
        while jpos < 3
            invariant
                top3@.len() == 3,
                forall|i: int| 0 <= i < 3 ==> (#[trigger] top3@[i]).1 < 26,
                jpos <= 3,
                list@.len() == jpos,
                forall|i: int|
                    0 <= i < jpos ==> (#[trigger] list@[i])@ == spec_letter_string(top3@[i].1),
            decreases 3 - jpos,
        {
            let shift = top3[jpos].1;
            let one = vec![shift];
            let letter = numbers_to_string(one.as_slice());
            proof {
                assert(one@ =~= seq![shift]);
                assert(one@ == seq![shift]);
                assert(seq![shift].drop_last() =~= Seq::<u8>::empty());
                assert(seq![shift].drop_last() == Seq::<u8>::empty());
                assert(spec_numbers_to_string(Seq::<u8>::empty()) == Seq::<char>::empty());
                assert(seq![shift].last() == shift);
                assert(shift < 26);
                assert(spec_numbers_to_string(seq![shift]) =~= seq![
                    spec_number_to_letter(shift)->Some_0,
                ]);
                assert(letter@ =~= spec_letter_string(shift));
            }
            list.push(letter);
            jpos = jpos + 1;
        }
        let ghost prev_views = key_views(top_keys@);
        let ghost vwit = top3@;
        top_keys.push(list);
        proof {
            wits = wits.push(vwit);
            assert(key_views(top_keys@).len() == g + 1);
            assert forall|g2: int| 0 <= g2 < g + 1 implies is_top3_for(
                spec_partition(codes@, key_length as int, g2),
                n as int,
                #[trigger] wits[g2],
            ) && key_views(top_keys@)[g2] == letter_list_of(wits[g2]) by {
                if g2 < g {
                    assert(key_views(top_keys@)[g2] =~= prev_views[g2]);
                    assert(wits[g2] == wits.drop_last()[g2]);
                    assert(prev_views[g2] == letter_list_of(wits[g2]));
                } else {
                    assert(wits[g2] == vwit);
                    assert(is_top3_for(
                        spec_partition(codes@, key_length as int, g2),
                        n as int,
                        vwit,
                    ));
                    assert(key_views(top_keys@)[g2] =~= letter_list_of(vwit));
                }
            }
        }
        g = g + 1;
    }
    let ghost lists = key_views(top_keys@);
    proof {
        assert(lists.len() == key_length as int);
        assert forall|g2: int| 0 <= g2 < key_length as int implies #[trigger] position_ranked(
            codes@,
            key_length as int,
            n as int,
            lists,
            g2,
        ) by {
            assert(is_top3_for(
                spec_partition(codes@, key_length as int, g2),
                n as int,
                wits[g2],
            ) && lists[g2] == letter_list_of(wits[g2]));
        }
        assert(is_candidate_lists(codes@, key_length as int, n as int, lists));
        assert forall|g2: int, j2: int|
            0 <= g2 < lists.len() && 0 <= j2 < lists[g2].len() implies (
        #[trigger] lists[g2][j2]).len() == 1 && is_ascii_letter(lists[g2][j2][0]) by {
            assert(lists[g2] == letter_list_of(wits[g2]));
            assert(lists[g2][j2] == spec_letter_string(wits[g2][j2].1));
            assert(wits[g2][j2].1 < 26);
        }
        lemma_combos_single_letters(lists);
    }
    let combos_vec = generate_key_combinations(top_keys.as_slice());
    let ghost combos = spec_key_combinations(lists);
    proof {
        // The whole ciphertext holds at least one window: its first
        // partition does, and a partition is never longer than the text.
        assert(spec_partition_len(codes@.len() as int, key_length as int, 0) >= n);
        if codes@.len() > 0 {
            vstd::arithmetic::div_mod::lemma_div_nonincreasing(
                codes@.len() - 1,
                key_length as int,
            );
        }
        assert(codes@.len() >= n);
    }
    let mut scored: Vec<(String, String, u64)> = Vec::new();
    let mut u: usize = 0;
    while u < combos_vec.len()
        invariant
            1 <= n <= 4,
            1 <= key_length <= 12,
            codes@ == codes_of(ciphertext@),
            codes@.len() < 0xfff0_0000,
            codes@.len() >= n,
            forall|t: int| 0 <= t < codes@.len() ==> codes@[t] < 26,
            combos_vec@.len() == combos.len(),
            forall|t: int| 0 <= t < combos_vec@.len() ==> (#[trigger] combos_vec@[t])@ == combos[t],
            forall|t: int|
                0 <= t < combos.len() ==> (#[trigger] combos[t]).len() == key_length && (forall|
                    c: int,
                |
                    0 <= c < combos[t].len() ==> is_ascii_letter(#[trigger] combos[t][c])),
            u <= combos_vec@.len(),
            scored@.len() == u,
            forall|t: int|
                0 <= t < u ==> {
                    let (key, plain, score) = #[trigger] scored@[t];
                    &&& key@ == combos[t]
                    &&& plain@ == spec_vigenere_decrypt(ciphertext@, combos[t])
                    &&& score == combo_score(ciphertext@, combos[t], n as int)
                },
        decreases combos_vec@.len() - u,
    {
        let key_s = combos_vec[u].clone();
        proof {
            assert(key_s@ == combos[u as int]);
            lemma_codes_of_all_letters(key_s@);
            assert(codes_of(key_s@).len() == key_length);
        }
        let decrypted = vigenere_decrypt(ciphertext, key_s.as_str());
        proof {
            let deccodes = crate::vigenere::spec_decrypt_codes(codes@, codes_of(key_s@));
            assert(decrypted@ == spec_numbers_to_string(deccodes));
            crate::vigenere::lemma_numbers_to_string_len(deccodes);
            assert forall|t: int| 0 <= t < deccodes.len() implies deccodes[t] < 26 by {
                vstd::arithmetic::div_mod::lemma_mod_division_less_than_divisor(
                    codes@[t] + 26 - codes_of(key_s@)[t % (codes_of(key_s@).len() as int)],
                    26,
                );
            }
            crate::vigenere::lemma_string_of_codes_inverse(deccodes);
            assert(codes_of(decrypted@) == deccodes);
            assert(deccodes.len() == codes@.len());
        }
        let score = match text_score(decrypted.as_str(), n) {
            Ok(p) => p.0,
            Err(_) => {
                proof {
                    assert(false);
                }
                return Err(CrackError::TextTooShort);
            },
        };
        scored.push((key_s, decrypted, score));
        u = u + 1;
    }
    let ghost scored_snap = scored@;
    let mut sorted = sort_scored_desc(scored);
    let ghost sorted_snap = sorted@;
    proof {
        sorted_snap.to_multiset_ensures();
        scored_snap.to_multiset_ensures();
        assert forall|t: int| 0 <= t < sorted_snap.len() implies scored_snap.contains(
            #[trigger] sorted_snap[t],
        ) by {
            assert(sorted_snap.to_multiset().count(sorted_snap[t]) > 0);
            assert(scored_snap.to_multiset().count(sorted_snap[t]) > 0);
        }
        assert forall|w: int| 0 <= w < scored_snap.len() implies sorted_snap.contains(
            #[trigger] scored_snap[w],
        ) by {
            assert(scored_snap.to_multiset().count(scored_snap[w]) > 0);
            assert(sorted_snap.to_multiset().count(scored_snap[w]) > 0);
        }
    }
    if top_n < sorted.len() {
        sorted.truncate(top_n);
        proof {
            assert(sorted@ =~= sorted_snap.take(top_n as int));
        }
    }
    proof {
        assert forall|t: int| 0 <= t < sorted@.len() implies exists|w: int|
            0 <= w < combos.len() && #[trigger] combos[w] == (#[trigger] sorted@[t]).0@
            && sorted@[t].1@ == spec_vigenere_decrypt(ciphertext@, combos[w]) && sorted@[t].2
            == combo_score(ciphertext@, combos[w], n as int) by {
            assert(sorted@[t] == sorted_snap[t]);
            assert(scored_snap.contains(sorted_snap[t]));
            let w = choose|w: int| 0 <= w < scored_snap.len() && scored_snap[w] == sorted_snap[t];
            assert(scored_snap[w].0@ == combos[w]);
        }
        if sorted@.len() > 0 {
            assert forall|w: int| 0 <= w < combos.len() implies combo_score(
                ciphertext@,
                #[trigger] combos[w],
                n as int,
            ) <= sorted@[0].2 by {
                assert(scored_snap[w].2 == combo_score(ciphertext@, combos[w], n as int));
                assert(sorted_snap.contains(scored_snap[w]));
                let t = choose|t: int|
                    0 <= t < sorted_snap.len() && sorted_snap[t] == scored_snap[w];
                assert(sorted_snap[0].2 >= sorted_snap[t].2);
                assert(sorted@[0] == sorted_snap[0]);
            }
        }
        assert(is_candidate_lists(codes_of(ciphertext@), key_length as int, n as int, lists));
    }
    Ok(sorted)
}

} // verus!
