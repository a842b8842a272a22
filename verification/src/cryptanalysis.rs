//! Letter-frequency statistics over a text: per-letter counts, index of
//! coincidence, a most/least-common-letter report, and the brute-force
//! Caesar scan.
//!
//! The index of coincidence and the letter frequencies are exact rationals
//! here: a pair of a numerator and a denominator, so that no precision is
//! lost; a presentation layer may divide them out.

use vstd::prelude::*;
use vstd::pervasive::VecAdditionalExecFns;
use crate::vigenere::{codes_of, lemma_codes_of_in_range, lemma_codes_of_len_le,
    numbers_to_string, spec_numbers_to_string, string_to_numbers};

verus! {

/// How often the code `k` occurs in `s`.
pub open spec fn count_eq(s: Seq<u8>, k: u8) -> int
    decreases s.len(),
{
    if s.len() == 0 {
        0
    } else {
        count_eq(s.drop_last(), k) + if s.last() == k {
            1int
        } else {
            0int
        }
    }
}

pub proof fn lemma_count_le_len(s: Seq<u8>, k: u8)
    ensures
        0 <= count_eq(s, k) <= s.len(),
    decreases s.len(),
{
    if s.len() > 0 {
        lemma_count_le_len(s.drop_last(), k);
    }
}

/// Per-letter occurrence counts of a code sequence, indexed by letter code.
pub fn letter_counts(codes: &[u8]) -> (r: Vec<u32>)
    requires
        codes@.len() < 0xffff_ffff,
        forall|i: int| 0 <= i < codes@.len() ==> codes@[i] < 26,
    ensures
        r@.len() == 26,
        forall|k: u8| k < 26 ==> r@[k as int] == count_eq(codes@, k),
{
    let mut r: Vec<u32> = Vec::new();
    let mut z: usize = 0;
    while z < 26
        invariant
            z <= 26,
            r@.len() == z,
            forall|k: int| 0 <= k < z ==> r@[k] == 0,
        decreases 26 - z,
    {
        r.push(0);
        z = z + 1;
    }
    assert(forall|k: u8| k < 26 ==> r@[k as int] == count_eq(codes@.take(0), k));
    let mut i: usize = 0;
    while i < codes.len()
        invariant
            codes@.len() < 0xffff_ffff,
            forall|t: int| 0 <= t < codes@.len() ==> codes@[t] < 26,
            i <= codes@.len(),
            r@.len() == 26,
            forall|k: u8| k < 26 ==> r@[k as int] == count_eq(codes@.take(i as int), k),
        decreases codes@.len() - i,
    {
        let c = codes[i];
        proof {
            lemma_count_le_len(codes@.take(i as int), c);
        }
        let cur = r[c as usize];
        r.set(c as usize, cur + 1);
        proof {
            assert(codes@.take(i + 1).drop_last() =~= codes@.take(i as int));
            assert(codes@.take(i + 1).last() == codes@[i as int]);
            assert(forall|k: u8|
                k < 26 ==> count_eq(codes@.take(i + 1), k) == count_eq(codes@.take(i as int), k)
                    + if k == c {
                    1int
                } else {
                    0int
                });
        }
        i = i + 1;
    }
    proof {
        assert(codes@.take(codes@.len() as int) =~= codes@);
    }
    r
}

/// Numerator of the index of coincidence over the letter codes `s`, summed
/// over the letter codes below `k`: each letter contributes `f * (f - 1)`.
pub open spec fn ioc_num_upto(s: Seq<u8>, k: int) -> int
    decreases k,
{
    if k <= 0 {
        0
    } else {
        ioc_num_upto(s, k - 1) + count_eq(s, (k - 1) as u8) * (count_eq(s, (k - 1) as u8) - 1)
    }
}

/// Numerator of the index of coincidence: the number of ordered pairs of
/// distinct positions holding the same letter.
pub open spec fn spec_ioc_num(s: Seq<u8>) -> int {
    ioc_num_upto(s, 26)
}

/// Index of coincidence of the letters of `text`, as the exact rational
/// `sum(f_i * (f_i - 1)) / (n * (n - 1))`; `None` when fewer than two
/// letters are present, where the quantity is undefined.
pub fn index_of_coincidence(text: &str) -> (r: Option<(u128, u128)>)
    requires
        text@.len() < 0xffff_ffff,
    ensures
        r is Some <==> codes_of(text@).len() >= 2,
        r is Some ==> {
            let n = codes_of(text@).len() as int;
            &&& r->Some_0.0 == spec_ioc_num(codes_of(text@))
            &&& r->Some_0.1 == n * (n - 1)
        },
{
    let codes = string_to_numbers(text);
    proof {
        lemma_codes_of_in_range(text@);
        lemma_codes_of_len_le(text@);
    }
    if codes.len() < 2 {
        return None;
    }
    let counts = letter_counts(codes.as_slice());
    let mut acc: u128 = 0;
    let mut k: usize = 0;
    while k < 26
        invariant
            counts@.len() == 26,
            forall|t: u8| t < 26 ==> counts@[t as int] == count_eq(codes@, t),
            k <= 26,
            acc == ioc_num_upto(codes@, k as int),
            acc <= k * 0x1_0000_0000_0000_0000,
        decreases 26 - k,
    {
        let f = counts[k];
        proof {
            assert(counts@[k as int] == count_eq(codes@, k as u8));
            assert(ioc_num_upto(codes@, k as int + 1) == ioc_num_upto(codes@, k as int)
                + count_eq(codes@, k as u8) * (count_eq(codes@, k as u8) - 1));
        }
        if f > 0 {
            proof {
                crate::mult_table::lemma_u32_mul_fits_u64(f as int, (f - 1) as int);
            }
            let term: u64 = (f as u64) * ((f as u64) - 1);
            proof {
                assert(term == count_eq(codes@, k as u8) * (count_eq(codes@, k as u8) - 1));
            }
            acc = acc + (term as u128);
        } else {
            proof {
                let cnt = count_eq(codes@, k as u8);
                assert(cnt * (cnt - 1) == 0) by (nonlinear_arith)
                    requires
                        cnt == 0,
                ;
            }
        }
        k = k + 1;
    }
    proof {
        crate::mult_table::lemma_u32_mul_fits_u64(codes@.len() as int, codes@.len() - 1);
    }
    let n = codes.len() as u128;
    Some((acc, n * (n - 1)))
}

/// A summary of the letter statistics of a text: the full count table, the
/// number of letters, a most frequent letter, and the two least frequent
/// among the letters that occur at all.
pub struct FrequencyReport {
    pub counts: Vec<u32>,
    pub total: u32,
    pub most_common: u8,
    pub least_common1: u8,
    pub least_common2: u8,
}

/// How many distinct letter codes below `k` occur in `s`.
pub open spec fn distinct_upto(s: Seq<u8>, k: int) -> int
    decreases k,
{
    if k <= 0 {
        0
    } else {
        distinct_upto(s, k - 1) + if count_eq(s, (k - 1) as u8) > 0 {
            1int
        } else {
            0int
        }
    }
}

/// Letter statistics of `text`: `None` when fewer than two distinct letters
/// occur, which is the degenerate case the report cannot rank.
pub fn frequency_analysis(text: &str) -> (r: Option<FrequencyReport>)
    requires
        text@.len() < 0xffff_ffff,
    ensures
        r is Some <==> distinct_upto(codes_of(text@), 26) >= 2,
        r is Some ==> {
            let s = codes_of(text@);
            let rep = r->Some_0;
            &&& rep.counts@.len() == 26
            &&& forall|k: u8| k < 26 ==> rep.counts@[k as int] == count_eq(s, k)
            &&& rep.total == s.len()
            &&& rep.most_common < 26
            &&& count_eq(s, rep.most_common) > 0
            &&& forall|k: u8| k < 26 ==> #[trigger] count_eq(s, k) <= count_eq(s, rep.most_common)
            &&& rep.least_common1 < 26
            &&& count_eq(s, rep.least_common1) > 0
            &&& forall|k: u8|
                k < 26 && #[trigger] count_eq(s, k) > 0 ==> count_eq(s, rep.least_common1)
                    <= count_eq(s, k)
            &&& rep.least_common2 < 26
            &&& rep.least_common2 != rep.least_common1
            &&& count_eq(s, rep.least_common2) > 0
            &&& forall|k: u8|
                k < 26 && k != rep.least_common1 && #[trigger] count_eq(s, k) > 0 ==> count_eq(
                    s,
                    rep.least_common2,
                ) <= count_eq(s, k)
        },
{
    let codes = string_to_numbers(text);
    proof {
        lemma_codes_of_in_range(text@);
        lemma_codes_of_len_le(text@);
    }
    let counts = letter_counts(codes.as_slice());
    let mut distinct: usize = 0;
    let mut k: usize = 0;
    while k < 26
        invariant
            counts@.len() == 26,
            forall|t: u8| t < 26 ==> counts@[t as int] == count_eq(codes@, t),
            k <= 26,
            distinct <= k,
            distinct == distinct_upto(codes@, k as int),
        decreases 26 - k,
    {
        if counts[k] > 0 {
            distinct = distinct + 1;
        }
        k = k + 1;
    }
    if distinct < 2 {
        return None;
    }
    // A most frequent letter: the smallest code among those of maximal count.
    let mut mc: usize = 0;
    let mut k: usize = 1;
    while k < 26
        invariant
            counts@.len() == 26,
            forall|t: u8| t < 26 ==> counts@[t as int] == count_eq(codes@, t),
            1 <= k <= 26,
            mc < k,
            forall|t: int| 0 <= t < k ==> counts@[t] <= counts@[mc as int],
        decreases 26 - k,
    {
        if counts[k] > counts[mc] {
            mc = k;
        }
        k = k + 1;
    }
    // The least frequent occurring letter, then the least frequent other one.
    let mut l1: usize = 26;
    let mut k: usize = 0;
    while k < 26
        invariant
            counts@.len() == 26,
            forall|t: u8| t < 26 ==> counts@[t as int] == count_eq(codes@, t),
            k <= 26,
            l1 <= 26,
            l1 < 26 ==> counts@[l1 as int] > 0,
            l1 < 26 ==> forall|t: int| 0 <= t < k && counts@[t] > 0 ==> counts@[l1 as int] <= counts@[t],
            l1 == 26 ==> forall|t: int| 0 <= t < k ==> counts@[t] == 0,
        decreases 26 - k,
    {
        if counts[k] > 0 && (l1 == 26 || counts[k] < counts[l1]) {
            l1 = k;
        }
        k = k + 1;
    }
    proof {
        if l1 == 26 {
            assert forall|t: u8| t < 26 implies count_eq(codes@, t) == 0 by {
                assert(counts@[t as int] == 0);
            }
            lemma_no_occurrence_no_distinct(codes@, 26);
            assert(false);
        }
    }
    let mut l2: usize = 26;
    let mut k: usize = 0;
    while k < 26
        invariant
            counts@.len() == 26,
            forall|t: u8| t < 26 ==> counts@[t as int] == count_eq(codes@, t),
            k <= 26,
            l1 < 26,
            l2 <= 26,
            l2 < 26 ==> counts@[l2 as int] > 0 && l2 != l1,
            l2 < 26 ==> forall|t: int|
                0 <= t < k && t != l1 && counts@[t] > 0 ==> counts@[l2 as int] <= counts@[t],
            l2 == 26 ==> forall|t: int| 0 <= t < k && t != l1 ==> counts@[t] == 0,
        decreases 26 - k,
    {
        if k != l1 && counts[k] > 0 && (l2 == 26 || counts[k] < counts[l2]) {
            l2 = k;
        }
        k = k + 1;
    }
    proof {
        // Two distinct occurring letters force both minima to exist.
        if l2 == 26 {
            assert forall|t: u8| t < 26 && t != l1 as u8 implies count_eq(codes@, t) == 0 by {
                assert(counts@[t as int] == 0);
            }
            lemma_single_occurrence_distinct_le_one(codes@, 26, l1 as u8);
            assert(false);
        }
        assert forall|k: u8| k < 26 implies #[trigger] count_eq(codes@, k) <= count_eq(codes@, mc as u8) by {
            assert(counts@[k as int] <= counts@[mc as int]);
        }
        assert forall|k: u8|
            k < 26 && #[trigger] count_eq(codes@, k) > 0 implies count_eq(codes@, l1 as u8)
            <= count_eq(codes@, k) by {
            assert(counts@[k as int] > 0);
        }
        assert forall|k: u8|
            k < 26 && k != l1 as u8 && #[trigger] count_eq(codes@, k) > 0 implies count_eq(
            codes@,
            l2 as u8,
        ) <= count_eq(codes@, k) by {
            assert(counts@[k as int] > 0);
        }
    }
    let total = codes.len() as u32;
    Some(
        FrequencyReport {
            counts,
            total,
            most_common: mc as u8,
            least_common1: l1 as u8,
            least_common2: l2 as u8,
        },
    )
}

/// If no letter code below `k` occurs, no distinct letters are counted.
proof fn lemma_no_occurrence_no_distinct(s: Seq<u8>, k: int)
    requires
        0 <= k <= 26,
        forall|t: u8| t < k ==> count_eq(s, t) == 0,
    ensures
        distinct_upto(s, k) == 0,
    decreases k,
{
    if k > 0 {
        lemma_no_occurrence_no_distinct(s, k - 1);
    }
}

/// If only the letter `e` occurs among the codes below `k`, at most one
/// distinct letter is counted.
proof fn lemma_single_occurrence_distinct_le_one(s: Seq<u8>, k: int, e: u8)
    requires
        0 <= k <= 26,
        forall|t: u8| t < k && t != e ==> count_eq(s, t) == 0,
    ensures
        distinct_upto(s, k) <= 1,
    decreases k,
{
    if k > 0 {
        lemma_single_occurrence_distinct_le_one(s, k - 1, e);
        if count_eq(s, (k - 1) as u8) > 0 {
            assert((k - 1) as u8 == e);
            assert forall|t: u8| t < k - 1 implies #[trigger] count_eq(s, t) == 0 by {
                assert(t != e);
            }
            lemma_no_occurrence_no_distinct(s, k - 1);
        }
    }
}

/// Codes of a Caesar decryption: every code shifted back by the same amount.
pub open spec fn spec_caesar_decrypt_codes(c: Seq<u8>, shift: u8) -> Seq<u8> {
    Seq::new(c.len(), |i: int| (((c[i] + 26 - shift) % 26) as u8))
}

/// Caesar decryption: the Vigenere decryption under a one-letter key.
pub fn caesar_decrypt(ciphertext: &str, shift: u8) -> (r: String)
    requires
        shift < 26,
    ensures
        r@ == spec_numbers_to_string(spec_caesar_decrypt_codes(codes_of(ciphertext@), shift)),
{
    let c = string_to_numbers(ciphertext);
    proof {
        lemma_codes_of_in_range(ciphertext@);
    }
    let mut dec: Vec<u8> = Vec::new();
    let mut i: usize = 0;
    while i < c.len()
        invariant
            c@ == codes_of(ciphertext@),
            shift < 26,
            forall|j: int| 0 <= j < c@.len() ==> c@[j] < 26,
            i <= c@.len(),
            dec@ == spec_caesar_decrypt_codes(c@, shift).take(i as int),
        decreases c@.len() - i,
    {
        dec.push((c[i] + 26 - shift) % 26);
        proof {
            assert(dec@ =~= spec_caesar_decrypt_codes(c@, shift).take(i + 1));
        }
        i = i + 1;
    }
    proof {
        assert(dec@ =~= spec_caesar_decrypt_codes(c@, shift));
    }
    numbers_to_string(dec.as_slice())
}

/// Every Caesar decryption of the ciphertext, one per shift `1..=26`, in
/// that order, for human inspection; entry `t` undoes the shift `t + 1`
/// (shift 26 being the identity).
pub fn brute_force_caesar(ciphertext: &str) -> (r: Vec<String>)
    ensures
        r@.len() == 26,
        forall|t: int|
            0 <= t < 26 ==> #[trigger] r@[t]@ == spec_numbers_to_string(
                spec_caesar_decrypt_codes(codes_of(ciphertext@), (((t + 1) % 26) as u8)),
            ),
{
    let mut r: Vec<String> = Vec::new();
    let mut shift: usize = 1;
    while shift <= 26
        invariant
            1 <= shift <= 27,
            r@.len() == shift - 1,
            forall|t: int|
                0 <= t < shift - 1 ==> #[trigger] r@[t]@ == spec_numbers_to_string(
                    spec_caesar_decrypt_codes(codes_of(ciphertext@), (((t + 1) % 26) as u8)),
                ),
        decreases 27 - shift,
    {
        r.push(caesar_decrypt(ciphertext, (shift % 26) as u8));
        shift = shift + 1;
    }
    r
}

} // verus!
