//! Alphabet codec and the Caesar/Vigenere transforms.
//!
//! Letters are mapped to codes in `0..26` (case-insensitively); every other
//! character is dropped. The transforms are plain modular arithmetic over the
//! code stream, with the key used cyclically.

use vstd::prelude::*;

verus! {

/// Code of a letter, or `None` for any non-letter character.
pub open spec fn spec_letter_to_number(c: char) -> Option<u8> {
    let u = c as u32;
    if 97 <= u && u <= 122 {
        Some((u - 97) as u8)
    } else if 65 <= u && u <= 90 {
        Some((u - 65) as u8)
    } else {
        None
    }
}

/// True exactly on ASCII letters, the domain of the codec.
pub open spec fn is_ascii_letter(c: char) -> bool {
    spec_letter_to_number(c) is Some
}

/// Lowercase letter for a code below 26, `None` otherwise.
pub open spec fn spec_number_to_letter(n: u8) -> Option<char> {
    if n < 26 {
        Some(((n + 97) as u8) as char)
    } else {
        None
    }
}

/// The codes of the letters of `s`, in order; non-letters contribute nothing.
pub open spec fn codes_of(s: Seq<char>) -> Seq<u8>
    decreases s.len(),
{
    if s.len() == 0 {
        Seq::empty()
    } else {
        codes_of(s.drop_last()) + (match spec_letter_to_number(s.last()) {
            Some(n) => seq![n],
            None => Seq::empty(),
        })
    }
}

/// The lowercase letters of the codes of `s`, in order; codes of 26 or more
/// contribute nothing.
pub open spec fn spec_numbers_to_string(s: Seq<u8>) -> Seq<char>
    decreases s.len(),
{
    if s.len() == 0 {
        Seq::empty()
    } else {
        spec_numbers_to_string(s.drop_last()) + (match spec_number_to_letter(s.last()) {
            Some(c) => seq![c],
            None => Seq::empty(),
        })
    }
}

/// Every code produced by the codec is below 26.
pub proof fn lemma_codes_of_in_range(s: Seq<char>)
    ensures
        forall|i: int| 0 <= i < codes_of(s).len() ==> codes_of(s)[i] < 26,
    decreases s.len(),
{
    if s.len() > 0 {
        lemma_codes_of_in_range(s.drop_last());
        match spec_letter_to_number(s.last()) {
            Some(n) => {
                assert(n < 26);
                assert(codes_of(s) == codes_of(s.drop_last()) + seq![n]);
                assert(codes_of(s).last() == n);
            },
            None => {
                assert(codes_of(s) =~= codes_of(s.drop_last()));
            },
        }
    }
}

/// The codec never produces more codes than there were characters.
pub proof fn lemma_codes_of_len_le(s: Seq<char>)
    ensures
        codes_of(s).len() <= s.len(),
    decreases s.len(),
{
    if s.len() > 0 {
        lemma_codes_of_len_le(s.drop_last());
    }
}

/// A sequence of letters keeps its full length under the codec.
pub proof fn lemma_codes_of_all_letters(s: Seq<char>)
    requires
        forall|i: int| 0 <= i < s.len() ==> is_ascii_letter(#[trigger] s[i]),
    ensures
        codes_of(s).len() == s.len(),
    decreases s.len(),
{
    if s.len() > 0 {
        assert(is_ascii_letter(s.last()));
        lemma_codes_of_all_letters(s.drop_last());
    }
}

/// Lowercase form of an ASCII letter; other characters are unchanged.
pub open spec fn spec_to_lowercase(c: char) -> char {
    let u = c as u32;
    if 65 <= u && u <= 90 {
        ((u + 32) as u8) as char
    } else {
        c
    }
}

/// Codec round trip: decoding the code of a letter yields that letter,
/// lowercase-normalized; encoding the letter of a valid code yields the code
/// back; and encoding is undefined exactly on non-letters.
pub proof fn lemma_codec_round_trip(c: char, n: u8)
    ensures
        is_ascii_letter(c) ==> spec_number_to_letter(spec_letter_to_number(c)->Some_0)
            == Some(spec_to_lowercase(c)),
        !is_ascii_letter(c) ==> spec_letter_to_number(c) is None,
        n < 26 ==> spec_letter_to_number(spec_number_to_letter(n)->Some_0) == Some(n),
        n >= 26 ==> spec_number_to_letter(n) is None,
{
}

pub fn letter_to_number(c: char) -> (r: Option<u8>)
    ensures
        r == spec_letter_to_number(c),
{
    let u = c as u32;
    if 97 <= u && u <= 122 {
        Some((u - 97) as u8)
    } else if 65 <= u && u <= 90 {
        Some((u - 65) as u8)
    } else {
        None
    }
}

pub fn number_to_letter(n: u8) -> (r: Option<char>)
    ensures
        r == spec_number_to_letter(n),
{
    if n < 26 {
        Some((n + 97) as char)
    } else {
        None
    }
}

pub fn string_to_numbers(s: &str) -> (r: Vec<u8>)
    ensures
        r@ == codes_of(s@),
{
    let len = s.unicode_len();
    let mut r: Vec<u8> = Vec::new();
    let mut i: usize = 0;
    while i < len
        invariant
            len == s@.len(),
            i <= len,
            r@ == codes_of(s@.take(i as int)),
        decreases len - i,
    {
        let c = s.get_char(i);
        match letter_to_number(c) {
            Some(n) => r.push(n),
            None => (),
        }
        proof {
            assert(s@.take(i + 1).drop_last() =~= s@.take(i as int));
            assert(s@.take(i + 1).last() == s@[i as int]);
        }
        i = i + 1;
    }
    proof {
        assert(s@.take(len as int) =~= s@);
    }
    r
}

/// Relies on String::push: appends the given character at the end of the
/// string; vstd specifies no other way to grow a string by one character.
#[verifier::external_body]
pub(crate) fn push_char(s: &mut String, c: char)
    ensures
        final(s)@ == old(s)@.push(c),
{
    s.push(c)
}

pub fn numbers_to_string(numbers: &[u8]) -> (r: String)
    ensures
        r@ == spec_numbers_to_string(numbers@),
{
    let mut r = String::new();
    let mut i: usize = 0;
    while i < numbers.len()
        invariant
            i <= numbers@.len(),
            r@ == spec_numbers_to_string(numbers@.take(i as int)),
        decreases numbers@.len() - i,
    {
        match number_to_letter(numbers[i]) {
            Some(c) => push_char(&mut r, c),
            None => (),
        }
        proof {
            assert(numbers@.take(i + 1).drop_last() =~= numbers@.take(i as int));
            assert(numbers@.take(i + 1).last() == numbers@[i as int]);
            assert(r@ == spec_numbers_to_string(numbers@.take(i + 1)));
        }
        i = i + 1;
    }
    proof {
        assert(numbers@.take(numbers@.len() as int) =~= numbers@);
    }
    r
}

/// Writing codes as letters yields at most one character per code, and
/// exactly one when every code is a letter code.
pub proof fn lemma_numbers_to_string_len(s: Seq<u8>)
    ensures
        spec_numbers_to_string(s).len() <= s.len(),
        (forall|i: int| 0 <= i < s.len() ==> s[i] < 26) ==> spec_numbers_to_string(s).len()
            == s.len(),
    decreases s.len(),
{
    if s.len() > 0 {
        lemma_numbers_to_string_len(s.drop_last());
    }
}

/// Codes of the ciphertext: each plaintext code shifted by the key code at
/// its position, the key used cyclically.
pub open spec fn spec_encrypt_codes(p: Seq<u8>, k: Seq<u8>) -> Seq<u8> {
    Seq::new(p.len(), |i: int| (((p[i] + k[i % (k.len() as int)]) % 26) as u8))
}

/// Codes of the plaintext: each ciphertext code shifted back by the key code
/// at its position, the key used cyclically.
pub open spec fn spec_decrypt_codes(c: Seq<u8>, k: Seq<u8>) -> Seq<u8> {
    Seq::new(c.len(), |i: int| (((c[i] + 26 - k[i % (k.len() as int)]) % 26) as u8))
}

/// What `vigenere_encrypt` returns, at the level of character sequences.
pub open spec fn spec_vigenere_encrypt(p: Seq<char>, k: Seq<char>) -> Seq<char> {
    spec_numbers_to_string(spec_encrypt_codes(codes_of(p), codes_of(k)))
}

/// What `vigenere_decrypt` returns, at the level of character sequences.
pub open spec fn spec_vigenere_decrypt(c: Seq<char>, k: Seq<char>) -> Seq<char> {
    spec_numbers_to_string(spec_decrypt_codes(codes_of(c), codes_of(k)))
}

proof fn lemma_shift_round_trip(a: int, b: int)
    requires
        0 <= a < 26,
        0 <= b < 26,
    ensures
        ((a + b) % 26 + 26 - b) % 26 == a,
{
    vstd::arithmetic::div_mod::lemma_small_mod(a as nat, 26);
    if a + b < 26 {
        vstd::arithmetic::div_mod::lemma_small_mod((a + b) as nat, 26);
        vstd::arithmetic::div_mod::lemma_mod_add_multiples_vanish(a, 26);
    } else {
        vstd::arithmetic::div_mod::lemma_mod_add_multiples_vanish(a + b - 26, 26);
        vstd::arithmetic::div_mod::lemma_small_mod((a + b - 26) as nat, 26);
    }
}

/// Decoding the string written for a sequence of valid codes gives the codes
/// back: the codec loses nothing on its own output.
pub proof fn lemma_string_of_codes_inverse(s: Seq<u8>)
    requires
        forall|i: int| 0 <= i < s.len() ==> s[i] < 26,
    ensures
        codes_of(spec_numbers_to_string(s)) == s,
    decreases s.len(),
{
    if s.len() == 0 {
        assert(codes_of(spec_numbers_to_string(s)) =~= s);
    } else {
        lemma_string_of_codes_inverse(s.drop_last());
        let n = s.last();
        let c = spec_number_to_letter(n)->Some_0;
        let a = spec_numbers_to_string(s.drop_last());
        let x = a + seq![c];
        assert(spec_numbers_to_string(s) == x);
        assert(x.drop_last() =~= a);
        assert(x.last() == c);
        assert(spec_letter_to_number(c) == Some(n));
        assert(codes_of(x) == codes_of(a) + seq![n]);
        assert(codes_of(spec_numbers_to_string(s)) =~= s);
    }
}

/// Vigenere round trip: decrypting an encryption under the same key returns
/// the plaintext, case-normalized and with non-letters dropped.
pub proof fn lemma_vigenere_round_trip(p: Seq<char>, k: Seq<char>)
    requires
        codes_of(k).len() > 0,
    ensures
        spec_vigenere_decrypt(spec_vigenere_encrypt(p, k), k) == spec_numbers_to_string(
            codes_of(p),
        ),
{
    let cp = codes_of(p);
    let ck = codes_of(k);
    lemma_codes_of_in_range(p);
    lemma_codes_of_in_range(k);
    let e = spec_encrypt_codes(cp, ck);
    assert forall|i: int| 0 <= i < e.len() implies e[i] < 26 by {
        vstd::arithmetic::div_mod::lemma_mod_division_less_than_divisor(
            cp[i] + ck[i % (ck.len() as int)],
            26,
        );
    }
    lemma_string_of_codes_inverse(e);
    assert forall|i: int| 0 <= i < cp.len() implies spec_decrypt_codes(e, ck)[i] == cp[i] by {
        lemma_shift_round_trip(cp[i] as int, ck[i % (ck.len() as int)] as int);
    }
    assert(spec_decrypt_codes(e, ck) =~= cp);
}

pub fn vigenere_encrypt(plaintext: &str, key: &str) -> (r: String)
    requires
        codes_of(key@).len() > 0,
    ensures
        r@ == spec_vigenere_encrypt(plaintext@, key@),
{
    let p = string_to_numbers(plaintext);
    let k = string_to_numbers(key);
    proof {
        lemma_codes_of_in_range(plaintext@);
        lemma_codes_of_in_range(key@);
    }
    let mut enc: Vec<u8> = Vec::new();
    let mut i: usize = 0;
    while i < p.len()
        invariant
            p@ == codes_of(plaintext@),
            k@ == codes_of(key@),
            k@.len() > 0,
            forall|j: int| 0 <= j < p@.len() ==> p@[j] < 26,
            forall|j: int| 0 <= j < k@.len() ==> k@[j] < 26,
            i <= p@.len(),
            enc@ == spec_encrypt_codes(p@, k@).take(i as int),
        decreases p@.len() - i,
    {
        enc.push((p[i] + k[i % k.len()]) % 26);
        proof {
            assert(enc@ =~= spec_encrypt_codes(p@, k@).take(i + 1));
        }
        i = i + 1;
    }
    proof {
        assert(enc@ =~= spec_encrypt_codes(p@, k@));
    }
    numbers_to_string(enc.as_slice())
}

pub fn vigenere_decrypt(ciphertext: &str, key: &str) -> (r: String)
    requires
        codes_of(key@).len() > 0,
    ensures
        r@ == spec_vigenere_decrypt(ciphertext@, key@),
{
    let c = string_to_numbers(ciphertext);
    let k = string_to_numbers(key);
    proof {
        lemma_codes_of_in_range(ciphertext@);
        lemma_codes_of_in_range(key@);
    }
    let mut dec: Vec<u8> = Vec::new();
    let mut i: usize = 0;
    while i < c.len()
        invariant
            c@ == codes_of(ciphertext@),
            k@ == codes_of(key@),
            k@.len() > 0,
            forall|j: int| 0 <= j < c@.len() ==> c@[j] < 26,
            forall|j: int| 0 <= j < k@.len() ==> k@[j] < 26,
            i <= c@.len(),
            dec@ == spec_decrypt_codes(c@, k@).take(i as int),
        decreases c@.len() - i,
    {
        dec.push((c[i] + 26 - k[i % k.len()]) % 26);
        proof {
            assert(dec@ =~= spec_decrypt_codes(c@, k@).take(i + 1));
        }
        i = i + 1;
    }
    proof {
        assert(dec@ =~= spec_decrypt_codes(c@, k@));
    }
    numbers_to_string(dec.as_slice())
}

} // verus!
