//! Classical substitution ciphers and the statistics that break them:
//! an alphabet codec, the Caesar and Vigenere transforms, letter-frequency
//! analysis, and a Vigenere key-recovery search that ranks candidate keys by
//! exact integer correlation scores against English n-gram frequencies.

use vstd::prelude::*;

pub mod cryptanalysis;
pub mod mult_table;
pub mod vigenere;
pub mod vigenere_cracker;

verus! {

/// Euclid's rule, stated as a mathematical function.
pub open spec fn spec_gcd(n: nat, m: nat) -> nat
    decreases m,
{
    if m == 0 {
        n
    } else {
        spec_gcd(m, n % m)
    }
}

/// `d` divides `x`.
pub open spec fn divides(d: int, x: int) -> bool {
    exists|q: int| x == #[trigger] (d * q)
}

/// Euclid's rule computes a greatest common divisor: it divides both
/// arguments, and every common divisor of the arguments divides it.
pub proof fn lemma_gcd_is_greatest_common_divisor(n: nat, m: nat)
    ensures
        divides(spec_gcd(n, m) as int, n as int),
        divides(spec_gcd(n, m) as int, m as int),
        forall|d: int|
            divides(d, n as int) && divides(d, m as int) ==> divides(
                d,
                spec_gcd(n, m) as int,
            ),
    decreases m,
{
    if m == 0 {
        assert(n as int == (n as int) * 1);
        assert(0int == (n as int) * 0);
    } else {
        lemma_gcd_is_greatest_common_divisor(m, n % m);
        let g = spec_gcd(m, n % m) as int;
        vstd::arithmetic::div_mod::lemma_fundamental_div_mod(n as int, m as int);
        let qn = (n as int) / (m as int);
        let a = choose|q: int| m as int == #[trigger] (g * q);
        let b = choose|q: int| (n % m) as int == #[trigger] (g * q);
        assert(n as int == (g * a) * qn + g * b);
        assert((g * a) * qn + g * b == g * (a * qn + b)) by (nonlinear_arith);
        assert(n as int == g * (a * qn + b));
        assert forall|d: int| divides(d, n as int) && divides(d, m as int) implies divides(
            d,
            g,
        ) by {
            let p = choose|q: int| n as int == #[trigger] (d * q);
            let r = choose|q: int| m as int == #[trigger] (d * q);
            assert((n % m) as int == d * p - (d * r) * qn);
            assert(d * p - (d * r) * qn == d * (p - r * qn)) by (nonlinear_arith);
            assert((n % m) as int == d * (p - r * qn));
        }
    }
}

/// Greatest common divisor of two machine integers, by Euclid's algorithm.
pub fn gcd(n: u32, m: u32) -> (r: u32)
    ensures
        r == spec_gcd(n as nat, m as nat),
    decreases m,
{
    if m == 0 {
        n
    } else {
        gcd(m, n % m)
    }
}

} // verus!
