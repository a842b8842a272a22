//! Multiplication tables modulo `n` and multiplicative inverses.

use vstd::prelude::*;

verus! {

/// `j` is a multiplicative inverse of `i` modulo `n`.
pub open spec fn is_inverse(n: int, i: int, j: int) -> bool
    recommends
        n > 0,
{
    (i * j) % n == 1
}

/// Some `j` in `1..n` inverts `i` modulo `n`.
pub open spec fn has_inverse(n: int, i: int) -> bool {
    exists|j: int| 1 <= j < n && is_inverse(n, i, j)
}

pub proof fn lemma_u32_mul_fits_u64(a: int, b: int)
    requires
        0 <= a < 0x1_0000_0000,
        0 <= b < 0x1_0000_0000,
    ensures
        a * b < 0x1_0000_0000_0000_0000,
{
    assert(a * b < 0x1_0000_0000_0000_0000) by (nonlinear_arith)
        requires
            0 <= a < 0x1_0000_0000,
            0 <= b < 0x1_0000_0000,
    ;
}

/// The multiplication table modulo `n`: row `i` holds `(i+1)*(j+1) % n` for
/// each column `j`, covering the factors `1..=n` of the printed table.
pub fn multiplication_table_mod_n(n: u32) -> (r: Vec<Vec<u32>>)
    requires
        1 <= n < 0xffff_ffff,
    ensures
        r@.len() == n,
        forall|i: int| 0 <= i < n ==> #[trigger] r@[i]@.len() == n,
        forall|i: int, j: int|
            0 <= i < n && 0 <= j < n ==> #[trigger] r@[i]@[j] == ((i + 1) * (j + 1)) % (n as int),
{
    let mut r: Vec<Vec<u32>> = Vec::new();
    let mut i: u32 = 1;
    while i <= n
        invariant
            1 <= n < 0xffff_ffff,
            1 <= i <= n + 1,
            r@.len() == i - 1,
            forall|a: int| 0 <= a < i - 1 ==> #[trigger] r@[a]@.len() == n,
            forall|a: int, b: int|
                0 <= a < i - 1 && 0 <= b < n ==> #[trigger] r@[a]@[b] == ((a + 1) * (b + 1)) % (
                n as int),
        decreases n + 1 - i,
    {
        let mut row: Vec<u32> = Vec::new();
        let mut j: u32 = 1;
        while j <= n
            invariant
                1 <= n < 0xffff_ffff,
                1 <= i <= n,
                1 <= j <= n + 1,
                row@.len() == j - 1,
                forall|b: int|
                    0 <= b < j - 1 ==> #[trigger] row@[b] == ((i as int) * (b + 1)) % (n as int),
            decreases n + 1 - j,
        {
            proof {
                lemma_u32_mul_fits_u64(i as int, j as int);
            }
            let v = (((i as u64) * (j as u64)) % (n as u64)) as u32;
            assert(v == ((i as int) * (j as int)) % (n as int));
            row.push(v);
            j = j + 1;
        }
        r.push(row);
        i = i + 1;
    }
    r
}

/// Least inverse of `i` modulo `n`, or `None` when `i` has no inverse.
fn least_inverse(n: u32, i: u32) -> (r: Option<u32>)
    requires
        1 <= i < n,
    ensures
        match r {
            Some(j) => 1 <= j < n && is_inverse(n as int, i as int, j as int) && (forall|j2: int|
                1 <= j2 < j ==> !is_inverse(n as int, i as int, j2)),
            None => forall|j2: int| 1 <= j2 < n ==> !is_inverse(n as int, i as int, j2),
        },
{
    let mut j: u32 = 1;
    while j < n
        invariant
            1 <= i < n,
            1 <= j <= n,
            forall|j2: int| 1 <= j2 < j ==> !is_inverse(n as int, i as int, j2),
        decreases n - j,
    {
        proof {
            lemma_u32_mul_fits_u64(i as int, j as int);
        }
        if ((i as u64) * (j as u64)) % (n as u64) == 1 {
            return Some(j);
        }
        j = j + 1;
    }
    None
}

/// All pairs `(i, j)` with `i` in `1..n` and `j` the least inverse of `i`
/// modulo `n`, in increasing order of `i`; every `i` with an inverse appears.
pub fn find_multiplicative_inverses(n: u32) -> (r: Vec<(u32, u32)>)
    ensures
        forall|t: int|
            0 <= t < r@.len() ==> {
                let (i, j) = #[trigger] r@[t];
                &&& 1 <= i < n
                &&& 1 <= j < n
                &&& is_inverse(n as int, i as int, j as int)
                &&& forall|j2: int| 1 <= j2 < j ==> !is_inverse(n as int, i as int, j2)
            },
        forall|i: int|
            1 <= i < n ==> (has_inverse(n as int, i) <==> exists|t: int|
                0 <= t < r@.len() && (#[trigger] r@[t]).0 == i),
        forall|t1: int, t2: int| 0 <= t1 < t2 < r@.len() ==> r@[t1].0 < r@[t2].0,
{
    let mut r: Vec<(u32, u32)> = Vec::new();
    if n <= 1 {
        return r;
    }
    let mut i: u32 = 1;
    while i < n
        invariant
            2 <= n,
            1 <= i <= n,
            forall|t: int|
                0 <= t < r@.len() ==> {
                    let (a, b) = #[trigger] r@[t];
                    &&& 1 <= a < i
                    &&& 1 <= b < n
                    &&& is_inverse(n as int, a as int, b as int)
                    &&& forall|j2: int| 1 <= j2 < b ==> !is_inverse(n as int, a as int, j2)
                },
            forall|a: int|
                1 <= a < i ==> (has_inverse(n as int, a) <==> exists|t: int|
                    0 <= t < r@.len() && (#[trigger] r@[t]).0 == a),
            forall|t1: int, t2: int| 0 <= t1 < t2 < r@.len() ==> r@[t1].0 < r@[t2].0,
        decreases n - i,
    {
        match least_inverse(n, i) {
            Some(j) => {
                let ghost prev = r@;
                r.push((i, j));
                proof {
                    assert(r@[r@.len() - 1].0 == i);
                    assert(is_inverse(n as int, i as int, j as int));
                    assert(has_inverse(n as int, i as int));
                    assert forall|a: int|
                        1 <= a < i && has_inverse(n as int, a) implies exists|t: int|
                        0 <= t < r@.len() && (#[trigger] r@[t]).0 == a by {
                        let t = choose|t: int| 0 <= t < prev.len() && (#[trigger] prev[t]).0 == a;
                        assert(r@[t].0 == a);
                    }
                }
            },
            None => {
                proof {
                    assert(!has_inverse(n as int, i as int));
                    assert(forall|t: int|
                        0 <= t < r@.len() ==> (#[trigger] r@[t]).0 < i);
                }
            },
        }
        i = i + 1;
    }
    r
}

} // verus!
