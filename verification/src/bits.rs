//! Bit-level ground work: single bits of a `u64`, the numeric value of a
//! little-endian sequence of partially known bits, and the lemmas connecting
//! the two.

use vstd::arithmetic::div_mod::{lemma_fundamental_div_mod, lemma_mod_breakdown};
use vstd::arithmetic::power2::{lemma2_to64, lemma_pow2_adds, lemma_pow2_pos, pow2};
use vstd::bits::{lemma_u64_low_bits_mask_is_mod, lemma_u64_shr_is_div, low_bits_mask};
use vstd::prelude::*;

verus! {

/// Bit `j` of `x`, counting from the least significant end.
pub open spec fn u64_bit(x: u64, j: nat) -> bool {
    (x >> (j as u64)) & 1 == 1
}

/// The numeric value of a bit sequence, least significant bit first.
/// Unknown bits count as zero; the value is only meaningful when every
/// bit is known.
pub open spec fn bits_value(s: Seq<Option<bool>>) -> nat
    decreases s.len(),
{
    if s.len() == 0 {
        0
    } else {
        bits_value(s.drop_last()) + (if s.last() == Some(true) {
            pow2((s.len() - 1) as nat)
        } else {
            0
        })
    }
}

/// Every bit of the sequence is known.
pub open spec fn all_known(s: Seq<Option<bool>>) -> bool {
    forall|j: int| 0 <= j < s.len() ==> s[j] is Some
}

/// The value of a bit sequence is below two to its length.
pub proof fn lemma_bits_value_bound(s: Seq<Option<bool>>)
    ensures
        bits_value(s) < pow2(s.len()),
    decreases s.len(),
{
    if s.len() == 0 {
        lemma2_to64();
    } else {
        lemma_bits_value_bound(s.drop_last());
        lemma_pow2_adds((s.len() - 1) as nat, 1);
        lemma2_to64();
    }
}

/// Appending one bit adds its weighted value.
pub proof fn lemma_bits_value_push(s: Seq<Option<bool>>, b: Option<bool>)
    ensures
        bits_value(s.push(b)) == bits_value(s) + (if b == Some(true) {
            pow2(s.len())
        } else {
            0
        }),
{
    assert(s.push(b).drop_last() =~= s);
    assert(s.push(b).last() == b);
}

/// The value of the `n` low bits of `x`, read as a bit sequence, is `x % 2^n`.
pub proof fn lemma_u64_bits_value(x: u64, n: nat)
    requires
        n <= 64,
    ensures
        bits_value(Seq::new(n, |j: int| Some(u64_bit(x, j as nat)))) == x as nat % pow2(n),
    decreases n,
{
    let s = Seq::new(n, |j: int| Some(u64_bit(x, j as nat)));
    if n == 0 {
        lemma2_to64();
        assert(x as nat % 1 == 0);
    } else {
        let m = (n - 1) as nat;
        let sm = Seq::new(m, |j: int| Some(u64_bit(x, j as nat)));
        lemma_u64_bits_value(x, m);
        assert(s.drop_last() =~= sm);
        assert(s.last() == Some(u64_bit(x, m)));
        assert(bits_value(s) == x as nat % pow2(m) + (if u64_bit(x, m) {
            pow2(m)
        } else {
            0
        }));
        // x % 2^n == 2^(n-1) * ((x / 2^(n-1)) % 2) + x % 2^(n-1)
        lemma_pow2_pos(m);
        lemma_mod_breakdown(x as int, pow2(m) as int, 2);
        lemma_pow2_adds(m, 1);
        lemma2_to64();
        assert(pow2(n) == pow2(m) * 2);
        assert(x as int % (pow2(m) as int * 2) == pow2(m) as int * ((x as int / pow2(m) as int) % 2)
            + x as int % pow2(m) as int);
        // bit m of x is (x / 2^m) % 2
        lemma_u64_shr_is_div(x, m as u64);
        let q = x >> (m as u64);
        assert(q as nat == x as nat / pow2(m));
        assert(q as int == x as int / pow2(m) as int);
        if u64_bit(x, m) {
            assert(q & 1 == 1);
            assert(q % 2 == 1) by (bit_vector)
                requires
                    q & 1 == 1,
            ;
        } else {
            assert(q & 1 != 1);
            assert(q % 2 == 0) by (bit_vector)
                requires
                    q & 1 != 1,
            ;
        }
    }
}

/// A sequence of known-false bits has value zero.
pub proof fn lemma_bits_value_falses(n: nat)
    ensures
        bits_value(Seq::new(n, |j: int| Some(false))) == 0,
    decreases n,
{
    if n > 0 {
        let s = Seq::new(n, |j: int| Some(false));
        let sm = Seq::new((n - 1) as nat, |j: int| Some(false));
        lemma_bits_value_falses((n - 1) as nat);
        assert(s.drop_last() =~= sm);
    }
}

/// A known-true bit puts its place value below the sequence's value.
pub proof fn lemma_bits_value_lower(s: Seq<Option<bool>>, k: int)
    requires
        0 <= k < s.len(),
        s[k] == Some(true),
    ensures
        bits_value(s) >= pow2(k as nat),
    decreases s.len(),
{
    if k == s.len() - 1 {
        assert(s.last() == Some(true));
    } else {
        assert(s.drop_last()[k] == s[k]);
        lemma_bits_value_lower(s.drop_last(), k);
    }
}

/// Splitting a sequence splits its value by place value.
pub proof fn lemma_bits_value_concat(a: Seq<Option<bool>>, b: Seq<Option<bool>>)
    ensures
        bits_value(a + b) == bits_value(a) + bits_value(b) * pow2(a.len()),
    decreases b.len(),
{
    if b.len() == 0 {
        assert(a + b =~= a);
        assert(bits_value(b) == 0);
        assert(bits_value(a + b) == bits_value(a) + bits_value(b) * pow2(a.len()));
    } else {
        let bm = b.drop_last();
        let m = (b.len() - 1) as nat;
        lemma_bits_value_concat(a, bm);
        assert((a + b).drop_last() =~= a + bm);
        assert((a + b).last() == b.last());
        if b.last() == Some(true) {
            lemma_pow2_adds(a.len(), m);
            assert(bits_value(a + b) == bits_value(a) + bits_value(bm) * pow2(a.len()) + pow2(m)
                * pow2(a.len()));
            assert(bits_value(b) == bits_value(bm) + pow2(m));
            let u = bits_value(bm) as int;
            let v = pow2(m) as int;
            let w = pow2(a.len()) as int;
            assert((u + v) * w == u * w + v * w) by (nonlinear_arith);
            assert(bits_value(a + b) == bits_value(a) + bits_value(b) * pow2(a.len()));
        } else {
            assert(bits_value(b) == bits_value(bm));
            assert(bits_value(a + b) == bits_value(a) + bits_value(b) * pow2(a.len()));
        }
    }
}

/// Padding a sequence with known-false bits keeps its value.
pub proof fn lemma_bits_value_pad(a: Seq<Option<bool>>, n: nat)
    ensures
        bits_value(a + Seq::new(n, |j: int| Some(false))) == bits_value(a),
{
    let z = Seq::new(n, |j: int| Some(false));
    lemma_bits_value_concat(a, z);
    lemma_bits_value_falses(n);
    assert(bits_value(z) == 0);
    assert(bits_value(a + z) == bits_value(a) + 0 * pow2(a.len()));
}

} // verus!
