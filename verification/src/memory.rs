//! A flat 64-bit byte-addressable memory built from 64-bit cells. Reads and
//! writes take any positive bit width and any alignment, with either the
//! address or the data only partially known; they are decomposed into cell
//! operations and stitched together with shift/mask/concatenate steps.
//!
//! Byte order is little-endian: the least significant byte of a value lives
//! at the lowest address. The model below makes that exact: bit `j` of an
//! access at address `a` lives at bit position `bitpos(a, j)` of the memory,
//! where addresses wrap modulo `2^64` and each cell `c` holds bit positions
//! `[64c, 64c + 64)`.

use crate::bits::{all_known, bits_value, lemma_bits_value_bound, lemma_bits_value_concat,
    lemma_bits_value_falses};
use crate::value::{and_bit, or_bit, BitVal};
use std::collections::HashMap;
use vstd::arithmetic::div_mod::{lemma_add_mod_noop, lemma_fundamental_div_mod,
    lemma_fundamental_div_mod_converse, lemma_mod_mod, lemma_mod_multiples_vanish,
    lemma_small_mod};
use vstd::arithmetic::power2::{lemma2_to64, lemma_pow2_adds, pow2};
use vstd::prelude::*;

verus! {

broadcast use vstd::std_specs::hash::group_hash_axioms;

/// The bit position in memory of bit `j` of an access at address `a`.
/// Addresses wrap modulo `2^64`; bit positions run below `2^67`.
pub open spec fn bitpos(a: nat, j: nat) -> nat {
    ((a + j / 8) % pow2(64)) * 8 + j % 8
}

/// The index within an access window at address `a` that bit position `p`
/// occupies; `p` lies in a window of `w` bits iff `win_off(a, p) < w`.
pub open spec fn win_off(a: nat, p: nat) -> nat {
    (((p / 8 + pow2(64) - a) % (pow2(64) as int)) * 8 + p % 8) as nat
}

/// A window index maps to its bit position and back.
pub proof fn lemma_win_off_bitpos(a: nat, j: nat)
    requires
        a < pow2(64),
        j < pow2(66),
    ensures
        bitpos(a, j) < pow2(67),
        win_off(a, bitpos(a, j)) == j,
{
    lemma2_to64();
    lemma_pow2_adds(64, 3);
    lemma_pow2_adds(64, 2);
    let m = pow2(64) as int;
    let byte = (a + j / 8) % pow2(64);
    let p = bitpos(a, j);
    assert(byte < pow2(64)) by {
        vstd::arithmetic::div_mod::lemma_mod_bound((a + j / 8) as int, m);
    }
    assert(p == byte * 8 + j % 8);
    lemma_fundamental_div_mod_converse(p as int, 8, byte as int, (j % 8) as int);
    assert(p / 8 == byte && p % 8 == j % 8);
    // byte + 2^64 - a is congruent to j / 8 modulo 2^64
    assert(((byte + pow2(64) - a) % m) == (j / 8) as int % m) by {
        lemma_fundamental_div_mod((a + j / 8) as int, m);
        let k = (a + j / 8) as int / m;
        assert(byte == a + j / 8 - m * k);
        assert(byte + pow2(64) - a == m * (1 - k) + j / 8);
        lemma_mod_multiples_vanish(1 - k, (j / 8) as int, m);
    }
    assert((j / 8) as int % m == j / 8) by {
        lemma_small_mod(j / 8, pow2(64));
    }
    assert(win_off(a, p) == (j / 8) * 8 + j % 8);
    assert((j / 8) * 8 + j % 8 == j) by {
        lemma_fundamental_div_mod(j as int, 8);
    }
}

/// A bit position below `2^67` is reached from its own window index.
pub proof fn lemma_bitpos_win_off(a: nat, p: nat)
    requires
        a < pow2(64),
        p < pow2(67),
    ensures
        bitpos(a, win_off(a, p)) == p,
{
    lemma2_to64();
    lemma_pow2_adds(64, 3);
    let m = pow2(64) as int;
    let q = (p / 8 + pow2(64) - a) % (pow2(64) as int);
    let d = win_off(a, p);
    assert(0 <= q < m) by {
        vstd::arithmetic::div_mod::lemma_mod_bound((p / 8 + pow2(64) - a) as int, m);
    }
    assert(d == q * 8 + p % 8);
    lemma_fundamental_div_mod_converse(d as int, 8, q, (p % 8) as int);
    assert(d / 8 == q && d % 8 == p % 8);
    // a + q is congruent to p / 8 modulo 2^64
    assert(((a + q) % m) == (p / 8) as int) by {
        lemma_add_mod_noop(a as int, (p / 8 + pow2(64) - a) as int, m);
        assert((a as int % m + q) % m == (a + p / 8 + pow2(64) - a) % m);
        lemma_small_mod(a, pow2(64));
        assert((a + q) % m == (a as int % m + q % m) % m) by {
            lemma_add_mod_noop(a as int, q, m);
            vstd::arithmetic::div_mod::lemma_mod_twice(q, m);
        }
        lemma_mod_multiples_vanish(1, (p / 8) as int, m);
        assert(((p / 8 + pow2(64)) as int) % m == (p / 8) as int % m);
        lemma_small_mod(p / 8, pow2(64));
    }
    assert(bitpos(a, d) == (p / 8) * 8 + p % 8);
    lemma_fundamental_div_mod(p as int, 8);
}

/// Shifting the window start by `k` bytes shifts window indices by `8 k`,
/// modulo a full turn of the address space.
pub proof fn lemma_win_off_shift(a: nat, k: nat, p: nat)
    requires
        a < pow2(64),
        k < pow2(64),
        p < pow2(67),
    ensures
        win_off((a + k) % pow2(64), p) == (if win_off(a, p) >= 8 * k {
            win_off(a, p) - 8 * k
        } else {
            win_off(a, p) + 8 * (pow2(64) - k)
        }),
{
    lemma2_to64();
    let m = pow2(64) as int;
    let b = (a + k) % pow2(64);
    let qa = (p / 8 + pow2(64) - a) % m;
    let qb = (p / 8 + pow2(64) - b) % m;
    assert(0 <= qa < m && 0 <= qb < m && 0 <= b < m) by {
        vstd::arithmetic::div_mod::lemma_mod_bound((p / 8 + pow2(64) - a) as int, m);
        vstd::arithmetic::div_mod::lemma_mod_bound((p / 8 + pow2(64) - b) as int, m);
        vstd::arithmetic::div_mod::lemma_mod_bound((a + k) as int, m);
    }
    // qb is congruent to qa - k modulo 2^64
    assert(qb == (if qa - k >= 0 {
        qa - k
    } else {
        qa - k + m
    })) by {
        lemma_fundamental_div_mod((a + k) as int, m);
        let t = (a + k) as int / m;
        assert(b == a + k - m * t);
        lemma_fundamental_div_mod((p / 8 + pow2(64) - a) as int, m);
        let u = (p / 8 + pow2(64) - a) as int / m;
        assert(qa == p / 8 + pow2(64) - a - m * u);
        assert(p / 8 + pow2(64) - b == qa - k + m * (1 + t + u) - m);
        if qa - k >= 0 {
            lemma_mod_multiples_vanish(t + u, qa - k, m);
            lemma_small_mod((qa - k) as nat, pow2(64));
        } else {
            assert(p / 8 + pow2(64) - b == (qa - k + m) + m * (t + u - 1));
            lemma_mod_multiples_vanish(t + u - 1, qa - k + m, m);
            lemma_small_mod((qa - k + m) as nat, pow2(64));
        }
    }
    assert(win_off(a, p) == qa * 8 + p % 8);
    assert(win_off(b, p) == qb * 8 + p % 8);
    if qa >= k {
        assert(win_off(a, p) >= 8 * k);
        assert(qb == qa - k);
    } else {
        assert(win_off(a, p) < 8 * k);
        assert(qb == qa - k + m);
    }
}

/// Within one cell, bit positions are an affine function of the address.
proof fn lemma_bitpos_in_cell(a: nat, j: nat)
    requires
        a < pow2(64),
        (a % 8) * 8 + j < 64,
    ensures
        bitpos(a, j) == (a / 8) * 64 + (a % 8) * 8 + j,
        bitpos(a, j) < pow2(67),
{
    lemma2_to64();
    lemma_pow2_adds(64, 3);
    assert(j / 8 <= 7 - a % 8) by {
        lemma_fundamental_div_mod(j as int, 8);
    }
    lemma_fundamental_div_mod(a as int, 8);
    assert(a == 8 * (a / 8) + a % 8);
    assert(a / 8 < pow2(61)) by {
        lemma_pow2_adds(61, 3);
    }
    assert(a + j / 8 < pow2(64));
    lemma_small_mod((a + j / 8) as nat, pow2(64));
    assert(bitpos(a, j) == (a + j / 8) * 8 + j % 8);
    lemma_fundamental_div_mod(j as int, 8);
}

/// A window that runs past its first cell continues at the start of the
/// following cell, wrapping at the top of the address space.
proof fn lemma_bitpos_next_cell(a: nat, j: nat)
    requires
        a < pow2(64),
        j < 64,
        (a % 8) * 8 + j >= 64,
    ensures
        bitpos(a, j) == (((a + 8) % pow2(64)) / 8) * 64 + ((a % 8) * 8 + j - 64),
        bitpos(a, j) < pow2(67),
{
    lemma2_to64();
    lemma_pow2_adds(64, 3);
    lemma_pow2_adds(61, 3);
    lemma_fundamental_div_mod(a as int, 8);
    lemma_fundamental_div_mod(j as int, 8);
    let v0 = a % 8;
    let q = a / 8;
    assert(v0 + j / 8 >= 8);
    assert(v0 + j / 8 <= 14);
    let e = (v0 + j / 8 - 8) as nat;
    assert(a + j / 8 == 8 * (q + 1) + e);
    if q + 1 < pow2(61) {
        assert(a + j / 8 < pow2(64));
        lemma_small_mod((a + j / 8) as nat, pow2(64));
        assert(a + 8 < pow2(64));
        lemma_small_mod((a + 8) as nat, pow2(64));
        assert((a + 8) / 8 == q + 1) by {
            lemma_fundamental_div_mod_converse((a + 8) as int, 8, q as int + 1, v0 as int);
        }
        assert(bitpos(a, j) == (8 * (q + 1) + e) * 8 + j % 8);
        assert((8 * (q + 1) + e) * 8 == (q + 1) * 64 + e * 8) by (nonlinear_arith);
        assert(e * 8 + j % 8 == v0 * 8 + j - 64);
    } else {
        // The access wraps past the top of the address space.
        assert(q == pow2(61) - 1);
        assert(a + j / 8 == pow2(64) + e);
        assert((a + j / 8) % pow2(64) == e) by {
            lemma_mod_multiples_vanish(1, e as int, pow2(64) as int);
            lemma_small_mod(e, pow2(64));
        }
        assert(a + 8 == pow2(64) + v0);
        assert((a + 8) % pow2(64) == v0) by {
            lemma_mod_multiples_vanish(1, v0 as int, pow2(64) as int);
            lemma_small_mod(v0 as nat, pow2(64));
        }
        assert(v0 / 8 == 0);
        assert(bitpos(a, j) == e * 8 + j % 8);
        assert(e * 8 + j % 8 == v0 * 8 + j - 64);
    }
}

/// Stepping the address by `k` bytes steps window bits by `8 k`.
pub proof fn lemma_bitpos_shift(a: nat, k: nat, j: nat)
    requires
        a < pow2(64),
        k < pow2(64),
        j < pow2(66),
    ensures
        bitpos((a + k) % pow2(64), j) == bitpos(a, 8 * k + j),
{
    lemma2_to64();
    let m = pow2(64) as int;
    let b = (a + k) % pow2(64);
    assert((8 * k + j) / 8 == k + j / 8 && (8 * k + j) % 8 == j % 8) by {
        lemma_fundamental_div_mod(j as int, 8);
        lemma_fundamental_div_mod_converse((8 * k + j) as int, 8, (k + j / 8) as int, (j % 8) as int);
    }
    assert(j / 8 < pow2(64)) by {
        lemma_fundamental_div_mod(j as int, 8);
        lemma_pow2_adds(64, 2);
        lemma2_to64();
    }
    assert(((b + j / 8) % pow2(64)) == ((a + k + j / 8) % pow2(64))) by {
        lemma_add_mod_noop((a + k) as int, (j / 8) as int, m);
        lemma_small_mod(j / 8, pow2(64));
        assert((b + (j / 8) as int % m) % m == ((a + k + j / 8) as int) % m);
        lemma_add_mod_noop(b as int, (j / 8) as int, m);
        vstd::arithmetic::div_mod::lemma_mod_twice(b as int, m);
    }
}

/// The memory `m1` is `m0` with the `v.len()` bits at address `a` replaced
/// by `v`, bit for bit, and nothing else changed.
pub open spec fn wrote(m0: Memory, m1: Memory, a: nat, v: Seq<Option<bool>>) -> bool {
    forall|p: nat|
        p < pow2(67) ==> #[trigger] m1.mem_bit(p) == (if win_off(a, p) < v.len() {
            v[win_off(a, p) as int]
        } else {
            m0.mem_bit(p)
        })
}

/// For a window of `w` bits at offset `s` inside the cell of `a`, a bit
/// position lies in the window exactly when it lies in that cell at a bit
/// index within `[s, s + w)`.
proof fn lemma_cell_window(a: nat, p: nat, s: nat, w: nat)
    requires
        a < pow2(64),
        p < pow2(67),
        s == 8 * (a % 8),
        1 <= w,
        s + w <= 64,
    ensures
        win_off(a, p) < w <==> (p / 64 == a / 8 && s <= p % 64 < s + w),
        win_off(a, p) < w ==> win_off(a, p) + s == p % 64,
{
    lemma2_to64();
    lemma_pow2_adds(64, 2);
    lemma_pow2_adds(64, 3);
    lemma_fundamental_div_mod(p as int, 64);
    if win_off(a, p) < w {
        let d = win_off(a, p);
        lemma_bitpos_win_off(a, p);
        lemma_bitpos_in_cell(a, d);
        assert(p == (a / 8) * 64 + s + d);
        lemma_fundamental_div_mod_converse(p as int, 64, (a / 8) as int, (s + d) as int);
    }
    if p / 64 == a / 8 && s <= p % 64 < s + w {
        let j = (p % 64 - s) as nat;
        lemma_bitpos_in_cell(a, j);
        assert(bitpos(a, j) == (p / 64) * 64 + p % 64);
        lemma_win_off_bitpos(a, j);
    }
}

/// Stepping an address by one cell lands in a different cell.
proof fn lemma_next_cell_distinct(a: nat)
    requires
        a < pow2(64),
    ensures
        ((a + 8) % pow2(64)) / 8 != a / 8,
        ((a + 8) % pow2(64)) < pow2(64),
{
    lemma2_to64();
    lemma_pow2_adds(61, 3);
    lemma_fundamental_div_mod(a as int, 8);
    if a + 8 < pow2(64) {
        lemma_small_mod((a + 8) as nat, pow2(64));
        lemma_fundamental_div_mod_converse((a + 8) as int, 8, (a / 8) as int + 1, (a % 8) as int);
    } else {
        assert(a / 8 == pow2(61) - 1) by {
            if a / 8 < pow2(61) - 1 {
                assert(a < 8 * (pow2(61) - 1));
            }
            if a / 8 >= pow2(61) {
                assert(a >= 8 * pow2(61)) by {
                    vstd::arithmetic::mul::lemma_mul_inequality(
                        pow2(61) as int,
                        (a / 8) as int,
                        8,
                    );
                }
            }
        }
        let r = (a + 8 - pow2(64)) as nat;
        assert(r == a % 8);
        assert((a + 8) % pow2(64) == r) by {
            lemma_mod_multiples_vanish(1, r as int, pow2(64) as int);
            lemma_small_mod(r, pow2(64));
        }
        assert(r / 8 == 0);
    }
}

/// Two writes whose windows abut (the first ending on a byte boundary where
/// the second begins) act as one write of the concatenated data.
proof fn lemma_wrote_extend(
    m0: Memory,
    m1: Memory,
    m2: Memory,
    a: nat,
    k: nat,
    v1: Seq<Option<bool>>,
    v2: Seq<Option<bool>>,
)
    requires
        a < pow2(64),
        k <= pow2(32),
        v1.len() == 8 * k,
        v2.len() <= pow2(32),
        wrote(m0, m1, a, v1),
        wrote(m1, m2, (a + k) % pow2(64), v2),
    ensures
        wrote(m0, m2, a, v1 + v2),
{
    lemma2_to64();
    lemma_pow2_adds(32, 32);
    let b = (a + k) % pow2(64);
    assert forall|p: nat| p < pow2(67) implies #[trigger] m2.mem_bit(p) == (if win_off(a, p) < (v1
        + v2).len() {
        (v1 + v2)[win_off(a, p) as int]
    } else {
        m0.mem_bit(p)
    }) by {
        lemma_win_off_shift(a, k, p);
        let d = win_off(a, p);
        let db = win_off(b, p);
        if d < 8 * k {
            // inside the first window; far outside the second
            assert(db == d + 8 * (pow2(64) - k));
            assert(db >= v2.len());
            assert(m2.mem_bit(p) == m1.mem_bit(p));
            assert(m1.mem_bit(p) == v1[d as int]);
            assert((v1 + v2)[d as int] == v1[d as int]);
        } else {
            assert(db == d - 8 * k);
            if db < v2.len() {
                assert(m2.mem_bit(p) == v2[db as int]);
                assert((v1 + v2)[d as int] == v2[d - 8 * k]);
            } else {
                assert(m2.mem_bit(p) == m1.mem_bit(p));
                assert(d >= v1.len());
                assert(m1.mem_bit(p) == m0.mem_bit(p));
            }
        }
    }
}

/// Storing the two halves of a spliced cell pair back into their cells
/// writes the window and leaves the rest of the memory unchanged.
#[verifier::rlimit(60)]
proof fn lemma_two_cell_write(
    m0: Memory,
    m1: Memory,
    m2: Memory,
    a: nat,
    w: nat,
    vseq: Seq<Option<bool>>,
    data: Seq<Option<bool>>,
    cur: Seq<Option<bool>>,
    next: Seq<Option<bool>>,
)
    requires
        a < pow2(64),
        8 < w <= 64,
        vseq.len() == w,
        data.len() == 128,
        cur.len() == 64,
        next.len() == 64,
        forall|u: int|
            0 <= u < 128 ==> data[u] == (if 8 * (a % 8) <= u < 8 * (a % 8) + w {
                vseq[u - 8 * (a % 8)]
            } else if u < 64 {
                cur[u]
            } else {
                next[u - 64]
            }),
        forall|u: int| 0 <= u < 64 ==> cur[u] == m0.mem_bit((a / 8 * 64 + u) as nat),
        forall|u: int|
            0 <= u < 64 ==> next[u] == m0.mem_bit((((a + 8) % pow2(64)) / 8 * 64 + u) as nat),
        forall|p: nat|
            p < pow2(67) ==> #[trigger] m1.mem_bit(p) == (if p / 64 == a / 8 {
                data[(p % 64) as int]
            } else {
                m0.mem_bit(p)
            }),
        forall|p: nat|
            p < pow2(67) ==> #[trigger] m2.mem_bit(p) == (if p / 64 == ((a + 8) % pow2(64)) / 8 {
                data[64 + (p % 64) as int]
            } else {
                m1.mem_bit(p)
            }),
    ensures
        wrote(m0, m2, a, vseq),
{
    lemma2_to64();
    lemma_pow2_adds(64, 3);
    lemma_next_cell_distinct(a);
    let s = 8 * (a % 8);
    let b = (a + 8) % pow2(64);
    let qa = a / 8;
    let qb = b / 8;
    assert forall|p: nat| p < pow2(67) implies #[trigger] m2.mem_bit(p) == (if win_off(a, p) < w {
        vseq[win_off(a, p) as int]
    } else {
        m0.mem_bit(p)
    }) by {
        lemma_fundamental_div_mod(p as int, 64);
        let u = (p % 64) as int;
        if win_off(a, p) < w {
            let d = win_off(a, p);
            lemma_bitpos_win_off(a, p);
            if s + d < 64 {
                lemma_bitpos_in_cell(a, d);
                lemma_fundamental_div_mod_converse(p as int, 64, qa as int, (s + d) as int);
                assert(m2.mem_bit(p) == m1.mem_bit(p));
                assert(m1.mem_bit(p) == data[u]);
                assert(data[u] == vseq[d as int]);
            } else {
                lemma_bitpos_next_cell(a, d);
                lemma_fundamental_div_mod_converse(p as int, 64, qb as int, (s + d - 64) as int);
                assert(m2.mem_bit(p) == data[64 + u]);
                assert(data[64 + u] == vseq[d as int]);
            }
        } else {
            if p / 64 == qa {
                assert(m2.mem_bit(p) == m1.mem_bit(p));
                assert(m1.mem_bit(p) == data[u]);
                if s <= u < s + w {
                    lemma_bitpos_in_cell(a, (u - s) as nat);
                    lemma_fundamental_div_mod_converse(p as int, 64, qa as int, u);
                    lemma_win_off_bitpos(a, (u - s) as nat);
                    assert(false);
                }
                assert(data[u] == cur[u]);
                assert(m0.mem_bit(p) == cur[u]);
            } else if p / 64 == qb {
                assert(m2.mem_bit(p) == data[64 + u]);
                if s <= 64 + u < s + w {
                    lemma_bitpos_next_cell(a, (64 + u - s) as nat);
                    lemma_fundamental_div_mod_converse(p as int, 64, qb as int, u);
                    lemma_win_off_bitpos(a, (64 + u - s) as nat);
                    assert(false);
                }
                assert(data[64 + u] == next[u]);
                assert(m0.mem_bit(p) == next[u]);
            } else {
                assert(m2.mem_bit(p) == m1.mem_bit(p));
                assert(m1.mem_bit(p) == m0.mem_bit(p));
            }
        }
    }
}

/// A 64-bit address splits by place value into the intra-cell byte offset
/// (low three bits) and the cell index (the rest).
proof fn lemma_addr_split(s: Seq<Option<bool>>)
    requires
        s.len() == 64,
    ensures
        bits_value(s) == bits_value(s.subrange(0, 3)) + bits_value(s.subrange(3, 64)) * 8,
        bits_value(s.subrange(0, 3)) < 8,
        bits_value(s) / 8 == bits_value(s.subrange(3, 64)),
        bits_value(s) % 8 == bits_value(s.subrange(0, 3)),
        all_known(s) ==> all_known(s.subrange(0, 3)) && all_known(s.subrange(3, 64)),
{
    assert(s =~= s.subrange(0, 3) + s.subrange(3, 64));
    lemma_bits_value_concat(s.subrange(0, 3), s.subrange(3, 64));
    lemma_bits_value_bound(s.subrange(0, 3));
    lemma2_to64();
    lemma_fundamental_div_mod_converse(
        bits_value(s) as int,
        8,
        bits_value(s.subrange(3, 64)) as int,
        bits_value(s.subrange(0, 3)) as int,
    );
    if all_known(s) {
        assert forall|j: int| 0 <= j < 3 implies s.subrange(0, 3)[j] is Some by {
            assert(s.subrange(0, 3)[j] == s[j]);
        }
        assert forall|j: int| 0 <= j < 61 implies s.subrange(3, 64)[j] is Some by {
            assert(s.subrange(3, 64)[j] == s[j + 3]);
        }
    }
}

/// A byte-addressable memory of 64-bit cells; absent cells read as known
/// zeros (zero-initialized) or as fully unknown (uninitialized).
pub struct Memory {
    cells: HashMap<u64, BitVal>,
    default_known: bool,
}

impl Memory {
    /// Every stored cell is a well-formed 64-bit value.
    pub closed spec fn wf(self) -> bool {
        forall|k: u64|
            self.cells@.contains_key(k) ==> (#[trigger] self.cells@[k]).wf()
                && self.cells@[k]@.len() == 64
    }

    /// The bit stored at bit position `p` of the memory.
    pub closed spec fn mem_bit(self, p: nat) -> Option<bool> {
        let c = (p / 64) as u64;
        if self.cells@.contains_key(c) {
            self.cells@[c]@[(p % 64) as int]
        } else if self.default_known {
            Some(false)
        } else {
            None
        }
    }

    /// The window of `n` bits at address `a`, little-endian.
    pub open spec fn read_seq(self, a: nat, n: nat) -> Seq<Option<bool>> {
        Seq::new(n, |j: int| self.mem_bit(bitpos(a, j as nat)))
    }

    /// Every bit of the memory is unknown.
    pub open spec fn all_unknown(self) -> bool {
        forall|p: nat| p < pow2(67) ==> #[trigger] self.mem_bit(p) is None
    }

    /// Every bit of the memory is a known zero.
    pub open spec fn all_zero(self) -> bool {
        forall|p: nat| p < pow2(67) ==> #[trigger] self.mem_bit(p) == Some(false)
    }

    /// A new memory whose contents at all addresses are wholly unknown.
    pub fn new_uninitialized() -> (r: Memory)
        ensures
            r.wf(),
            r.all_unknown(),
    {
        Memory { cells: HashMap::new(), default_known: false }
    }

    /// A new memory whose contents at all addresses are zero.
    pub fn new_zero_initialized() -> (r: Memory)
        ensures
            r.wf(),
            r.all_zero(),
    {
        Memory { cells: HashMap::new(), default_known: true }
    }

    /// The whole cell containing `addr`: the 64 bits at positions
    /// `[64 (A/8), 64 (A/8) + 64)` when the cell index is known. The low
    /// three address bits are discarded; offset handling is the caller's.
    fn read_cell(&self, addr: &BitVal) -> (r: BitVal)
        requires
            self.wf(),
            addr.wf(),
            addr@.len() == 64,
        ensures
            r.wf(),
            r@.len() == 64,
            all_known(addr@.subrange(3, 64)) ==> forall|j: int|
                0 <= j < 64 ==> r@[j] == self.mem_bit(
                    (bits_value(addr@.subrange(3, 64)) * 64 + j) as nat,
                ),
            !all_known(addr@.subrange(3, 64)) ==> forall|j: int| 0 <= j < 64 ==> r@[j] is None,
    {
        let cell_num = addr.slice(63, 3);
        let r: BitVal = match cell_num.as_u64() {
            Some(k) => {
                match self.cells.get(&k) {
                    Some(cell) => cell.dup(),
                    None => {
                        if self.default_known {
                            BitVal::zero(64)
                        } else {
                            BitVal::unconstrained(64)
                        }
                    },
                }
            },
            None => BitVal::unconstrained(64),
        };
        proof {
            let kk = bits_value(addr@.subrange(3, 64));
            if all_known(addr@.subrange(3, 64)) {
                lemma_bits_value_bound(addr@.subrange(3, 64));
                lemma2_to64();
                lemma_pow2_adds(61, 3);
                assert forall|j: int| 0 <= j < 64 implies r@[j] == self.mem_bit(
                    (kk * 64 + j) as nat,
                ) by {
                    let p = (kk * 64 + j) as nat;
                    lemma_fundamental_div_mod_converse(kk as int * 64 + j, 64, kk as int, j);
                    assert(p / 64 == kk && p % 64 == j);
                    assert((p / 64) as u64 as nat == kk);
                }
            }
        }
        r
    }

    /// The intra-cell offset of `addr` in bits rather than bytes, as a value
    /// of width `wide` (64 for single-cell work, 128 for a cell pair): the
    /// low three address bits, zero-extended and shifted left by three.
    fn offset_bits(addr: &BitVal, wide: u32) -> (r: BitVal)
        requires
            addr.wf(),
            addr@.len() == 64,
            wide == 64 || wide == 128,
        ensures
            r.wf(),
            r@.len() == wide as nat,
            all_known(addr@.subrange(0, 3)) ==> all_known(r@) && bits_value(r@) == 8 * bits_value(
                addr@.subrange(0, 3),
            ) && bits_value(r@) <= 56,
            !all_known(addr@.subrange(0, 3)) ==> !all_known(r@),
    {
        let low3 = addr.slice(2, 0);
        let ext = low3.uext(wide - 3);
        let log_bits_in_byte = BitVal::from_u64(3, wide);
        let r = ext.sll(&log_bits_in_byte);
        proof {
            lemma2_to64();
            assert(bits_value(log_bits_in_byte@) == 3) by {
                if wide == 128 {
                    vstd::arithmetic::power2::lemma_pow2_strictly_increases(2, 128);
                }
                lemma_small_mod(3, pow2(wide as nat));
            }
            let f3 = Seq::new(3, |j: int| Some(false));
            let tail = Seq::new((wide - 6) as nat, |j: int| Some(false));
            assert(r@ =~= (f3 + low3@) + tail);
            lemma_bits_value_concat(f3, low3@);
            lemma_bits_value_falses(3);
            crate::bits::lemma_bits_value_pad(f3 + low3@, (wide - 6) as nat);
            assert(bits_value(r@) == bits_value(low3@) * pow2(3));
            lemma_bits_value_bound(low3@);
            if all_known(addr@.subrange(0, 3)) {
                assert forall|j: int| 0 <= j < wide as nat implies r@[j] is Some by {
                    if 3 <= j < 6 {
                        assert(r@[j] == low3@[j - 3]);
                    }
                }
            } else {
                let w = choose|w: int| 0 <= w < 3 && !(addr@.subrange(0, 3)[w] is Some);
                assert(r@[w + 3] == low3@[w]);
            }
        }
        r
    }

    /// Read `bits` bits at `addr`, at any alignment, provided the window does
    /// not cross a cell boundary. An access of at most eight bits never
    /// crosses, so a partially known address is allowed only there.
    fn read_within_cell(&self, addr: &BitVal, bits: u32) -> (r: BitVal)
        requires
            self.wf(),
            addr.wf(),
            addr@.len() == 64,
            1 <= bits <= 64,
            all_known(addr@) ==> (bits_value(addr@) % 8) * 8 + bits as nat <= 64,
            !all_known(addr@) ==> bits <= 8,
        ensures
            r.wf(),
            r@.len() == bits as nat,
            all_known(addr@) ==> r@ == self.read_seq(bits_value(addr@), bits as nat),
            !all_known(addr@) ==> forall|j: int| 0 <= j < bits as nat ==> r@[j] is None,
    {
        let cell_contents = self.read_cell(addr);
        proof {
            lemma_addr_split(addr@);
            lemma_bits_value_bound(addr@);
            lemma2_to64();
        }
        if bits == 64 {
            proof {
                let a = bits_value(addr@);
                assert(all_known(addr@));
                assert forall|j: int| 0 <= j < 64 implies cell_contents@[j] == self.mem_bit(
                    bitpos(a, j as nat),
                ) by {
                    lemma_bitpos_in_cell(a, j as nat);
                }
                assert(cell_contents@ =~= self.read_seq(a, 64));
            }
            cell_contents
        } else {
            let offset = Memory::offset_bits(addr, 64);
            let shifted = cell_contents.srl(&offset);
            let r = shifted.slice(bits - 1, 0);
            proof {
                if all_known(addr@) {
                    let a = bits_value(addr@);
                    let s = 8 * (a % 8);
                    assert(bits_value(offset@) == s);
                    assert forall|j: int| 0 <= j < bits as nat implies r@[j] == self.mem_bit(
                        bitpos(a, j as nat),
                    ) by {
                        assert(r@[j] == shifted@[j]);
                        assert(shifted@[j] == cell_contents@[j + s]);
                        lemma_bitpos_in_cell(a, j as nat);
                    }
                    assert(r@ =~= self.read_seq(a, bits as nat));
                } else {
                    if all_known(addr@.subrange(0, 3)) {
                        let s = bits_value(offset@);
                        assert(!all_known(addr@.subrange(3, 64))) by {
                            let w = choose|w: int| 0 <= w < 64 && !(addr@[w] is Some);
                            if w < 3 {
                                assert(addr@.subrange(0, 3)[w] == addr@[w]);
                            } else {
                                assert(addr@.subrange(3, 64)[w - 3] == addr@[w]);
                            }
                        }
                        assert forall|j: int| 0 <= j < bits as nat implies r@[j] is None by {
                            assert(r@[j] == shifted@[j]);
                            assert(shifted@[j] == cell_contents@[j + s]);
                        }
                    } else {
                        assert forall|j: int| 0 <= j < bits as nat implies r@[j] is None by {
                            assert(r@[j] == shifted@[j]);
                        }
                    }
                }
            }
            r
        }
    }

    /// Write `val` at `addr`, at any alignment, provided the window does not
    /// cross a cell boundary. The untouched bits of the cell are read,
    /// masked and written back together with the new data.
    fn write_within_cell(&mut self, addr: &BitVal, val: BitVal)
        requires
            old(self).wf(),
            addr.wf(),
            addr@.len() == 64,
            val.wf(),
            1 <= val@.len() <= 64,
            all_known(addr@) ==> (bits_value(addr@) % 8) * 8 + val@.len() <= 64,
        ensures
            final(self).wf(),
            all_known(addr@) ==> wrote(*old(self), *final(self), bits_value(addr@), val@),
            (forall|j: int| 0 <= j < 64 ==> addr@[j] is None) ==> final(self).all_unknown(),
    {
        let write_size = val.width();
        proof {
            lemma_addr_split(addr@);
            lemma_bits_value_bound(addr@);
            lemma2_to64();
            if forall|j: int| 0 <= j < 64 ==> addr@[j] is None {
                assert(!(addr@.subrange(3, 64)[0] is Some)) by {
                    assert(addr@.subrange(3, 64)[0] == addr@[3]);
                }
            }
        }
        if write_size == 64 {
            let ghost a = bits_value(addr@);
            self.write_cell(addr, val);
            proof {
                if all_known(addr@) {
                    assert(a % 8 == 0);
                    assert forall|p: nat| p < pow2(67) implies #[trigger] self.mem_bit(p) == (
                    if win_off(a, p) < val@.len() {
                        val@[win_off(a, p) as int]
                    } else {
                        old(self).mem_bit(p)
                    }) by {
                        lemma_cell_window(a, p, 0, 64);
                        if p / 64 == a / 8 {
                            assert(self.mem_bit(p) == val@[(p % 64) as int]);
                        }
                    }
                }
            }
        } else {
            let offset = Memory::offset_bits(addr, 64);
            let mask_clear = BitVal::ones(write_size).uext(64 - write_size).sll(&offset).not();
            let mask_write = val.uext(64 - write_size).sll(&offset);
            let cur = self.read_cell(addr);
            let data = cur.and(&mask_clear).or(&mask_write);
            let ghost a = bits_value(addr@);
            let ghost w = val@.len();
            proof {
                if all_known(addr@) {
                    let s = 8 * (a % 8);
                    assert(bits_value(offset@) == s);
                    assert forall|u: int| 0 <= u < 64 implies data@[u] == (if s <= u < s + w {
                        val@[u - s]
                    } else {
                        cur@[u]
                    }) by {
                        assert(data@[u] == or_bit(and_bit(cur@[u], mask_clear@[u]), mask_write@[u]));
                    }
                }
            }
            self.write_cell(addr, data);
            proof {
                if all_known(addr@) {
                    let s = 8 * (a % 8);
                    assert forall|p: nat| p < pow2(67) implies #[trigger] self.mem_bit(p) == (
                    if win_off(a, p) < w {
                        val@[win_off(a, p) as int]
                    } else {
                        old(self).mem_bit(p)
                    }) by {
                        lemma_cell_window(a, p, s, w);
                        if p / 64 == a / 8 {
                            assert(self.mem_bit(p) == data@[(p % 64) as int]);
                        }
                    }
                }
            }
        }
    }

    /// Read up to a cell's worth of bits at any alignment; the window may
    /// cross one cell boundary, in which case the cell pair is merged into a
    /// 128-bit term and the window cut out of it.
    fn read_small(&self, addr: &BitVal, bits: u32) -> (r: BitVal)
        requires
            self.wf(),
            addr.wf(),
            addr@.len() == 64,
            1 <= bits <= 64,
        ensures
            r.wf(),
            r@.len() == bits as nat,
            all_known(addr@) ==> r@ == self.read_seq(bits_value(addr@), bits as nat),
            (forall|j: int| 0 <= j < 64 ==> addr@[j] is None) ==> (forall|j: int|
                0 <= j < bits as nat ==> r@[j] is None),
    {
        if bits <= 8 {
            // such a window cannot cross a cell boundary
            proof {
                if all_known(addr@) {
                    lemma_addr_split(addr@);
                }
            }
            self.read_within_cell(addr, bits)
        } else {
            let cell_bytes = BitVal::from_u64(8, 64);
            let next_cell_addr = addr.add(&cell_bytes);
            let cur_cell = self.read_cell(addr);
            let next_cell = self.read_cell(&next_cell_addr);
            let merged = next_cell.concat(&cur_cell);
            let offset = Memory::offset_bits(addr, 128);
            let shifted = merged.srl(&offset);
            let r = shifted.slice(bits - 1, 0);
            proof {
                lemma2_to64();
                lemma_small_mod(8, pow2(64));
                lemma_bits_value_bound(addr@);
                lemma_addr_split(addr@);
                if all_known(addr@) {
                    let a = bits_value(addr@);
                    let b = bits_value(next_cell_addr@);
                    let s = 8 * (a % 8);
                    lemma_addr_split(next_cell_addr@);
                    lemma_bits_value_bound(next_cell_addr@);
                    assert(b == (a + 8) % pow2(64));
                    assert(bits_value(offset@) == s);
                    assert forall|j: int| 0 <= j < bits as nat implies r@[j] == self.mem_bit(
                        bitpos(a, j as nat),
                    ) by {
                        assert(r@[j] == shifted@[j]);
                        assert(shifted@[j] == merged@[j + s]);
                        if j + s < 64 {
                            assert(merged@[j + s] == cur_cell@[j + s]);
                            lemma_bitpos_in_cell(a, j as nat);
                        } else {
                            assert(merged@[j + s] == next_cell@[j + s - 64]);
                            lemma_bitpos_next_cell(a, j as nat);
                        }
                    }
                    assert(r@ =~= self.read_seq(a, bits as nat));
                }
                if forall|j: int| 0 <= j < 64 ==> addr@[j] is None {
                    assert(!(addr@.subrange(0, 3)[0] is Some)) by {
                        assert(addr@.subrange(0, 3)[0] == addr@[0]);
                    }
                    assert forall|j: int| 0 <= j < bits as nat implies r@[j] is None by {
                        assert(r@[j] == shifted@[j]);
                    }
                }
            }
            r
        }
    }

    /// Write up to a cell's worth of bits at any alignment; the window may
    /// cross one cell boundary, in which case 128-bit masks are applied to
    /// the cell pair and both cells stored back.
    #[verifier::rlimit(60)]
    fn write_small(&mut self, addr: &BitVal, val: BitVal)
        requires
            old(self).wf(),
            addr.wf(),
            addr@.len() == 64,
            val.wf(),
            1 <= val@.len() <= 64,
        ensures
            final(self).wf(),
            all_known(addr@) ==> wrote(*old(self), *final(self), bits_value(addr@), val@),
            (forall|j: int| 0 <= j < 64 ==> addr@[j] is None) ==> final(self).all_unknown(),
    {
        let write_size = val.width();
        if write_size <= 8 {
            proof {
                if all_known(addr@) {
                    lemma_addr_split(addr@);
                }
            }
            self.write_within_cell(addr, val);
        } else {
            let next_cell_addr = addr.add(&BitVal::from_u64(8, 64));
            let offset = Memory::offset_bits(addr, 128);
            let mask_clear = BitVal::ones(write_size).uext(128 - write_size).sll(&offset).not();
            let mask_write = val.uext(128 - write_size).sll(&offset);
            let cur_cell = self.read_cell(addr);
            let next_cell = self.read_cell(&next_cell_addr);
            let merged = next_cell.concat(&cur_cell);
            let data = merged.and(&mask_clear).or(&mask_write);
            let lo = data.slice(63, 0);
            let hi = data.slice(127, 64);
            let ghost a = bits_value(addr@);
            let ghost b = bits_value(next_cell_addr@);
            let ghost w = val@.len();
            let ghost m0 = *self;
            proof {
                lemma2_to64();
                lemma_small_mod(8, pow2(64));
                lemma_bits_value_bound(addr@);
                lemma_addr_split(addr@);
                lemma_addr_split(next_cell_addr@);
                if all_known(addr@) {
                    let s = 8 * (a % 8);
                    assert(bits_value(offset@) == s);
                    assert forall|u: int| 0 <= u < 128 implies data@[u] == (if s <= u < s + w {
                        val@[u - s]
                    } else {
                        merged@[u]
                    }) by {
                        assert(data@[u] == or_bit(
                            and_bit(merged@[u], mask_clear@[u]),
                            mask_write@[u],
                        ));
                    }
                }
                if forall|j: int| 0 <= j < 64 ==> addr@[j] is None {
                    assert(!(addr@.subrange(3, 64)[0] is Some)) by {
                        assert(addr@.subrange(3, 64)[0] == addr@[3]);
                    }
                    assert(!all_known(next_cell_addr@.subrange(3, 64))) by {
                        assert(next_cell_addr@.subrange(3, 64)[0] == next_cell_addr@[3]);
                    }
                }
            }
            self.write_cell(addr, lo);
            let ghost m1 = *self;
            self.write_cell(&next_cell_addr, hi);
            proof {
                if all_known(addr@) {
                    let s = 8 * (a % 8);
                    assert(b == (a + 8) % pow2(64));
                    assert forall|u: int| 0 <= u < 128 implies data@[u] == (if s <= u < s + w {
                        val@[u - s]
                    } else if u < 64 {
                        cur_cell@[u]
                    } else {
                        next_cell@[u - 64]
                    }) by {
                        if !(s <= u < s + w) {
                            assert(data@[u] == merged@[u]);
                        }
                    }
                    assert forall|p: nat| p < pow2(67) implies #[trigger] m1.mem_bit(p) == (if p
                        / 64 == a / 8 {
                        data@[(p % 64) as int]
                    } else {
                        m0.mem_bit(p)
                    }) by {
                        if p / 64 == a / 8 {
                            assert(m1.mem_bit(p) == lo@[(p % 64) as int]);
                        }
                    }
                    assert forall|p: nat| p < pow2(67) implies #[trigger] self.mem_bit(p) == (if p
                        / 64 == b / 8 {
                        data@[64 + (p % 64) as int]
                    } else {
                        m1.mem_bit(p)
                    }) by {
                        if p / 64 == b / 8 {
                            assert(self.mem_bit(p) == hi@[(p % 64) as int]);
                        }
                    }
                    lemma_two_cell_write(m0, m1, *self, a, w, val@, data@, cur_cell@, next_cell@);
                }
            }
        }
    }

    /// Read any positive number of bits at a cell-aligned, fully known
    /// address, cell by cell. A width that is an exact multiple of the cell
    /// size yields a final chunk of a whole cell, never an empty one.
    fn read_large_aligned(&self, addr: &BitVal, bits: u32) -> (r: BitVal)
        requires
            self.wf(),
            addr.wf(),
            addr@.len() == 64,
            1 <= bits,
            all_known(addr@),
            bits_value(addr@) % 8 == 0,
        ensures
            r.wf(),
            r@.len() == bits as nat,
            r@ == self.read_seq(bits_value(addr@), bits as nat),
    {
        let ghost a = bits_value(addr@);
        proof {
            lemma_bits_value_bound(addr@);
            lemma2_to64();
        }
        let num_full_cells = (bits - 1) / 64;
        let bits_in_last_cell = (bits - 1) % 64 + 1;
        proof {
            lemma_fundamental_div_mod((bits - 1) as int, 64);
            assert(bits == 64 * num_full_cells + bits_in_last_cell);
        }
        let first_sz = if num_full_cells == 0 {
            bits_in_last_cell
        } else {
            64
        };
        let mut acc = self.read_within_cell(addr, first_sz);
        let mut i: u32 = 1;
        proof {
            assert(acc@ =~= self.read_seq(a, acc@.len()));
        }
        while i <= num_full_cells
            invariant
                self.wf(),
                addr.wf(),
                addr@.len() == 64,
                all_known(addr@),
                a == bits_value(addr@),
                a < pow2(64),
                a % 8 == 0,
                bits == 64 * num_full_cells + bits_in_last_cell,
                1 <= bits_in_last_cell <= 64,
                1 <= i <= num_full_cells + 1,
                acc.wf(),
                acc@.len() == (if i <= num_full_cells {
                    64 * i as nat
                } else {
                    bits as nat
                }),
                acc@ == self.read_seq(a, acc@.len()),
            decreases num_full_cells + 1 - i,
        {
            let sz = if i < num_full_cells {
                64
            } else {
                bits_in_last_cell
            };
            let step = BitVal::from_u64((i as u64) * 8, 64);
            let a_i = addr.add(&step);
            proof {
                lemma2_to64();
                lemma_small_mod((i as u64) as nat * 8, pow2(64));
                let b_i = (a + (i as nat) * 8) % pow2(64);
                assert(bits_value(a_i@) == b_i);
                assert(b_i % 8 == 0) by {
                    lemma_pow2_adds(61, 3);
                    lemma_mod_mod((a + (i as nat) * 8) as int, 8, pow2(61) as int);
                    lemma_mod_multiples_vanish(i as int, a as int, 8);
                }
                lemma_bits_value_bound(a_i@);
            }
            let chunk = self.read_within_cell(&a_i, sz);
            let ghost done = acc@.len();
            let next_acc = chunk.concat(&acc);
            proof {
                let b_i = bits_value(a_i@);
                lemma_pow2_adds(64, 2);
                assert forall|u: int| 0 <= u < done + sz as nat implies next_acc@[u]
                    == self.mem_bit(bitpos(a, u as nat)) by {
                    if u < done {
                        assert(next_acc@[u] == acc@[u]);
                    } else {
                        assert(next_acc@[u] == chunk@[u - done]);
                        assert(chunk@[u - done] == self.mem_bit(bitpos(b_i, (u - done) as nat)));
                        lemma_bitpos_shift(a, (i as nat) * 8, (u - done) as nat);
                        assert(8 * ((i as nat) * 8) + (u - done) as nat == u);
                    }
                }
                assert(next_acc@ =~= self.read_seq(a, done + sz as nat));
            }
            acc = next_acc;
            i += 1;
        }
        acc
    }

    /// Write any positive number of bits at a cell-aligned, fully known
    /// address, cell by cell; chunk `i` of the decomposition stores bits
    /// `[64 i, 64 i + size_i)` of `val`.
    fn write_large_aligned(&mut self, addr: &BitVal, val: BitVal)
        requires
            old(self).wf(),
            addr.wf(),
            addr@.len() == 64,
            val.wf(),
            1 <= val@.len(),
            all_known(addr@),
            bits_value(addr@) % 8 == 0,
        ensures
            final(self).wf(),
            wrote(*old(self), *final(self), bits_value(addr@), val@),
    {
        let ghost a = bits_value(addr@);
        proof {
            lemma_bits_value_bound(addr@);
            lemma2_to64();
        }
        let write_size = val.width();
        let num_full_cells = (write_size - 1) / 64;
        let bits_in_last_cell = (write_size - 1) % 64 + 1;
        proof {
            lemma_fundamental_div_mod((write_size - 1) as int, 64);
            assert(write_size == 64 * num_full_cells + bits_in_last_cell);
            assert(val@.subrange(0, 0) =~= Seq::<Option<bool>>::empty());
        }
        let mut i: u32 = 0;
        while i <= num_full_cells
            invariant
                addr.wf(),
                addr@.len() == 64,
                all_known(addr@),
                a == bits_value(addr@),
                a < pow2(64),
                a % 8 == 0,
                val.wf(),
                write_size as nat == val@.len(),
                write_size == 64 * num_full_cells + bits_in_last_cell,
                1 <= bits_in_last_cell <= 64,
                0 <= i <= num_full_cells + 1,
                self.wf(),
                wrote(
                    *old(self),
                    *self,
                    a,
                    val@.subrange(
                        0,
                        if i <= num_full_cells {
                            64 * i as int
                        } else {
                            write_size as int
                        },
                    ),
                ),
            decreases num_full_cells + 1 - i,
        {
            let sz = if i < num_full_cells {
                64
            } else {
                bits_in_last_cell
            };
            let offset_bits_low = i * 64;
            let write_data = val.slice(offset_bits_low + sz - 1, offset_bits_low);
            let step = BitVal::from_u64((i as u64) * 8, 64);
            let a_i = addr.add(&step);
            let ghost m_pre = *self;
            let ghost done = 64 * i as int;
            proof {
                lemma2_to64();
                lemma_small_mod((i as u64) as nat * 8, pow2(64));
                let b_i = (a + (i as nat) * 8) % pow2(64);
                assert(bits_value(a_i@) == b_i);
                assert(b_i % 8 == 0) by {
                    lemma_pow2_adds(61, 3);
                    lemma_mod_mod((a + (i as nat) * 8) as int, 8, pow2(61) as int);
                    lemma_mod_multiples_vanish(i as int, a as int, 8);
                }
                lemma_bits_value_bound(a_i@);
            }
            self.write_within_cell(&a_i, write_data);
            proof {
                lemma_wrote_extend(
                    *old(self),
                    m_pre,
                    *self,
                    a,
                    (i as nat) * 8,
                    val@.subrange(0, done),
                    write_data@,
                );
                assert(val@.subrange(0, done) + write_data@ =~= val@.subrange(0, done + sz));
            }
            i += 1;
        }
        proof {
            assert(val@.subrange(0, write_size as int) =~= val@);
        }
    }

    /// Read any positive number of bits at any alignment. When the address
    /// is pinned to one value the result is exactly the little-endian window
    /// at that address; a wholly unknown address yields a wholly unknown
    /// value. A width beyond one cell must be a whole number of bytes unless
    /// the address is fully known.
    pub fn read(&self, addr: &BitVal, bits: u32) -> (r: BitVal)
        requires
            self.wf(),
            addr.wf(),
            addr@.len() == 64,
            1 <= bits,
            bits > 64 ==> (bits % 8 == 0 || all_known(addr@)),
        ensures
            r.wf(),
            r@.len() == bits as nat,
            all_known(addr@) ==> r@ == self.read_seq(bits_value(addr@), bits as nat),
            (forall|j: int| 0 <= j < 64 ==> addr@[j] is None) ==> (forall|j: int|
                0 <= j < bits as nat ==> r@[j] is None),
    {
        if bits <= 64 {
            // small reads take the direct cell-pair path
            self.read_small(addr, bits)
        } else {
            match addr.as_u64() {
                Some(addr_u64) => {
                    // the address is pinned to a single concrete value
                    let ghost a = bits_value(addr@);
                    proof {
                        lemma_bits_value_bound(addr@);
                        lemma2_to64();
                    }
                    let cell_offset = addr_u64 % 8;
                    if cell_offset == 0 {
                        self.read_large_aligned(addr, bits)
                    } else {
                        // consume the rest of this cell, then read aligned
                        let bytes_till_cell_boundary = 8 - cell_offset;
                        let first_bits = (bytes_till_cell_boundary as u32) * 8;
                        let first = self.read_small(addr, first_bits);
                        let step = BitVal::from_u64(bytes_till_cell_boundary, 64);
                        let next_cell_addr = addr.add(&step);
                        proof {
                            lemma_small_mod(bytes_till_cell_boundary as nat, pow2(64));
                            let b = (a + bytes_till_cell_boundary as nat) % pow2(64);
                            assert(bits_value(next_cell_addr@) == b);
                            assert(b % 8 == 0) by {
                                lemma_pow2_adds(61, 3);
                                lemma_mod_mod(
                                    (a + bytes_till_cell_boundary as nat) as int,
                                    8,
                                    pow2(61) as int,
                                );
                                vstd::arithmetic::div_mod::lemma_mod_adds(
                                    a as int,
                                    bytes_till_cell_boundary as int,
                                    8,
                                );
                            }
                            lemma_bits_value_bound(next_cell_addr@);
                        }
                        let rest = self.read_large_aligned(&next_cell_addr, bits - first_bits);
                        let r = rest.concat(&first);
                        proof {
                            let b = bits_value(next_cell_addr@);
                            lemma_pow2_adds(64, 2);
                            assert forall|u: int| 0 <= u < bits as nat implies r@[u]
                                == self.mem_bit(bitpos(a, u as nat)) by {
                                if u < first_bits {
                                    assert(r@[u] == first@[u]);
                                } else {
                                    assert(r@[u] == rest@[u - first_bits]);
                                    lemma_bitpos_shift(
                                        a,
                                        bytes_till_cell_boundary as nat,
                                        (u - first_bits) as nat,
                                    );
                                }
                            }
                            assert(r@ =~= self.read_seq(a, bits as nat));
                        }
                        r
                    }
                },
                None => {
                    // alignment unknown: read byte by byte
                    let bytes = bits / 8;
                    let mut acc = self.read_within_cell(addr, 8);
                    let mut byte_num: u32 = 1;
                    while byte_num < bytes
                        invariant
                            self.wf(),
                            addr.wf(),
                            addr@.len() == 64,
                            !all_known(addr@),
                            bytes * 8 == bits,
                            1 <= byte_num <= bytes,
                            acc.wf(),
                            acc@.len() == 8 * byte_num as nat,
                            (forall|j: int| 0 <= j < 64 ==> addr@[j] is None) ==> (forall|j: int|
                                0 <= j < acc@.len() ==> acc@[j] is None),
                        decreases bytes - byte_num,
                    {
                        let step = BitVal::from_u64(byte_num as u64, 64);
                        let offset_addr = addr.add(&step);
                        let chunk = self.read_within_cell(&offset_addr, 8);
                        let next_acc = chunk.concat(&acc);
                        proof {
                            if forall|j: int| 0 <= j < 64 ==> addr@[j] is None {
                                assert(!all_known(offset_addr@)) by {
                                    assert(!(addr@[0] is Some));
                                }
                                assert forall|j: int| 0 <= j < next_acc@.len() implies next_acc@[j]
                                    is None by {
                                    if j < acc@.len() {
                                        assert(next_acc@[j] == acc@[j]);
                                    } else {
                                        assert(next_acc@[j] == chunk@[j - acc@.len()]);
                                    }
                                }
                            }
                        }
                        acc = next_acc;
                        byte_num += 1;
                    }
                    acc
                },
            }
        }
    }

    /// Write `val` at `addr`, at any alignment. When the address is pinned
    /// to one value, exactly the `val.width()` bits at that address change,
    /// to the bits of `val`; a wholly unknown address discards all tracked
    /// contents, since the store could have hit anywhere. A width beyond one
    /// cell must be a whole number of bytes unless the address is fully
    /// known.
    pub fn write(&mut self, addr: &BitVal, val: BitVal)
        requires
            old(self).wf(),
            addr.wf(),
            addr@.len() == 64,
            val.wf(),
            1 <= val@.len(),
            val@.len() > 64 ==> (val@.len() % 8 == 0 || all_known(addr@)),
        ensures
            final(self).wf(),
            all_known(addr@) ==> wrote(*old(self), *final(self), bits_value(addr@), val@),
            (forall|j: int| 0 <= j < 64 ==> addr@[j] is None) ==> final(self).all_unknown(),
    {
        let write_size = val.width();
        if write_size <= 64 {
            // small writes take the direct cell-pair path
            self.write_small(addr, val);
        } else {
            match addr.as_u64() {
                Some(addr_u64) => {
                    // the address is pinned to a single concrete value
                    let ghost a = bits_value(addr@);
                    proof {
                        lemma_bits_value_bound(addr@);
                        lemma2_to64();
                    }
                    let cell_offset = addr_u64 % 8;
                    if cell_offset == 0 {
                        self.write_large_aligned(addr, val);
                    } else {
                        // fill the rest of this cell, then write aligned
                        let bytes_till_cell_boundary = 8 - cell_offset;
                        let first_bits = (bytes_till_cell_boundary as u32) * 8;
                        let first = val.slice(first_bits - 1, 0);
                        let rest = val.slice(write_size - 1, first_bits);
                        let step = BitVal::from_u64(bytes_till_cell_boundary, 64);
                        let next_cell_addr = addr.add(&step);
                        proof {
                            lemma_small_mod(bytes_till_cell_boundary as nat, pow2(64));
                            let b = (a + bytes_till_cell_boundary as nat) % pow2(64);
                            assert(bits_value(next_cell_addr@) == b);
                            assert(b % 8 == 0) by {
                                lemma_pow2_adds(61, 3);
                                lemma_mod_mod(
                                    (a + bytes_till_cell_boundary as nat) as int,
                                    8,
                                    pow2(61) as int,
                                );
                                vstd::arithmetic::div_mod::lemma_mod_adds(
                                    a as int,
                                    bytes_till_cell_boundary as int,
                                    8,
                                );
                            }
                            lemma_bits_value_bound(next_cell_addr@);
                        }
                        self.write_small(addr, first);
                        let ghost m1 = *self;
                        self.write_large_aligned(&next_cell_addr, rest);
                        proof {
                            lemma_wrote_extend(
                                *old(self),
                                m1,
                                *self,
                                a,
                                bytes_till_cell_boundary as nat,
                                first@,
                                rest@,
                            );
                            assert(first@ + rest@ =~= val@);
                        }
                    }
                },
                None => {
                    // alignment unknown: write byte by byte
                    let val_bytes = write_size / 8;
                    let mut byte_num: u32 = 0;
                    while byte_num < val_bytes
                        invariant
                            self.wf(),
                            addr.wf(),
                            addr@.len() == 64,
                            !all_known(addr@),
                            val.wf(),
                            write_size as nat == val@.len(),
                            val_bytes * 8 == write_size,
                            1 <= val_bytes,
                            0 <= byte_num <= val_bytes,
                            (forall|j: int| 0 <= j < 64 ==> addr@[j] is None) ==> (byte_num > 0
                                ==> self.all_unknown()),
                            byte_num == 0 ==> *self == *old(self),
                        decreases val_bytes - byte_num,
                    {
                        let val_byte = val.slice((byte_num + 1) * 8 - 1, byte_num * 8);
                        let step = BitVal::from_u64(byte_num as u64, 64);
                        let offset_addr = addr.add(&step);
                        proof {
                            if forall|j: int| 0 <= j < 64 ==> addr@[j] is None {
                                assert(!all_known(addr@)) by {
                                    assert(!(addr@[0] is Some));
                                }
                                assert(forall|j: int| 0 <= j < 64 ==> offset_addr@[j] is None);
                            }
                        }
                        self.write_within_cell(&offset_addr, val_byte);
                        byte_num += 1;
                    }
                },
            }
        }
    }

    /// Replace the whole cell containing `addr` with `val`. An address whose
    /// cell index is not fully known discards all tracked contents: the
    /// store could have hit any cell.
    fn write_cell(&mut self, addr: &BitVal, val: BitVal)
        requires
            old(self).wf(),
            addr.wf(),
            addr@.len() == 64,
            val.wf(),
            val@.len() == 64,
        ensures
            final(self).wf(),
            all_known(addr@.subrange(3, 64)) ==> forall|p: nat|
                p < pow2(67) ==> #[trigger] final(self).mem_bit(p) == (if p / 64 == bits_value(
                    addr@.subrange(3, 64),
                ) {
                    val@[(p % 64) as int]
                } else {
                    old(self).mem_bit(p)
                }),
            !all_known(addr@.subrange(3, 64)) ==> final(self).all_unknown(),
    {
        let cell_num = addr.slice(63, 3);
        match cell_num.as_u64() {
            Some(k) => {
                self.cells.insert(k, val);
                proof {
                    let kk = bits_value(addr@.subrange(3, 64));
                    lemma_bits_value_bound(addr@.subrange(3, 64));
                    lemma2_to64();
                    lemma_pow2_adds(61, 3);
                    lemma_pow2_adds(61, 6);
                    assert forall|p: nat| p < pow2(67) implies #[trigger] self.mem_bit(p) == (if p
                        / 64 == kk {
                        val@[(p % 64) as int]
                    } else {
                        old(self).mem_bit(p)
                    }) by {
                        vstd::arithmetic::div_mod::lemma_mod_bound(p as int, 64);
                        lemma_fundamental_div_mod(p as int, 64);
                        assert(p / 64 < pow2(61)) by {
                            if p / 64 >= pow2(61) {
                                vstd::arithmetic::mul::lemma_mul_inequality(
                                    pow2(61) as int,
                                    (p / 64) as int,
                                    64,
                                );
                                assert(p >= pow2(61) * 64);
                            }
                        }
                        assert((p / 64) as u64 as nat == p / 64);
                    }
                }
            },
            None => {
                self.cells.clear();
                self.default_known = false;
            },
        }
    }
}

} // verus!
