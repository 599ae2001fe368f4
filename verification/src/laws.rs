//! The laws of the memory: what a read observes after writes. Each law is
//! stated over the memory model — `wrote` for the effect of a write and
//! `read_seq` for the value of a read — which are exactly the relations in
//! the contracts of `Memory::write` and `Memory::read` at a fully known
//! address.

use crate::memory::{bitpos, lemma_bitpos_shift, lemma_win_off_bitpos, win_off, wrote, Memory};
use vstd::arithmetic::power2::{lemma2_to64, lemma_pow2_strictly_increases, pow2};
use vstd::prelude::*;

verus! {

/// Two access windows share no bit position: every bit of the first window
/// falls outside the second. This is byte-range disjointness, stated over
/// bit positions.
pub open spec fn windows_disjoint(a1: nat, w1: nat, a2: nat, w2: nat) -> bool {
    forall|j: nat| j < w1 ==> win_off(a2, #[trigger] bitpos(a1, j)) >= w2
}

/// Round trip: after a write of `v` at address `a`, a read of `v.len()` bits
/// at `a` yields `v`, bit for bit — whatever width and alignment, and for
/// partially known data as well.
pub proof fn lemma_round_trip(m0: Memory, m1: Memory, a: nat, v: Seq<Option<bool>>)
    requires
        a < pow2(64),
        v.len() < pow2(32),
        wrote(m0, m1, a, v),
    ensures
        m1.read_seq(a, v.len()) == v,
{
    lemma2_to64();
    lemma_pow2_strictly_increases(32, 64);
    lemma_pow2_strictly_increases(32, 66);
    assert forall|j: int| 0 <= j < v.len() implies m1.read_seq(a, v.len())[j] == v[j] by {
        lemma_win_off_bitpos(a, j as nat);
    }
    assert(m1.read_seq(a, v.len()) =~= v);
}

/// Endianness: after a write of `v` at `a`, the byte read at `a + d` is byte
/// `d` of `v` — the least significant byte lives at the lowest address.
pub proof fn lemma_endianness(m0: Memory, m1: Memory, a: nat, v: Seq<Option<bool>>, d: nat)
    requires
        a < pow2(64),
        v.len() < pow2(32),
        8 * d + 8 <= v.len(),
        wrote(m0, m1, a, v),
    ensures
        m1.read_seq((a + d) % pow2(64), 8) == v.subrange(8 * d as int, 8 * d as int + 8),
{
    lemma2_to64();
    lemma_pow2_strictly_increases(32, 64);
    lemma_pow2_strictly_increases(32, 66);
    let b = (a + d) % pow2(64);
    assert forall|j: int| 0 <= j < 8 implies m1.read_seq(b, 8)[j] == v[8 * d + j] by {
        lemma_bitpos_shift(a, d, j as nat);
        lemma_win_off_bitpos(a, (8 * d + j) as nat);
    }
    assert(m1.read_seq(b, 8) =~= v.subrange(8 * d as int, 8 * d as int + 8));
}

/// Disjoint non-interference: after writes to two windows that share no bit
/// position, each window reads back its own data, untouched by the other
/// write. The writes here happen first at `a1`, then at `a2`; exchanging the
/// roles of the two windows gives the other order.
pub proof fn lemma_disjoint_writes(
    m0: Memory,
    m1: Memory,
    m2: Memory,
    a1: nat,
    v1: Seq<Option<bool>>,
    a2: nat,
    v2: Seq<Option<bool>>,
)
    requires
        a1 < pow2(64),
        a2 < pow2(64),
        v1.len() < pow2(32),
        v2.len() < pow2(32),
        wrote(m0, m1, a1, v1),
        wrote(m1, m2, a2, v2),
        windows_disjoint(a1, v1.len(), a2, v2.len()),
    ensures
        m2.read_seq(a1, v1.len()) == v1,
        m2.read_seq(a2, v2.len()) == v2,
{
    lemma2_to64();
    lemma_pow2_strictly_increases(32, 64);
    lemma_pow2_strictly_increases(32, 66);
    lemma_round_trip(m1, m2, a2, v2);
    assert forall|j: int| 0 <= j < v1.len() implies m2.read_seq(a1, v1.len())[j] == v1[j] by {
        lemma_win_off_bitpos(a1, j as nat);
        assert(win_off(a2, bitpos(a1, j as nat)) >= v2.len());
    }
    assert(m2.read_seq(a1, v1.len()) =~= v1);
}

/// Last writer wins: after two writes to the same address and of the same
/// width, a read there yields the second datum.
pub proof fn lemma_last_writer_wins(
    m0: Memory,
    m1: Memory,
    m2: Memory,
    a: nat,
    v1: Seq<Option<bool>>,
    v2: Seq<Option<bool>>,
)
    requires
        a < pow2(64),
        v1.len() == v2.len(),
        v2.len() < pow2(32),
        wrote(m0, m1, a, v1),
        wrote(m1, m2, a, v2),
    ensures
        m2.read_seq(a, v2.len()) == v2,
{
    lemma_round_trip(m1, m2, a, v2);
}

/// Zero-initialized default: in an all-zero memory, a read at any address
/// and of any width yields known zeros throughout.
pub proof fn lemma_zero_default(m: Memory, a: nat, n: nat)
    requires
        m.all_zero(),
        a < pow2(64),
        n < pow2(32),
    ensures
        m.read_seq(a, n) == Seq::new(n, |j: int| Some(false)),
{
    lemma2_to64();
    lemma_pow2_strictly_increases(32, 64);
    lemma_pow2_strictly_increases(32, 66);
    assert forall|j: int| 0 <= j < n implies m.read_seq(a, n)[j] == Some(false) by {
        lemma_win_off_bitpos(a, j as nat);
        assert(bitpos(a, j as nat) < pow2(67));
    }
    assert(m.read_seq(a, n) =~= Seq::new(n, |j: int| Some(false)));
}

/// Uninitialized unconstrainedness: in a wholly unknown memory, a read at
/// any address and of any width is unknown in every bit — nothing pins it
/// to any value.
pub proof fn lemma_uninitialized_unknown(m: Memory, a: nat, n: nat)
    requires
        m.all_unknown(),
        a < pow2(64),
        n < pow2(32),
    ensures
        m.read_seq(a, n) == Seq::new(n, |j: int| None::<bool>),
{
    lemma2_to64();
    lemma_pow2_strictly_increases(32, 64);
    lemma_pow2_strictly_increases(32, 66);
    assert forall|j: int| 0 <= j < n implies m.read_seq(a, n)[j] is None by {
        lemma_win_off_bitpos(a, j as nat);
        assert(bitpos(a, j as nat) < pow2(67));
    }
    assert(m.read_seq(a, n) =~= Seq::new(n, |j: int| None::<bool>));
}

/// Alignment equivalence: a read of `8 n` bits at `a` is, byte for byte, the
/// sequence of one-byte reads at `a`, `a + 1`, …, `a + n - 1` — the result
/// of the generic byte-by-byte fallback. Every path through `Memory::read`
/// meets the same contract, so fast paths and fallback agree.
pub proof fn lemma_bytewise_read(m: Memory, a: nat, n: nat, d: nat)
    requires
        a < pow2(64),
        8 * n < pow2(32),
        d < n,
    ensures
        m.read_seq(a, 8 * n).subrange(8 * d as int, 8 * d as int + 8) == m.read_seq(
            (a + d) % pow2(64),
            8,
        ),
{
    lemma2_to64();
    lemma_pow2_strictly_increases(32, 64);
    lemma_pow2_strictly_increases(32, 66);
    let b = (a + d) % pow2(64);
    assert forall|j: int| 0 <= j < 8 implies m.read_seq(a, 8 * n)[8 * d + j] == m.read_seq(b, 8)[j]
        by {
        lemma_bitpos_shift(a, d, j as nat);
    }
    assert(m.read_seq(a, 8 * n).subrange(8 * d as int, 8 * d as int + 8) =~= m.read_seq(b, 8));
}

} // verus!
