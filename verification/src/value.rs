//! `BitVal`: a bit-vector value of fixed positive width in which each bit is
//! either a known boolean or unknown. Unknown bits arise from unconstrained
//! inputs (an address or datum that is not pinned to one value) and spread
//! through operations exactly as far as they must.
//!
//! The view of a `BitVal` is a `Seq<Option<bool>>`, least significant bit
//! first; `None` stands for an unknown bit.

use crate::bits::{all_known, bits_value, lemma_bits_value_bound, lemma_bits_value_lower, lemma_bits_value_pad,
    lemma_bits_value_push, lemma_u64_bits_value, u64_bit};
use vstd::arithmetic::power2::{lemma2_to64, lemma_pow2_adds, lemma_pow2_pos,
    lemma_pow2_strictly_increases, pow2};
use vstd::bits::{lemma_u64_pow2_no_overflow, lemma_u64_shl_is_mul};
use vstd::prelude::*;

verus! {

/// A bit-vector value; each bit is known (`Some`) or unknown (`None`).
pub struct BitVal {
    width: u32,
    bits: Vec<bool>,
    known: Vec<bool>,
}

impl View for BitVal {
    type V = Seq<Option<bool>>;

    closed spec fn view(&self) -> Seq<Option<bool>> {
        Seq::new(
            self.width as nat,
            |j: int|
                if self.known@[j] {
                    Some(self.bits@[j])
                } else {
                    None
                },
        )
    }
}

impl BitVal {
    /// The representation matches the declared width, which is positive.
    pub closed spec fn wf(self) -> bool {
        &&& 1 <= self.width
        &&& self.bits@.len() == self.width as nat
        &&& self.known@.len() == self.width as nat
    }

    /// The declared width of the value.
    pub fn width(&self) -> (w: u32)
        requires
            self.wf(),
        ensures
            w as nat == self@.len(),
            1 <= w,
    {
        self.width
    }

    /// A constant of the given width holding `value` modulo the width,
    /// every bit known.
    pub fn from_u64(value: u64, width: u32) -> (r: BitVal)
        requires
            1 <= width,
        ensures
            r.wf(),
            r@ == Seq::new(width as nat, |j: int| Some(j < 64 && u64_bit(value, j as nat))),
            bits_value(r@) == value as nat % pow2(width as nat),
            all_known(r@),
    {
        let mut bits: Vec<bool> = Vec::new();
        let mut known: Vec<bool> = Vec::new();
        let mut j: u32 = 0;
        while j < width
            invariant
                j <= width,
                bits@.len() == j as nat,
                known@.len() == j as nat,
                forall|i: int| 0 <= i < j as nat ==> known@[i] == true,
                forall|i: int|
                    0 <= i < j as nat ==> bits@[i] == (i < 64 && u64_bit(value, i as nat)),
            decreases width - j,
        {
            let b = if j < 64 {
                (value >> (j as u64)) & 1 == 1
            } else {
                false
            };
            bits.push(b);
            known.push(true);
            j += 1;
        }
        let r = BitVal { width, bits, known };
        proof {
            let target = Seq::new(width as nat, |j: int| Some(j < 64 && u64_bit(value, j as nat)));
            assert(r@ =~= target);
            lemma_from_u64_value(value, width as nat);
        }
        r
    }

    /// A constant zero of the given width, every bit known.
    pub fn zero(width: u32) -> (r: BitVal)
        requires
            1 <= width,
        ensures
            r.wf(),
            r@ == Seq::new(width as nat, |j: int| Some(false)),
            bits_value(r@) == 0,
            all_known(r@),
    {
        let r = BitVal::from_u64(0, width);
        proof {
            assert(forall|j: nat| !u64_bit(0u64, j)) by {
                assert(forall|j: u64| #[trigger] ((0u64 >> j) & 1) == 0) by (bit_vector);
            }
            assert(r@ =~= Seq::new(width as nat, |j: int| Some(false)));
            crate::bits::lemma_bits_value_falses(width as nat);
        }
        r
    }

    /// A constant of the given width with every bit known to be one.
    pub fn ones(width: u32) -> (r: BitVal)
        requires
            1 <= width,
        ensures
            r.wf(),
            r@ == Seq::new(width as nat, |j: int| Some(true)),
            all_known(r@),
    {
        let mut bits: Vec<bool> = Vec::new();
        let mut known: Vec<bool> = Vec::new();
        let mut j: u32 = 0;
        while j < width
            invariant
                j <= width,
                bits@.len() == j as nat,
                known@.len() == j as nat,
                forall|i: int| 0 <= i < j as nat ==> known@[i] == true,
                forall|i: int| 0 <= i < j as nat ==> bits@[i] == true,
            decreases width - j,
        {
            bits.push(true);
            known.push(true);
            j += 1;
        }
        let r = BitVal { width, bits, known };
        proof {
            assert(r@ =~= Seq::new(width as nat, |j: int| Some(true)));
        }
        r
    }

    /// A value of the given width with every bit unknown: the analogue of a
    /// fresh unconstrained variable.
    pub fn unconstrained(width: u32) -> (r: BitVal)
        requires
            1 <= width,
        ensures
            r.wf(),
            r@ == Seq::new(width as nat, |j: int| None::<bool>),
    {
        let mut bits: Vec<bool> = Vec::new();
        let mut known: Vec<bool> = Vec::new();
        let mut j: u32 = 0;
        while j < width
            invariant
                j <= width,
                bits@.len() == j as nat,
                known@.len() == j as nat,
                forall|i: int| 0 <= i < j as nat ==> known@[i] == false,
            decreases width - j,
        {
            bits.push(false);
            known.push(false);
            j += 1;
        }
        let r = BitVal { width, bits, known };
        proof {
            assert(r@ =~= Seq::new(width as nat, |j: int| None::<bool>));
        }
        r
    }

    /// Whether every bit of the value is known.
    pub fn is_fully_known(&self) -> (b: bool)
        requires
            self.wf(),
        ensures
            b == all_known(self@),
    {
        let mut j: u32 = 0;
        while j < self.width
            invariant
                self.wf(),
                j <= self.width,
                forall|i: int| 0 <= i < j as nat ==> self@[i] is Some,
            decreases self.width - j,
        {
            if !self.known[j as usize] {
                assert(self@[j as int] is None);
                return false;
            }
            j += 1;
        }
        true
    }

    /// The numeric value, if the width is at most 64 and every bit is known.
    pub fn as_u64(&self) -> (r: Option<u64>)
        requires
            self.wf(),
        ensures
            match r {
                Some(v) => self@.len() <= 64 && all_known(self@) && v as nat == bits_value(self@),
                None => !(self@.len() <= 64 && all_known(self@)),
            },
    {
        if self.width > 64 {
            return None;
        }
        let mut acc: u64 = 0;
        let mut j: u32 = 0;
        proof {
            assert(self@.subrange(0, 0) =~= Seq::<Option<bool>>::empty());
        }
        while j < self.width
            invariant
                self.wf(),
                j <= self.width <= 64,
                all_known(self@.subrange(0, j as int)),
                acc as nat == bits_value(self@.subrange(0, j as int)),
            decreases self.width - j,
        {
            if !self.known[j as usize] {
                assert(self@[j as int] is None);
                return None;
            }
            proof {
                lemma_bits_value_bound(self@.subrange(0, j as int));
                lemma_u64_pow2_no_overflow(j as nat);
                lemma_u64_shl_is_mul(1u64, j as u64);
                lemma_pow2_adds(j as nat, 1);
                lemma2_to64();
                assert((1u64 << (j as u64)) == pow2(j as nat));
                assert(acc + pow2(j as nat) < pow2((j + 1) as nat));
                if j + 1 < 64 {
                    lemma_pow2_strictly_increases((j + 1) as nat, 64);
                }
                assert(pow2((j + 1) as nat) <= pow2(64));
                assert(acc + (1u64 << (j as u64)) <= u64::MAX);
                assert(self@.subrange(0, j + 1) =~= self@.subrange(0, j as int).push(
                    self@[j as int],
                ));
                lemma_bits_value_push(self@.subrange(0, j as int), self@[j as int]);
            }
            if self.bits[j as usize] {
                assert(self@[j as int] == Some(true));
                acc = acc + (1u64 << (j as u64));
            } else {
                assert(self@[j as int] == Some(false));
            }
            j += 1;
        }
        proof {
            assert(self@.subrange(0, self.width as int) =~= self@);
        }
        Some(acc)
    }

    /// An identical copy of the value.
    pub fn dup(&self) -> (r: BitVal)
        requires
            self.wf(),
        ensures
            r.wf(),
            r@ == self@,
    {
        let mut bits: Vec<bool> = Vec::new();
        let mut known: Vec<bool> = Vec::new();
        let mut j: u32 = 0;
        while j < self.width
            invariant
                self.wf(),
                j <= self.width,
                bits@.len() == j as nat,
                known@.len() == j as nat,
                forall|i: int| 0 <= i < j as nat ==> bits@[i] == self.bits@[i],
                forall|i: int| 0 <= i < j as nat ==> known@[i] == self.known@[i],
            decreases self.width - j,
        {
            bits.push(self.bits[j as usize]);
            known.push(self.known[j as usize]);
            j += 1;
        }
        let r = BitVal { width: self.width, bits, known };
        proof {
            assert(r@ =~= self@);
        }
        r
    }
}

/// Conjunction on partially known bits: false dominates.
pub open spec fn and_bit(x: Option<bool>, y: Option<bool>) -> Option<bool> {
    if x == Some(false) || y == Some(false) {
        Some(false)
    } else if x is Some && y is Some {
        Some(x == Some(true) && y == Some(true))
    } else {
        None
    }
}

/// Disjunction on partially known bits: true dominates.
pub open spec fn or_bit(x: Option<bool>, y: Option<bool>) -> Option<bool> {
    if x == Some(true) || y == Some(true) {
        Some(true)
    } else if x is Some && y is Some {
        Some(x == Some(true) || y == Some(true))
    } else {
        None
    }
}

/// Negation on a partially known bit.
pub open spec fn not_bit(x: Option<bool>) -> Option<bool> {
    match x {
        Some(b) => Some(!b),
        None => None,
    }
}

impl BitVal {
    /// The known bit at index `j`, as an option pair, for executable use.
    fn bit_at(&self, j: u32) -> (r: Option<bool>)
        requires
            self.wf(),
            (j as nat) < self@.len(),
        ensures
            r == self@[j as int],
    {
        if self.known[j as usize] {
            Some(self.bits[j as usize])
        } else {
            None
        }
    }

    /// Bits `high` down to `low`, inclusive, as a value of width
    /// `high - low + 1`.
    pub fn slice(&self, high: u32, low: u32) -> (r: BitVal)
        requires
            self.wf(),
            low <= high,
            (high as nat) < self@.len(),
        ensures
            r.wf(),
            r@ == self@.subrange(low as int, high + 1),
    {
        let mut bits: Vec<bool> = Vec::new();
        let mut known: Vec<bool> = Vec::new();
        let width = high - low + 1;
        let mut j: u32 = 0;
        while j < width
            invariant
                self.wf(),
                low <= high,
                (high as nat) < self@.len(),
                width == high - low + 1,
                j <= width,
                bits@.len() == j as nat,
                known@.len() == j as nat,
                forall|i: int| 0 <= i < j as nat ==> bits@[i] == self.bits@[low + i],
                forall|i: int| 0 <= i < j as nat ==> known@[i] == self.known@[low + i],
            decreases width - j,
        {
            bits.push(self.bits[(low + j) as usize]);
            known.push(self.known[(low + j) as usize]);
            j += 1;
        }
        let r = BitVal { width, bits, known };
        proof {
            assert(r@ =~= self@.subrange(low as int, high + 1));
        }
        r
    }

    /// `self` as the high part above `low`: the result's low bits are `low`,
    /// its high bits are `self`.
    pub fn concat(&self, low: &BitVal) -> (r: BitVal)
        requires
            self.wf(),
            low.wf(),
            self@.len() + low@.len() <= u32::MAX as nat,
        ensures
            r.wf(),
            r@ == low@ + self@,
    {
        let width = low.width + self.width;
        let mut bits: Vec<bool> = Vec::new();
        let mut known: Vec<bool> = Vec::new();
        let mut j: u32 = 0;
        while j < low.width
            invariant
                self.wf(),
                low.wf(),
                j <= low.width,
                bits@.len() == j as nat,
                known@.len() == j as nat,
                forall|i: int| 0 <= i < j as nat ==> bits@[i] == low.bits@[i],
                forall|i: int| 0 <= i < j as nat ==> known@[i] == low.known@[i],
            decreases low.width - j,
        {
            bits.push(low.bits[j as usize]);
            known.push(low.known[j as usize]);
            j += 1;
        }
        let mut k: u32 = 0;
        while k < self.width
            invariant
                self.wf(),
                low.wf(),
                k <= self.width,
                bits@.len() == low.width as nat + k as nat,
                known@.len() == low.width as nat + k as nat,
                forall|i: int| 0 <= i < low.width as nat ==> bits@[i] == low.bits@[i],
                forall|i: int| 0 <= i < low.width as nat ==> known@[i] == low.known@[i],
                forall|i: int|
                    low.width as int <= i < low.width as nat + k as nat ==> #[trigger] bits@[i]
                        == self.bits@[i - low.width],
                forall|i: int|
                    low.width as int <= i < low.width as nat + k as nat ==> #[trigger] known@[i]
                        == self.known@[i - low.width],
            decreases self.width - k,
        {
            bits.push(self.bits[k as usize]);
            known.push(self.known[k as usize]);
            k += 1;
        }
        let r = BitVal { width, bits, known };
        proof {
            assert(r@ =~= low@ + self@);
        }
        r
    }

    /// Zero-extension by `extra` known-false high bits.
    pub fn uext(&self, extra: u32) -> (r: BitVal)
        requires
            self.wf(),
            self@.len() + extra as nat <= u32::MAX as nat,
        ensures
            r.wf(),
            r@ == self@ + Seq::new(extra as nat, |j: int| Some(false)),
            bits_value(r@) == bits_value(self@),
    {
        let mut bits: Vec<bool> = Vec::new();
        let mut known: Vec<bool> = Vec::new();
        let mut j: u32 = 0;
        while j < self.width
            invariant
                self.wf(),
                j <= self.width,
                bits@.len() == j as nat,
                known@.len() == j as nat,
                forall|i: int| 0 <= i < j as nat ==> bits@[i] == self.bits@[i],
                forall|i: int| 0 <= i < j as nat ==> known@[i] == self.known@[i],
            decreases self.width - j,
        {
            bits.push(self.bits[j as usize]);
            known.push(self.known[j as usize]);
            j += 1;
        }
        let mut k: u32 = 0;
        while k < extra
            invariant
                self.wf(),
                k <= extra,
                bits@.len() == self.width as nat + k as nat,
                known@.len() == self.width as nat + k as nat,
                forall|i: int| 0 <= i < self.width as nat ==> bits@[i] == self.bits@[i],
                forall|i: int| 0 <= i < self.width as nat ==> known@[i] == self.known@[i],
                forall|i: int|
                    self.width as int <= i < self.width as nat + k as nat ==> #[trigger] bits@[i]
                        == false,
                forall|i: int|
                    self.width as int <= i < self.width as nat + k as nat ==> #[trigger] known@[i]
                        == true,
            decreases extra - k,
        {
            bits.push(false);
            known.push(true);
            k += 1;
        }
        let r = BitVal { width: self.width + extra, bits, known };
        proof {
            assert(r@ =~= self@ + Seq::new(extra as nat, |j: int| Some(false)));
            lemma_bits_value_pad(self@, extra as nat);
        }
        r
    }

    /// Bitwise negation.
    pub fn not(&self) -> (r: BitVal)
        requires
            self.wf(),
        ensures
            r.wf(),
            r@ == Seq::new(self@.len(), |j: int| not_bit(self@[j])),
    {
        let mut bits: Vec<bool> = Vec::new();
        let mut known: Vec<bool> = Vec::new();
        let mut j: u32 = 0;
        while j < self.width
            invariant
                self.wf(),
                j <= self.width,
                bits@.len() == j as nat,
                known@.len() == j as nat,
                forall|i: int|
                    0 <= i < j as nat ==> (if known@[i] {
                        Some(bits@[i])
                    } else {
                        None
                    }) == not_bit(self@[i]),
            decreases self.width - j,
        {
            let b = match self.bit_at(j) {
                Some(v) => Some(!v),
                None => None,
            };
            bits.push(b.unwrap_or(false));
            known.push(b.is_some());
            j += 1;
        }
        let r = BitVal { width: self.width, bits, known };
        proof {
            assert(r@ =~= Seq::new(self@.len(), |j: int| not_bit(self@[j])));
        }
        r
    }

    /// Bitwise conjunction; widths must agree.
    pub fn and(&self, other: &BitVal) -> (r: BitVal)
        requires
            self.wf(),
            other.wf(),
            self@.len() == other@.len(),
        ensures
            r.wf(),
            r@ == Seq::new(self@.len(), |j: int| and_bit(self@[j], other@[j])),
    {
        let mut bits: Vec<bool> = Vec::new();
        let mut known: Vec<bool> = Vec::new();
        let mut j: u32 = 0;
        while j < self.width
            invariant
                self.wf(),
                other.wf(),
                self@.len() == other@.len(),
                j <= self.width,
                bits@.len() == j as nat,
                known@.len() == j as nat,
                forall|i: int|
                    0 <= i < j as nat ==> (if known@[i] {
                        Some(bits@[i])
                    } else {
                        None
                    }) == and_bit(self@[i], other@[i]),
            decreases self.width - j,
        {
            let xa = self.bit_at(j);
            let xb = other.bit_at(j);
            let b: Option<bool> = if xa == Some(false) || xb == Some(false) {
                Some(false)
            } else if xa.is_some() && xb.is_some() {
                Some(xa == Some(true) && xb == Some(true))
            } else {
                None
            };
            bits.push(b.unwrap_or(false));
            known.push(b.is_some());
            j += 1;
        }
        let r = BitVal { width: self.width, bits, known };
        proof {
            assert(r@ =~= Seq::new(self@.len(), |j: int| and_bit(self@[j], other@[j])));
        }
        r
    }

    /// Bitwise disjunction; widths must agree.
    pub fn or(&self, other: &BitVal) -> (r: BitVal)
        requires
            self.wf(),
            other.wf(),
            self@.len() == other@.len(),
        ensures
            r.wf(),
            r@ == Seq::new(self@.len(), |j: int| or_bit(self@[j], other@[j])),
    {
        let mut bits: Vec<bool> = Vec::new();
        let mut known: Vec<bool> = Vec::new();
        let mut j: u32 = 0;
        while j < self.width
            invariant
                self.wf(),
                other.wf(),
                self@.len() == other@.len(),
                j <= self.width,
                bits@.len() == j as nat,
                known@.len() == j as nat,
                forall|i: int|
                    0 <= i < j as nat ==> (if known@[i] {
                        Some(bits@[i])
                    } else {
                        None
                    }) == or_bit(self@[i], other@[i]),
            decreases self.width - j,
        {
            let xa = self.bit_at(j);
            let xb = other.bit_at(j);
            let b: Option<bool> = if xa == Some(true) || xb == Some(true) {
                Some(true)
            } else if xa.is_some() && xb.is_some() {
                Some(xa == Some(true) || xb == Some(true))
            } else {
                None
            };
            bits.push(b.unwrap_or(false));
            known.push(b.is_some());
            j += 1;
        }
        let r = BitVal { width: self.width, bits, known };
        proof {
            assert(r@ =~= Seq::new(self@.len(), |j: int| or_bit(self@[j], other@[j])));
        }
        r
    }
}

impl BitVal {
    /// The shift distance encoded by a fully known shift operand, capped at
    /// `cap`; `None` when some bit of the operand is unknown.
    fn shift_amount(shift: &BitVal, cap: u64) -> (r: Option<u64>)
        requires
            shift.wf(),
        ensures
            match r {
                Some(s) => {
                    &&& all_known(shift@)
                    &&& (if bits_value(shift@) >= cap as nat {
                        s == cap
                    } else {
                        s as nat == bits_value(shift@)
                    })
                },
                None => !all_known(shift@),
            },
    {
        if !shift.is_fully_known() {
            return None;
        }
        if shift.width <= 64 {
            let v = shift.as_u64().unwrap();
            return Some(
                if v > cap {
                    cap
                } else {
                    v
                },
            );
        }
        // Wider than 64 bits: a known-true high bit already exceeds any cap.
        let mut j: u32 = 64;
        while j < shift.width
            invariant
                shift.wf(),
                all_known(shift@),
                64 <= j <= shift.width,
                shift@.len() > 64,
                forall|i: int| 64 <= i < j as nat ==> shift@[i] == Some(false),
            decreases shift.width - j,
        {
            if shift.bits[j as usize] {
                proof {
                    assert(shift@[j as int] == Some(true));
                    lemma_bits_value_lower(shift@, j as int);
                    if 64 < j {
                        lemma_pow2_strictly_increases(64, j as nat);
                    }
                    lemma2_to64();
                    assert(bits_value(shift@) >= pow2(64));
                }
                return Some(cap);
            }
            j += 1;
        }
        // All high bits are known false: the value lives in the low 64 bits.
        let low = shift.slice(63, 0);
        proof {
            let lo = shift@.subrange(0, 64);
            let hi = shift@.subrange(64, shift@.len() as int);
            assert(shift@ =~= lo + hi);
            crate::bits::lemma_bits_value_concat(lo, hi);
            assert(hi =~= Seq::new(hi.len(), |x: int| Some(false)));
            crate::bits::lemma_bits_value_falses(hi.len());
            assert(bits_value(shift@) == bits_value(lo));
            assert(forall|i: int| 0 <= i < 64 ==> lo[i] == shift@[i]);
        }
        let v = low.as_u64().unwrap();
        Some(
            if v > cap {
                cap
            } else {
                v
            },
        )
    }

    /// Logical shift left; vacated low bits are known zeros. A shift operand
    /// with an unknown bit makes every bit of the result unknown.
    pub fn sll(&self, shift: &BitVal) -> (r: BitVal)
        requires
            self.wf(),
            shift.wf(),
        ensures
            r.wf(),
            r@.len() == self@.len(),
            all_known(shift@) ==> r@ == Seq::new(
                self@.len(),
                |j: int|
                    if bits_value(shift@) <= j {
                        self@[j - bits_value(shift@)]
                    } else {
                        Some(false)
                    },
            ),
            !all_known(shift@) ==> r@ == Seq::new(self@.len(), |j: int| None::<bool>),
    {
        let s = match BitVal::shift_amount(shift, self.width as u64) {
            Some(s) => s,
            None => {
                return BitVal::unconstrained(self.width);
            },
        };
        let sw = s as u32;
        let mut bits: Vec<bool> = Vec::new();
        let mut known: Vec<bool> = Vec::new();
        let mut j: u32 = 0;
        while j < self.width
            invariant
                self.wf(),
                sw <= self.width,
                j <= self.width,
                bits@.len() == j as nat,
                known@.len() == j as nat,
                forall|i: int|
                    0 <= i < j as nat ==> (if known@[i] {
                        Some(bits@[i])
                    } else {
                        None
                    }) == (if sw <= i {
                        self@[i - sw]
                    } else {
                        Some(false)
                    }),
            decreases self.width - j,
        {
            if j >= sw {
                let b = self.bit_at(j - sw);
                bits.push(b.unwrap_or(false));
                known.push(b.is_some());
            } else {
                bits.push(false);
                known.push(true);
            }
            j += 1;
        }
        let r = BitVal { width: self.width, bits, known };
        proof {
            let sv = bits_value(shift@);
            assert(r@ =~= Seq::new(
                self@.len(),
                |j: int|
                    if sv <= j {
                        self@[j - sv]
                    } else {
                        Some(false)
                    },
            ));
        }
        r
    }

    /// Logical shift right; vacated high bits are known zeros. A shift
    /// operand with an unknown bit makes every bit of the result unknown.
    pub fn srl(&self, shift: &BitVal) -> (r: BitVal)
        requires
            self.wf(),
            shift.wf(),
        ensures
            r.wf(),
            r@.len() == self@.len(),
            all_known(shift@) ==> r@ == Seq::new(
                self@.len(),
                |j: int|
                    if j + bits_value(shift@) < self@.len() {
                        self@[j + bits_value(shift@)]
                    } else {
                        Some(false)
                    },
            ),
            !all_known(shift@) ==> r@ == Seq::new(self@.len(), |j: int| None::<bool>),
    {
        let s = match BitVal::shift_amount(shift, self.width as u64) {
            Some(s) => s,
            None => {
                return BitVal::unconstrained(self.width);
            },
        };
        let sw = s as u32;
        let mut bits: Vec<bool> = Vec::new();
        let mut known: Vec<bool> = Vec::new();
        let mut j: u32 = 0;
        while j < self.width
            invariant
                self.wf(),
                sw <= self.width,
                j <= self.width,
                bits@.len() == j as nat,
                known@.len() == j as nat,
                forall|i: int|
                    0 <= i < j as nat ==> (if known@[i] {
                        Some(bits@[i])
                    } else {
                        None
                    }) == (if i + sw < self.width as nat {
                        self@[i + sw]
                    } else {
                        Some(false)
                    }),
            decreases self.width - j,
        {
            if (j as u64) + (sw as u64) < self.width as u64 {
                let b = self.bit_at(j + sw);
                bits.push(b.unwrap_or(false));
                known.push(b.is_some());
            } else {
                bits.push(false);
                known.push(true);
            }
            j += 1;
        }
        let r = BitVal { width: self.width, bits, known };
        proof {
            let sv = bits_value(shift@);
            assert(r@ =~= Seq::new(
                self@.len(),
                |j: int|
                    if j + sv < self@.len() {
                        self@[j + sv]
                    } else {
                        Some(false)
                    },
            ));
        }
        r
    }

    /// Addition modulo the width, for widths up to 64 bits. An unknown bit
    /// in either operand makes every bit of the result unknown.
    pub fn add(&self, other: &BitVal) -> (r: BitVal)
        requires
            self.wf(),
            other.wf(),
            self@.len() == other@.len(),
            self@.len() <= 64,
        ensures
            r.wf(),
            r@.len() == self@.len(),
            all_known(self@) && all_known(other@) ==> all_known(r@) && bits_value(r@) == (
            bits_value(self@) + bits_value(other@)) % pow2(self@.len()),
            !(all_known(self@) && all_known(other@)) ==> r@ == Seq::new(
                self@.len(),
                |j: int| None::<bool>,
            ),
    {
        let a = self.as_u64();
        let b = other.as_u64();
        let (x, y) = match (a, b) {
            (Some(x), Some(y)) => (x, y),
            _ => {
                return BitVal::unconstrained(self.width);
            },
        };
        let sum = x.wrapping_add(y);
        proof {
            lemma2_to64();
            if x + y <= u64::MAX {
                vstd::arithmetic::div_mod::lemma_small_mod((x + y) as nat, pow2(64));
            } else {
                vstd::arithmetic::div_mod::lemma_fundamental_div_mod_converse(
                    x as int + y as int,
                    pow2(64) as int,
                    1,
                    x as int + y as int - pow2(64),
                );
            }
            assert(sum as nat == (x as nat + y as nat) % pow2(64));
        }
        let masked = if self.width < 64 {
            proof {
                lemma_u64_pow2_no_overflow(self.width as nat);
                lemma_u64_shl_is_mul(1u64, self.width as u64);
                vstd::bits::lemma_u64_low_bits_mask_is_mod(sum, self.width as nat);
                assert((1u64 << (self.width as u64)) - 1
                    == vstd::bits::low_bits_mask(self.width as nat));
            }
            sum & ((1u64 << (self.width as u64)) - 1)
        } else {
            sum
        };
        proof {
            let w = self.width as nat;
            lemma_pow2_pos(w);
            if w < 64 {
                lemma_pow2_adds(w, (64 - w) as nat);
                lemma_pow2_pos((64 - w) as nat);
                vstd::arithmetic::div_mod::lemma_mod_mod(
                    x as int + y as int,
                    pow2(w) as int,
                    pow2((64 - w) as nat) as int,
                );
            }
            assert(masked as nat == (x as nat + y as nat) % pow2(w));
            vstd::arithmetic::div_mod::lemma_mod_bound(x as int + y as int, pow2(w) as int);
            vstd::arithmetic::div_mod::lemma_small_mod(masked as nat, pow2(w));
        }
        BitVal::from_u64(masked, self.width)
    }
}

/// The value of the bit expansion of `value` to `width` bits is
/// `value % 2^width`.
proof fn lemma_from_u64_value(value: u64, width: nat)
    requires
        1 <= width,
    ensures
        bits_value(Seq::new(width, |j: int| Some(j < 64 && u64_bit(value, j as nat)))) == value
            as nat % pow2(width),
{
    let s = Seq::new(width, |j: int| Some(j < 64 && u64_bit(value, j as nat)));
    if width <= 64 {
        assert(s =~= Seq::new(width, |j: int| Some(u64_bit(value, j as nat))));
        lemma_u64_bits_value(value, width);
    } else {
        let s64 = Seq::new(64, |j: int| Some(u64_bit(value, j as nat)));
        let pad = Seq::new((width - 64) as nat, |j: int| Some(false));
        assert(s =~= s64 + pad);
        lemma_u64_bits_value(value, 64);
        lemma_bits_value_pad(s64, (width - 64) as nat);
        // value itself is below 2^64 <= 2^width
        assert(value as nat % pow2(64) == value as nat) by {
            lemma2_to64();
        }
        assert(value as nat % pow2(width) == value as nat) by {
            lemma_pow2_strictly_increases(64, width);
            lemma2_to64();
            vstd::arithmetic::div_mod::lemma_small_mod(value as nat, pow2(width));
        }
    }
}

} // verus!
