//! Unsigned 256-bit integers and big-endian byte strings.

use vstd::prelude::*;

verus! {

/// 2^128.
pub open spec fn two_128() -> nat {
    u128::MAX as nat + 1
}

/// 256^n.
pub open spec fn pow256(n: nat) -> nat
    decreases n,
{
    if n == 0 {
        1
    } else {
        256 * pow256((n - 1) as nat)
    }
}

/// The number that a big-endian byte string denotes.
pub open spec fn be_nat(s: Seq<u8>) -> nat
    decreases s.len(),
{
    if s.len() == 0 {
        0
    } else {
        be_nat(s.drop_last()) * 256 + s.last() as nat
    }
}

pub proof fn lemma_pow256_positive(n: nat)
    ensures
        pow256(n) >= 1,
    decreases n,
{
    if n > 0 {
        lemma_pow256_positive((n - 1) as nat);
    }
}

pub proof fn lemma_pow256_monotonic(a: nat, b: nat)
    requires
        a <= b,
    ensures
        pow256(a) <= pow256(b),
    decreases b,
{
    if a < b {
        lemma_pow256_monotonic(a, (b - 1) as nat);
        lemma_pow256_positive((b - 1) as nat);
    }
}

pub proof fn lemma_pow256_16()
    ensures
        pow256(16) == two_128(),
{
    reveal_with_fuel(pow256, 17);
}

pub proof fn lemma_pow256_8()
    ensures
        pow256(8) == u64::MAX as nat + 1,
{
    reveal_with_fuel(pow256, 9);
}

/// The number that the bytes `s[start..end]` denote, read big-endian; at most 16 bytes.
pub fn be_u128(s: &[u8], start: usize, end: usize) -> (r: u128)
    requires
        start <= end <= s.len(),
        end - start <= 16,
    ensures
        r as nat == be_nat(s@.subrange(start as int, end as int)),
        (r as nat) < pow256((end - start) as nat),
{
    let mut acc: u128 = 0;
    let mut i: usize = start;
    proof {
        assert(s@.subrange(start as int, start as int) =~= Seq::<u8>::empty());
    }
    while i < end
        invariant
            start <= i <= end <= s.len(),
            end - start <= 16,
            acc as nat == be_nat(s@.subrange(start as int, i as int)),
            (acc as nat) < pow256((i - start) as nat),
        decreases end - i,
    {
        let b: u8 = s[i];
        proof {
            let k = (i - start) as nat;
            assert(s@.subrange(start as int, i + 1).drop_last() =~= s@.subrange(start as int, i as int));
            assert(pow256(k + 1) == 256 * pow256(k));
            lemma_pow256_monotonic(k + 1, 16);
            lemma_pow256_16();
            let a = acc as nat;
            let p = pow256(k);
            assert(a * 256 + b < 256 * p) by (nonlinear_arith)
                requires
                    a < p,
                    b < 256,
            ;
        }
        acc = acc * 256 + b as u128;
        i = i + 1;
    }
    acc
}
/// A big-endian number of `n` bytes is below 256^n.
pub proof fn lemma_be_nat_bound(s: Seq<u8>)
    ensures
        be_nat(s) < pow256(s.len()),
    decreases s.len(),
{
    if s.len() > 0 {
        lemma_be_nat_bound(s.drop_last());
        let p = pow256((s.len() - 1) as nat);
        let x = be_nat(s.drop_last());
        let l = s.last() as nat;
        assert(x * 256 + l < 256 * p) by (nonlinear_arith)
            requires
                x < p,
                l < 256,
        ;
    }
}

/// Splitting a big-endian byte string: the high part is shifted by the low part's length.
pub proof fn lemma_be_nat_append(a: Seq<u8>, b: Seq<u8>)
    ensures
        be_nat(a + b) == be_nat(a) * pow256(b.len()) + be_nat(b),
    decreases b.len(),
{
    if b.len() == 0 {
        assert(a + b =~= a);
        assert(pow256(0) == 1);
        assert(be_nat(b) == 0);
    } else {
        let b1 = b.drop_last();
        lemma_be_nat_append(a, b1);
        assert((a + b).drop_last() =~= a + b1);
        assert((a + b).last() == b.last());
        let x = be_nat(a);
        let p = pow256(b1.len());
        let y = be_nat(b1);
        let l = b.last() as nat;
        assert(be_nat(a + b) == be_nat(a + b1) * 256 + l);
        assert(be_nat(b) == y * 256 + l);
        assert(pow256(b.len()) == 256 * p);
        assert((x * p + y) * 256 == x * (256 * p) + y * 256) by (nonlinear_arith);
    }
}

/// An unsigned 256-bit integer, held as its high and low 128-bit halves.
#[derive(Clone, Copy, Debug, PartialEq, Eq, Structural)]
pub struct U256 {
    pub hi: u128,
    pub lo: u128,
}

impl U256 {
    /// The number this word denotes.
    pub open spec fn value(&self) -> nat {
        self.hi as nat * two_128() + self.lo as nat
    }

    /// The largest 256-bit number, 2^256 - 1.
    pub open spec fn max_value() -> nat {
        (two_128() * two_128() - 1) as nat
    }

    pub proof fn lemma_value_bound(&self)
        ensures
            self.value() <= U256::max_value(),
    {
        let h = self.hi as nat;
        let l = self.lo as nat;
        assert(h * two_128() + l <= two_128() * two_128() - 1) by (nonlinear_arith)
            requires
                h < two_128(),
                l < two_128(),
        ;
    }

    /// Two words are equal exactly when their numbers are.
    pub proof fn lemma_value_injective(a: U256, b: U256)
        ensures
            (a.value() == b.value()) == (a == b),
    {
        let (ah, al, bh, bl) = (a.hi as nat, a.lo as nat, b.hi as nat, b.lo as nat);
        if a.value() == b.value() {
            assert(ah == bh && al == bl) by (nonlinear_arith)
                requires
                    ah * two_128() + al == bh * two_128() + bl,
                    al < two_128(),
                    bl < two_128(),
            ;
        }
    }

    /// Words order as their numbers do: by the high half, then by the low half.
    pub proof fn lemma_value_order(a: U256, b: U256)
        ensures
            (a.value() < b.value()) == (a.hi < b.hi || (a.hi == b.hi && a.lo < b.lo)),
    {
        let (ah, al, bh, bl) = (a.hi as nat, a.lo as nat, b.hi as nat, b.lo as nat);
        if ah < bh {
            assert(ah * two_128() + al < bh * two_128() + bl) by (nonlinear_arith)
                requires
                    ah < bh,
                    al < two_128(),
            ;
        } else if ah > bh {
            assert(ah * two_128() + al > bh * two_128() + bl) by (nonlinear_arith)
                requires
                    ah > bh,
                    bl < two_128(),
            ;
        }
    }

    /// The word that a big-endian byte string of at most 32 bytes denotes.
    pub fn from_big_endian(bytes: &[u8]) -> (r: U256)
        requires
            bytes.len() <= 32,
        ensures
            r.value() == be_nat(bytes@),
    {
        let n = bytes.len();
        proof {
            lemma_pow256_16();
        }
        if n <= 16 {
            let lo = be_u128(bytes, 0, n);
            proof {
                assert(bytes@.subrange(0, n as int) =~= bytes@);
            }
            U256 { hi: 0, lo }
        } else {
            let hi = be_u128(bytes, 0, n - 16);
            let lo = be_u128(bytes, n - 16, n);
            proof {
                let a = bytes@.subrange(0, n - 16);
                let b = bytes@.subrange(n - 16, n as int);
                assert(a + b =~= bytes@);
                lemma_be_nat_append(a, b);
            }
            U256 { hi, lo }
        }
    }

    /// The word that holds the number `n` (below 2^256).
    pub open spec fn from_nat(n: nat) -> U256 {
        U256 { hi: (n / two_128()) as u128, lo: (n % two_128()) as u128 }
    }

    /// A word is the word of its own number.
    pub proof fn lemma_from_nat_value(w: U256)
        ensures
            U256::from_nat(w.value()) == w,
    {
        let t = two_128() as int;
        vstd::arithmetic::div_mod::lemma_fundamental_div_mod_converse(
            w.value() as int,
            t,
            w.hi as int,
            w.lo as int,
        );
    }

    /// Zero.
    pub fn zero() -> (r: U256)
        ensures
            r.value() == 0,
    {
        U256 { hi: 0, lo: 0 }
    }

    /// The largest word, 2^256 - 1 (all bits set).
    pub fn max() -> (r: U256)
        ensures
            r.value() == U256::max_value(),
    {
        U256 { hi: u128::MAX, lo: u128::MAX }
    }

    /// The word that holds a 64-bit number.
    pub fn from_u64(v: u64) -> (r: U256)
        ensures
            r.value() == v,
    {
        U256 { hi: 0, lo: v as u128 }
    }

    /// Whether `self` is below `other`.
    pub fn lt(&self, other: &U256) -> (r: bool)
        ensures
            r == (self.value() < other.value()),
    {
        proof {
            U256::lemma_value_order(*self, *other);
        }
        self.hi < other.hi || (self.hi == other.hi && self.lo < other.lo)
    }

    /// Whether `self` is at most `other`.
    pub fn le(&self, other: &U256) -> (r: bool)
        ensures
            r == (self.value() <= other.value()),
    {
        proof {
            U256::lemma_value_order(*other, *self);
        }
        !other.lt(self)
    }

    /// Subtraction modulo 2^256, with a flag that tells whether it wrapped.
    pub fn overflowing_sub(self, other: U256) -> (r: (U256, bool))
        ensures
            r.1 == (self.value() < other.value()),
            !r.1 ==> r.0.value() == self.value() - other.value(),
            r.1 ==> r.0.value() == self.value() + (U256::max_value() + 1) - other.value(),
    {
        proof {
            U256::lemma_value_order(*&self, *&other);
        }
        let borrow: bool = self.lo < other.lo;
        let lo: u128 = self.lo.wrapping_sub(other.lo);
        let hi1: u128 = self.hi.wrapping_sub(other.hi);
        let hi: u128 = if borrow { hi1.wrapping_sub(1) } else { hi1 };
        let wrapped: bool = self.hi < other.hi || (self.hi == other.hi && borrow);
        let r = U256 { hi, lo };
        proof {
            let t = two_128() as int;
            let (sh, sl, oh, ol) = (self.hi as int, self.lo as int, other.hi as int, other.lo as int);
            assert(lo as int == if borrow { sl - ol + t } else { sl - ol });
            assert(hi1 as int == if sh < oh { sh - oh + t } else { sh - oh });
            assert(hi as int == if borrow {
                if hi1 == 0 { t - 1 } else { hi1 - 1 }
            } else {
                hi1 as int
            });
            let rv = hi as int * t + lo as int;
            let sv = sh * t + sl;
            let ov = oh * t + ol;
            assert(rv == if wrapped { sv - ov + t * t } else { sv - ov }) by (nonlinear_arith)
                requires
                    0 <= sh < t,
                    0 <= sl < t,
                    0 <= oh < t,
                    0 <= ol < t,
                    borrow == (sl < ol),
                    wrapped == (sh < oh || (sh == oh && borrow)),
                    lo as int == if borrow { sl - ol + t } else { sl - ol },
                    hi1 as int == if sh < oh { sh - oh + t } else { sh - oh },
                    hi as int == if borrow {
                        if hi1 == 0 { t - 1 } else { hi1 - 1 }
                    } else {
                        hi1 as int
                    },
                    rv == hi as int * t + lo as int,
                    sv == sh * t + sl,
                    ov == oh * t + ol,
                    t > 0,
            ;
        }
        (r, wrapped)
    }
}

} // verus!
