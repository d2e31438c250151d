//! Arbitrary-precision natural numbers, as far as exact rounding needs them.

use vstd::arithmetic::power2::{lemma2_to64, lemma_pow2_adds, lemma_pow2_pos, pow2};
use vstd::bits::{lemma_u64_pow2_no_overflow, lemma_u64_shl_is_mul};
use vstd::prelude::*;

verus! {

/// The weight of limb `i`: 2^(64 i).
pub open spec fn weight(i: nat) -> nat {
    pow2(64 * i)
}

/// The number that little-endian base-2^64 limbs stand for.
pub open spec fn limbs_value(limbs: Seq<u64>) -> nat
    decreases limbs.len(),
{
    if limbs.len() == 0 {
        0
    } else {
        limbs_value(limbs.drop_last()) + limbs.last() as nat * weight((limbs.len() - 1) as nat)
    }
}

pub proof fn lemma_weight_step(i: nat)
    ensures
        weight(i + 1) == 0x1_0000_0000_0000_0000 * weight(i),
        weight(i) > 0,
        weight(0) == 1,
{
    lemma_pow2_adds(64, 64 * i);
    lemma_pow2_pos(64 * i);
    lemma2_to64();
    assert(64 * (i + 1) == 64 + 64 * i);
}

pub proof fn lemma_weight_adds(i: nat, j: nat)
    ensures
        weight(i + j) == weight(i) * weight(j),
{
    lemma_pow2_adds(64 * i, 64 * j);
    assert(64 * (i + j) == 64 * i + 64 * j);
}

pub proof fn lemma_weight_monotone(i: nat, j: nat)
    requires
        i <= j,
    ensures
        weight(i) <= weight(j),
    decreases j - i,
{
    if i < j {
        lemma_weight_monotone(i, (j - 1) as nat);
        lemma_weight_step((j - 1) as nat);
    }
}

pub proof fn lemma_value_push(limbs: Seq<u64>, x: u64)
    ensures
        limbs_value(limbs.push(x)) == limbs_value(limbs) + x as nat * weight(limbs.len()),
{
    assert(limbs.push(x).drop_last() =~= limbs);
}

pub proof fn lemma_value_take(limbs: Seq<u64>, i: int)
    requires
        0 <= i < limbs.len(),
    ensures
        limbs_value(limbs.take(i + 1)) == limbs_value(limbs.take(i)) + limbs[i] as nat * weight(
            i as nat,
        ),
{
    assert(limbs.take(i + 1).drop_last() =~= limbs.take(i));
}

pub proof fn lemma_value_bound(limbs: Seq<u64>)
    ensures
        limbs_value(limbs) < weight(limbs.len()),
    decreases limbs.len(),
{
    if limbs.len() == 0 {
        lemma_weight_step(0);
    } else {
        let n = (limbs.len() - 1) as nat;
        lemma_value_bound(limbs.drop_last());
        lemma_weight_step(n);
        let w = weight(n);
        let x = limbs.last() as nat;
        assert(x * w <= 0xffff_ffff_ffff_ffff * w) by (nonlinear_arith)
            requires
                x <= 0xffff_ffff_ffff_ffff,
        ;
    }
}

/// A natural number of any size.
pub struct Natural {
    pub limbs: Vec<u64>,
}

impl View for Natural {
    type V = nat;

    open spec fn view(&self) -> nat {
        limbs_value(self.limbs@)
    }
}

proof fn lemma_mul_add_step(v: int, carry: int, p: int, a: int, m: int, c: int, lo: int, hi: int, limb: int)
    by (nonlinear_arith)
    requires
        v + carry * p == a * m + c,
        lo + hi * 0x1_0000_0000_0000_0000 == limb * m + carry,
    ensures
        v + lo * p + hi * (0x1_0000_0000_0000_0000 * p) == (a + limb * p) * m + c,
{
}

impl Natural {
    /// The natural number `x`.
    pub fn from_u64(x: u64) -> (r: Natural)
        ensures
            r@ == x,
    {
        let mut limbs: Vec<u64> = Vec::new();
        proof {
            lemma_value_push(limbs@, x);
            lemma_weight_step(0);
            assert(x as nat * weight(0) == x) by (nonlinear_arith)
                requires
                    weight(0) == 1,
            ;
        }
        limbs.push(x);
        Natural { limbs }
    }

    /// The natural number `x`.
    pub fn from_u128(x: u128) -> (r: Natural)
        ensures
            r@ == x,
    {
        let lo: u64 = (x % 0x1_0000_0000_0000_0000) as u64;
        let hi: u64 = (x / 0x1_0000_0000_0000_0000) as u64;
        let mut limbs: Vec<u64> = Vec::new();
        proof {
            lemma_value_push(limbs@, lo);
            lemma_value_push(limbs@.push(lo), hi);
            lemma_weight_step(0);
            assert(weight(1) == 0x1_0000_0000_0000_0000);
            assert(lo as nat * weight(0) == lo) by (nonlinear_arith)
                requires
                    weight(0) == 1,
            ;
            assert(hi as nat * weight(1) == hi * 0x1_0000_0000_0000_0000) by (nonlinear_arith)
                requires
                    weight(1) == 0x1_0000_0000_0000_0000,
            ;
        }
        limbs.push(lo);
        limbs.push(hi);
        Natural { limbs }
    }

    /// The number 2^n, for `n` below 64.
    pub fn small_power_of_two(n: u32) -> (r: u64)
        requires
            n < 64,
        ensures
            r == pow2(n as nat),
    {
        proof {
            lemma_u64_pow2_no_overflow(n as nat);
            lemma_u64_shl_is_mul(1, n as u64);
        }
        1u64 << (n as u64)
    }

    /// The number of limbs up to the last one that is not zero.
    fn significant_len(&self) -> (n: usize)
        ensures
            n <= self.limbs.len(),
            limbs_value(self.limbs@.take(n as int)) == self@,
            n > 0 ==> self.limbs@[n - 1] != 0,
    {
        let mut n: usize = self.limbs.len();
        proof {
            assert(self.limbs@.take(n as int) =~= self.limbs@);
        }
        while n > 0 && self.limbs[n - 1] == 0
            invariant
                n <= self.limbs.len(),
                limbs_value(self.limbs@.take(n as int)) == self@,
            decreases n,
        {
            proof {
                lemma_value_take(self.limbs@, n - 1);
                assert(self.limbs@[n - 1] as nat * weight((n - 1) as nat) == 0) by (nonlinear_arith)
                    requires
                        self.limbs@[n - 1] == 0,
                ;
            }
            n = n - 1;
        }
        n
    }

    /// Whether `self` is zero.
    pub fn is_zero(&self) -> (r: bool)
        ensures
            r == (self@ == 0),
    {
        let n: usize = self.significant_len();
        proof {
            if n == 0 {
                assert(self.limbs@.take(0) =~= Seq::<u64>::empty());
            } else {
                lemma_value_take(self.limbs@, n - 1);
                lemma_weight_step((n - 1) as nat);
                assert(self.limbs@[n - 1] as nat * weight((n - 1) as nat) >= 1) by (nonlinear_arith)
                    requires
                        self.limbs@[n - 1] >= 1,
                        weight((n - 1) as nat) >= 1,
                ;
            }
        }
        n == 0
    }

    /// Whether `self` is at most `other`.
    pub fn le(&self, other: &Natural) -> (r: bool)
        ensures
            r == (self@ <= other@),
    {
        let la: usize = self.significant_len();
        let lb: usize = other.significant_len();
        let ghost a = self.limbs@;
        let ghost b = other.limbs@;
        if la != lb {
            proof {
                lemma_value_bound(a.take(la as int));
                lemma_value_bound(b.take(lb as int));
                if la > lb {
                    lemma_value_take(a, la - 1);
                    lemma_weight_monotone(lb as nat, (la - 1) as nat);
                    assert(a[la - 1] as nat * weight((la - 1) as nat) >= weight((la - 1) as nat))
                        by (nonlinear_arith)
                        requires
                            a[la - 1] >= 1,
                    ;
                } else {
                    lemma_value_take(b, lb - 1);
                    lemma_weight_monotone(la as nat, (lb - 1) as nat);
                    assert(b[lb - 1] as nat * weight((lb - 1) as nat) >= weight((lb - 1) as nat))
                        by (nonlinear_arith)
                        requires
                            b[lb - 1] >= 1,
                    ;
                }
            }
            return la < lb;
        }
        let mut i: usize = la;
        while i > 0
            invariant
                i <= la,
                la == lb,
                la <= a.len(),
                lb <= b.len(),
                a == self.limbs@,
                b == other.limbs@,
                limbs_value(a.take(la as int)) == self@,
                limbs_value(b.take(lb as int)) == other@,
                self@ - limbs_value(a.take(i as int)) == other@ - limbs_value(b.take(i as int)),
            decreases i,
        {
            i = i - 1;
            let x: u64 = self.limbs[i];
            let y: u64 = other.limbs[i];
            proof {
                lemma_value_take(a, i as int);
                lemma_value_take(b, i as int);
            }
            if x != y {
                proof {
                    lemma_value_bound(a.take(i as int));
                    lemma_value_bound(b.take(i as int));
                    let w = weight(i as nat);
                    if x < y {
                        assert(x as nat * w + w <= y as nat * w) by (nonlinear_arith)
                            requires
                                x < y,
                        ;
                    } else {
                        assert(y as nat * w + w <= x as nat * w) by (nonlinear_arith)
                            requires
                                y < x,
                        ;
                    }
                }
                return x < y;
            }
        }
        proof {
            assert(a.take(0) =~= Seq::<u64>::empty());
            assert(b.take(0) =~= Seq::<u64>::empty());
        }
        true
    }

    /// `self * 2^n`.
    pub fn shl(&self, n: usize) -> (r: Natural)
        ensures
            r@ == self@ * pow2(n as nat),
    {
        let whole: usize = n / 64;
        let part: u32 = (n % 64) as u32;
        let scaled: Natural = self.mul_add_small(Natural::small_power_of_two(part), 0);
        let count: usize = scaled.limbs.len();
        let mut out: Vec<u64> = Vec::new();
        let mut k: usize = 0;
        while k < whole
            invariant
                k <= whole,
                out@.len() == k,
                limbs_value(out@) == 0,
            decreases whole - k,
        {
            proof {
                lemma_value_push(out@, 0);
                assert(0u64 as nat * weight(out@.len()) == 0) by (nonlinear_arith);
            }
            out.push(0);
            k = k + 1;
        }
        let mut j: usize = 0;
        proof {
            assert(scaled.limbs@.take(0) =~= Seq::<u64>::empty());
            assert(limbs_value(scaled.limbs@.take(0)) * weight(whole as nat) == 0) by (nonlinear_arith)
                requires
                    limbs_value(scaled.limbs@.take(0)) == 0,
            ;
        }
        while j < count
            invariant
                count == scaled.limbs.len(),
                j <= count,
                out@.len() == whole + j,
                limbs_value(out@) == limbs_value(scaled.limbs@.take(j as int)) * weight(whole as nat),
            decreases count - j,
        {
            let x: u64 = scaled.limbs[j];
            proof {
                lemma_value_push(out@, x);
                lemma_value_take(scaled.limbs@, j as int);
                lemma_weight_adds(j as nat, whole as nat);
                let v = limbs_value(scaled.limbs@.take(j as int));
                let wj = weight(j as nat);
                let ww = weight(whole as nat);
                assert((v + x as nat * wj) * ww == v * ww + x as nat * (wj * ww)) by (nonlinear_arith);
            }
            out.push(x);
            j = j + 1;
        }
        proof {
            assert(scaled.limbs@.take(count as int) =~= scaled.limbs@);
            lemma_pow2_adds(part as nat, (64 * whole) as nat);
            assert(n == 64 * whole + part);
            let p = pow2(part as nat);
            let ww = weight(whole as nat);
            assert((self@ * p + 0) * ww == self@ * (p * ww)) by (nonlinear_arith);
        }
        Natural { limbs: out }
    }

    /// `self * m + c`.
    pub fn mul_add_small(&self, m: u64, c: u64) -> (r: Natural)
        ensures
            r@ == self@ * m + c,
    {
        let n = self.limbs.len();
        let mut out: Vec<u64> = Vec::new();
        let mut carry: u64 = c;
        let mut i: usize = 0;
        proof {
            lemma_weight_step(0);
            assert(self.limbs@.take(0) =~= Seq::<u64>::empty());
            assert(limbs_value(self.limbs@.take(0)) == 0);
            assert(limbs_value(out@) == 0);
            assert(carry as nat * weight(0) == c) by (nonlinear_arith)
                requires
                    weight(0) == 1,
                    carry == c,
            ;
            assert(limbs_value(self.limbs@.take(0)) * m == 0) by (nonlinear_arith)
                requires
                    limbs_value(self.limbs@.take(0)) == 0,
            ;
        }
        while i < n
            invariant
                n == self.limbs.len(),
                i <= n,
                out@.len() == i,
                limbs_value(out@) + carry as nat * weight(i as nat) == limbs_value(
                    self.limbs@.take(i as int),
                ) * m + c,
            decreases n - i,
        {
            let limb: u64 = self.limbs[i];
            assert(limb as int * m as int + carry as int <= 0xffff_ffff_ffff_ffff_0000_0000_0000_0000)
                by (nonlinear_arith)
                requires
                    0 <= limb <= 0xffff_ffff_ffff_ffff,
                    0 <= m <= 0xffff_ffff_ffff_ffff,
                    0 <= carry <= 0xffff_ffff_ffff_ffff,
            ;
            let t: u128 = (limb as u128) * (m as u128) + (carry as u128);
            let lo: u64 = (t % 0x1_0000_0000_0000_0000) as u64;
            let hi: u64 = (t / 0x1_0000_0000_0000_0000) as u64;
            proof {
                lemma_value_push(out@, lo);
                lemma_value_take(self.limbs@, i as int);
                lemma_weight_step(i as nat);
                lemma_mul_add_step(
                    limbs_value(out@) as int,
                    carry as int,
                    weight(i as nat) as int,
                    limbs_value(self.limbs@.take(i as int)) as int,
                    m as int,
                    c as int,
                    lo as int,
                    hi as int,
                    limb as int,
                );
            }
            out.push(lo);
            carry = hi;
            i = i + 1;
        }
        proof {
            lemma_value_push(out@, carry);
            assert(self.limbs@.take(n as int) =~= self.limbs@);
        }
        out.push(carry);
        Natural { limbs: out }
    }
}

} // verus!
