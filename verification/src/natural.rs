//! Natural numbers of unbounded size.
//!
//! Impurity scores are exact fractions whose numerators and denominators are
//! products of sample counts, so they outgrow every machine integer. A
//! [`Natural`] stores such a number as base-2^32 limbs, least significant
//! first, and its view is the mathematical `nat` it denotes.
use vstd::prelude::*;

verus! {

/// The base of the limb representation, 2^32.
spec fn radix() -> nat {
    0x1_0000_0000
}

/// `radix()` raised to the power `k`.
spec fn radix_pow(k: nat) -> nat
    decreases k,
{
    if k == 0 {
        1
    } else {
        radix() * radix_pow((k - 1) as nat)
    }
}

/// The limb at position `k`, reading positions past the end as zero.
spec fn limb_at(s: Seq<u32>, k: int) -> nat {
    if 0 <= k < s.len() {
        s[k] as nat
    } else {
        0
    }
}

/// The number denoted by the `n` least significant limbs of `s`.
spec fn value_upto(s: Seq<u32>, n: nat) -> nat
    decreases n,
{
    if n == 0 {
        0
    } else {
        value_upto(s, (n - 1) as nat) + limb_at(s, n - 1) * radix_pow((n - 1) as nat)
    }
}

proof fn lemma_radix_pow_positive(k: nat)
    ensures
        radix_pow(k) > 0,
    decreases k,
{
    if k > 0 {
        lemma_radix_pow_positive((k - 1) as nat);
        assert(radix() * radix_pow((k - 1) as nat) > 0) by (nonlinear_arith)
            requires
                radix() > 0,
                radix_pow((k - 1) as nat) > 0,
        ;
    }
}

/// Limbs that agree on the first `n` positions denote the same number there.
proof fn lemma_value_upto_agree(s: Seq<u32>, t: Seq<u32>, n: nat)
    requires
        forall|k: int| 0 <= k < n ==> limb_at(s, k) == limb_at(t, k),
    ensures
        value_upto(s, n) == value_upto(t, n),
    decreases n,
{
    if n > 0 {
        lemma_value_upto_agree(s, t, (n - 1) as nat);
    }
}

/// Positions past the end contribute nothing.
proof fn lemma_value_upto_beyond(s: Seq<u32>, n: nat)
    requires
        n >= s.len(),
    ensures
        value_upto(s, n) == value_upto(s, s.len()),
    decreases n,
{
    if n > s.len() {
        lemma_value_upto_beyond(s, (n - 1) as nat);
        assert(limb_at(s, n - 1) == 0);
    }
}

/// `n` limbs denote a number below `radix()^n`.
proof fn lemma_value_upto_bound(s: Seq<u32>, n: nat)
    ensures
        value_upto(s, n) < radix_pow(n),
    decreases n,
{
    if n > 0 {
        lemma_value_upto_bound(s, (n - 1) as nat);
        let p = radix_pow((n - 1) as nat);
        let d = limb_at(s, n - 1);
        assert(d * p + p <= radix() * p) by (nonlinear_arith)
            requires
                d + 1 <= radix(),
                p >= 0,
        ;
    }
}

/// The most significant position at which two numbers differ decides their
/// order.
proof fn lemma_value_upto_order(s: Seq<u32>, t: Seq<u32>, n: nat, i: nat)
    requires
        0 < i <= n,
        forall|k: int| i <= k < n ==> limb_at(s, k) == limb_at(t, k),
        limb_at(s, i - 1) < limb_at(t, i - 1),
    ensures
        value_upto(s, n) < value_upto(t, n),
    decreases n,
{
    if n == i {
        lemma_value_upto_bound(s, (n - 1) as nat);
        let p = radix_pow((n - 1) as nat);
        let a = limb_at(s, n - 1);
        let b = limb_at(t, n - 1);
        assert(a * p + p <= b * p) by (nonlinear_arith)
            requires
                a + 1 <= b,
                p >= 0,
        ;
    } else {
        lemma_value_upto_order(s, t, (n - 1) as nat, i);
    }
}

/// One step of a carrying loop: the digit and the outgoing carry stand for
/// `total` at the weight `p`.
proof fn lemma_carry_step(low: nat, high: nat, total: nat, p: nat)
    requires
        low + high * radix() == total,
    ensures
        low * p + high * (radix() * p) == total * p,
{
    assert(low * p + high * (radix() * p) == (low + high * radix()) * p) by (nonlinear_arith);
}

/// Writing one more limb keeps what the earlier limbs denote and adds the new
/// limb at its weight.
proof fn lemma_value_upto_push(s: Seq<u32>, x: u32)
    ensures
        value_upto(s.push(x), s.len() + 1) == value_upto(s, s.len()) + x * radix_pow(s.len()),
{
    let t = s.push(x);
    lemma_value_upto_agree(s, t, s.len());
}

/// Shifting every limb up by one position multiplies by the base.
proof fn lemma_value_upto_shift(s: Seq<u32>, n: nat)
    ensures
        value_upto(seq![0u32] + s, n + 1) == radix() * value_upto(s, n),
    decreases n,
{
    let t = seq![0u32] + s;
    if n == 0 {
        assert(value_upto(t, 0) == 0);
        assert(0 * radix_pow(0) == 0);
    } else {
        lemma_value_upto_shift(s, (n - 1) as nat);
        let d = limb_at(s, n - 1);
        let p = radix_pow((n - 1) as nat);
        let v = value_upto(s, (n - 1) as nat);
        assert(radix() * v + d * (radix() * p) == radix() * (v + d * p)) by (nonlinear_arith);
    }
}

/// A natural number of any size.
#[derive(Debug)]
pub struct Natural {
    limbs: Vec<u32>,
}

impl View for Natural {
    type V = nat;

    closed spec fn view(&self) -> nat {
        value_upto(self.limbs@, self.limbs@.len())
    }
}

fn limb_or_zero(limbs: &Vec<u32>, i: usize) -> (d: u32)
    ensures
        d == limb_at(limbs@, i as int),
{
    if i < limbs.len() {
        limbs[i]
    } else {
        0
    }
}

impl Natural {
    /// The number `x`.
    pub fn from_u64(x: u64) -> (r: Natural)
        ensures
            r@ == x,
    {
        let low: u32 = (x % 0x1_0000_0000) as u32;
        let high: u32 = (x / 0x1_0000_0000) as u32;
        let mut limbs: Vec<u32> = Vec::new();
        limbs.push(low);
        limbs.push(high);
        proof {
            reveal_with_fuel(value_upto, 3);
            reveal_with_fuel(radix_pow, 3);
            assert(low * 1 == low) by (nonlinear_arith);
            assert(high * (radix() * 1) == high * 0x1_0000_0000) by (nonlinear_arith);
        }
        Natural { limbs }
    }

    /// The number as a `u64`, if it is small enough to be one.
    pub fn to_u64(&self) -> (r: Option<u64>)
        ensures
            r == if self@ <= u64::MAX {
                Some(self@ as u64)
            } else {
                None
            },
    {
        let n = self.limbs.len();
        let mut i: usize = n;
        while i > 2
            invariant
                i <= n,
                n <= 2 || i >= 2,
                n == self.limbs@.len(),
                value_upto(self.limbs@, i as nat) == value_upto(self.limbs@, n as nat),
            decreases i,
        {
            let d = self.limbs[i - 1];
            if d != 0 {
                proof {
                    let p = radix_pow((i - 1) as nat);
                    reveal_with_fuel(radix_pow, 3);
                    lemma_radix_pow_positive((i - 3) as nat);
                    let q = radix_pow((i - 3) as nat);
                    assert(d * p >= radix() * radix()) by (nonlinear_arith)
                        requires
                            d >= 1,
                            q >= 1,
                            p == radix() * (radix() * q),
                    ;
                }
                return None;
            }
            proof {
                assert(0 * radix_pow((i - 1) as nat) == 0);
            }
            i -= 1;
        }
        let low: u64 = limb_or_zero(&self.limbs, 0) as u64;
        let high: u64 = limb_or_zero(&self.limbs, 1) as u64;
        proof {
            let s = self.limbs@;
            reveal_with_fuel(value_upto, 3);
            reveal_with_fuel(radix_pow, 3);
            if n <= 2 {
                lemma_value_upto_beyond(s, 2);
            }
            assert(value_upto(s, 2) == low + high * (radix() * 1)) by {
                assert(low * 1 == low) by (nonlinear_arith);
            }
        }
        Some(low + high * 0x1_0000_0000)
    }

    /// The sum of two numbers.
    pub fn add(&self, other: &Natural) -> (r: Natural)
        ensures
            r@ == self@ + other@,
    {
        let n = if self.limbs.len() >= other.limbs.len() {
            self.limbs.len()
        } else {
            other.limbs.len()
        };
        let mut out: Vec<u32> = Vec::new();
        let mut carry: u64 = 0;
        let mut i: usize = 0;
        while i < n
            invariant
                i <= n,
                out@.len() == i,
                carry <= 1,
                value_upto(out@, i as nat) + carry * radix_pow(i as nat) == value_upto(
                    self.limbs@,
                    i as nat,
                ) + value_upto(other.limbs@, i as nat),
            decreases n - i,
        {
            let x: u64 = limb_or_zero(&self.limbs, i) as u64;
            let y: u64 = limb_or_zero(&other.limbs, i) as u64;
            let total: u64 = x + y + carry;
            let low: u32 = (total % 0x1_0000_0000) as u32;
            let high: u64 = total / 0x1_0000_0000;
            proof {
                let p = radix_pow(i as nat);
                lemma_value_upto_push(out@, low);
                lemma_carry_step(low as nat, high as nat, total as nat, p);
                assert((x + y + carry) * p == x * p + y * p + carry * p) by (nonlinear_arith);
            }
            out.push(low);
            carry = high;
            i += 1;
        }
        proof {
            lemma_value_upto_beyond(self.limbs@, n as nat);
            lemma_value_upto_beyond(other.limbs@, n as nat);
        }
        if carry > 0 {
            proof {
                lemma_value_upto_push(out@, carry as u32);
            }
            out.push(carry as u32);
        }
        Natural { limbs: out }
    }

    /// The product of a number and a single limb.
    pub fn mul_small(&self, m: u32) -> (r: Natural)
        ensures
            r@ == self@ * m,
    {
        let n = self.limbs.len();
        let mut out: Vec<u32> = Vec::new();
        let mut carry: u64 = 0;
        let mut i: usize = 0;
        proof {
            assert(0 * (m as nat) == 0);
        }
        while i < n
            invariant
                i <= n,
                n == self.limbs@.len(),
                out@.len() == i,
                carry < 0x1_0000_0000,
                value_upto(out@, i as nat) + carry * radix_pow(i as nat) == value_upto(
                    self.limbs@,
                    i as nat,
                ) * m,
            decreases n - i,
        {
            let x: u64 = self.limbs[i] as u64;
            assert(x * m <= 0xffff_ffff * 0xffff_ffff) by (nonlinear_arith)
                requires
                    x <= 0xffff_ffff,
                    m <= 0xffff_ffff,
            ;
            let total: u64 = x * (m as u64) + carry;
            let low: u32 = (total % 0x1_0000_0000) as u32;
            let high: u64 = total / 0x1_0000_0000;
            proof {
                let p = radix_pow(i as nat);
                let v = value_upto(self.limbs@, i as nat);
                lemma_value_upto_push(out@, low);
                lemma_carry_step(low as nat, high as nat, total as nat, p);
                assert((x * m + carry) * p == (x * p) * m + carry * p) by (nonlinear_arith);
                assert((v + x * p) * m == v * m + (x * p) * m) by (nonlinear_arith);
            }
            out.push(low);
            carry = high;
            i += 1;
        }
        if carry > 0 {
            proof {
                lemma_value_upto_push(out@, carry as u32);
            }
            out.push(carry as u32);
        }
        Natural { limbs: out }
    }

    /// The product of a number and the base.
    fn times_radix(&self) -> (r: Natural)
        ensures
            r@ == self@ * radix(),
    {
        let n = self.limbs.len();
        let mut out: Vec<u32> = Vec::new();
        out.push(0);
        let mut i: usize = 0;
        while i < n
            invariant
                i <= n,
                n == self.limbs@.len(),
                out@ == seq![0u32] + self.limbs@.take(i as int),
            decreases n - i,
        {
            out.push(self.limbs[i]);
            proof {
                assert(self.limbs@.take(i + 1) == self.limbs@.take(i as int).push(
                    self.limbs@[i as int],
                ));
            }
            i += 1;
        }
        proof {
            assert(self.limbs@.take(n as int) == self.limbs@);
            lemma_value_upto_shift(self.limbs@, n as nat);
            assert(radix() * value_upto(self.limbs@, n as nat) == value_upto(self.limbs@, n as nat)
                * radix()) by (nonlinear_arith);
        }
        Natural { limbs: out }
    }

    /// The product of two numbers.
    pub fn mul(&self, other: &Natural) -> (r: Natural)
        ensures
            r@ == self@ * other@,
    {
        let n = other.limbs.len();
        let mut acc = Natural { limbs: Vec::new() };
        // `shifted` starts as a copy of `self` and moves up by one limb for
        // each limb of `other`.
        let mut shifted = Natural { limbs: Vec::new() };
        let mut k: usize = 0;
        while k < self.limbs.len()
            invariant
                k <= self.limbs@.len(),
                shifted.limbs@ == self.limbs@.take(k as int),
            decreases self.limbs@.len() - k,
        {
            shifted.limbs.push(self.limbs[k]);
            proof {
                assert(self.limbs@.take(k + 1) == self.limbs@.take(k as int).push(
                    self.limbs@[k as int],
                ));
            }
            k += 1;
        }
        proof {
            assert(self.limbs@.take(k as int) == self.limbs@);
            assert(self@ * 0 == 0);
            assert(self@ * 1 == self@) by (nonlinear_arith);
        }
        let mut i: usize = 0;
        while i < n
            invariant
                i <= n,
                n == other.limbs@.len(),
                shifted@ == self@ * radix_pow(i as nat),
                acc@ == self@ * value_upto(other.limbs@, i as nat),
            decreases n - i,
        {
            let part = shifted.mul_small(other.limbs[i]);
            acc = acc.add(&part);
            shifted = shifted.times_radix();
            proof {
                let a = self@;
                let d = other.limbs@[i as int] as nat;
                let p = radix_pow(i as nat);
                let v = value_upto(other.limbs@, i as nat);
                assert(a * v + (a * p) * d == a * (v + d * p)) by (nonlinear_arith);
                assert((a * p) * radix() == a * (radix() * p)) by (nonlinear_arith);
            }
            i += 1;
        }
        acc
    }

    /// Whether this number is strictly smaller than `other`.
    pub fn lt(&self, other: &Natural) -> (b: bool)
        ensures
            b == (self@ < other@),
    {
        let n = if self.limbs.len() >= other.limbs.len() {
            self.limbs.len()
        } else {
            other.limbs.len()
        };
        proof {
            lemma_value_upto_beyond(self.limbs@, n as nat);
            lemma_value_upto_beyond(other.limbs@, n as nat);
        }
        let mut i: usize = n;
        while i > 0
            invariant
                i <= n,
                forall|k: int| i <= k < n ==> limb_at(self.limbs@, k) == limb_at(other.limbs@, k),
                self@ == value_upto(self.limbs@, n as nat),
                other@ == value_upto(other.limbs@, n as nat),
            decreases i,
        {
            let x = limb_or_zero(&self.limbs, i - 1);
            let y = limb_or_zero(&other.limbs, i - 1);
            if x < y {
                proof {
                    lemma_value_upto_order(self.limbs@, other.limbs@, n as nat, i as nat);
                }
                return true;
            }
            if y < x {
                proof {
                    lemma_value_upto_order(other.limbs@, self.limbs@, n as nat, i as nat);
                }
                return false;
            }
            i -= 1;
        }
        proof {
            lemma_value_upto_agree(self.limbs@, other.limbs@, n as nat);
        }
        false
    }

    /// Whether the two numbers are the same.
    pub fn same(&self, other: &Natural) -> (b: bool)
        ensures
            b == (self@ == other@),
    {
        !self.lt(other) && !other.lt(self)
    }
}

} // verus!
