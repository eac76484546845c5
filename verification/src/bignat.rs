//! Natural numbers of any size, as far as the score needs them: products
//! and their comparison.

use vstd::prelude::*;

verus! {

/// The base of the digits: 2 to the power 32.
pub open spec fn radix() -> nat {
    0x1_0000_0000
}

/// `radix()` to the power `n`.
pub open spec fn radix_pow(n: nat) -> nat
    decreases n,
{
    if n == 0 {
        1
    } else {
        radix() * radix_pow((n - 1) as nat)
    }
}

/// The number that the digits stand for, the least significant first.
pub open spec fn digits_value(digits: Seq<u32>) -> nat
    decreases digits.len(),
{
    if digits.len() == 0 {
        0
    } else {
        digits_value(digits.drop_last()) + (digits.last() as nat) * radix_pow(
            (digits.len() - 1) as nat,
        )
    }
}

/// The digits end in no zero, so that each number has one form.
pub open spec fn is_normal(digits: Seq<u32>) -> bool {
    digits.len() > 0 ==> digits.last() != 0
}

pub proof fn lemma_radix_pow_positive(n: nat)
    ensures
        radix_pow(n) >= 1,
    decreases n,
{
    if n > 0 {
        lemma_radix_pow_positive((n - 1) as nat);
        assert(radix() * radix_pow((n - 1) as nat) >= 1) by (nonlinear_arith)
            requires
                radix() >= 1,
                radix_pow((n - 1) as nat) >= 1,
        ;
    }
}

/// Digits stand for a number below the power of the base that their
/// count gives.
pub proof fn lemma_value_below_pow(digits: Seq<u32>)
    ensures
        digits_value(digits) < radix_pow(digits.len()),
    decreases digits.len(),
{
    if digits.len() > 0 {
        let n = (digits.len() - 1) as nat;
        lemma_value_below_pow(digits.drop_last());
        assert(digits_value(digits.drop_last()) + digits.last() * radix_pow(n) < radix()
            * radix_pow(n)) by (nonlinear_arith)
            requires
                digits_value(digits.drop_last()) < radix_pow(n),
                digits.last() < radix(),
        ;
    }
}

/// Normal digits stand for a number that is at least the power of the base
/// below their count.
pub proof fn lemma_value_at_least_pow(digits: Seq<u32>)
    requires
        digits.len() > 0,
        is_normal(digits),
    ensures
        digits_value(digits) >= radix_pow((digits.len() - 1) as nat),
{
    let n = (digits.len() - 1) as nat;
    assert(digits.last() * radix_pow(n) >= radix_pow(n)) by (nonlinear_arith)
        requires
            digits.last() >= 1,
            radix_pow(n) >= 0,
    ;
}

/// The powers of the base grow.
pub proof fn lemma_radix_pow_monotone(m: nat, n: nat)
    requires
        m <= n,
    ensures
        radix_pow(m) <= radix_pow(n),
    decreases n,
{
    if m < n {
        lemma_radix_pow_monotone(m, (n - 1) as nat);
        lemma_radix_pow_positive((n - 1) as nat);
        assert(radix_pow((n - 1) as nat) <= radix() * radix_pow((n - 1) as nat))
            by (nonlinear_arith)
            requires
                radix() >= 1,
                radix_pow((n - 1) as nat) >= 0,
        ;
    }
}

/// Of two rows of digits of one length the one with the smaller digit at
/// the highest place where they differ stands for the smaller number.
pub proof fn lemma_value_order(a: Seq<u32>, b: Seq<u32>, i: int)
    requires
        a.len() == b.len(),
        0 <= i < a.len(),
        a[i] < b[i],
        forall|k: int| i < k < a.len() ==> a[k] == b[k],
    ensures
        digits_value(a) < digits_value(b),
    decreases a.len(),
{
    let n = (a.len() - 1) as nat;
    if i == n {
        lemma_value_below_pow(a.drop_last());
        assert(digits_value(a.drop_last()) + a.last() * radix_pow(n) < b.last() * radix_pow(n))
            by (nonlinear_arith)
            requires
                digits_value(a.drop_last()) < radix_pow(n),
                a.last() + 1 <= b.last(),
        ;
    } else {
        assert(a.last() == b.last());
        lemma_value_order(a.drop_last(), b.drop_last(), i);
    }
}

/// One more digit at the high end adds its multiple of the power that its
/// place gives.
pub proof fn lemma_value_push(digits: Seq<u32>, d: u32)
    ensures
        digits_value(digits.push(d)) == digits_value(digits) + d * radix_pow(digits.len()),
{
    assert(digits.push(d).drop_last() =~= digits);
}

/// A natural number of any size.
#[derive(Debug)]
pub struct BigNat {
    digits: Vec<u32>,
}

impl View for BigNat {
    type V = nat;

    closed spec fn view(&self) -> nat {
        digits_value(self.digits@)
    }
}

impl BigNat {
    /// The number is in its one form.
    pub closed spec fn wf(&self) -> bool {
        is_normal(self.digits@)
    }

    /// The number `n`.
    pub fn from_u64(n: u64) -> (big: BigNat)
        ensures
            big.wf(),
            big@ == n,
    {
        let mut digits: Vec<u32> = Vec::new();
        let low: u32 = (n % 0x1_0000_0000) as u32;
        let high: u32 = (n / 0x1_0000_0000) as u32;
        proof {
            assert(radix_pow(0) == 1);
            assert(radix_pow(1) == radix()) by {
                assert(radix_pow(1) == radix() * radix_pow(0));
            }
            lemma_value_push(Seq::<u32>::empty(), low);
            lemma_value_push(seq![low], high);
            assert(Seq::<u32>::empty().push(low) =~= seq![low]);
            assert(low * radix_pow(0) == low);
            assert(high * radix_pow(1) == high * radix());
        }
        if high != 0 {
            digits.push(low);
            digits.push(high);
            assert(digits@ =~= seq![low].push(high));
        } else if low != 0 {
            digits.push(low);
            assert(digits@ =~= seq![low]);
        }
        BigNat { digits }
    }

    /// The digits of the number in base 2 to the power 32, the least
    /// significant first, with no zero at the end.
    pub fn digits(&self) -> (digits: &Vec<u32>)
        requires
            self.wf(),
        ensures
            digits_value(digits@) == self@,
            is_normal(digits@),
    {
        &self.digits
    }

    /// The product of the number and `k`.
    pub fn mul_u64(&self, k: u64) -> (product: BigNat)
        requires
            self.wf(),
        ensures
            product.wf(),
            product@ == self@ * k,
    {
        let mut out: Vec<u32> = Vec::new();
        if k == 0 {
            assert(self@ * 0 == 0) by (nonlinear_arith);
            return BigNat { digits: out };
        }
        let n = self.digits.len();
        let mut carry: u64 = 0;
        let mut i: usize = 0;
        proof {
            assert(self.digits@.take(0) =~= Seq::<u32>::empty());
            assert(0 * radix_pow(0) == 0);
            assert(0 * (k as int) == 0);
        }
        while i < n
            invariant
                k >= 1,
                n == self.digits.len(),
                is_normal(self.digits@),
                i <= n,
                out@.len() == i,
                digits_value(out@) + carry * radix_pow(i as nat) == digits_value(
                    self.digits@.take(i as int),
                ) * k,
                i == n && i > 0 && carry == 0 ==> out@.last() != 0,
            decreases n - i,
        {
            let d = self.digits[i];
            assert(d * k + carry <= 0xffff_ffff * 0xffff_ffff_ffff_ffff + 0xffff_ffff_ffff_ffff)
                by (nonlinear_arith)
                requires
                    d <= 0xffff_ffff,
                    k <= 0xffff_ffff_ffff_ffff,
                    carry <= 0xffff_ffff_ffff_ffff,
            ;
            let cur: u128 = (d as u128) * (k as u128) + (carry as u128);
            let low: u32 = (cur % 0x1_0000_0000) as u32;
            let high: u64 = (cur / 0x1_0000_0000) as u64;
            proof {
                let done = self.digits@.take(i as int);
                assert(self.digits@.take(i + 1) =~= done.push(d));
                lemma_value_push(done, d);
                lemma_value_push(out@, low);
                assert(radix_pow((i + 1) as nat) == radix() * radix_pow(i as nat));
                let p = radix_pow(i as nat) as int;
                let v = digits_value(out@) as int;
                let w = digits_value(done) as int;
                assert(low + high * radix() == d * k + carry);
                assert(v + low * p + high * (radix() * p) == (w + d * p) * k) by (nonlinear_arith)
                    requires
                        v + carry * p == w * k,
                        low + high * radix() == d * k + carry,
                ;
                if i + 1 == n && high == 0 {
                    assert(d >= 1);
                    assert(d * k >= 1) by (nonlinear_arith)
                        requires
                            d >= 1,
                            k >= 1,
                    ;
                }
            }
            out.push(low);
            carry = high;
            i += 1;
        }
        proof {
            assert(self.digits@.take(n as int) =~= self.digits@);
        }
        if carry > 0 {
            let low: u32 = (carry % 0x1_0000_0000) as u32;
            let high: u32 = (carry / 0x1_0000_0000) as u32;
            proof {
                lemma_value_push(out@, low);
                lemma_value_push(out@.push(low), high);
                assert(radix_pow((n + 1) as nat) == radix() * radix_pow(n as nat));
                let p = radix_pow(n as nat) as int;
                assert(low * p + high * (radix() * p) == carry * p) by (nonlinear_arith)
                    requires
                        low + high * radix() == carry,
                ;
            }
            out.push(low);
            if high != 0 {
                out.push(high);
            }
        }
        BigNat { digits: out }
    }

    /// Decides whether the number is less than `other`.
    pub fn lt(&self, other: &BigNat) -> (less: bool)
        requires
            self.wf(),
            other.wf(),
        ensures
            less == (self@ < other@),
    {
        let n = self.digits.len();
        let m = other.digits.len();
        if n != m {
            proof {
                lemma_value_below_pow(self.digits@);
                lemma_value_below_pow(other.digits@);
                if n < m {
                    lemma_value_at_least_pow(other.digits@);
                    lemma_radix_pow_monotone(n as nat, (m - 1) as nat);
                } else {
                    lemma_value_at_least_pow(self.digits@);
                    lemma_radix_pow_monotone(m as nat, (n - 1) as nat);
                }
            }
            return n < m;
        }
        let mut i: usize = n;
        while i > 0
            invariant
                i <= n,
                n == self.digits.len(),
                n == other.digits.len(),
                forall|k: int| i <= k < n ==> self.digits@[k] == other.digits@[k],
            decreases i,
        {
            i -= 1;
            if self.digits[i] != other.digits[i] {
                proof {
                    if self.digits[i as int] < other.digits[i as int] {
                        lemma_value_order(self.digits@, other.digits@, i as int);
                    } else {
                        lemma_value_order(other.digits@, self.digits@, i as int);
                    }
                }
                return self.digits[i] < other.digits[i];
            }
        }
        assert(self.digits@ =~= other.digits@);
        false
    }
}

} // verus!
