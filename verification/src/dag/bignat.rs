//! Natural numbers of any size, for sums of fractions that have to be exact.

use vstd::arithmetic::power::{lemma_pow0, lemma_pow_positive, pow};
use vstd::prelude::*;

verus! {

/// The base of the digits.
pub open spec fn base() -> int {
    0x1_0000_0000_0000_0000
}

/// The number that digits stand for, least significant first.
pub open spec fn value(digits: Seq<u64>) -> int
    decreases digits.len(),
{
    if digits.len() == 0 {
        0
    } else {
        value(digits.drop_last()) + digits.last() * pow(base(), (digits.len() - 1) as nat)
    }
}

/// A natural number of any size.
pub struct BigNat {
    pub digits: Vec<u64>,
}

impl View for BigNat {
    type V = int;

    open spec fn view(&self) -> int {
        value(self.digits@)
    }
}

proof fn lemma_pow_step(n: nat)
    ensures
        pow(base(), n + 1) == base() * pow(base(), n),
        pow(base(), n) > 0,
{
    lemma_pow_positive(base(), n);
    reveal(pow);
}

proof fn lemma_value_push(digits: Seq<u64>, d: u64)
    ensures
        value(digits.push(d)) == value(digits) + d * pow(base(), digits.len()),
{
    assert(digits.push(d).drop_last() =~= digits);
}

impl BigNat {
    pub fn from_u64(n: u64) -> (r: Self)
        ensures
            r@ == n,
    {
        let mut digits: Vec<u64> = Vec::new();
        digits.push(n);
        proof {
            lemma_value_push(Seq::empty(), n);
            assert(digits@ =~= Seq::<u64>::empty().push(n));
            lemma_pow0(base());
        }
        BigNat { digits }
    }

    /// The product with a machine integer.
    pub fn times(&self, k: u64) -> (r: Self)
        ensures
            r@ == self@ * k,
    {
        let mut out: Vec<u64> = Vec::new();
        let mut carry: u64 = 0;
        let mut i: usize = 0;
        proof {
            lemma_pow0(base());
            assert(self.digits@.take(0) =~= Seq::<u64>::empty());
            assert(0 * k == 0);
            assert(0 * pow(base(), 0) == 0);
        }
        while i < self.digits.len()
            invariant
                i <= self.digits@.len(),
                out@.len() == i,
                value(out@) + carry * pow(base(), i as nat) == value(self.digits@.take(i as int))
                    * k,
            decreases self.digits@.len() - i,
        {
            let d: u64 = self.digits[i];
            proof {
                lemma_digit_product(d, k, carry);
            }
            let product: u128 = d as u128 * k as u128 + carry as u128;
            let low: u64 = (product % 0x1_0000_0000_0000_0000) as u64;
            let high: u64 = (product / 0x1_0000_0000_0000_0000) as u64;
            proof {
                let p = pow(base(), i as nat);
                let v = value(self.digits@.take(i as int));
                let before = value(out@);
                lemma_value_push(out@, low);
                lemma_value_push(self.digits@.take(i as int), d);
                assert(self.digits@.take(i + 1) =~= self.digits@.take(i as int).push(d));
                lemma_pow_step(i as nat);
                assert(product == low + high * base());
                assert(before + low * p + high * (base() * p) == (v + d * p) * k)
                    by (nonlinear_arith)
                    requires
                        before + carry * p == v * k,
                        d * k + carry == low + high * base(),
                ;
            }
            out.push(low);
            carry = high;
            i = i + 1;
        }
        assert(self.digits@.take(i as int) =~= self.digits@);
        proof {
            lemma_value_push(out@, carry);
        }
        out.push(carry);
        BigNat { digits: out }
    }

    fn digit(&self, i: usize) -> (d: u64)
        ensures
            d == digit_at(self.digits@, i as int),
    {
        if i < self.digits.len() {
            self.digits[i]
        } else {
            0
        }
    }

    /// The sum of two numbers.
    pub fn plus(&self, other: &BigNat) -> (r: Self)
        ensures
            r@ == self@ + other@,
    {
        let n: usize = if self.digits.len() > other.digits.len() {
            self.digits.len()
        } else {
            other.digits.len()
        };
        let mut out: Vec<u64> = Vec::new();
        let mut carry: u64 = 0;
        let mut i: usize = 0;
        proof {
            lemma_pow0(base());
            assert(0 * pow(base(), 0) == 0);
        }
        while i < n
            invariant
                i <= n,
                n >= self.digits@.len(),
                n >= other.digits@.len(),
                carry <= 1,
                out@.len() == i,
                value(out@) + carry * pow(base(), i as nat) == padded(self.digits@, i as int)
                    + padded(other.digits@, i as int),
            decreases n - i,
        {
            let a: u64 = self.digit(i);
            let b: u64 = other.digit(i);
            let total: u128 = a as u128 + b as u128 + carry as u128;
            let low: u64 = (total % 0x1_0000_0000_0000_0000) as u64;
            let high: u64 = (total / 0x1_0000_0000_0000_0000) as u64;
            proof {
                let p = pow(base(), i as nat);
                lemma_value_push(out@, low);
                lemma_pow_step(i as nat);
                let before = value(out@);
                let x = padded(self.digits@, i as int);
                let y = padded(other.digits@, i as int);
                assert(total == low + high * base());
                assert(before + low * p + high * (base() * p) == (x + a * p) + (y + b * p))
                    by (nonlinear_arith)
                    requires
                        before + carry * p == x + y,
                        a + b + carry == low + high * base(),
                ;
            }
            out.push(low);
            carry = high;
            i = i + 1;
        }
        proof {
            lemma_padded_whole(self.digits@, n as int);
            lemma_padded_whole(other.digits@, n as int);
            lemma_value_push(out@, carry);
        }
        out.push(carry);
        BigNat { digits: out }
    }

    /// Whether this number is at most the other.
    pub fn at_most(&self, other: &BigNat) -> (r: bool)
        ensures
            r == (self@ <= other@),
    {
        let n: usize = if self.digits.len() > other.digits.len() {
            self.digits.len()
        } else {
            other.digits.len()
        };
        let mut i: usize = n;
        proof {
            lemma_padded_whole(self.digits@, n as int);
            lemma_padded_whole(other.digits@, n as int);
        }
        while i > 0
            invariant
                i <= n,
                self@ - other@ == padded(self.digits@, i as int) - padded(
                    other.digits@,
                    i as int,
                ),
            decreases i,
        {
            i = i - 1;
            let a: u64 = self.digit(i);
            let b: u64 = other.digit(i);
            if a != b {
                proof {
                    let p = pow(base(), i as nat);
                    let x = padded(self.digits@, i as int);
                    let y = padded(other.digits@, i as int);
                    lemma_padded_range(self.digits@, i as int);
                    lemma_padded_range(other.digits@, i as int);
                    lemma_pow_step(i as nat);
                    if a < b {
                        assert(x + a * p < y + b * p) by (nonlinear_arith)
                            requires
                                a < b,
                                0 <= x < p,
                                0 <= y,
                        ;
                    } else {
                        assert(y + b * p < x + a * p) by (nonlinear_arith)
                            requires
                                b < a,
                                0 <= y < p,
                                0 <= x,
                        ;
                    }
                }
                return a < b;
            }
        }
        true
    }
}

/// The digit at place `i`, zero beyond the digits.
spec fn digit_at(digits: Seq<u64>, i: int) -> u64 {
    if 0 <= i < digits.len() {
        digits[i]
    } else {
        0
    }
}

/// The number that the first `n` digits stand for, zeros beyond the digits.
spec fn padded(digits: Seq<u64>, n: int) -> int
    decreases n,
{
    if n <= 0 {
        0
    } else {
        padded(digits, n - 1) + digit_at(digits, n - 1) * pow(base(), (n - 1) as nat)
    }
}

proof fn lemma_padded_value(digits: Seq<u64>, n: int)
    requires
        0 <= n <= digits.len(),
    ensures
        padded(digits, n) == value(digits.take(n)),
    decreases n,
{
    if n > 0 {
        lemma_padded_value(digits, n - 1);
        assert(digits.take(n).drop_last() =~= digits.take(n - 1));
    }
}

proof fn lemma_padded_whole(digits: Seq<u64>, n: int)
    requires
        digits.len() <= n,
    ensures
        padded(digits, n) == value(digits),
    decreases n,
{
    if n == digits.len() {
        lemma_padded_value(digits, n);
        assert(digits.take(n) =~= digits);
    } else {
        lemma_padded_whole(digits, n - 1);
        assert(0 * pow(base(), (n - 1) as nat) == 0);
    }
}

proof fn lemma_padded_range(digits: Seq<u64>, n: int)
    requires
        0 <= n,
    ensures
        0 <= padded(digits, n) < pow(base(), n as nat),
    decreases n,
{
    if n == 0 {
        lemma_pow0(base());
    } else {
        lemma_padded_range(digits, n - 1);
        lemma_pow_step((n - 1) as nat);
        let p = pow(base(), (n - 1) as nat);
        let d = digit_at(digits, n - 1) as int;
        assert(0 <= d * p && d * p + p <= base() * p) by (nonlinear_arith)
            requires
                0 <= d < base(),
                p > 0,
        ;
    }
}

proof fn lemma_digit_product(d: u64, k: u64, carry: u64)
    ensures
        0 <= d * k,
        d * k + carry <= u128::MAX,
{
    assert(0 <= d * k <= 0xFFFF_FFFF_FFFF_FFFF * 0xFFFF_FFFF_FFFF_FFFF) by (nonlinear_arith)
        requires
            0 <= d <= 0xFFFF_FFFF_FFFF_FFFF,
            0 <= k <= 0xFFFF_FFFF_FFFF_FFFF,
    ;
}

} // verus!
