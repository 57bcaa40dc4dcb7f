//! Natural numbers without an upper bound, for sums of fractions whose
//! common denominator outgrows every machine integer.

use vstd::prelude::*;

verus! {

/// The base of the digits: 2 to the power 64.
pub open spec fn spec_base() -> nat {
    0x1_0000_0000_0000_0000
}

/// The weight of digit `i`: the base to the power `i`.
pub open spec fn spec_weight(i: nat) -> nat
    decreases i,
{
    if i == 0 {
        1
    } else {
        spec_base() * spec_weight((i - 1) as nat)
    }
}

/// Digit `i` of `digits`, zero beyond their end.
pub open spec fn spec_digit(digits: Seq<u64>, i: int) -> nat {
    if 0 <= i < digits.len() {
        digits[i] as nat
    } else {
        0
    }
}

/// What the first `n` digits stand for, the lowest digit first.
pub open spec fn spec_value_upto(digits: Seq<u64>, n: nat) -> nat
    decreases n,
{
    if n == 0 {
        0
    } else {
        spec_value_upto(digits, (n - 1) as nat) + spec_digit(digits, n - 1) * spec_weight(
            (n - 1) as nat,
        )
    }
}

/// A natural number of any size.
pub struct Natural {
    digits: Vec<u64>,
}

/// Digits beyond the end add nothing.
proof fn lemma_value_beyond(digits: Seq<u64>, n: nat)
    requires
        n >= digits.len(),
    ensures
        spec_value_upto(digits, n) == spec_value_upto(digits, digits.len()),
    decreases n,
{
    if n > digits.len() {
        lemma_value_beyond(digits, (n - 1) as nat);
        assert(spec_digit(digits, n - 1) == 0);
        assert(0 * spec_weight((n - 1) as nat) == 0);
    }
}

/// The first `n` digits stand for less than the weight of digit `n`.
proof fn lemma_value_below_weight(digits: Seq<u64>, n: nat)
    ensures
        spec_value_upto(digits, n) < spec_weight(n),
    decreases n,
{
    if n > 0 {
        lemma_value_below_weight(digits, (n - 1) as nat);
        let w = spec_weight((n - 1) as nat);
        let d = spec_digit(digits, n - 1);
        assert(d <= spec_base() - 1);
        assert(d * w <= (spec_base() - 1) * w) by (nonlinear_arith)
            requires
                d <= spec_base() - 1,
                w >= 0,
        ;
        assert((spec_base() - 1) * w + w == spec_base() * w) by (nonlinear_arith);
    }
}

/// Two digit sequences that agree from digit `i` up to digit `n` differ in
/// value by what their first `i` digits differ.
proof fn lemma_value_same_high(a: Seq<u64>, b: Seq<u64>, i: nat, n: nat)
    requires
        i <= n,
        forall|k: int| i <= k < n ==> spec_digit(a, k) == spec_digit(b, k),
    ensures
        spec_value_upto(a, n) - spec_value_upto(a, i) == spec_value_upto(b, n) - spec_value_upto(
            b,
            i,
        ),
    decreases n,
{
    if n > i {
        lemma_value_same_high(a, b, i, (n - 1) as nat);
        assert(spec_digit(a, n - 1) == spec_digit(b, n - 1));
    }
}

/// The value depends on the digits alone.
proof fn lemma_value_of_same_digits(a: Seq<u64>, b: Seq<u64>, n: nat)
    requires
        forall|k: int| 0 <= k < n ==> spec_digit(a, k) == spec_digit(b, k),
    ensures
        spec_value_upto(a, n) == spec_value_upto(b, n),
    decreases n,
{
    if n > 0 {
        lemma_value_of_same_digits(a, b, (n - 1) as nat);
    }
}

impl Natural {
    /// The number that the digits stand for.
    pub closed spec fn value(&self) -> nat {
        spec_value_upto(self.digits@, self.digits@.len())
    }

    /// The number `n`.
    pub fn from_usize(n: usize) -> (r: Natural)
        ensures
            r.value() == n,
    {
        let mut digits: Vec<u64> = Vec::new();
        digits.push(n as u64);
        proof {
            assert(spec_value_upto(digits@, 0) == 0);
            assert(spec_weight(0) == 1);
            assert(spec_value_upto(digits@, 1) == spec_value_upto(digits@, 0) + spec_digit(
                digits@,
                0,
            ) * spec_weight(0));
        }
        Natural { digits }
    }

    /// The product of this number and `m`.
    pub fn times(&self, m: usize) -> (r: Natural)
        ensures
            r.value() == self.value() * m,
    {
        let mut digits: Vec<u64> = Vec::new();
        let mut carry: u64 = 0;
        let mut i: usize = 0;
        assert(spec_value_upto(self.digits@, 0) == 0);
        assert(0 * m == 0);
        while i < self.digits.len()
            invariant
                i <= self.digits.len(),
                digits.len() == i,
                spec_value_upto(digits@, i as nat) + carry * spec_weight(i as nat)
                    == spec_value_upto(self.digits@, i as nat) * m,
            decreases self.digits.len() - i,
        {
            let d: u64 = self.digits[i];
            assert(d as u128 * (m as u128) + (carry as u128) <= u128::MAX) by (nonlinear_arith)
                requires
                    d <= u64::MAX,
                    m <= u64::MAX,
                    carry <= u64::MAX,
            ;
            let t: u128 = d as u128 * (m as u128) + (carry as u128);
            let low: u64 = (t % 0x1_0000_0000_0000_0000u128) as u64;
            let high: u64 = (t / 0x1_0000_0000_0000_0000u128) as u64;
            let ghost before = digits@;
            let ghost w = spec_weight(i as nat);
            digits.push(low);
            proof {
                lemma_value_of_same_digits(before, digits@, i as nat);
                assert(spec_digit(digits@, i as int) == low);
                assert(spec_digit(self.digits@, i as int) == d);
                assert(spec_weight((i + 1) as nat) == spec_base() * w);
                assert(t == low + high * spec_base());
                assert(spec_value_upto(before, i as nat) + low * w + high * (spec_base() * w) == (
                spec_value_upto(self.digits@, i as nat) + d * w) * m) by (nonlinear_arith)
                    requires
                        spec_value_upto(before, i as nat) + carry * w == spec_value_upto(
                            self.digits@,
                            i as nat,
                        ) * m,
                        d * m + carry == low + high * spec_base(),
                ;
            }
            carry = high;
            i += 1;
        }
        let ghost before = digits@;
        digits.push(carry);
        proof {
            lemma_value_of_same_digits(before, digits@, i as nat);
            assert(spec_digit(digits@, i as int) == carry);
        }
        Natural { digits }
    }

    /// The sum of this number and `other`.
    pub fn plus(&self, other: &Natural) -> (r: Natural)
        ensures
            r.value() == self.value() + other.value(),
    {
        let n: usize = if self.digits.len() >= other.digits.len() {
            self.digits.len()
        } else {
            other.digits.len()
        };
        let mut digits: Vec<u64> = Vec::new();
        let mut carry: u64 = 0;
        let mut i: usize = 0;
        while i < n
            invariant
                i <= n,
                digits.len() == i,
                carry <= 1,
                spec_value_upto(digits@, i as nat) + carry * spec_weight(i as nat)
                    == spec_value_upto(self.digits@, i as nat) + spec_value_upto(
                    other.digits@,
                    i as nat,
                ),
            decreases n - i,
        {
            let x: u64 = if i < self.digits.len() {
                self.digits[i]
            } else {
                0
            };
            let y: u64 = if i < other.digits.len() {
                other.digits[i]
            } else {
                0
            };
            let t: u128 = x as u128 + y as u128 + carry as u128;
            let low: u64 = (t % 0x1_0000_0000_0000_0000u128) as u64;
            let high: u64 = (t / 0x1_0000_0000_0000_0000u128) as u64;
            let ghost before = digits@;
            let ghost w = spec_weight(i as nat);
            digits.push(low);
            proof {
                lemma_value_of_same_digits(before, digits@, i as nat);
                assert(spec_digit(digits@, i as int) == low);
                assert(spec_digit(self.digits@, i as int) == x);
                assert(spec_digit(other.digits@, i as int) == y);
                assert(spec_weight((i + 1) as nat) == spec_base() * w);
                assert(t == low + high * spec_base());
                assert(spec_value_upto(before, i as nat) + low * w + high * (spec_base() * w)
                    == spec_value_upto(self.digits@, i as nat) + x * w + spec_value_upto(
                    other.digits@,
                    i as nat,
                ) + y * w) by (nonlinear_arith)
                    requires
                        spec_value_upto(before, i as nat) + carry * w == spec_value_upto(
                            self.digits@,
                            i as nat,
                        ) + spec_value_upto(other.digits@, i as nat),
                        x + y + carry == low + high * spec_base(),
                ;
            }
            carry = high;
            i += 1;
        }
        let ghost before = digits@;
        digits.push(carry);
        proof {
            lemma_value_of_same_digits(before, digits@, i as nat);
            assert(spec_digit(digits@, i as int) == carry);
            lemma_value_beyond(self.digits@, n as nat);
            lemma_value_beyond(other.digits@, n as nat);
        }
        Natural { digits }
    }

    /// Whether this number is at most `other`.
    pub fn at_most(&self, other: &Natural) -> (r: bool)
        ensures
            r == (self.value() <= other.value()),
    {
        let n: usize = if self.digits.len() >= other.digits.len() {
            self.digits.len()
        } else {
            other.digits.len()
        };
        proof {
            lemma_value_beyond(self.digits@, n as nat);
            lemma_value_beyond(other.digits@, n as nat);
        }
        let mut i: usize = n;
        while i > 0
            invariant
                i <= n,
                self.value() == spec_value_upto(self.digits@, n as nat),
                other.value() == spec_value_upto(other.digits@, n as nat),
                forall|k: int|
                    i <= k < n ==> spec_digit(self.digits@, k) == spec_digit(other.digits@, k),
            decreases i,
        {
            let x: u64 = if i - 1 < self.digits.len() {
                self.digits[i - 1]
            } else {
                0
            };
            let y: u64 = if i - 1 < other.digits.len() {
                other.digits[i - 1]
            } else {
                0
            };
            if x != y {
                proof {
                    let w = spec_weight((i - 1) as nat);
                    lemma_value_same_high(self.digits@, other.digits@, i as nat, n as nat);
                    lemma_value_below_weight(self.digits@, (i - 1) as nat);
                    lemma_value_below_weight(other.digits@, (i - 1) as nat);
                    assert(spec_digit(self.digits@, i - 1) == x);
                    assert(spec_digit(other.digits@, i - 1) == y);
                    assert(spec_value_upto(self.digits@, i as nat) == spec_value_upto(
                        self.digits@,
                        (i - 1) as nat,
                    ) + x * w);
                    assert(spec_value_upto(other.digits@, i as nat) == spec_value_upto(
                        other.digits@,
                        (i - 1) as nat,
                    ) + y * w);
                    if x < y {
                        assert(x * w + w <= y * w) by (nonlinear_arith)
                            requires
                                x < y,
                                w >= 0,
                        ;
                    } else {
                        assert(y * w + w <= x * w) by (nonlinear_arith)
                            requires
                                y < x,
                                w >= 0,
                        ;
                    }
                }
                return x < y;
            }
            i -= 1;
        }
        proof {
            lemma_value_same_high(self.digits@, other.digits@, 0, n as nat);
        }
        true
    }
}

} // verus!
