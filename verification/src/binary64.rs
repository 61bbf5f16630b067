//! Numbers with a binary point and 53 significant bits, rounded to the nearest such
//! number, and of two that are as near to the even one.

use crate::format::{at_least, divisible, scaled, Amounts};
use crate::text::{decimal, push_decimal, push_two_digits, two_digits};
use core::cmp::Ordering;
use core::ops::{Div, Neg};
use vstd::arithmetic::power2::{lemma_pow2_pos, lemma_pow2_unfold, pow2};
use vstd::prelude::*;
use vstd::std_specs::cmp::{PartialEqSpecImpl, PartialOrdSpecImpl};
use vstd::std_specs::ops::{DivSpecImpl, NegSpecImpl};

verus! {

/// The smallest number of 53 bits.
pub const LOW: u64 = 0x10_0000_0000_0000;

/// One more than the largest number of 53 bits.
pub const HIGH: u64 = 0x20_0000_0000_0000;

/// The whole number nearest to a fraction; the even one where two are as near.
pub open spec fn half_even(num: nat, den: nat) -> nat {
    let whole = num / den;
    let rest = num % den;
    if 2 * rest < den || (2 * rest == den && whole % 2 == 0) {
        whole
    } else {
        whole + 1
    }
}

/// By how many bits a number is longer than 53 bits.
pub open spec fn excess_bits(n: nat) -> nat
    decreases n,
{
    if n < HIGH {
        0
    } else {
        1 + excess_bits(n / 2)
    }
}

/// By how many bits a number is shorter than 53 bits.
pub open spec fn missing_bits(n: nat) -> nat
    decreases if n < LOW {
        LOW - n
    } else {
        0
    },
{
    if n == 0 || n >= LOW {
        0
    } else {
        1 + missing_bits(2 * n)
    }
}

/// A number: `mantissa` times two to the power of `exponent`, or its negative.
#[derive(Clone, Copy, Debug)]
pub struct Binary64 {
    pub negative: bool,
    pub mantissa: u64,
    pub exponent: i32,
}

impl Binary64 {
    /// Whether the number is zero or has 53 significant bits, and its exponent is
    /// far from the ends of its range.
    pub open spec fn wf(self) -> bool {
        &&& self.mantissa == 0 || LOW <= self.mantissa < HIGH
        &&& -1000 <= self.exponent <= 1000
    }

    /// The number nearest to a whole one.
    pub open spec fn nearest(n: nat) -> Binary64 {
        if n == 0 {
            Binary64 { negative: false, mantissa: 0, exponent: 0 }
        } else if n < HIGH {
            let k = missing_bits(n);
            Binary64 { negative: false, mantissa: (n * pow2(k)) as u64, exponent: -(k as i32) as i32 }
        } else {
            let k = excess_bits(n);
            let mantissa = half_even(n, pow2(k));
            if mantissa == HIGH {
                Binary64 { negative: false, mantissa: LOW, exponent: (k + 1) as i32 }
            } else {
                Binary64 { negative: false, mantissa: mantissa as u64, exponent: k as i32 }
            }
        }
    }

    /// One thousand.
    pub open spec fn thousand() -> Binary64 {
        Binary64 { negative: false, mantissa: 0x1F_4000_0000_0000, exponent: -43i32 }
    }

    /// 1024.
    pub open spec fn kibi() -> Binary64 {
        Binary64 { negative: false, mantissa: 0x10_0000_0000_0000, exponent: -42i32 }
    }

    /// The quotient of two numbers, rounded.
    pub open spec fn quotient(self, other: Binary64) -> Binary64 {
        let negative = self.negative != other.negative;
        if self.mantissa == 0 {
            Binary64 { negative, mantissa: 0, exponent: 0 }
        } else if self.mantissa >= other.mantissa {
            Binary64 {
                negative,
                mantissa: half_even((self.mantissa * LOW) as nat, other.mantissa as nat) as u64,
                exponent: (self.exponent - other.exponent - 52) as i32,
            }
        } else {
            Binary64 {
                negative,
                mantissa: half_even((self.mantissa * HIGH) as nat, other.mantissa as nat) as u64,
                exponent: (self.exponent - other.exponent - 53) as i32,
            }
        }
    }

    /// The number with its sign turned round.
    pub open spec fn opposite(self) -> Binary64 {
        Binary64 { negative: !self.negative, ..self }
    }

    /// The order of two numbers by their sizes, whatever their signs.
    pub open spec fn size_order(self, other: Binary64) -> Ordering {
        if self.mantissa == 0 && other.mantissa == 0 {
            Ordering::Equal
        } else if self.mantissa == 0 {
            Ordering::Less
        } else if other.mantissa == 0 {
            Ordering::Greater
        } else if self.exponent < other.exponent {
            Ordering::Less
        } else if self.exponent > other.exponent {
            Ordering::Greater
        } else if self.mantissa < other.mantissa {
            Ordering::Less
        } else if self.mantissa > other.mantissa {
            Ordering::Greater
        } else {
            Ordering::Equal
        }
    }

    /// The order of two numbers.
    pub open spec fn order(self, other: Binary64) -> Ordering {
        if self.mantissa == 0 && other.mantissa == 0 {
            Ordering::Equal
        } else if self.negative && other.negative {
            other.size_order(self)
        } else if self.negative {
            Ordering::Less
        } else if other.negative {
            Ordering::Greater
        } else {
            self.size_order(other)
        }
    }

    /// The whole number nearest to `factor` times the number without its sign.
    pub open spec fn times(self, factor: nat) -> nat {
        if self.exponent >= 0 {
            self.mantissa as nat * factor * pow2(self.exponent as nat)
        } else {
            half_even(self.mantissa as nat * factor, pow2(-(self.exponent as int) as nat))
        }
    }
}

fn half_even_of(num: u128, den: u128) -> (whole: u128)
    requires
        0 < den <= 0x1_0000_0000_0000_0000_0000_0000,
        num < 0x1_0000_0000_0000_0000_0000_0000_0000,
    ensures
        whole == half_even(num as nat, den as nat),
{
    let whole: u128 = num / den;
    let rest: u128 = num % den;
    proof {
        vstd::arithmetic::div_mod::lemma_div_is_ordered_by_denominator(num as int, 1, den as int);
    }
    if 2 * rest < den || (2 * rest == den && whole % 2 == 0) {
        whole
    } else {
        whole + 1
    }
}

fn power(k: u32) -> (p: u128)
    requires
        k <= 96,
    ensures
        p == pow2(k as nat),
        0 < p <= 0x1_0000_0000_0000_0000_0000_0000,
{
    let mut p: u128 = 1;
    let mut i: u32 = 0;
    proof {
        vstd::arithmetic::power2::lemma2_to64();
    }
    while i < k
        invariant
            i <= k <= 96,
            p == pow2(i as nat),
        decreases k - i,
    {
        proof {
            lemma_pow2_unfold((i + 1) as nat);
            lemma_power_bound((i + 1) as nat);
        }
        p = 2 * p;
        i = i + 1;
    }
    proof {
        lemma_power_bound(k as nat);
        lemma_pow2_pos(k as nat);
    }
    p
}

proof fn lemma_power_bound(k: nat)
    requires
        k <= 96,
    ensures
        pow2(k) <= 0x1_0000_0000_0000_0000_0000_0000,
{
    vstd::arithmetic::power2::lemma2_to64();
    vstd::arithmetic::power2::lemma_pow2_adds(32, 64);
    if k < 96 {
        vstd::arithmetic::power2::lemma_pow2_strictly_increases(k, 96);
    }
    assert(0x1_0000_0000_0000_0000_0000_0000 == 0x1_0000_0000 * 0x1_0000_0000_0000_0000);
}


proof fn lemma_half_even_range(a: nat, b: nat)
    requires
        LOW <= a < HIGH,
        LOW <= b < HIGH,
    ensures
        a >= b ==> LOW <= half_even(a * LOW as nat, b) < HIGH,
        a < b ==> LOW <= half_even(a * HIGH as nat, b) < HIGH,
{
    let low = LOW as nat;
    let high = HIGH as nat;
    if a >= b {
        let num = a * low;
        assert(num >= low * b) by (nonlinear_arith)
            requires
                num == a * low,
                a >= b,
        ;
        assert(num <= (high - 1) * b) by (nonlinear_arith)
            requires
                num == a * low,
                a <= high - 1,
                b >= low,
        ;
        lemma_half_even_between(num, b, low, (high - 1) as nat);
    } else {
        let num = a * high;
        assert(num >= low * b) by (nonlinear_arith)
            requires
                num == a * high,
                a >= low,
                b < high,
        ;
        assert(num <= (high - 1) * b) by (nonlinear_arith)
            requires
                num == a * high,
                a <= b - 1,
                b <= high,
        ;
        lemma_half_even_between(num, b, low, (high - 1) as nat);
    }
}

proof fn lemma_half_even_between(num: nat, den: nat, low: nat, high: nat)
    requires
        den > 0,
        low * den <= num <= high * den,
    ensures
        low <= half_even(num, den) <= high,
{
    vstd::arithmetic::div_mod::lemma_fundamental_div_mod(num as int, den as int);
    let whole = num / den;
    let rest = num % den;
    assert(low <= whole) by (nonlinear_arith)
        requires
            num == den * whole + rest,
            rest < den,
            low * den <= num,
            den > 0,
    ;
    assert(whole <= high && (whole == high ==> rest == 0)) by (nonlinear_arith)
        requires
            num == den * whole + rest,
            0 <= rest < den,
            num <= high * den,
            den > 0,
    ;
}

impl Neg for Binary64 {
    type Output = Binary64;

    fn neg(self) -> (opposite: Binary64) {
        Binary64 { negative: !self.negative, mantissa: self.mantissa, exponent: self.exponent }
    }
}

impl NegSpecImpl for Binary64 {
    open spec fn obeys_neg_spec() -> bool {
        true
    }

    open spec fn neg_req(self) -> bool {
        true
    }

    open spec fn neg_spec(self) -> Binary64 {
        self.opposite()
    }
}

impl Div for Binary64 {
    type Output = Binary64;

    fn div(self, other: Binary64) -> (quotient: Binary64) {
        let negative = self.negative != other.negative;
        if self.mantissa == 0 {
            return Binary64 { negative, mantissa: 0, exponent: 0 };
        }
        proof {
            lemma_half_even_range(self.mantissa as nat, other.mantissa as nat);
        }
        let (factor, shift): (u64, i32) = if self.mantissa >= other.mantissa {
            (LOW, 52)
        } else {
            (HIGH, 53)
        };
        assert(self.mantissa * factor <= HIGH * HIGH) by (nonlinear_arith)
            requires
                self.mantissa < HIGH,
                factor <= HIGH,
        ;
        let whole: u128 = half_even_of(self.mantissa as u128 * factor as u128, other.mantissa as u128);
        Binary64 { negative, mantissa: whole as u64, exponent: self.exponent - other.exponent - shift }
    }
}

impl DivSpecImpl for Binary64 {
    open spec fn obeys_div_spec() -> bool {
        true
    }

    open spec fn div_req(self, other: Binary64) -> bool {
        self.wf() && other.wf() && other.mantissa > 0
    }

    open spec fn div_spec(self, other: Binary64) -> Binary64 {
        self.quotient(other)
    }
}

impl PartialEq for Binary64 {
    fn eq(&self, other: &Binary64) -> (same: bool) {
        match self.compare(other) {
            Ordering::Equal => true,
            _ => false,
        }
    }
}

impl PartialEqSpecImpl for Binary64 {
    open spec fn obeys_eq_spec() -> bool {
        true
    }

    open spec fn eq_spec(&self, other: &Binary64) -> bool {
        self.order(*other) == Ordering::Equal
    }
}

impl PartialOrd for Binary64 {
    fn partial_cmp(&self, other: &Binary64) -> (order: Option<Ordering>) {
        Some(self.compare(other))
    }
}

impl PartialOrdSpecImpl for Binary64 {
    open spec fn obeys_partial_cmp_spec() -> bool {
        true
    }

    open spec fn partial_cmp_spec(&self, other: &Binary64) -> Option<Ordering> {
        Some(self.order(*other))
    }
}

impl Amounts for Binary64 {
    fn num_1000() -> (number: Binary64)
        ensures
            number == Binary64::thousand(),
    {
        Binary64 { negative: false, mantissa: 0x1F_4000_0000_0000, exponent: -43 }
    }

    fn num_1024() -> (number: Binary64)
        ensures
            number == Binary64::kibi(),
    {
        Binary64 { negative: false, mantissa: 0x10_0000_0000_0000, exponent: -42 }
    }

    fn is_negative(self) -> (negative: bool)
        ensures
            negative == self.negative,
    {
        self.negative
    }
}

impl Binary64 {
    fn compare_size(&self, other: &Binary64) -> (order: Ordering)
        ensures
            order == self.size_order(*other),
    {
        if self.mantissa == 0 && other.mantissa == 0 {
            Ordering::Equal
        } else if self.mantissa == 0 {
            Ordering::Less
        } else if other.mantissa == 0 {
            Ordering::Greater
        } else if self.exponent < other.exponent {
            Ordering::Less
        } else if self.exponent > other.exponent {
            Ordering::Greater
        } else if self.mantissa < other.mantissa {
            Ordering::Less
        } else if self.mantissa > other.mantissa {
            Ordering::Greater
        } else {
            Ordering::Equal
        }
    }

    fn compare(&self, other: &Binary64) -> (order: Ordering)
        ensures
            order == self.order(*other),
    {
        if self.mantissa == 0 && other.mantissa == 0 {
            Ordering::Equal
        } else if self.negative && other.negative {
            other.compare_size(self)
        } else if self.negative {
            Ordering::Less
        } else if other.negative {
            Ordering::Greater
        } else {
            self.compare_size(other)
        }
    }

    /// The number nearest to a whole one.
    pub fn from_u64(n: u64) -> (number: Binary64)
        ensures
            number == Binary64::nearest(n as nat),
            number.wf(),
            -52 <= number.exponent <= 12,
            number.mantissa == 0 <==> n == 0,
    {
        if n == 0 {
            return Binary64 { negative: false, mantissa: 0, exponent: 0 };
        }
        proof {
            vstd::arithmetic::power2::lemma2_to64();
            vstd::arithmetic::power2::lemma2_to64_rest();
        }
        if n < HIGH {
            let mut mantissa: u64 = n;
            let mut k: i32 = 0;
            assert(n * pow2(0) == n) by (nonlinear_arith)
                requires
                    pow2(0) == 1,
            ;
            while mantissa < LOW
                invariant
                    0 < mantissa < HIGH,
                    0 <= k <= 52,
                    mantissa == n * pow2(k as nat),
                    mantissa >= pow2(k as nat),
                    pow2(52) == LOW,
                    missing_bits(n as nat) == k + missing_bits(mantissa as nat),
                decreases HIGH - mantissa,
            {
                proof {
                    lemma_pow2_unfold((k + 1) as nat);
                    assert(n * (2 * pow2(k as nat)) == 2 * (n * pow2(k as nat))) by (nonlinear_arith);
                    if k >= 52 {
                        assert(pow2(k as nat) == LOW);
                    }
                }
                mantissa = 2 * mantissa;
                k = k + 1;
            }
            return Binary64 { negative: false, mantissa, exponent: -k };
        }
        let mut k: u32 = 0;
        let mut p: u128 = 1;
        while n as u128 / p >= HIGH as u128
            invariant
                n >= HIGH,
                k <= 11,
                p == pow2(k as nat),
                1 <= p <= 0x800,
                (n as nat) / (p as nat) >= LOW,
                excess_bits(n as nat) == k + excess_bits((n as nat) / (p as nat)),
                pow2(11) == 0x800,
            decreases 12 - k,
        {
            proof {
                lemma_pow2_unfold((k + 1) as nat);
                vstd::arithmetic::div_mod::lemma_div_denominator(n as int, p as int, 2);
                assert(k < 11) by {
                    if k == 11 {
                        assert(n as u128 / 0x800 < HIGH);
                    }
                }
                lemma_power_small((k + 1) as nat);
            }
            p = p * 2;
            k = k + 1;
        }
        let mantissa: u128 = half_even_of(n as u128, p);
        proof {
            let w = n as nat / p as nat;
            assert(excess_bits(w) == 0);
            assert(LOW <= w < HIGH && mantissa <= HIGH);
        }
        if mantissa == HIGH as u128 {
            Binary64 { negative: false, mantissa: LOW, exponent: k as i32 + 1 }
        } else {
            Binary64 { negative: false, mantissa: mantissa as u64, exponent: k as i32 }
        }
    }
}

proof fn lemma_power_small(k: nat)
    requires
        k <= 11,
    ensures
        1 <= pow2(k) <= 0x800,
{
    vstd::arithmetic::power2::lemma2_to64();
    lemma_pow2_pos(k);
    if k < 11 {
        vstd::arithmetic::power2::lemma_pow2_strictly_increases(k, 11);
    }
}


impl Binary64 {
    /// The number as a text without a fraction.
    pub open spec fn whole_text(self) -> Seq<char> {
        let sign = if self.negative {
            seq!['-']
        } else {
            Seq::empty()
        };
        sign + decimal(self.times(1))
    }

    /// The number as a text with two places behind the point.
    pub open spec fn hundredths_text(self) -> Seq<char> {
        let sign = if self.negative {
            seq!['-']
        } else {
            Seq::empty()
        };
        sign + decimal(self.times(100) / 100).push('.') + two_digits(self.times(100) % 100)
    }

    /// Whether the number is small enough to be written out.
    pub open spec fn writable(self) -> bool {
        self.wf() && -60 <= self.exponent <= 12
    }

    fn times_of(&self, factor: u64) -> (n: u128)
        requires
            self.writable(),
            1 <= factor <= 100,
        ensures
            n == self.times(factor as nat),
    {
        assert(self.mantissa * factor <= HIGH * 100) by (nonlinear_arith)
            requires
                self.mantissa < HIGH,
                factor <= 100,
        ;
        let product: u128 = self.mantissa as u128 * factor as u128;
        if self.exponent >= 0 {
            let p = power(self.exponent as u32);
            proof {
                lemma_power_up_to_twelve(self.exponent as nat);
                assert(product * p <= HIGH * 100 * 0x1000) by (nonlinear_arith)
                    requires
                        product <= HIGH * 100,
                        p <= 0x1000,
                ;
            }
            product * p
        } else {
            half_even_of(product, power((-self.exponent) as u32))
        }
    }

    /// Writes the number without a fraction.
    pub(crate) fn push_whole(&self, text: &mut String)
        requires
            self.writable(),
        ensures
            final(text)@ == old(text)@ + self.whole_text(),
    {
        if self.negative {
            text.push('-');
        }
        push_decimal(text, self.times_of(1));
        assert(text@ =~= old(text)@ + self.whole_text());
    }

    /// Writes the number with two places behind the point.
    pub(crate) fn push_hundredths(&self, text: &mut String)
        requires
            self.writable(),
        ensures
            final(text)@ == old(text)@ + self.hundredths_text(),
    {
        if self.negative {
            text.push('-');
        }
        let n = self.times_of(100);
        push_decimal(text, n / 100);
        text.push('.');
        push_two_digits(text, (n % 100) as u64);
        assert(text@ =~= old(text)@ + self.hundredths_text());
    }
}

proof fn lemma_power_up_to_twelve(k: nat)
    requires
        k <= 12,
    ensures
        pow2(k) <= 0x1000,
{
    vstd::arithmetic::power2::lemma2_to64();
    if k < 12 {
        vstd::arithmetic::power2::lemma_pow2_strictly_increases(k, 12);
    }
}

/// Dividing by a thousand or by 1024 as long as the number is that large stays
/// among the numbers that can be divided and written.
pub(crate) proof fn lemma_scaled(number: Binary64, kilo: Binary64, most: nat)
    requires
        number.wf(),
        -52 <= number.exponent <= 12,
        kilo == Binary64::thousand() || kilo == Binary64::kibi(),
    ensures
        divisible(number, kilo, most),
        scaled(number, kilo, most).1.wf(),
        -52 <= scaled(number, kilo, most).1.exponent <= 12,
    decreases most,
{
    if most > 0 && at_least(number, kilo) {
        if number.mantissa > 0 {
            lemma_half_even_range(number.mantissa as nat, kilo.mantissa as nat);
        }
        lemma_scaled(number.quotient(kilo), kilo, (most - 1) as nat);
    }
}


proof fn lemma_missing_bits(n: nat)
    requires
        0 < n < HIGH,
    ensures
        LOW <= n * pow2(missing_bits(n)) < HIGH,
        missing_bits(n) <= 52,
    decreases HIGH - n,
{
    vstd::arithmetic::power2::lemma2_to64();
    vstd::arithmetic::power2::lemma2_to64_rest();
    if n >= LOW {
        assert(n * pow2(0) == n) by (nonlinear_arith)
            requires
                pow2(0) == 1,
        ;
    } else {
        lemma_missing_bits(2 * n);
        let k = missing_bits(2 * n);
        lemma_pow2_unfold(k + 1);
        assert(n * (2 * pow2(k)) == (2 * n) * pow2(k)) by (nonlinear_arith);
        if k + 1 > 52 {
            assert(pow2(52) == LOW);
            assert((2 * n) * LOW >= HIGH) by (nonlinear_arith)
                requires
                    n >= 1,
                    LOW * 2 == HIGH,
            ;
        }
    }
}

proof fn lemma_half_even_exact(n: nat, den: nat)
    requires
        den > 0,
    ensures
        half_even(n * den, den) == n,
{
    vstd::arithmetic::div_mod::lemma_div_multiples_vanish(n as int, den as int);
    vstd::arithmetic::div_mod::lemma_mod_multiples_basic(n as int, den as int);
    assert(n * den == den * n) by (nonlinear_arith);
}

/// A whole number of up to 53 bits is itself, and is written as itself.
pub proof fn law_small_numbers_are_exact(n: nat)
    requires
        n < HIGH,
    ensures
        Binary64::nearest(n).wf(),
        Binary64::nearest(n).times(1) == n,
        Binary64::nearest(n).whole_text() == decimal(n),
{
    let number = Binary64::nearest(n);
    if n == 0 {
        vstd::arithmetic::power2::lemma2_to64();
    } else {
        lemma_missing_bits(n);
        let k = missing_bits(n);
        lemma_pow2_pos(k);
        lemma_half_even_exact(n, pow2(k));
        if k == 0 {
            vstd::arithmetic::power2::lemma2_to64();
            assert(n * pow2(0) * pow2(0) == n) by (nonlinear_arith)
                requires
                    pow2(0) == 1,
            ;
        }
    }
    assert(number.whole_text() =~= decimal(n));
}

/// A number below a thousand, or below 1024, is not as large as that.
pub(crate) proof fn lemma_small_not_at_least(n: nat, kilo: Binary64)
    requires
        kilo == Binary64::thousand() && n < 1000 || kilo == Binary64::kibi() && n < 1024,
    ensures
        !at_least(Binary64::nearest(n), kilo),
{
    if n > 0 {
        lemma_missing_bits(n);
        let k = missing_bits(n);
        vstd::arithmetic::power2::lemma2_to64();
        vstd::arithmetic::power2::lemma2_to64_rest();
        if k <= 42 {
            if k < 42 {
                vstd::arithmetic::power2::lemma_pow2_strictly_increases(k, 42);
            }
            assert(n * pow2(k) <= 1023 * 0x400_0000_0000) by (nonlinear_arith)
                requires
                    n <= 1023,
                    pow2(k) <= 0x400_0000_0000,
            ;
        }
        if k == 43 {
            assert(n * pow2(43) < 1000 * 0x800_0000_0000 || kilo == Binary64::kibi()) by (nonlinear_arith)
                requires
                    n < 1000 || kilo == Binary64::kibi(),
                    pow2(43) == 0x800_0000_0000,
            ;
        }
    }
}


proof fn lemma_excess_bits(n: nat)
    requires
        HIGH <= n <= u64::MAX,
    ensures
        1 <= excess_bits(n) <= 11,
        LOW <= half_even(n, pow2(excess_bits(n))) <= HIGH,
{
    lemma_excess_quotient(n);
    let k = excess_bits(n);
    let p = pow2(k);
    lemma_pow2_pos(k);
    vstd::arithmetic::power2::lemma2_to64();
    vstd::arithmetic::div_mod::lemma_fundamental_div_mod(n as int, p as int);
    if k >= 12 {
        if k > 12 {
            vstd::arithmetic::power2::lemma_pow2_strictly_increases(12, k);
        }
        assert(n >= 0x1000 * LOW) by (nonlinear_arith)
            requires
                n == p * (n / p) + n % p,
                n % p >= 0,
                n / p >= LOW,
                p >= 0x1000,
        ;
    }
}

proof fn lemma_excess_quotient(n: nat)
    requires
        n >= HIGH,
    ensures
        excess_bits(n) >= 1,
        LOW <= n / pow2(excess_bits(n)) < HIGH,
    decreases n,
{
    vstd::arithmetic::power2::lemma2_to64();
    let half = n / 2;
    let k = excess_bits(half);
    lemma_pow2_unfold(k + 1);
    lemma_pow2_pos(k);
    vstd::arithmetic::div_mod::lemma_div_denominator(n as int, 2, pow2(k) as int);
    assert(n / (2 * pow2(k)) == half / pow2(k));
    if half >= HIGH {
        lemma_excess_quotient(half);
    } else {
        assert(half / pow2(0) == half);
    }
}

/// A number from a thousand on, or from 1024 on, is as large as that.
pub(crate) proof fn lemma_large_at_least(n: nat, kilo: Binary64)
    requires
        n <= u64::MAX,
        kilo == Binary64::thousand() && n >= 1000 || kilo == Binary64::kibi() && n >= 1024,
    ensures
        at_least(Binary64::nearest(n), kilo),
        Binary64::nearest(n).wf(),
        !Binary64::nearest(n).negative,
        -52 <= Binary64::nearest(n).exponent <= 12,
{
    vstd::arithmetic::power2::lemma2_to64();
    vstd::arithmetic::power2::lemma2_to64_rest();
    if n < HIGH {
        lemma_missing_bits(n);
        let k = missing_bits(n);
        if k >= 44 {
            if k > 44 {
                vstd::arithmetic::power2::lemma_pow2_strictly_increases(44, k);
            }
            assert(n * pow2(k) >= 1000 * 0x1000_0000_0000) by (nonlinear_arith)
                requires
                    n >= 1000,
                    pow2(k) >= 0x1000_0000_0000,
            ;
        }
        if k == 43 {
            assert(n * pow2(43) >= 1000 * 0x800_0000_0000) by (nonlinear_arith)
                requires
                    n >= 1000,
                    pow2(43) == 0x800_0000_0000,
            ;
            assert(n >= 1024 ==> n * pow2(43) >= 1024 * 0x800_0000_0000) by (nonlinear_arith)
                requires
                    pow2(43) == 0x800_0000_0000,
            ;
        }
    } else {
        lemma_excess_bits(n);
    }
}

/// Dividing a number that is not negative leaves it so, and is done `most` times at
/// most.
pub(crate) proof fn lemma_scaled_sign(number: Binary64, kilo: Binary64, most: nat)
    requires
        !number.negative,
        !kilo.negative,
    ensures
        !scaled(number, kilo, most).1.negative,
        scaled(number, kilo, most).0 <= most,
    decreases most,
{
    if most > 0 && at_least(number, kilo) {
        lemma_scaled_sign(number.quotient(kilo), kilo, (most - 1) as nat);
    }
}

/// A fraction is rounded to a whole number that is nearest to it, and to the even one
/// where two are as near.
pub proof fn law_nearest_whole(num: nat, den: nat)
    requires
        den > 0,
    ensures
        2 * num <= (2 * half_even(num, den) + 1) * den,
        (2 * half_even(num, den) - 1) * den <= 2 * num,
        2 * num == (2 * half_even(num, den) + 1) * den ==> half_even(num, den) % 2 == 0,
        (2 * half_even(num, den) - 1) * den == 2 * num ==> half_even(num, den) % 2 == 0,
{
    vstd::arithmetic::div_mod::lemma_fundamental_div_mod(num as int, den as int);
    let whole = num / den;
    let rest = num % den;
    assert((2 * whole + 1) * den == 2 * (den * whole) + den) by (nonlinear_arith);
    assert((2 * whole - 1) * den == 2 * (den * whole) - den) by (nonlinear_arith);
    assert((2 * (whole + 1) + 1) * den == 2 * (den * whole) + 3 * den) by (nonlinear_arith);
    assert((2 * (whole + 1) - 1) * den == 2 * (den * whole) + den) by (nonlinear_arith);
}

/// A number times a factor is written as the nearest whole number, and the even one where
/// two are as near.
pub proof fn law_written_is_nearest(number: Binary64, factor: nat)
    ensures
        number.exponent >= 0 ==> number.times(factor) == number.mantissa as nat * factor * pow2(number.exponent as nat),
        number.exponent < 0 ==> {
            let unit = pow2(-(number.exponent as int) as nat);
            let exact = number.mantissa as nat * factor;
            &&& 2 * exact <= (2 * number.times(factor) + 1) * unit
            &&& (2 * number.times(factor) - 1) * unit <= 2 * exact
            &&& 2 * exact == (2 * number.times(factor) + 1) * unit ==> number.times(factor) % 2 == 0
            &&& (2 * number.times(factor) - 1) * unit == 2 * exact ==> number.times(factor) % 2 == 0
        },
{
    if number.exponent < 0 {
        let unit = pow2(-(number.exponent as int) as nat);
        lemma_pow2_pos(-(number.exponent as int) as nat);
        law_nearest_whole(number.mantissa as nat * factor, unit);
    }
}

/// A quotient has 53 bits, and is off by half of its last bit at most; its sign is that of
/// a quotient.
pub proof fn law_quotient(a: Binary64, b: Binary64)
    requires
        a.wf(),
        b.wf(),
        a.mantissa > 0,
        b.mantissa > 0,
    ensures
        ({
            let q = a.quotient(b);
            let low = 0x10_0000_0000_0000nat;
            let shift = a.exponent - b.exponent - q.exponent;
            let scale = if shift == 52 { low } else { 2 * low };
            &&& shift == 52 || shift == 53
            &&& low <= q.mantissa < 2 * low
            &&& 2 * (a.mantissa * scale) <= (2 * q.mantissa + 1) * b.mantissa
            &&& (2 * q.mantissa - 1) * b.mantissa <= 2 * (a.mantissa * scale)
            &&& q.negative == (a.negative != b.negative)
        }),
{
    lemma_half_even_range(a.mantissa as nat, b.mantissa as nat);
    law_nearest_whole((a.mantissa * LOW) as nat, b.mantissa as nat);
    law_nearest_whole((a.mantissa * HIGH) as nat, b.mantissa as nat);
}

/// The numbers by which prefixes go are a thousand and 1024.
pub proof fn law_steps_of_prefixes(n: nat)
    ensures
        n == Binary64::thousand().mantissa ==> n == 1000 * pow2((-(Binary64::thousand().exponent as int)) as nat),
        n == Binary64::kibi().mantissa ==> n == 1024 * pow2((-(Binary64::kibi().exponent as int)) as nat),
        !Binary64::thousand().negative,
        !Binary64::kibi().negative,
{
    vstd::arithmetic::power2::lemma2_to64();
    vstd::arithmetic::power2::lemma2_to64_rest();
}

/// The order of numbers: a larger exponent, or the same and a larger mantissa, makes the
/// larger number of two that are not negative; any negative number is smaller than those,
/// and of two negative ones the order turns round.
pub proof fn law_order_of_numbers(a: Binary64, b: Binary64)
    requires
        a.mantissa > 0,
        b.mantissa > 0,
    ensures
        !a.negative && !b.negative && (a.exponent < b.exponent || (a.exponent == b.exponent && a.mantissa < b.mantissa))
            ==> a.order(b) == Ordering::Less && b.order(a) == Ordering::Greater,
        !a.negative && !b.negative && a.exponent == b.exponent && a.mantissa == b.mantissa ==> a.order(b)
            == Ordering::Equal,
        a.negative && !b.negative ==> a.order(b) == Ordering::Less && b.order(a) == Ordering::Greater,
        a.negative && b.negative ==> a.order(b) == b.opposite().order(a.opposite()),
{
}

/// A number is written with its sign, its whole part and two places behind a point, or
/// without a fraction.
pub proof fn law_number_texts(number: Binary64)
    ensures
        ({
            let sign = if number.negative { seq!['-'] } else { Seq::<char>::empty() };
            let hundredths = number.times(100);
            &&& number.whole_text() == sign + decimal(number.times(1))
            &&& number.hundredths_text() == sign + decimal(hundredths / 100) + seq!['.'] + two_digits(hundredths % 100)
        }),
{
    let sign = if number.negative { seq!['-'] } else { Seq::<char>::empty() };
    let hundredths = number.times(100);
    assert(number.hundredths_text() =~= sign + decimal(hundredths / 100) + seq!['.'] + two_digits(hundredths % 100));
}

} // verus!
