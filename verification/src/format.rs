//! Numbers, sizes and durations as people read them.

use crate::binary64::{
    law_small_numbers_are_exact, lemma_large_at_least, lemma_scaled, lemma_scaled_sign, lemma_small_not_at_least, Binary64,
};
use crate::text::{
    decimal, grouped, push_decimal, push_grouped, push_two_digits, two_digits, without_end_zeros,
};
use core::cmp::Ordering;
use core::ops::{Div, Neg};
use vstd::prelude::*;
use vstd::std_specs::cmp::PartialOrdSpec;
use vstd::std_specs::ops::{DivSpec, NegSpec};
use vstd::string::StringExecFns;

verus! {

/// A numeric prefix, either binary or decimal.
#[derive(PartialEq, Eq, Clone, Copy, Debug, Structural)]
pub enum Prefix {
    Kilo,
    Mega,
    Giga,
    Tera,
    Peta,
    Exa,
    Zetta,
    Yotta,
    Kibi,
    Mebi,
    Gibi,
    Tebi,
    Pebi,
    Exbi,
    Zebi,
    Yobi,
}

/// What becomes of a number once a prefix has been looked for.
#[derive(PartialEq, Eq, Clone, Debug)]
pub enum NumberPrefix<F> {
    /// The number is too small for a prefix.
    Standalone(F),
    /// The prefix, and the number that goes with it.
    Prefixed(Prefix, F),
}

/// Numbers that prefixes can be applied to.
pub trait Amounts: Copy + Sized + PartialOrd + Div<Output = Self> + Neg<Output = Self> {
    /// One thousand, for decimal prefixes.
    fn num_1000() -> Self;

    /// 1024, for binary prefixes.
    fn num_1024() -> Self;

    /// Whether this number is negative.
    fn is_negative(self) -> bool;
}

/// The name of a prefix in capitals.
pub open spec fn upper_name(prefix: Prefix) -> Seq<char> {
    match prefix {
        Prefix::Kilo => "KILO"@,
        Prefix::Mega => "MEGA"@,
        Prefix::Giga => "GIGA"@,
        Prefix::Tera => "TERA"@,
        Prefix::Peta => "PETA"@,
        Prefix::Exa => "EXA"@,
        Prefix::Zetta => "ZETTA"@,
        Prefix::Yotta => "YOTTA"@,
        Prefix::Kibi => "KIBI"@,
        Prefix::Mebi => "MEBI"@,
        Prefix::Gibi => "GIBI"@,
        Prefix::Tebi => "TEBI"@,
        Prefix::Pebi => "PEBI"@,
        Prefix::Exbi => "EXBI"@,
        Prefix::Zebi => "ZEBI"@,
        Prefix::Yobi => "YOBI"@,
    }
}

/// The name of a prefix with a capital first letter.
pub open spec fn caps_name(prefix: Prefix) -> Seq<char> {
    match prefix {
        Prefix::Kilo => "Kilo"@,
        Prefix::Mega => "Mega"@,
        Prefix::Giga => "Giga"@,
        Prefix::Tera => "Tera"@,
        Prefix::Peta => "Peta"@,
        Prefix::Exa => "Exa"@,
        Prefix::Zetta => "Zetta"@,
        Prefix::Yotta => "Yotta"@,
        Prefix::Kibi => "Kibi"@,
        Prefix::Mebi => "Mebi"@,
        Prefix::Gibi => "Gibi"@,
        Prefix::Tebi => "Tebi"@,
        Prefix::Pebi => "Pebi"@,
        Prefix::Exbi => "Exbi"@,
        Prefix::Zebi => "Zebi"@,
        Prefix::Yobi => "Yobi"@,
    }
}

/// The name of a prefix in small letters.
pub open spec fn lower_name(prefix: Prefix) -> Seq<char> {
    match prefix {
        Prefix::Kilo => "kilo"@,
        Prefix::Mega => "mega"@,
        Prefix::Giga => "giga"@,
        Prefix::Tera => "tera"@,
        Prefix::Peta => "peta"@,
        Prefix::Exa => "exa"@,
        Prefix::Zetta => "zetta"@,
        Prefix::Yotta => "yotta"@,
        Prefix::Kibi => "kibi"@,
        Prefix::Mebi => "mebi"@,
        Prefix::Gibi => "gibi"@,
        Prefix::Tebi => "tebi"@,
        Prefix::Pebi => "pebi"@,
        Prefix::Exbi => "exbi"@,
        Prefix::Zebi => "zebi"@,
        Prefix::Yobi => "yobi"@,
    }
}

/// The symbol of a prefix.
pub open spec fn symbol_of(prefix: Prefix) -> Seq<char> {
    match prefix {
        Prefix::Kilo => "k"@,
        Prefix::Mega => "M"@,
        Prefix::Giga => "G"@,
        Prefix::Tera => "T"@,
        Prefix::Peta => "P"@,
        Prefix::Exa => "E"@,
        Prefix::Zetta => "Z"@,
        Prefix::Yotta => "Y"@,
        Prefix::Kibi => "Ki"@,
        Prefix::Mebi => "Mi"@,
        Prefix::Gibi => "Gi"@,
        Prefix::Tebi => "Ti"@,
        Prefix::Pebi => "Pi"@,
        Prefix::Exbi => "Ei"@,
        Prefix::Zebi => "Zi"@,
        Prefix::Yobi => "Yi"@,
    }
}

impl Prefix {
    /// The symbol as a text.
    pub fn to_string(self) -> (text: String)
        ensures
            text@ == symbol_of(self),
    {
        String::from_str(self.symbol())
    }

    /// The name in capitals, such as `KILO`.
    pub fn upper(self) -> (name: &'static str)
        ensures
            name@ == upper_name(self),
    {
        match self {
            Prefix::Kilo => "KILO",
            Prefix::Mega => "MEGA",
            Prefix::Giga => "GIGA",
            Prefix::Tera => "TERA",
            Prefix::Peta => "PETA",
            Prefix::Exa => "EXA",
            Prefix::Zetta => "ZETTA",
            Prefix::Yotta => "YOTTA",
            Prefix::Kibi => "KIBI",
            Prefix::Mebi => "MEBI",
            Prefix::Gibi => "GIBI",
            Prefix::Tebi => "TEBI",
            Prefix::Pebi => "PEBI",
            Prefix::Exbi => "EXBI",
            Prefix::Zebi => "ZEBI",
            Prefix::Yobi => "YOBI",
        }
    }

    /// The name with a capital first letter, such as `Mega`.
    pub fn caps(self) -> (name: &'static str)
        ensures
            name@ == caps_name(self),
    {
        match self {
            Prefix::Kilo => "Kilo",
            Prefix::Mega => "Mega",
            Prefix::Giga => "Giga",
            Prefix::Tera => "Tera",
            Prefix::Peta => "Peta",
            Prefix::Exa => "Exa",
            Prefix::Zetta => "Zetta",
            Prefix::Yotta => "Yotta",
            Prefix::Kibi => "Kibi",
            Prefix::Mebi => "Mebi",
            Prefix::Gibi => "Gibi",
            Prefix::Tebi => "Tebi",
            Prefix::Pebi => "Pebi",
            Prefix::Exbi => "Exbi",
            Prefix::Zebi => "Zebi",
            Prefix::Yobi => "Yobi",
        }
    }

    /// The name in small letters, such as `giga`.
    pub fn lower(self) -> (name: &'static str)
        ensures
            name@ == lower_name(self),
    {
        match self {
            Prefix::Kilo => "kilo",
            Prefix::Mega => "mega",
            Prefix::Giga => "giga",
            Prefix::Tera => "tera",
            Prefix::Peta => "peta",
            Prefix::Exa => "exa",
            Prefix::Zetta => "zetta",
            Prefix::Yotta => "yotta",
            Prefix::Kibi => "kibi",
            Prefix::Mebi => "mebi",
            Prefix::Gibi => "gibi",
            Prefix::Tebi => "tebi",
            Prefix::Pebi => "pebi",
            Prefix::Exbi => "exbi",
            Prefix::Zebi => "zebi",
            Prefix::Yobi => "yobi",
        }
    }

    /// The symbol, such as `T` for tera.
    pub fn symbol(self) -> (name: &'static str)
        ensures
            name@ == symbol_of(self),
    {
        match self {
            Prefix::Kilo => "k",
            Prefix::Mega => "M",
            Prefix::Giga => "G",
            Prefix::Tera => "T",
            Prefix::Peta => "P",
            Prefix::Exa => "E",
            Prefix::Zetta => "Z",
            Prefix::Yotta => "Y",
            Prefix::Kibi => "Ki",
            Prefix::Mebi => "Mi",
            Prefix::Gibi => "Gi",
            Prefix::Tebi => "Ti",
            Prefix::Pebi => "Pi",
            Prefix::Exbi => "Ei",
            Prefix::Zebi => "Zi",
            Prefix::Yobi => "Yi",
        }
    }
}

/// Whether the operators of a type do what their specifications say.
pub open spec fn lawful<F: Amounts>() -> bool {
    F::obeys_div_spec() && F::obeys_neg_spec() && F::obeys_partial_cmp_spec()
}

/// Whether one number is at least as large as another.
pub open spec fn at_least<F: Amounts>(a: F, b: F) -> bool {
    a.partial_cmp_spec(&b) matches Some(Ordering::Greater | Ordering::Equal)
}

/// How often a number can be divided by `kilo` before it is smaller than `kilo`,
/// `most` times at most, and what is left of it.
pub open spec fn scaled<F: Amounts>(amount: F, kilo: F, most: nat) -> (nat, F)
    decreases most,
{
    if most == 0 || !at_least(amount, kilo) {
        (0, amount)
    } else {
        let (steps, rest) = scaled(amount.div_spec(kilo), kilo, (most - 1) as nat);
        (steps + 1, rest)
    }
}

/// Whether each division that takes place is one that the type allows.
pub open spec fn divisible<F: Amounts>(amount: F, kilo: F, most: nat) -> bool
    decreases most,
{
    most > 0 && at_least(amount, kilo) ==> amount.div_req(kilo) && divisible(
        amount.div_spec(kilo),
        kilo,
        (most - 1) as nat,
    )
}

/// The number without its sign.
pub open spec fn magnitude<F: Amounts>(amount: F, negative: bool) -> F {
    if negative {
        amount.neg_spec()
    } else {
        amount
    }
}

/// The number with the largest of eight prefixes that it is large enough for.
pub open spec fn prefixed<F: Amounts>(amount: F, negative: bool, kilo: F, prefixes: Seq<Prefix>) -> NumberPrefix<F> {
    let (steps, rest) = scaled(magnitude(amount, negative), kilo, 8);
    let signed = if negative {
        rest.neg_spec()
    } else {
        rest
    };
    if steps == 0 {
        NumberPrefix::Standalone(signed)
    } else {
        NumberPrefix::Prefixed(prefixes[steps - 1], signed)
    }
}

/// Whether every operation that the search for a prefix makes is one that the type
/// allows.
pub open spec fn can_prefix<F: Amounts>(amount: F, kilo: F) -> bool {
    &&& lawful::<F>()
    &&& call_requires(F::is_negative, (amount,))
    &&& forall|number: F| #[trigger] number.neg_req()
    &&& forall|negative: bool| divisible(#[trigger] magnitude(amount, negative), kilo, 8)
}

/// The decimal prefixes, smallest first.
pub open spec fn decimal_prefixes() -> Seq<Prefix> {
    seq![
        Prefix::Kilo,
        Prefix::Mega,
        Prefix::Giga,
        Prefix::Tera,
        Prefix::Peta,
        Prefix::Exa,
        Prefix::Zetta,
        Prefix::Yotta,
    ]
}

/// The binary prefixes, smallest first.
pub open spec fn binary_prefixes() -> Seq<Prefix> {
    seq![
        Prefix::Kibi,
        Prefix::Mebi,
        Prefix::Gibi,
        Prefix::Tebi,
        Prefix::Pebi,
        Prefix::Exbi,
        Prefix::Zebi,
        Prefix::Yobi,
    ]
}

impl<F: Amounts> NumberPrefix<F> {
    /// The number with a decimal prefix.
    pub fn decimal(amount: F) -> (result: Self)
        requires
            call_requires(F::num_1000, ()),
            forall|kilo: F| call_ensures(F::num_1000, (), kilo) ==> #[trigger] can_prefix(amount, kilo),
        ensures
            exists|negative: bool, kilo: F|
                {
                    &&& call_ensures(F::is_negative, (amount,), negative)
                    &&& call_ensures(F::num_1000, (), kilo)
                    &&& result == #[trigger] prefixed(amount, negative, kilo, decimal_prefixes())
                },
    {
        let prefixes = [
            Prefix::Kilo,
            Prefix::Mega,
            Prefix::Giga,
            Prefix::Tera,
            Prefix::Peta,
            Prefix::Exa,
            Prefix::Zetta,
            Prefix::Yotta,
        ];
        assert(prefixes@ =~= decimal_prefixes());
        let kilo = F::num_1000();
        assert(can_prefix(amount, kilo));
        Self::format_number(amount, kilo, prefixes)
    }

    /// The number with a binary prefix.
    pub fn binary(amount: F) -> (result: Self)
        requires
            call_requires(F::num_1024, ()),
            forall|kilo: F| call_ensures(F::num_1024, (), kilo) ==> #[trigger] can_prefix(amount, kilo),
        ensures
            exists|negative: bool, kilo: F|
                {
                    &&& call_ensures(F::is_negative, (amount,), negative)
                    &&& call_ensures(F::num_1024, (), kilo)
                    &&& result == #[trigger] prefixed(amount, negative, kilo, binary_prefixes())
                },
    {
        let prefixes = [
            Prefix::Kibi,
            Prefix::Mebi,
            Prefix::Gibi,
            Prefix::Tebi,
            Prefix::Pebi,
            Prefix::Exbi,
            Prefix::Zebi,
            Prefix::Yobi,
        ];
        assert(prefixes@ =~= binary_prefixes());
        let kilo = F::num_1024();
        assert(can_prefix(amount, kilo));
        Self::format_number(amount, kilo, prefixes)
    }

    fn format_number(amount: F, kilo: F, prefixes: [Prefix; 8]) -> (result: Self)
        requires
            can_prefix(amount, kilo),
        ensures
            exists|negative: bool|
                call_ensures(F::is_negative, (amount,), negative) && result == #[trigger] prefixed(
                    amount,
                    negative,
                    kilo,
                    prefixes@,
                ),
    {
        let was_negative = amount.is_negative();
        let mut rest = amount;
        if was_negative {
            rest = amount.neg();
        }
        assert(rest == magnitude(amount, was_negative));
        let ghost start = rest;
        let mut prefix: usize = 0;
        while prefix < 8 && rest >= kilo
            invariant
                prefix <= 8,
                lawful::<F>(),
                divisible(rest, kilo, (8 - prefix) as nat),
                scaled(start, kilo, 8) == ({
                    let (steps, left) = scaled(rest, kilo, (8 - prefix) as nat);
                    ((steps + prefix) as nat, left)
                }),
            decreases 8 - prefix,
        {
            rest = rest / kilo;
            prefix = prefix + 1;
        }
        assert(scaled(start, kilo, 8) == (prefix as nat, rest));
        if was_negative {
            rest = rest.neg();
        }
        let result = if prefix == 0 {
            NumberPrefix::Standalone(rest)
        } else {
            NumberPrefix::Prefixed(prefixes[prefix - 1], rest)
        };
        assert(result == prefixed(amount, was_negative, kilo, prefixes@));
        result
    }
}


/// A length of time: whole seconds, and the nanoseconds of the second begun.
#[derive(Clone, Copy, Debug)]
pub struct Span {
    secs: u64,
    nanos: u32,
}

impl Span {
    /// The whole seconds.
    pub closed spec fn secs(self) -> nat {
        self.secs as nat
    }

    /// The length in nanoseconds.
    pub closed spec fn total(self) -> nat {
        (self.secs * 1_000_000_000 + self.nanos) as nat
    }

    /// A length of `secs` seconds and `nanos` nanoseconds; those that make up whole
    /// seconds carry over.
    pub fn new(secs: u64, nanos: u32) -> (span: Span)
        requires
            secs + nanos / 1_000_000_000 <= u64::MAX,
        ensures
            span.total() == secs * 1_000_000_000 + nanos,
            span.secs() == span.total() / 1_000_000_000,
    {
        Span { secs: secs + (nanos / 1_000_000_000) as u64, nanos: nanos % 1_000_000_000 }
    }
}

/// A unit that lengths of time are rounded to.
#[derive(Clone, Copy, Debug, PartialEq, Eq, Structural)]
pub enum Unit {
    Year,
    Week,
    Day,
    Hour,
    Minute,
    Second,
}

/// The length of a unit in seconds.
pub open spec fn unit_secs(unit: Unit) -> nat {
    match unit {
        Unit::Year => 31536000,
        Unit::Week => 604800,
        Unit::Day => 86400,
        Unit::Hour => 3600,
        Unit::Minute => 60,
        Unit::Second => 1,
    }
}

/// The name of one unit.
pub open spec fn unit_name(unit: Unit) -> Seq<char> {
    match unit {
        Unit::Year => "year"@,
        Unit::Week => "week"@,
        Unit::Day => "day"@,
        Unit::Hour => "hour"@,
        Unit::Minute => "minute"@,
        Unit::Second => "second"@,
    }
}

/// The letter of a unit.
pub open spec fn unit_letter(unit: Unit) -> Seq<char> {
    match unit {
        Unit::Year => "y"@,
        Unit::Week => "w"@,
        Unit::Day => "d"@,
        Unit::Hour => "h"@,
        Unit::Minute => "m"@,
        Unit::Second => "s"@,
    }
}

/// The unit below; there is none below seconds.
pub open spec fn smaller(unit: Unit) -> Option<Unit> {
    match unit {
        Unit::Year => Some(Unit::Week),
        Unit::Week => Some(Unit::Day),
        Unit::Day => Some(Unit::Hour),
        Unit::Hour => Some(Unit::Minute),
        Unit::Minute => Some(Unit::Second),
        Unit::Second => None,
    }
}

impl Unit {
    fn secs(self) -> (secs: u64)
        ensures
            secs == unit_secs(self),
            1 <= secs <= 31536000,
    {
        match self {
            Unit::Year => 31536000,
            Unit::Week => 604800,
            Unit::Day => 86400,
            Unit::Hour => 3600,
            Unit::Minute => 60,
            Unit::Second => 1,
        }
    }

    fn name(self) -> (name: &'static str)
        ensures
            name@ == unit_name(self),
    {
        match self {
            Unit::Year => "year",
            Unit::Week => "week",
            Unit::Day => "day",
            Unit::Hour => "hour",
            Unit::Minute => "minute",
            Unit::Second => "second",
        }
    }

    fn letter(self) -> (letter: &'static str)
        ensures
            letter@ == unit_letter(self),
    {
        match self {
            Unit::Year => "y",
            Unit::Week => "w",
            Unit::Day => "d",
            Unit::Hour => "h",
            Unit::Minute => "m",
            Unit::Second => "s",
        }
    }

    fn smaller(self) -> (unit: Option<Unit>)
        ensures
            unit == smaller(self),
    {
        match self {
            Unit::Year => Some(Unit::Week),
            Unit::Week => Some(Unit::Day),
            Unit::Day => Some(Unit::Hour),
            Unit::Hour => Some(Unit::Minute),
            Unit::Minute => Some(Unit::Second),
            Unit::Second => None,
        }
    }
}

/// The length of a unit in nanoseconds.
pub open spec fn unit_nanos(unit: Unit) -> nat {
    unit_secs(unit) * 1_000_000_000
}

/// The unit, `unit` or one below it, that a length of `total` nanoseconds is shown
/// in: the first that the length is at least one and a half of, less half of the
/// unit below.
pub open spec fn shown_unit(total: nat, unit: Unit) -> Unit
    decreases unit_secs(unit),
{
    match smaller(unit) {
        None => unit,
        Some(next) => if 2 * total + unit_nanos(next) >= 3 * unit_nanos(unit) {
            unit
        } else {
            shown_unit(total, next)
        },
    }
}

/// How many of a unit are nearest to a length; halves are rounded up.
pub open spec fn nearest(total: nat, unit: Unit) -> nat {
    (2 * total + unit_nanos(unit)) / (2 * unit_nanos(unit))
}

/// How many of its unit a length is shown as: one is shown of seconds only.
pub open spec fn shown_count(total: nat) -> nat {
    let unit = shown_unit(total, Unit::Year);
    let count = nearest(total, unit);
    if unit != Unit::Second && count < 2 {
        2
    } else {
        count
    }
}

/// A count of two or more goes up exactly half way between two counts.
pub proof fn law_rounds_half_way(total: nat, n: nat)
    requires
        n >= 2,
    ensures
        ({
            let unit = unit_nanos(shown_unit(total, Unit::Year));
            shown_count(total) > n <==> 2 * total >= (2 * n + 1) * unit
        }),
{
    let unit = unit_nanos(shown_unit(total, Unit::Year));
    let num = 2 * total + unit;
    let den = 2 * unit;
    vstd::arithmetic::div_mod::lemma_fundamental_div_mod(num as int, den as int);
    let count = num / den;
    let rest = num % den;
    assert(count >= n + 1 <==> num >= (n + 1) * den) by (nonlinear_arith)
        requires
            num == den * count + rest,
            0 <= rest < den,
    ;
    assert((n + 1) * den == (2 * n + 1) * unit + unit) by (nonlinear_arith)
        requires
            den == 2 * unit,
    ;
}

/// A length is shown in a unit, or a larger one, exactly from one and a half of that
/// unit less half of the unit below on.
pub proof fn law_unit_changes(total: nat, unit: Unit, next: Unit)
    requires
        smaller(unit) == Some(next),
    ensures
        unit_secs(shown_unit(total, Unit::Year)) >= unit_secs(unit) <==> 2 * total + unit_nanos(next) >= 3 * unit_nanos(
            unit,
        ),
{
    reveal_with_fuel(shown_unit, 7);
}

/// A length of time in words, as in `2 hours`.
pub open spec fn human_duration(total: nat) -> Seq<char> {
    let name = unit_name(shown_unit(total, Unit::Year));
    let count = shown_count(total);
    let words = decimal(count).push(' ') + name;
    if count == 1 {
        words
    } else {
        words.push('s')
    }
}

/// A length of time in short, as in `2h`.
pub open spec fn human_duration_short(total: nat) -> Seq<char> {
    decimal(shown_count(total)) + unit_letter(shown_unit(total, Unit::Year))
}

/// Shows a length of time in one unit, rounded.
#[derive(Debug)]
pub struct HumanDuration(pub Span);

impl HumanDuration {
    fn unit_and_count(&self) -> (shown: (Unit, u128))
        ensures
            shown.0 == shown_unit(self.0.total(), Unit::Year),
            shown.1 == shown_count(self.0.total()),
    {
        let total: u128 = self.0.secs as u128 * 1_000_000_000 + self.0.nanos as u128;
        let mut unit = Unit::Year;
        loop
            invariant
                shown_unit(total as nat, unit) == shown_unit(total as nat, Unit::Year),
                total <= u64::MAX * 1_000_000_000 + u32::MAX,
            ensures
                unit == shown_unit(total as nat, Unit::Year),
            decreases unit_secs(unit),
        {
            let cur: u128 = unit.secs() as u128 * 1_000_000_000;
            match unit.smaller() {
                None => {
                    break;
                },
                Some(next) => {
                    let below: u128 = next.secs() as u128 * 1_000_000_000;
                    if 2 * total + below >= 3 * cur {
                        break;
                    }
                    unit = next;
                },
            }
        }
        let nanos: u128 = unit.secs() as u128 * 1_000_000_000;
        let count: u128 = (2 * total + nanos) / (2 * nanos);
        if unit != Unit::Second && count < 2 {
            (unit, 2)
        } else {
            (unit, count)
        }
    }

    /// The length in words.
    pub fn to_string(&self) -> (text: String)
        ensures
            text@ == human_duration(self.0.total()),
    {
        let (unit, count) = self.unit_and_count();
        let mut text = String::new();
        push_decimal(&mut text, count);
        text.push(' ');
        text.append(unit.name());
        assert(text@ =~= decimal(count as nat).push(' ') + unit_name(unit));
        if count != 1 {
            text.push('s');
        }
        text
    }

    /// The length in short.
    pub fn to_short_string(&self) -> (text: String)
        ensures
            text@ == human_duration_short(self.0.total()),
    {
        let (unit, count) = self.unit_and_count();
        let mut text = String::new();
        push_decimal(&mut text, count);
        text.append(unit.letter());
        assert(text@ =~= human_duration_short(self.0.total()));
        text
    }
}

/// Seconds as a clock shows them, with the days before them where there are any.
pub open spec fn clock(secs: nat) -> Seq<char> {
    let days = secs / 86400;
    let time = two_digits(secs / 3600 % 24).push(':') + two_digits(secs / 60 % 60).push(':') + two_digits(secs % 60);
    if days > 0 {
        decimal(days).push('d').push(' ') + time
    } else {
        time
    }
}

/// Shows a length of time as a clock does.
#[derive(Debug)]
pub struct FormattedDuration(pub Span);

impl FormattedDuration {
    /// The length as a clock shows it.
    pub fn to_string(&self) -> (text: String)
        ensures
            text@ == clock(self.0.secs()),
    {
        let t: u64 = self.0.secs;
        let seconds: u64 = t % 60;
        let minutes: u64 = t / 60 % 60;
        let hours: u64 = t / 60 / 60 % 24;
        let days: u64 = t / 60 / 60 / 24;
        assert(days == t / 86400 && t / 60 / 60 == t / 3600);
        let mut text = String::new();
        if days > 0 {
            push_decimal(&mut text, days as u128);
            text.push('d');
            text.push(' ');
        }
        let ghost lead = text@;
        push_two_digits(&mut text, hours);
        text.push(':');
        push_two_digits(&mut text, minutes);
        text.push(':');
        push_two_digits(&mut text, seconds);
        assert(text@ =~= lead + (two_digits(hours as nat).push(':') + two_digits(minutes as nat).push(':')
            + two_digits(seconds as nat)));
        assert(text@ =~= clock(t as nat));
        text
    }
}

/// Shows a count with commas between groups of three digits.
#[derive(Debug)]
pub struct HumanCount(pub u64);

impl HumanCount {
    /// The count with commas.
    pub fn to_string(&self) -> (text: String)
        ensures
            text@ == grouped(decimal(self.0 as nat)),
    {
        let mut num = String::new();
        push_decimal(&mut num, self.0 as u128);
        assert(num@ =~= decimal(self.0 as nat));
        let mut text = String::new();
        push_grouped(&mut text, num.as_str());
        assert(text@ =~= grouped(decimal(self.0 as nat)));
        text
    }
}

/// The position of the first point in a text, or its length where it has none.
pub open spec fn point_position(text: Seq<char>) -> int
    decreases text.len(),
{
    if text.len() == 0 || text[0] == '.' {
        0
    } else {
        1 + point_position(text.drop_first())
    }
}

/// A rendered number with commas in its whole part and without zeros at its end.
/// Where it was rendered without a point, `whole` is its whole part.
pub open spec fn human_float(rendered: Seq<char>, whole: Seq<char>) -> Seq<char> {
    let point = point_position(rendered);
    if point == rendered.len() {
        grouped(whole)
    } else {
        let digits = without_end_zeros(rendered.skip(point + 1));
        let lead = grouped(rendered.take(point));
        if digits.len() == 0 {
            lead
        } else {
            lead.push('.') + digits
        }
    }
}

/// Shows a number that may have a fraction with commas between groups of three
/// digits: the number as it was rendered, and its whole part.
#[derive(Debug)]
pub struct HumanFloatCount {
    pub rendered: String,
    pub whole: String,
}

proof fn lemma_point(text: Seq<char>, at: int)
    requires
        0 <= at <= text.len(),
        forall|j: int| 0 <= j < at ==> text[j] != '.',
        at < text.len() ==> text[at] == '.',
    ensures
        point_position(text) == at,
    decreases text.len(),
{
    if at > 0 {
        assert forall|j: int| 0 <= j < at - 1 implies text.drop_first()[j] != '.' by {
            assert(text[j + 1] != '.');
        }
        lemma_point(text.drop_first(), at - 1);
    }
}

proof fn lemma_end_zeros(text: Seq<char>, end: int)
    requires
        0 <= end <= text.len(),
        forall|j: int| end <= j < text.len() ==> text[j] == '0',
        end > 0 ==> text[end - 1] != '0',
    ensures
        without_end_zeros(text) == text.take(end),
    decreases text.len(),
{
    if end == text.len() {
        assert(text.take(end) =~= text);
    } else {
        lemma_end_zeros(text.drop_last(), end);
        assert(text.drop_last().take(end) =~= text.take(end));
    }
}

impl HumanFloatCount {
    /// The number with commas.
    pub fn to_string(&self) -> (text: String)
        ensures
            text@ == human_float(self.rendered@, self.whole@),
    {
        let rendered = self.rendered.as_str();
        let n = rendered.unicode_len();
        let mut point: usize = 0;
        while point < n && rendered.get_char(point) != '.'
            invariant
                point <= n,
                n == rendered@.len(),
                forall|j: int| 0 <= j < point ==> rendered@[j] != '.',
            decreases n - point,
        {
            point = point + 1;
        }
        proof {
            lemma_point(rendered@, point as int);
        }
        let mut text = String::new();
        if point == n {
            push_grouped(&mut text, self.whole.as_str());
            assert(text@ =~= grouped(self.whole@));
            return text;
        }
        push_grouped(&mut text, rendered.substring_char(0, point));
        assert(rendered@.subrange(0, point as int) =~= rendered@.take(point as int));
        assert(text@ =~= grouped(rendered@.take(point as int)));
        let mut end: usize = n;
        let ghost digits = rendered@.skip(point + 1);
        while end > point + 1 && rendered.get_char(end - 1) == '0'
            invariant
                point < n,
                point + 1 <= end <= n,
                n == rendered@.len(),
                forall|j: int| end <= j < n ==> rendered@[j] == '0',
            decreases end,
        {
            end = end - 1;
        }
        proof {
            lemma_end_zeros(digits, end - (point + 1));
        }
        if end > point + 1 {
            text.push('.');
            text.append(rendered.substring_char(point + 1, end));
            assert(rendered@.subrange(point + 1, end as int) =~= digits.take(end - (point + 1)));
        }
        assert(text@ =~= human_float(self.rendered@, self.whole@));
        text
    }
}


/// A number of bytes with its prefix.
pub open spec fn bytes_text(amount: NumberPrefix<Binary64>) -> Seq<char> {
    match amount {
        NumberPrefix::Standalone(number) => number.whole_text() + seq![' ', 'B'],
        NumberPrefix::Prefixed(prefix, number) => number.hundredths_text().push(' ') + symbol_of(prefix) + seq!['B'],
    }
}

/// A number of bytes with a binary prefix.
pub open spec fn binary_bytes(n: nat) -> Seq<char> {
    bytes_text(prefixed(Binary64::nearest(n), false, Binary64::kibi(), binary_prefixes()))
}

/// A number of bytes with a decimal prefix.
pub open spec fn decimal_bytes(n: nat) -> Seq<char> {
    bytes_text(prefixed(Binary64::nearest(n), false, Binary64::thousand(), decimal_prefixes()))
}

/// Small numbers of bytes are written out.
pub proof fn law_small_byte_counts(n: nat)
    ensures
        n < 1000 ==> decimal_bytes(n) == decimal(n) + seq![' ', 'B'],
        n < 1024 ==> binary_bytes(n) == decimal(n) + seq![' ', 'B'],
{
    if n < 1000 {
        lemma_small_not_at_least(n, Binary64::thousand());
        law_small_numbers_are_exact(n);
    }
    if n < 1024 {
        lemma_small_not_at_least(n, Binary64::kibi());
        law_small_numbers_are_exact(n);
    }
}

/// Whether a text is a number with two decimals, a space, the symbol of one of some
/// prefixes, and `B`.
pub open spec fn is_prefixed_text(text: Seq<char>, prefixes: Seq<Prefix>) -> bool {
    exists|i: int, hundredths: nat|
        0 <= i < prefixes.len() && text == #[trigger] prefixed_text(hundredths, prefixes[i])
}

/// A number of hundredths with two decimals, and the symbol of a prefix before `B`.
pub open spec fn prefixed_text(hundredths: nat, prefix: Prefix) -> Seq<char> {
    decimal(hundredths / 100).push('.') + two_digits(hundredths % 100) + seq![' '] + symbol_of(prefix) + seq!['B']
}

proof fn lemma_prefixed_text(n: nat, kilo: Binary64, prefixes: Seq<Prefix>)
    requires
        n <= u64::MAX,
        kilo == Binary64::thousand() && n >= 1000 || kilo == Binary64::kibi() && n >= 1024,
        prefixes.len() == 8,
    ensures
        is_prefixed_text(bytes_text(prefixed(Binary64::nearest(n), false, kilo, prefixes)), prefixes),
        prefixed(Binary64::nearest(n), false, kilo, prefixes) is Prefixed,
{
    let number = Binary64::nearest(n);
    lemma_large_at_least(n, kilo);
    lemma_scaled_sign(number, kilo, 8);
    let (steps, rest) = scaled(number, kilo, 8);
    assert(magnitude(number, false) == number);
    assert(steps >= 1);
    let prefix = prefixes[steps - 1];
    let hundredths = rest.times(100);
    let text = bytes_text(prefixed(number, false, kilo, prefixes));
    assert(rest.hundredths_text() =~= decimal(hundredths / 100).push('.') + two_digits(hundredths % 100));
    assert(text =~= prefixed_text(hundredths, prefix));
}

/// A number of bytes is written out whole exactly below 1024, or below a thousand; from
/// there on it has two decimals and the symbol of a prefix.
pub proof fn law_large_byte_counts(n: u64)
    ensures
        n >= 1024 ==> is_prefixed_text(binary_bytes(n as nat), binary_prefixes()),
        n >= 1000 ==> is_prefixed_text(decimal_bytes(n as nat), decimal_prefixes()),
        prefixed(Binary64::nearest(n as nat), false, Binary64::kibi(), binary_prefixes()) is Standalone <==> n < 1024,
        prefixed(Binary64::nearest(n as nat), false, Binary64::thousand(), decimal_prefixes()) is Standalone <==> n
            < 1000,
{
    if n >= 1024 {
        lemma_prefixed_text(n as nat, Binary64::kibi(), binary_prefixes());
    } else {
        lemma_small_not_at_least(n as nat, Binary64::kibi());
    }
    if n >= 1000 {
        lemma_prefixed_text(n as nat, Binary64::thousand(), decimal_prefixes());
    } else {
        lemma_small_not_at_least(n as nat, Binary64::thousand());
    }
}

fn write_bytes(amount: NumberPrefix<Binary64>) -> (text: String)
    requires
        match amount {
            NumberPrefix::Standalone(number) => number.writable(),
            NumberPrefix::Prefixed(prefix, number) => number.writable(),
        },
    ensures
        text@ == bytes_text(amount),
{
    let mut text = String::new();
    match amount {
        NumberPrefix::Standalone(number) => {
            number.push_whole(&mut text);
            text.push(' ');
            text.push('B');
        },
        NumberPrefix::Prefixed(prefix, number) => {
            number.push_hundredths(&mut text);
            text.push(' ');
            text.append(prefix.symbol());
            text.push('B');
        },
    }
    assert(text@ =~= bytes_text(amount));
    text
}

fn binary_text(n: u64) -> (text: String)
    ensures
        text@ == binary_bytes(n as nat),
{
    let number = Binary64::from_u64(n);
    proof {
        lemma_can_prefix(number, Binary64::kibi());
    }
    write_bytes(NumberPrefix::binary(number))
}

proof fn lemma_can_prefix(number: Binary64, kilo: Binary64)
    requires
        number.wf(),
        -52 <= number.exponent <= 12,
        !number.negative,
        kilo == Binary64::thousand() || kilo == Binary64::kibi(),
    ensures
        can_prefix(number, kilo),
        scaled(number, kilo, 8).1.writable(),
{
    lemma_scaled(number, kilo, 8);
    lemma_scaled(number.opposite(), kilo, 8);
    assert forall|negative: bool| divisible(#[trigger] magnitude(number, negative), kilo, 8) by {
        assert(magnitude(number, negative) == number || magnitude(number, negative) == number.opposite());
    }
}

/// Shows a number of bytes with a binary prefix.
#[derive(Debug)]
pub struct HumanBytes(pub u64);

impl HumanBytes {
    /// The number of bytes with a binary prefix.
    pub fn to_string(&self) -> (text: String)
        ensures
            text@ == binary_bytes(self.0 as nat),
    {
        binary_text(self.0)
    }
}

/// Shows a number of bytes with a binary prefix.
#[derive(Debug)]
pub struct BinaryBytes(pub u64);

impl BinaryBytes {
    /// The number of bytes with a binary prefix.
    pub fn to_string(&self) -> (text: String)
        ensures
            text@ == binary_bytes(self.0 as nat),
    {
        binary_text(self.0)
    }
}

/// Shows a number of bytes with a decimal prefix.
#[derive(Debug)]
pub struct DecimalBytes(pub u64);

impl DecimalBytes {
    /// The number of bytes with a decimal prefix.
    pub fn to_string(&self) -> (text: String)
        ensures
            text@ == decimal_bytes(self.0 as nat),
    {
        let number = Binary64::from_u64(self.0);
        proof {
            lemma_can_prefix(number, Binary64::thousand());
        }
        write_bytes(NumberPrefix::decimal(number))
    }
}

/// A clock shows hours, minutes and seconds in two digits each, and the days in front where
/// there are any.
pub proof fn law_clock(days: nat, hours: nat, minutes: nat, seconds: nat)
    requires
        hours < 24,
        minutes < 60,
        seconds < 60,
    ensures
        ({
            let time = two_digits(hours) + seq![':'] + two_digits(minutes) + seq![':'] + two_digits(seconds);
            let shown = clock(86400 * days + 3600 * hours + 60 * minutes + seconds);
            &&& days == 0 ==> shown == time
            &&& days > 0 ==> shown == decimal(days) + seq!['d', ' '] + time
        }),
{
    let secs = 86400 * days + 3600 * hours + 60 * minutes + seconds;
    assert(secs / 86400 == days);
    assert(secs / 3600 == 24 * days + hours);
    assert((24 * days + hours) % 24 == hours);
    assert(secs / 60 == 60 * (24 * days + hours) + minutes);
    assert((60 * (24 * days + hours) + minutes) % 60 == minutes);
    assert(secs % 60 == seconds);
    let time = two_digits(hours) + seq![':'] + two_digits(minutes) + seq![':'] + two_digits(seconds);
    assert(two_digits(hours).push(':') + two_digits(minutes).push(':') + two_digits(seconds) =~= time);
    assert(clock(secs) =~= if days > 0 {
        decimal(days) + seq!['d', ' '] + time
    } else {
        time
    });
}

/// How units make up each other: sixty seconds a minute, sixty minutes an hour, 24 hours a
/// day, seven days a week, and 365 days a year. A unit has the next smaller one below it.
pub proof fn law_units(unit: Unit)
    ensures
        unit_secs(Unit::Second) == 1,
        unit_secs(Unit::Minute) == 60 * unit_secs(Unit::Second),
        unit_secs(Unit::Hour) == 60 * unit_secs(Unit::Minute),
        unit_secs(Unit::Day) == 24 * unit_secs(Unit::Hour),
        unit_secs(Unit::Week) == 7 * unit_secs(Unit::Day),
        unit_secs(Unit::Year) == 365 * unit_secs(Unit::Day),
        unit_nanos(unit) == 1_000_000_000 * unit_secs(unit),
        smaller(unit) is None <==> unit == Unit::Second,
        smaller(unit) matches Some(below) ==> unit_secs(below) < unit_secs(unit) && forall|other: Unit|
            #[trigger] unit_secs(other) < unit_secs(unit) ==> unit_secs(other) <= unit_secs(below),
{
}

/// A length of time is shown as a count of its unit, in words or in short; the words have
/// an `s` at their end but for one.
pub proof fn law_duration_texts(total: nat)
    ensures
        ({
            let unit = shown_unit(total, Unit::Year);
            let count = shown_count(total);
            &&& human_duration(total) == decimal(count) + seq![' '] + unit_name(unit) + (if count == 1 {
                Seq::<char>::empty()
            } else {
                seq!['s']
            })
            &&& human_duration_short(total) == decimal(count) + unit_letter(unit)
            &&& unit != Unit::Second ==> count >= 2
            &&& unit == Unit::Second ==> 2 * count * 1_000_000_000 <= 2 * total + 1_000_000_000 < 2 * (count + 1)
                * 1_000_000_000
        }),
{
    let unit = shown_unit(total, Unit::Year);
    let count = shown_count(total);
    let words = decimal(count).push(' ') + unit_name(unit);
    if unit == Unit::Second {
        assert(unit_nanos(unit) == 1_000_000_000);
        assert(2 * unit_nanos(unit) == 2_000_000_000);
        assert(count == (2 * total + 1_000_000_000) / 2_000_000_000);
    }
    assert(words =~= decimal(count) + seq![' '] + unit_name(unit));
    assert(human_duration(total) =~= decimal(count) + seq![' '] + unit_name(unit) + (if count == 1 {
        Seq::<char>::empty()
    } else {
        seq!['s']
    }));
}

/// The prefixes, from the smallest on, and their symbols.
pub proof fn law_prefixes(prefix: Prefix)
    ensures
        decimal_prefixes() == seq![
            Prefix::Kilo,
            Prefix::Mega,
            Prefix::Giga,
            Prefix::Tera,
            Prefix::Peta,
            Prefix::Exa,
            Prefix::Zetta,
            Prefix::Yotta,
        ],
        binary_prefixes() == seq![
            Prefix::Kibi,
            Prefix::Mebi,
            Prefix::Gibi,
            Prefix::Tebi,
            Prefix::Pebi,
            Prefix::Exbi,
            Prefix::Zebi,
            Prefix::Yobi,
        ],
{
}

/// A rendered number without a point is its whole part with commas; one with a point has
/// commas before it, and behind it what is left without the zeros at its end.
pub proof fn law_human_float(front: Seq<char>, back: Seq<char>, whole: Seq<char>)
    requires
        !front.contains('.'),
    ensures
        human_float(front, whole) == grouped(whole),
        without_end_zeros(back).len() == 0 ==> human_float(front + seq!['.'] + back, whole) == grouped(front),
        without_end_zeros(back).len() > 0 ==> human_float(front + seq!['.'] + back, whole) == grouped(front) + seq!['.']
            + without_end_zeros(back),
{
    let text = front + seq!['.'] + back;
    lemma_point_position(front, front.len() as int);
    lemma_point_position(text, front.len() as int);
    assert(text.take(front.len() as int) =~= front);
    assert(text.skip(front.len() as int + 1) =~= back);
    assert(grouped(front).push('.') + without_end_zeros(back) =~= grouped(front) + seq!['.'] + without_end_zeros(back));
}

proof fn lemma_point_position(text: Seq<char>, at: int)
    requires
        0 <= at <= text.len(),
        !text.take(at).contains('.'),
        at < text.len() ==> text[at] == '.',
    ensures
        point_position(text) == at,
    decreases text.len(),
{
    if at > 0 {
        assert(text.take(at).contains(text.take(at)[0]));
        let rest = text.drop_first();
        assert(!rest.take(at - 1).contains('.')) by {
            if rest.take(at - 1).contains('.') {
                let short = rest.take(at - 1);
                let k = choose|k: int| 0 <= k < short.len() && short[k] == '.';
                assert(text.take(at)[k + 1] == '.');
            }
        }
        lemma_point_position(rest, at - 1);
    }
}

/// A number is divided as long as it is as large as the step, eight times at most. What is
/// left of one that is smaller is that number.
pub proof fn law_scaled<F: Amounts>(amount: F, kilo: F, most: nat)
    ensures
        scaled(amount, kilo, most).0 <= most,
        scaled(amount, kilo, most).0 < most ==> !at_least(scaled(amount, kilo, most).1, kilo),
        !at_least(amount, kilo) ==> scaled(amount, kilo, most) == (0nat, amount),
        most > 0 && at_least(amount, kilo) ==> {
            let (steps, left) = scaled(amount.div_spec(kilo), kilo, (most - 1) as nat);
            scaled(amount, kilo, most) == ((steps + 1) as nat, left)
        },
    decreases most,
{
    if most > 0 && at_least(amount, kilo) {
        law_scaled(amount.div_spec(kilo), kilo, (most - 1) as nat);
    }
}

/// A number that is divided gets the prefix of as many steps as it was divided, and its
/// sign; any other stands alone.
pub proof fn law_prefixed<F: Amounts>(amount: F, kilo: F, prefixes: Seq<Prefix>)
    ensures
        ({
            let (steps, left) = scaled(amount, kilo, 8);
            &&& steps == 0 ==> prefixed(amount, false, kilo, prefixes) == NumberPrefix::Standalone(left)
            &&& steps > 0 ==> prefixed(amount, false, kilo, prefixes) == NumberPrefix::Prefixed(prefixes[steps - 1], left)
        }),
        ({
            let (steps, left) = scaled(amount.neg_spec(), kilo, 8);
            &&& steps == 0 ==> prefixed(amount, true, kilo, prefixes) == NumberPrefix::Standalone(left.neg_spec())
            &&& steps > 0 ==> prefixed(amount, true, kilo, prefixes) == NumberPrefix::Prefixed(
                prefixes[steps - 1],
                left.neg_spec(),
            )
        }),
{
}

/// A number of bytes is written in steps of a thousand with decimal prefixes, or of 1024
/// with binary ones: whole without a prefix, and with two places and the symbol with one.
pub proof fn law_byte_texts(n: nat)
    ensures
        ({
            let (steps, left) = scaled(Binary64::nearest(n), Binary64::thousand(), 8);
            let (twos, rest) = scaled(Binary64::nearest(n), Binary64::kibi(), 8);
            &&& steps == 0 ==> decimal_bytes(n) == left.whole_text() + seq![' ', 'B']
            &&& steps > 0 ==> decimal_bytes(n) == left.hundredths_text() + seq![' '] + symbol_of(
                decimal_prefixes()[steps - 1],
            ) + seq!['B']
            &&& twos == 0 ==> binary_bytes(n) == rest.whole_text() + seq![' ', 'B']
            &&& twos > 0 ==> binary_bytes(n) == rest.hundredths_text() + seq![' '] + symbol_of(
                binary_prefixes()[twos - 1],
            ) + seq!['B']
        }),
{
    let (steps, left) = scaled(Binary64::nearest(n), Binary64::thousand(), 8);
    let (twos, rest) = scaled(Binary64::nearest(n), Binary64::kibi(), 8);
    if steps > 0 {
        assert(decimal_bytes(n) =~= left.hundredths_text() + seq![' '] + symbol_of(decimal_prefixes()[steps - 1]) + seq![
            'B',
        ]);
    }
    if twos > 0 {
        assert(binary_bytes(n) =~= rest.hundredths_text() + seq![' '] + symbol_of(binary_prefixes()[twos - 1]) + seq![
            'B',
        ]);
    }
}

/// The symbols of prefixes: those of the binary ones have an `i` at their end.
pub proof fn law_symbols(prefix: Prefix)
    ensures
        prefix is Kilo ==> symbol_of(prefix) == "k"@,
        prefix is Mega ==> symbol_of(prefix) == "M"@,
        prefix is Giga ==> symbol_of(prefix) == "G"@,
        prefix is Tera ==> symbol_of(prefix) == "T"@,
        prefix is Peta ==> symbol_of(prefix) == "P"@,
        prefix is Exa ==> symbol_of(prefix) == "E"@,
        prefix is Zetta ==> symbol_of(prefix) == "Z"@,
        prefix is Yotta ==> symbol_of(prefix) == "Y"@,
        prefix is Kibi ==> symbol_of(prefix) == "Ki"@,
        prefix is Mebi ==> symbol_of(prefix) == "Mi"@,
        prefix is Gibi ==> symbol_of(prefix) == "Gi"@,
        prefix is Tebi ==> symbol_of(prefix) == "Ti"@,
        prefix is Pebi ==> symbol_of(prefix) == "Pi"@,
        prefix is Exbi ==> symbol_of(prefix) == "Ei"@,
        prefix is Zebi ==> symbol_of(prefix) == "Zi"@,
        prefix is Yobi ==> symbol_of(prefix) == "Yi"@,
{
}

/// The names of prefixes, in capitals, with a capital first letter, and in small letters.
pub proof fn law_names_of_prefixes(prefix: Prefix)
    ensures
        prefix is Kilo ==> upper_name(prefix) == "KILO"@,
        prefix is Mega ==> upper_name(prefix) == "MEGA"@,
        prefix is Giga ==> upper_name(prefix) == "GIGA"@,
        prefix is Tera ==> upper_name(prefix) == "TERA"@,
        prefix is Peta ==> upper_name(prefix) == "PETA"@,
        prefix is Exa ==> upper_name(prefix) == "EXA"@,
        prefix is Zetta ==> upper_name(prefix) == "ZETTA"@,
        prefix is Yotta ==> upper_name(prefix) == "YOTTA"@,
        prefix is Kibi ==> upper_name(prefix) == "KIBI"@,
        prefix is Mebi ==> upper_name(prefix) == "MEBI"@,
        prefix is Gibi ==> upper_name(prefix) == "GIBI"@,
        prefix is Tebi ==> upper_name(prefix) == "TEBI"@,
        prefix is Pebi ==> upper_name(prefix) == "PEBI"@,
        prefix is Exbi ==> upper_name(prefix) == "EXBI"@,
        prefix is Zebi ==> upper_name(prefix) == "ZEBI"@,
        prefix is Yobi ==> upper_name(prefix) == "YOBI"@,
        prefix is Kilo ==> caps_name(prefix) == "Kilo"@,
        prefix is Mega ==> caps_name(prefix) == "Mega"@,
        prefix is Giga ==> caps_name(prefix) == "Giga"@,
        prefix is Tera ==> caps_name(prefix) == "Tera"@,
        prefix is Peta ==> caps_name(prefix) == "Peta"@,
        prefix is Exa ==> caps_name(prefix) == "Exa"@,
        prefix is Zetta ==> caps_name(prefix) == "Zetta"@,
        prefix is Yotta ==> caps_name(prefix) == "Yotta"@,
        prefix is Kibi ==> caps_name(prefix) == "Kibi"@,
        prefix is Mebi ==> caps_name(prefix) == "Mebi"@,
        prefix is Gibi ==> caps_name(prefix) == "Gibi"@,
        prefix is Tebi ==> caps_name(prefix) == "Tebi"@,
        prefix is Pebi ==> caps_name(prefix) == "Pebi"@,
        prefix is Exbi ==> caps_name(prefix) == "Exbi"@,
        prefix is Zebi ==> caps_name(prefix) == "Zebi"@,
        prefix is Yobi ==> caps_name(prefix) == "Yobi"@,
        prefix is Kilo ==> lower_name(prefix) == "kilo"@,
        prefix is Mega ==> lower_name(prefix) == "mega"@,
        prefix is Giga ==> lower_name(prefix) == "giga"@,
        prefix is Tera ==> lower_name(prefix) == "tera"@,
        prefix is Peta ==> lower_name(prefix) == "peta"@,
        prefix is Exa ==> lower_name(prefix) == "exa"@,
        prefix is Zetta ==> lower_name(prefix) == "zetta"@,
        prefix is Yotta ==> lower_name(prefix) == "yotta"@,
        prefix is Kibi ==> lower_name(prefix) == "kibi"@,
        prefix is Mebi ==> lower_name(prefix) == "mebi"@,
        prefix is Gibi ==> lower_name(prefix) == "gibi"@,
        prefix is Tebi ==> lower_name(prefix) == "tebi"@,
        prefix is Pebi ==> lower_name(prefix) == "pebi"@,
        prefix is Exbi ==> lower_name(prefix) == "exbi"@,
        prefix is Zebi ==> lower_name(prefix) == "zebi"@,
        prefix is Yobi ==> lower_name(prefix) == "yobi"@,
{
}

/// The names and letters of units.
pub proof fn law_names_of_units(unit: Unit)
    ensures
        unit is Year ==> unit_name(unit) == "year"@,
        unit is Week ==> unit_name(unit) == "week"@,
        unit is Day ==> unit_name(unit) == "day"@,
        unit is Hour ==> unit_name(unit) == "hour"@,
        unit is Minute ==> unit_name(unit) == "minute"@,
        unit is Second ==> unit_name(unit) == "second"@,
        unit is Year ==> unit_letter(unit) == "y"@,
        unit is Week ==> unit_letter(unit) == "w"@,
        unit is Day ==> unit_letter(unit) == "d"@,
        unit is Hour ==> unit_letter(unit) == "h"@,
        unit is Minute ==> unit_letter(unit) == "m"@,
        unit is Second ==> unit_letter(unit) == "s"@,
{
}

/// What operators do to numbers: division rounds the quotient, the sign turns round, and
/// one is at least as large as another where it is not the smaller one.
pub proof fn law_operators(a: Binary64, b: Binary64)
    ensures
        a.div_spec(b) == a.quotient(b),
        a.neg_spec().negative == !a.negative,
        a.neg_spec().mantissa == a.mantissa,
        a.neg_spec().exponent == a.exponent,
        at_least(a, b) <==> !(a.order(b) is Less),
{
}

} // verus!
