use nectan::format::{
    Amounts, BinaryBytes, DecimalBytes, FormattedDuration, HumanBytes, HumanCount, HumanDuration, HumanFloatCount,
    NumberPrefix, Prefix, Span,
};
use std::ops::{Div, Neg};
use std::time::Duration;

#[derive(Clone, Copy, Debug, PartialEq, PartialOrd)]
struct Single(f32);

#[derive(Clone, Copy, Debug, PartialEq, PartialOrd)]
struct Double(f64);

impl Div for Single {
    type Output = Single;

    fn div(self, other: Single) -> Single {
        Single(self.0 / other.0)
    }
}

impl Div for Double {
    type Output = Double;

    fn div(self, other: Double) -> Double {
        Double(self.0 / other.0)
    }
}

impl Neg for Single {
    type Output = Single;

    fn neg(self) -> Single {
        Single(-self.0)
    }
}

impl Neg for Double {
    type Output = Double;

    fn neg(self) -> Double {
        Double(-self.0)
    }
}

impl Amounts for Single {
    fn num_1000() -> Single {
        Single(1000_f32)
    }

    fn num_1024() -> Single {
        Single(1024_f32)
    }

    fn is_negative(self) -> bool {
        self.0.is_sign_negative()
    }
}

impl Amounts for Double {
    fn num_1000() -> Double {
        Double(1000_f64)
    }

    fn num_1024() -> Double {
        Double(1024_f64)
    }

    fn is_negative(self) -> bool {
        self.0.is_sign_negative()
    }
}

#[test]
fn decimal_minus_one_billion() {
    assert_eq!(
        NumberPrefix::decimal(Double(-1_000_000_000_f64)),
        NumberPrefix::Prefixed(Prefix::Giga, Double(-1_f64))
    )
}

#[test]
fn decimal_minus_one() {
    assert_eq!(
        NumberPrefix::decimal(Double(-1_f64)),
        NumberPrefix::Standalone(Double(-1_f64))
    )
}

#[test]
fn decimal_0() {
    assert_eq!(NumberPrefix::decimal(Double(0_f64)), NumberPrefix::Standalone(Double(0_f64)))
}

#[test]
fn decimal_999() {
    assert_eq!(
        NumberPrefix::decimal(Single(999_f32)),
        NumberPrefix::Standalone(Single(999_f32))
    )
}

#[test]
fn decimal_1000() {
    assert_eq!(
        NumberPrefix::decimal(Single(1000_f32)),
        NumberPrefix::Prefixed(Prefix::Kilo, Single(1_f32))
    )
}

#[test]
fn decimal_1030() {
    assert_eq!(
        NumberPrefix::decimal(Single(1030_f32)),
        NumberPrefix::Prefixed(Prefix::Kilo, Single(1.03_f32))
    )
}

#[test]
fn decimal_1100() {
    assert_eq!(
        NumberPrefix::decimal(Double(1100_f64)),
        NumberPrefix::Prefixed(Prefix::Kilo, Double(1.1_f64))
    )
}

#[test]
fn decimal_1111() {
    assert_eq!(
        NumberPrefix::decimal(Double(1111_f64)),
        NumberPrefix::Prefixed(Prefix::Kilo, Double(1.111_f64))
    )
}

#[test]
fn binary_126456() {
    assert_eq!(
        NumberPrefix::binary(Single(126_456_f32)),
        NumberPrefix::Prefixed(Prefix::Kibi, Single(123.492_19_f32))
    )
}

#[test]
fn binary_1048576() {
    assert_eq!(
        NumberPrefix::binary(Double(1_048_576_f64)),
        NumberPrefix::Prefixed(Prefix::Mebi, Double(1_f64))
    )
}

#[test]
fn binary_1073741824() {
    assert_eq!(
        NumberPrefix::binary(Single(2_147_483_648_f32)),
        NumberPrefix::Prefixed(Prefix::Gibi, Single(2_f32))
    )
}

#[test]
fn giga() {
    assert_eq!(
        NumberPrefix::decimal(Double(1_000_000_000_f64)),
        NumberPrefix::Prefixed(Prefix::Giga, Double(1_f64))
    )
}

#[test]
fn tera() {
    assert_eq!(
        NumberPrefix::decimal(Double(1_000_000_000_000_f64)),
        NumberPrefix::Prefixed(Prefix::Tera, Double(1_f64))
    )
}

#[test]
fn peta() {
    assert_eq!(
        NumberPrefix::decimal(Double(1_000_000_000_000_000_f64)),
        NumberPrefix::Prefixed(Prefix::Peta, Double(1_f64))
    )
}

#[test]
fn exa() {
    assert_eq!(
        NumberPrefix::decimal(Double(1_000_000_000_000_000_000_f64)),
        NumberPrefix::Prefixed(Prefix::Exa, Double(1_f64))
    )
}

#[test]
fn zetta() {
    assert_eq!(
        NumberPrefix::decimal(Double(1_000_000_000_000_000_000_000_f64)),
        NumberPrefix::Prefixed(Prefix::Zetta, Double(1_f64))
    )
}

#[test]
fn yotta() {
    assert_eq!(
        NumberPrefix::decimal(Double(1_000_000_000_000_000_000_000_000_f64)),
        NumberPrefix::Prefixed(Prefix::Yotta, Double(1_f64))
    )
}

#[test]
fn and_so_on() {
    // When you hit yotta, don't keep going
    assert_eq!(
        NumberPrefix::decimal(Double(1_000_000_000_000_000_000_000_000_000_f64)),
        NumberPrefix::Prefixed(Prefix::Yotta, Double(1000_f64))
    )
}

const SECOND: Duration = Duration::from_secs(1);
const MINUTE: Duration = Duration::from_secs(60);
const HOUR: Duration = Duration::from_secs(60 * 60);
const DAY: Duration = Duration::from_secs(24 * 60 * 60);
const WEEK: Duration = Duration::from_secs(7 * 24 * 60 * 60);
const YEAR: Duration = Duration::from_secs(365 * 24 * 60 * 60);
const MILLI: Duration = Duration::from_millis(1);

fn span(d: Duration) -> Span {
    Span::new(d.as_secs(), d.subsec_nanos())
}

fn words(d: Duration) -> String {
    HumanDuration(span(d)).to_string()
}

#[test]
fn human_duration_alternate() {
    let units = [
        (YEAR, "y"),
        (WEEK, "w"),
        (DAY, "d"),
        (HOUR, "h"),
        (MINUTE, "m"),
        (SECOND, "s"),
    ];
    for (unit, alt) in units {
        assert_eq!(format!("2{alt}"), HumanDuration(span(2 * unit)).to_short_string());
    }
}

#[test]
fn human_duration_less_than_one_second() {
    assert_eq!(
        "0 seconds",
        words(Duration::from_secs(0))
    );
    assert_eq!("0 seconds", words(MILLI));
    assert_eq!("0 seconds", words(499 * MILLI));
    assert_eq!("1 second", words(500 * MILLI));
    assert_eq!("1 second", words(999 * MILLI));
}

#[test]
fn human_duration_less_than_two_seconds() {
    assert_eq!("1 second", words(1499 * MILLI));
    assert_eq!("2 seconds", words(1500 * MILLI));
    assert_eq!("2 seconds", words(1999 * MILLI));
}

#[test]
fn human_duration_one_unit() {
    assert_eq!("1 second", words(SECOND));
    assert_eq!("60 seconds", words(MINUTE));
    assert_eq!("60 minutes", words(HOUR));
    assert_eq!("24 hours", words(DAY));
    assert_eq!("7 days", words(WEEK));
    assert_eq!("52 weeks", words(YEAR));
}

#[test]
fn human_duration_less_than_one_and_a_half_unit() {
    // this one is actually done at 1.5 unit - half of the next smaller unit - epsilon
    // and should display the next smaller unit
    let d = MINUTE + MINUTE / 2 - SECOND / 2 - MILLI;
    assert_eq!("89 seconds", words(d));
    let d = HOUR + HOUR / 2 - MINUTE / 2 - MILLI;
    assert_eq!("89 minutes", words(d));
    let d = DAY + DAY / 2 - HOUR / 2 - MILLI;
    assert_eq!("35 hours", words(d));
    let d = WEEK + WEEK / 2 - DAY / 2 - MILLI;
    assert_eq!("10 days", words(d));
    let d = YEAR + YEAR / 2 - WEEK / 2 - MILLI;
    assert_eq!("78 weeks", words(d));
}

#[test]
fn human_duration_one_and_a_half_unit() {
    // this one is actually done at 1.5 unit - half of the next smaller unit
    // and should still display "2 units"
    let d = MINUTE + MINUTE / 2 - SECOND / 2;
    assert_eq!("2 minutes", words(d));
    let d = HOUR + HOUR / 2 - MINUTE / 2;
    assert_eq!("2 hours", words(d));
    let d = DAY + DAY / 2 - HOUR / 2;
    assert_eq!("2 days", words(d));
    let d = WEEK + WEEK / 2 - DAY / 2;
    assert_eq!("2 weeks", words(d));
    let d = YEAR + YEAR / 2 - WEEK / 2;
    assert_eq!("2 years", words(d));
}

#[test]
fn human_duration_two_units() {
    assert_eq!("2 seconds", words(2 * SECOND));
    assert_eq!("2 minutes", words(2 * MINUTE));
    assert_eq!("2 hours", words(2 * HOUR));
    assert_eq!("2 days", words(2 * DAY));
    assert_eq!("2 weeks", words(2 * WEEK));
    assert_eq!("2 years", words(2 * YEAR));
}

#[test]
fn human_duration_less_than_two_and_a_half_units() {
    let d = 2 * SECOND + SECOND / 2 - MILLI;
    assert_eq!("2 seconds", words(d));
    let d = 2 * MINUTE + MINUTE / 2 - MILLI;
    assert_eq!("2 minutes", words(d));
    let d = 2 * HOUR + HOUR / 2 - MILLI;
    assert_eq!("2 hours", words(d));
    let d = 2 * DAY + DAY / 2 - MILLI;
    assert_eq!("2 days", words(d));
    let d = 2 * WEEK + WEEK / 2 - MILLI;
    assert_eq!("2 weeks", words(d));
    let d = 2 * YEAR + YEAR / 2 - MILLI;
    assert_eq!("2 years", words(d));
}

#[test]
fn human_duration_two_and_a_half_units() {
    let d = 2 * SECOND + SECOND / 2;
    assert_eq!("3 seconds", words(d));
    let d = 2 * MINUTE + MINUTE / 2;
    assert_eq!("3 minutes", words(d));
    let d = 2 * HOUR + HOUR / 2;
    assert_eq!("3 hours", words(d));
    let d = 2 * DAY + DAY / 2;
    assert_eq!("3 days", words(d));
    let d = 2 * WEEK + WEEK / 2;
    assert_eq!("3 weeks", words(d));
    let d = 2 * YEAR + YEAR / 2;
    assert_eq!("3 years", words(d));
}

#[test]
fn human_duration_three_units() {
    assert_eq!("3 seconds", words(3 * SECOND));
    assert_eq!("3 minutes", words(3 * MINUTE));
    assert_eq!("3 hours", words(3 * HOUR));
    assert_eq!("3 days", words(3 * DAY));
    assert_eq!("3 weeks", words(3 * WEEK));
    assert_eq!("3 years", words(3 * YEAR));
}

#[test]
fn human_count() {
    assert_eq!("42", HumanCount(42).to_string());
    assert_eq!("7,654", HumanCount(7654).to_string());
    assert_eq!("12,345", HumanCount(12345).to_string());
    assert_eq!("1,234,567,890", HumanCount(1234567890).to_string());
}

fn float(precision: usize, number: f64) -> String {
    HumanFloatCount {
        rendered: format!("{:.*}", precision, number),
        whole: number.trunc().to_string(),
    }
    .to_string()
}

#[test]
fn human_float_count() {
    assert_eq!("42", float(4, 42.0));
    assert_eq!("7,654", float(4, 7654.0));
    assert_eq!("12,345", float(4, 12345.0));
    assert_eq!(
        "1,234,567,890",
        float(4, 1234567890.0)
    );
    assert_eq!("42.5", float(4, 42.5));
    assert_eq!("42.5", float(4, 42.500012345));
    assert_eq!("42.502", float(4, 42.502012345));
    assert_eq!("7,654.321", float(4, 7654.321));
    assert_eq!("7,654.321", float(4, 7654.3210123456));
    assert_eq!("12,345.6789", float(4, 12345.6789));
    assert_eq!(
        "1,234,567,890.1235",
        float(4, 1234567890.1234567)
    );
    assert_eq!(
        "1,234,567,890.1234",
        float(4, 1234567890.1234321)
    );
    assert_eq!("1,234", float(0, 1234.1234321));
    assert_eq!("1,234.1", float(1, 1234.1234321));
    assert_eq!("1,234.12", float(2, 1234.1234321));
    assert_eq!("1,234.123", float(3, 1234.1234321));
    assert_eq!(
        "1,234.1234320999999454215867445",
        float(25, 1234.1234321)
    );
}

#[test]
fn negative_and_special_numbers() {
    assert_eq!("-,123", float(4, -123.0));
    assert_eq!("-1,234.5", float(4, -1234.5));
    assert_eq!("NaN", float(4, f64::NAN));
    assert_eq!("-,inf", float(4, f64::NEG_INFINITY));
}

#[test]
fn byte_counts_with_binary_prefixes() {
    assert_eq!("0 B", HumanBytes(0).to_string());
    assert_eq!("15 B", HumanBytes(15).to_string());
    assert_eq!("1023 B", HumanBytes(1023).to_string());
    assert_eq!("1.00 KiB", HumanBytes(1024).to_string());
    assert_eq!("1.46 KiB", HumanBytes(1_500).to_string());
    assert_eq!("1.43 MiB", HumanBytes(1_500_000).to_string());
    assert_eq!("1.40 GiB", HumanBytes(1_500_000_000).to_string());
    assert_eq!("1.36 TiB", HumanBytes(1_500_000_000_000).to_string());
    assert_eq!("1.33 PiB", HumanBytes(1_500_000_000_000_000).to_string());
    assert_eq!("16.00 EiB", HumanBytes(u64::MAX).to_string());
    assert_eq!("1.46 KiB", BinaryBytes(1_500).to_string());
    assert_eq!("1.33 PiB", BinaryBytes(1_500_000_000_000_000).to_string());
}

#[test]
fn byte_counts_with_decimal_prefixes() {
    assert_eq!("15 B", DecimalBytes(15).to_string());
    assert_eq!("1.50 kB", DecimalBytes(1_500).to_string());
    assert_eq!("1.50 MB", DecimalBytes(1_500_000).to_string());
    assert_eq!("1.50 GB", DecimalBytes(1_500_000_000).to_string());
    assert_eq!("1.50 TB", DecimalBytes(1_500_000_000_000).to_string());
    assert_eq!("1.50 PB", DecimalBytes(1_500_000_000_000_000).to_string());
}

fn float_binary(n: u64) -> String {
    match NumberPrefix::binary(Double(n as f64)) {
        NumberPrefix::Standalone(number) => format!("{:.0} B", number.0),
        NumberPrefix::Prefixed(prefix, number) => format!("{:.2} {}B", number.0, prefix.symbol()),
    }
}

fn float_decimal(n: u64) -> String {
    match NumberPrefix::decimal(Double(n as f64)) {
        NumberPrefix::Standalone(number) => format!("{:.0} B", number.0),
        NumberPrefix::Prefixed(prefix, number) => format!("{:.2} {}B", number.0, prefix.symbol()),
    }
}

#[test]
fn byte_counts_agree_with_floating_point() {
    let mut samples = vec![0u64, 1, 999, 1000, 1005, 1015, 1023, 1024, 1025, 999_999, u64::MAX, u64::MAX - 1];
    for shift in 0..64 {
        let base = 1u64 << shift;
        samples.extend([base, base - 1, base.wrapping_add(1), base.wrapping_add(base / 3)]);
    }
    let mut state = 0x9E37_79B9_7F4A_7C15u64;
    for i in 0..200_000u64 {
        state = state.wrapping_mul(6364136223846793005).wrapping_add(1442695040888963407);
        samples.push(state >> (i % 60));
    }
    for n in 0..20_000u64 {
        samples.push(n * 5);
        samples.push(n * 1005);
    }
    for n in samples {
        assert_eq!(float_binary(n), HumanBytes(n).to_string());
        assert_eq!(float_decimal(n), DecimalBytes(n).to_string());
    }
}

#[test]
fn clock_times() {
    assert_eq!("00:00:00", FormattedDuration(span(Duration::from_millis(999))).to_string());
    assert_eq!("00:01:05", FormattedDuration(span(Duration::from_secs(65))).to_string());
    assert_eq!("23:59:59", FormattedDuration(span(Duration::from_secs(86_399))).to_string());
    assert_eq!("1d 00:00:00", FormattedDuration(span(DAY)).to_string());
    assert_eq!("400d 01:02:03", FormattedDuration(span(400 * DAY + HOUR + 2 * MINUTE + 3 * SECOND)).to_string());
}

#[test]
fn longest_durations() {
    assert_eq!("584942417355 years", words(Duration::MAX));
    assert_eq!("18,446,744,073,709,551,615", HumanCount(u64::MAX).to_string());
    assert_eq!("0", HumanCount(0).to_string());
}

#[test]
fn prefix_names() {
    assert_eq!("GIGA", Prefix::Giga.upper());
    assert_eq!("GIBI", Prefix::Gibi.upper());
    assert_eq!("Giga", Prefix::Giga.caps());
    assert_eq!("Gibi", Prefix::Gibi.caps());
    assert_eq!("giga", Prefix::Giga.lower());
    assert_eq!("gibi", Prefix::Gibi.lower());
    assert_eq!("G", Prefix::Giga.symbol());
    assert_eq!("Gi", Prefix::Gibi.symbol());
    assert_eq!("k", Prefix::Kilo.symbol());
    assert_eq!("Yi", Prefix::Yobi.to_string());
}

#[test]
fn grouping_only_adds_commas() {
    for n in [0u64, 12, 999, 1000, 123_456, u64::MAX] {
        assert_eq!(HumanCount(n).to_string().replace(',', ""), n.to_string());
    }
}
