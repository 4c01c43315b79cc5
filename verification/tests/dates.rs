use finances_manager::text::Comparison;
use finances_manager::time::date::{
    month_range, Date, Month, ParseDateError, ParseMonthError, YearMonth, YearMonthIter,
};

const MONTHS: [Month; 12] = [
    Month::January,
    Month::February,
    Month::March,
    Month::April,
    Month::May,
    Month::June,
    Month::July,
    Month::August,
    Month::September,
    Month::October,
    Month::November,
    Month::December,
];

#[test]
fn month_from_u32_counts_from_zero() {
    for (i, m) in MONTHS.iter().enumerate() {
        assert_eq!(Month::from_u32(i as u32), Some(*m));
        assert_eq!(m.index(), i as u32);
    }
    assert_eq!(Month::from_u32(12), None);
    assert_eq!(Month::from_u32(u32::MAX), None);
}

#[test]
fn month_next_wraps_after_december() {
    assert_eq!(Month::January.next(), Month::February);
    assert_eq!(Month::November.next(), Month::December);
    assert_eq!(Month::December.next(), Month::January);
}

#[test]
fn month_names_read_back() {
    let names = [
        "January", "February", "March", "April", "May", "June", "July", "August", "September",
        "October", "November", "December",
    ];
    for (m, n) in MONTHS.iter().zip(names.iter()) {
        assert_eq!(m.name(), *n);
        assert_eq!(Month::from_str(n), Ok(*m));
    }
}

#[test]
fn month_from_other_text_is_an_error() {
    assert_eq!(Month::from_str("january"), Err(ParseMonthError));
    assert_eq!(Month::from_str("Jan"), Err(ParseMonthError));
    assert_eq!(Month::from_str(""), Err(ParseMonthError));
    assert_eq!(Month::from_str(" May"), Err(ParseMonthError));
}

#[test]
fn months_are_ordered_by_their_place() {
    assert!(Month::January < Month::February);
    assert!(Month::August < Month::December);
}

fn date(y: u32, m: Month, d: u8) -> Date {
    Date { year: y, month: m, day: d }
}

#[test]
fn dates_compare_by_year_then_month_then_day() {
    let a = date(2024, Month::January, 5);
    assert_eq!(a.compare(&date(2024, Month::January, 5)), Comparison::Equal);
    assert_eq!(a.compare(&date(2024, Month::January, 6)), Comparison::Less);
    assert_eq!(a.compare(&date(2024, Month::January, 4)), Comparison::Greater);
    assert_eq!(a.compare(&date(2024, Month::February, 1)), Comparison::Less);
    assert_eq!(a.compare(&date(2023, Month::December, 31)), Comparison::Greater);
    assert_eq!(a.compare(&date(2025, Month::January, 1)), Comparison::Less);
    assert!(date(2023, Month::December, 31) < a);
    assert!(date(2024, Month::April, 1) < date(2024, Month::August, 1));
}

#[test]
fn date_from_day_month_year() {
    let d: Date = Date::from((7u8, Month::March, 1999u32));
    assert_eq!(d, date(1999, Month::March, 7));
}

#[test]
fn date_text_reads_back() {
    let d = date(2024, Month::January, 5);
    assert_eq!(d.to_text(), "2024/January/5");
    assert_eq!(Date::from_str("2024/January/5"), Ok(d));
    assert_eq!(date(0, Month::December, 0).to_text(), "0/December/0");
    assert_eq!(date(u32::MAX, Month::May, 255).to_text(), "4294967295/May/255");
    assert_eq!(Date::from_str("4294967295/May/255"), Ok(date(u32::MAX, Month::May, 255)));
    assert_eq!(Date::from_str("+2024/June/+07"), Ok(date(2024, Month::June, 7)));
}

#[test]
fn malformed_dates_are_errors() {
    for text in [
        "",
        "2024",
        "2024/January",
        "2024/January/5/6",
        "2024/january/5",
        "x/January/5",
        "2024/January/x",
        "4294967296/January/5",
        "2024/January/256",
        "-1/January/5",
        "2024 /January/5",
        "/January/5",
        "2024/January/",
    ] {
        assert_eq!(Date::from_str(text), Err(ParseDateError), "{}", text);
    }
}

fn ym(year: u32, month: Month) -> YearMonth {
    YearMonth { year, month }
}

fn collect(mut it: YearMonthIter) -> Vec<(u32, Month)> {
    let mut out = Vec::new();
    while let Some(x) = it.next() {
        out.push((x.year, x.month));
    }
    out
}

#[test]
fn month_range_runs_over_the_turn_of_the_year() {
    let got = collect(month_range(ym(2023, Month::November), ym(2024, Month::February)));
    assert_eq!(
        got,
        vec![
            (2023, Month::November),
            (2023, Month::December),
            (2024, Month::January),
            (2024, Month::February)
        ]
    );
}

#[test]
fn month_range_of_one_month() {
    let got = collect(YearMonthIter::new(ym(2024, Month::May), ym(2024, Month::May)));
    assert_eq!(got, vec![(2024, Month::May)]);
}

#[test]
fn month_range_that_ends_before_it_starts_is_empty() {
    assert!(collect(month_range(ym(2024, Month::May), ym(2024, Month::April))).is_empty());
    assert!(collect(month_range(ym(2025, Month::January), ym(2024, Month::December))).is_empty());
    let mut it = month_range(ym(2024, Month::May), ym(2024, Month::April));
    assert!(it.next().is_none());
    assert_eq!(it.current.year, 2024);
    assert_eq!(it.current.month, Month::May);
}
