//! Months, dates ordered by year, month and day, and ranges of months.

use vstd::prelude::*;
use crate::decimal::{decimal, number_to_text, parse_number, spec_parse_number};
use crate::text::{path_view, push_char, push_text, same_text, split, split_text, Comparison};

verus! {

/// A month of the year.
#[derive(Debug, PartialEq, Eq, PartialOrd, Ord, Clone, Copy, Structural)]
pub enum Month {
    January,
    February,
    March,
    April,
    May,
    June,
    July,
    August,
    September,
    October,
    November,
    December,
}

impl Month {
    /// The place of the month in the year, counted from 0.
    pub open spec fn spec_index(self) -> int {
        match self {
            Month::January => 0,
            Month::February => 1,
            Month::March => 2,
            Month::April => 3,
            Month::May => 4,
            Month::June => 5,
            Month::July => 6,
            Month::August => 7,
            Month::September => 8,
            Month::October => 9,
            Month::November => 10,
            Month::December => 11,
        }
    }

    /// The place of the month in the year, counted from 0.
    pub fn index(&self) -> (i: u32)
        ensures
            i == self.spec_index(),
            i < 12,
    {
        match self {
            Month::January => 0,
            Month::February => 1,
            Month::March => 2,
            Month::April => 3,
            Month::May => 4,
            Month::June => 5,
            Month::July => 6,
            Month::August => 7,
            Month::September => 8,
            Month::October => 9,
            Month::November => 10,
            Month::December => 11,
        }
    }

    /// The month at place `value` of the year, counted from 0; none from
    /// 12 on.
    pub fn from_u32(value: u32) -> (r: Option<Month>)
        ensures
            value < 12 ==> r == Some(month_at(value as int)),
            value < 12 ==> r->0.spec_index() == value,
            value >= 12 ==> r is None,
    {
        match value {
            0 => Some(Month::January),
            1 => Some(Month::February),
            2 => Some(Month::March),
            3 => Some(Month::April),
            4 => Some(Month::May),
            5 => Some(Month::June),
            6 => Some(Month::July),
            7 => Some(Month::August),
            8 => Some(Month::September),
            9 => Some(Month::October),
            10 => Some(Month::November),
            11 => Some(Month::December),
            _ => None,
        }
    }

    /// The month after this one; after December comes January.
    pub fn next(&self) -> (m: Month)
        ensures
            m == month_at((self.spec_index() + 1) % 12),
            m.spec_index() == (self.spec_index() + 1) % 12,
    {
        let i = self.index();
        match Month::from_u32(i + 1) {
            Some(m) => m,
            None => Month::January,
        }
    }

    /// The English name of the month.
    pub open spec fn spec_name(self) -> Seq<char> {
        match self {
            Month::January => "January"@,
            Month::February => "February"@,
            Month::March => "March"@,
            Month::April => "April"@,
            Month::May => "May"@,
            Month::June => "June"@,
            Month::July => "July"@,
            Month::August => "August"@,
            Month::September => "September"@,
            Month::October => "October"@,
            Month::November => "November"@,
            Month::December => "December"@,
        }
    }

    /// The English name of the month.
    pub fn name(&self) -> (r: &'static str)
        ensures
            r@ == self.spec_name(),
    {
        match self {
            Month::January => "January",
            Month::February => "February",
            Month::March => "March",
            Month::April => "April",
            Month::May => "May",
            Month::June => "June",
            Month::July => "July",
            Month::August => "August",
            Month::September => "September",
            Month::October => "October",
            Month::November => "November",
            Month::December => "December",
        }
    }

    /// The month that a text names, if it is the English name of one.
    pub open spec fn spec_from_str(s: Seq<char>) -> Option<Month> {
        if s == Month::January.spec_name() {
            Some(Month::January)
        } else if s == Month::February.spec_name() {
            Some(Month::February)
        } else if s == Month::March.spec_name() {
            Some(Month::March)
        } else if s == Month::April.spec_name() {
            Some(Month::April)
        } else if s == Month::May.spec_name() {
            Some(Month::May)
        } else if s == Month::June.spec_name() {
            Some(Month::June)
        } else if s == Month::July.spec_name() {
            Some(Month::July)
        } else if s == Month::August.spec_name() {
            Some(Month::August)
        } else if s == Month::September.spec_name() {
            Some(Month::September)
        } else if s == Month::October.spec_name() {
            Some(Month::October)
        } else if s == Month::November.spec_name() {
            Some(Month::November)
        } else if s == Month::December.spec_name() {
            Some(Month::December)
        } else {
            None
        }
    }

    /// Reads a month from its English name, written with a capital.
    pub fn from_str(s: &str) -> (r: Result<Month, ParseMonthError>)
        ensures
            match r {
                Ok(m) => Month::spec_from_str(s@) == Some(m),
                Err(_) => Month::spec_from_str(s@) is None,
            },
    {
        let mut i: u32 = 0;
        while i < 12
            invariant
                i <= 12,
                forall|k: int| 0 <= k < i ==> s@ != (#[trigger] month_at(k)).spec_name(),
            decreases 12 - i,
        {
            let m = Month::from_u32(i).unwrap();
            assert(m == month_at(i as int));
            if same_text(s, m.name()) {
                proof {
                    assert forall|k: int| 0 <= k < 12 implies month_at(k).spec_index() == k by {}
                    assert(month_at(0) == Month::January && month_at(1) == Month::February
                        && month_at(2) == Month::March && month_at(3) == Month::April && month_at(
                        4,
                    ) == Month::May && month_at(5) == Month::June && month_at(6) == Month::July
                        && month_at(7) == Month::August && month_at(8) == Month::September
                        && month_at(9) == Month::October && month_at(10) == Month::November
                        && month_at(11) == Month::December);
                }
                return Ok(m);
            }
            i = i + 1;
        }
        proof {
            assert(month_at(0) == Month::January && month_at(1) == Month::February && month_at(2)
                == Month::March && month_at(3) == Month::April && month_at(4) == Month::May
                && month_at(5) == Month::June && month_at(6) == Month::July && month_at(7)
                == Month::August && month_at(8) == Month::September && month_at(9)
                == Month::October && month_at(10) == Month::November && month_at(11)
                == Month::December);
        }
        Err(ParseMonthError)
    }

    /// Two months with the same place in the year are the same month.
    pub proof fn lemma_index_injective(self, other: Month)
        ensures
            self.spec_index() == other.spec_index() <==> self == other,
    {
    }
}

/// The month at place `i` of the year, counted from 0; December from 11
/// on.
pub open spec fn month_at(i: int) -> Month {
    if i <= 0 {
        Month::January
    } else if i == 1 {
        Month::February
    } else if i == 2 {
        Month::March
    } else if i == 3 {
        Month::April
    } else if i == 4 {
        Month::May
    } else if i == 5 {
        Month::June
    } else if i == 6 {
        Month::July
    } else if i == 7 {
        Month::August
    } else if i == 8 {
        Month::September
    } else if i == 9 {
        Month::October
    } else if i == 10 {
        Month::November
    } else {
        Month::December
    }
}

/// The error of reading a month from a text that names none.
#[derive(Debug, PartialEq, Eq, Clone, Copy, Structural)]
pub struct ParseMonthError;

/// A day of the calendar.
#[derive(Debug, Clone, Copy, PartialEq, Eq, PartialOrd, Ord, Structural)]
pub struct Date {
    pub year: u32,
    pub month: Month,
    pub day: u8,
}

impl Date {
    /// How `self` stands to `other`: by year first, then by month, then
    /// by day.
    pub open spec fn order(self, other: Date) -> Comparison {
        if self.year != other.year {
            if self.year < other.year {
                Comparison::Less
            } else {
                Comparison::Greater
            }
        } else if self.month != other.month {
            if self.month.spec_index() < other.month.spec_index() {
                Comparison::Less
            } else {
                Comparison::Greater
            }
        } else if self.day != other.day {
            if self.day < other.day {
                Comparison::Less
            } else {
                Comparison::Greater
            }
        } else {
            Comparison::Equal
        }
    }

    /// `self` is not after `other`.
    pub open spec fn le(self, other: Date) -> bool {
        self.order(other) != Comparison::Greater
    }

    /// How `self` stands to `other`: by year first, then by month, then
    /// by day.
    pub fn compare(&self, other: &Date) -> (r: Comparison)
        ensures
            r == self.order(*other),
    {
        if self.year != other.year {
            if self.year < other.year {
                Comparison::Less
            } else {
                Comparison::Greater
            }
        } else if self.month.index() != other.month.index() {
            if self.month.index() < other.month.index() {
                Comparison::Less
            } else {
                Comparison::Greater
            }
        } else if self.day != other.day {
            if self.day < other.day {
                Comparison::Less
            } else {
                Comparison::Greater
            }
        } else {
            Comparison::Equal
        }
    }

    /// The date as text: the year, the name of the month and the day,
    /// with a slash between them.
    pub open spec fn spec_text(self) -> Seq<char> {
        decimal(self.year as nat) + seq!['/'] + self.month.spec_name() + seq!['/'] + decimal(
            self.day as nat,
        )
    }

    /// The date as text: the year, the name of the month and the day,
    /// with a slash between them.
    pub fn to_text(&self) -> (r: String)
        ensures
            r@ == self.spec_text(),
    {
        let mut r = number_to_text(self.year as u64);
        push_char(&mut r, '/');
        push_text(&mut r, self.month.name());
        push_char(&mut r, '/');
        let day = number_to_text(self.day as u64);
        push_text(&mut r, day.as_str());
        proof {
            assert(r@ =~= self.spec_text());
        }
        r
    }

    /// The date that a text stands for: three parts with a slash between
    /// them, of which the first is a year that a `u32` holds, the second
    /// the name of a month and the third a day that a `u8` holds.
    pub open spec fn spec_from_str(s: Seq<char>) -> Option<Date> {
        let parts = split(s, '/');
        if parts.len() != 3 {
            None
        } else {
            match (
                spec_parse_number(parts[0]),
                Month::spec_from_str(parts[1]),
                spec_parse_number(parts[2]),
            ) {
                (Some(y), Some(m), Some(d)) => if y <= u32::MAX && d <= u8::MAX {
                    Some(Date { year: y as u32, month: m, day: d as u8 })
                } else {
                    None
                },
                _ => None,
            }
        }
    }

    /// Reads a date from a text of the form year, slash, name of the
    /// month, slash, day.
    pub fn from_str(s: &str) -> (r: Result<Date, ParseDateError>)
        ensures
            match r {
                Ok(d) => Date::spec_from_str(s@) == Some(d),
                Err(_) => Date::spec_from_str(s@) is None,
            },
    {
        let parts = split_text(s, '/');
        if parts.len() != 3 {
            return Err(ParseDateError);
        }
        let ghost views = path_view(parts@);
        assert(views[0] == parts[0]@ && views[1] == parts[1]@ && views[2] == parts[2]@);
        let year = match parse_number(parts[0].as_str(), 0xFFFF_FFFF) {
            Some(y) => y,
            None => {
                return Err(ParseDateError);
            },
        };
        let month = match Month::from_str(parts[1].as_str()) {
            Ok(m) => m,
            Err(_) => {
                return Err(ParseDateError);
            },
        };
        let day = match parse_number(parts[2].as_str(), 255) {
            Some(d) => d,
            None => {
                return Err(ParseDateError);
            },
        };
        Ok(Date { year: year as u32, month, day: day as u8 })
    }

    /// The order of dates is total: equal means the same date, swapping
    /// the dates swaps before and after, and the order is transitive.
    pub proof fn lemma_order(a: Date, b: Date, c: Date)
        ensures
            a.order(b) == Comparison::Equal <==> a == b,
            a.order(b) == Comparison::Less <==> b.order(a) == Comparison::Greater,
            a.le(b) && b.le(c) ==> a.le(c),
            a.le(b) || b.le(a),
    {
    }
}

impl From<(u8, Month, u32)> for Date {
    /// The date of a day, a month and a year, in that order.
    fn from(item: (u8, Month, u32)) -> (r: Date)
        ensures
            r == (Date { year: item.2, month: item.1, day: item.0 }),
    {
        let (d, m, y) = item;
        Date { day: d, month: m, year: y }
    }
}

impl vstd::std_specs::convert::FromSpecImpl<(u8, Month, u32)> for Date {
    open spec fn obeys_from_spec() -> bool {
        true
    }

    open spec fn from_spec(item: (u8, Month, u32)) -> Date {
        Date { year: item.2, month: item.1, day: item.0 }
    }
}

/// The error of reading a date from a text that holds none.
#[derive(Debug, PartialEq, Eq, Clone, Copy, Structural)]
pub struct ParseDateError;

/// A month of a year.
#[derive(Debug, Clone, Copy, PartialEq, Eq, Structural)]
pub struct YearMonth {
    pub year: u32,
    pub month: Month,
}

impl YearMonth {
    /// The number of months from the start of year 0 to this month.
    pub open spec fn ordinal(self) -> int {
        self.year * 12 + self.month.spec_index()
    }
}

/// The months from `current` to `end`, both included, in order.
pub struct YearMonthIter {
    pub current: YearMonth,
    pub end: YearMonth,
}

impl YearMonthIter {
    /// The months from `start` to `end`, both included.
    pub fn new(start: YearMonth, end: YearMonth) -> (r: YearMonthIter)
        ensures
            r.current == start,
            r.end == end,
    {
        YearMonthIter { current: start, end }
    }

    /// The next month of the range, if one is left. The range must end
    /// before the last year that a `u32` can hold.
    pub fn next(&mut self) -> (r: Option<YearMonth>)
        requires
            old(self).end.year < u32::MAX,
        ensures
            final(self).end == old(self).end,
            old(self).current.ordinal() > old(self).end.ordinal() ==> r is None && *final(self)
                == *old(self),
            old(self).current.ordinal() <= old(self).end.ordinal() ==> r == Some(
                old(self).current,
            ) && final(self).current.ordinal() == old(self).current.ordinal() + 1,
    {
        if self.current.year > self.end.year {
            return None;
        }
        if self.current.year == self.end.year {
            if self.current.month.index() > self.end.month.index() {
                return None;
            }
        }
        let result: YearMonth = self.current;
        self.current.month = self.current.month.next();
        if self.current.month.index() == 0 {
            self.current.year = self.current.year + 1;
        }
        Some(result)
    }
}

/// The months from `start` to `end`, both included.
pub fn month_range(start: YearMonth, end: YearMonth) -> (r: YearMonthIter)
    ensures
        r.current == start,
        r.end == end,
{
    YearMonthIter::new(start, end)
}

} // verus!
