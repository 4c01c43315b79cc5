//! An income: money received from someone at a place.

use vstd::prelude::*;
use crate::decimal::{amount_text, amount_to_text, parse_amount, spec_parse_amount};
use crate::economy::line::{
    format_line, join, join_text, line_of, spec_split_string_data, split_string_data,
    split_trimmed, trimmed_pieces,
};
use crate::economy::traits::Activity;
use crate::text::path_view;
use crate::time::date::Date;

verus! {

/// An income. The price is in hundredths of the currency unit.
#[derive(Debug, Clone)]
pub struct Income {
    pub day_of_year: Date,
    pub price: i64,
    pub concepts: Vec<String>,
    pub from: String,
    pub place: String,
    pub description: String,
}

/// The error of reading an income from a line that holds none.
#[derive(Debug, PartialEq, Eq, Clone, Copy, Structural)]
pub struct ParseIncomeError;

/// An income, as a mathematical value.
pub struct IncomeView {
    pub day_of_year: Date,
    pub price: i64,
    pub concepts: Seq<Seq<char>>,
    pub from: Seq<char>,
    pub place: Seq<char>,
    pub description: Seq<char>,
}

impl View for Income {
    type V = IncomeView;

    open spec fn view(&self) -> IncomeView {
        IncomeView {
            day_of_year: self.day_of_year,
            price: self.price,
            concepts: path_view(self.concepts@),
            from: self.from@,
            place: self.place@,
            description: self.description@,
        }
    }
}

impl Income {
    /// The income that a line stands for: its six fields are the date, the
    /// price, the concepts with semicolons between them, the giver, the
    /// place and the description. None where the line has no six fields,
    /// or the date or the price cannot be read, or the price is larger
    /// than an `i64` holds with either sign.
    pub open spec fn spec_from_str(line: Seq<char>) -> Option<IncomeView> {
        match spec_split_string_data(line) {
            Some(parts) => match (Date::spec_from_str(parts[0]), spec_parse_amount(parts[1])) {
                (Some(d), Some(p)) => if -i64::MAX <= p <= i64::MAX {
                    Some(
                        IncomeView {
                            day_of_year: d,
                            price: p as i64,
                            concepts: trimmed_pieces(parts[2], ';'),
                            from: parts[3],
                            place: parts[4],
                            description: parts[5],
                        },
                    )
                } else {
                    None
                },
                _ => None,
            },
            None => None,
        }
    }

    /// Reads an income from a line of a file.
    pub fn from_str(s: &str) -> (r: Result<Income, ParseIncomeError>)
        ensures
            match r {
                Ok(e) => Income::spec_from_str(s@) == Some(e@),
                Err(_) => Income::spec_from_str(s@) is None,
            },
    {
        let mut parts = match split_string_data(s) {
            Some(parts) => parts,
            None => {
                return Err(ParseIncomeError);
            },
        };
        let ghost fields = path_view(parts@);
        assert(fields[0] == parts[0]@ && fields[1] == parts[1]@ && fields[2] == parts[2]@);
        assert(fields[3] == parts[3]@ && fields[4] == parts[4]@ && fields[5] == parts[5]@);
        let date = match Date::from_str(parts[0].as_str()) {
            Ok(d) => d,
            Err(_) => {
                return Err(ParseIncomeError);
            },
        };
        let price = match parse_amount(parts[1].as_str()) {
            Some(p) => p,
            None => {
                return Err(ParseIncomeError);
            },
        };
        let concepts = split_trimmed(parts[2].as_str(), ';');
        let description = parts.pop().unwrap();
        let second = parts.pop().unwrap();
        let first = parts.pop().unwrap();
        Ok(
            Income {
                day_of_year: date,
                price: price,
                concepts: concepts,
                from: first,
                place: second,
                description: description,
            },
        )
    }

    /// The fields of the line of the income.
    pub open spec fn spec_fields(self) -> Seq<Seq<char>> {
        seq![
            self.day_of_year.spec_text(),
            amount_text(self.price as int),
            join(path_view(self.concepts@), ';'),
            self.from@,
            self.place@,
            self.description@,
        ]
    }

    /// The line of the income in a file: its six fields in double quotes,
    /// with tabs between them.
    pub fn to_line(&self) -> (r: String)
        ensures
            r@ == line_of(self.spec_fields()),
    {
        let mut fields: Vec<String> = Vec::new();
        fields.push(self.day_of_year.to_text());
        fields.push(amount_to_text(self.price));
        fields.push(join_text(&self.concepts, ';'));
        fields.push(self.from.clone());
        fields.push(self.place.clone());
        fields.push(self.description.clone());
        proof {
            assert(path_view(fields@) =~= self.spec_fields());
        }
        format_line(&fields)
    }
}

impl Activity for Income {
    open spec fn spec_date(&self) -> Date {
        self.day_of_year
    }

    open spec fn spec_price(&self) -> i64 {
        self.price
    }

    open spec fn spec_concepts(&self) -> Seq<Seq<char>> {
        path_view(self.concepts@)
    }

    open spec fn spec_source(&self) -> Seq<char> {
        self.from@
    }

    fn get_source(&self) -> (s: &String) {
        &self.from
    }

    open spec fn spec_location(&self) -> Seq<char> {
        self.place@
    }

    fn get_location(&self) -> (s: &String) {
        &self.place
    }

    open spec fn spec_description(&self) -> Seq<char> {
        self.description@
    }

    fn get_concepts_mut(&mut self) -> (c: &mut Vec<String>) {
        &mut self.concepts
    }

    open spec fn spec_line(&self) -> Seq<char> {
        line_of(self.spec_fields())
    }

    fn line(&self) -> (r: String) {
        self.to_line()
    }

    fn get_date(&self) -> (d: &Date) {
        &self.day_of_year
    }

    fn get_price(&self) -> (p: i64) {
        self.price
    }

    fn get_concepts(&self) -> (c: &Vec<String>) {
        &self.concepts
    }
}

} // verus!
