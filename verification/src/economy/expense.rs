//! An expense: money spent in a shop of a city.

use vstd::prelude::*;
use crate::decimal::{amount_text, amount_to_text, parse_amount, spec_parse_amount};
use crate::economy::line::{
    format_line, join, join_text, line_of, spec_split_string_data, split_string_data,
    split_trimmed, trimmed_pieces,
};
use crate::economy::traits::Activity;
use crate::text::path_view;
use crate::time::date::Date;

verus! {

/// An expense. The price is in hundredths of the currency unit.
#[derive(Debug, Clone)]
pub struct Expense {
    pub day_of_year: Date,
    pub price: i64,
    pub concepts: Vec<String>,
    pub shop: String,
    pub city: String,
    pub description: String,
}

/// The error of reading an expense from a line that holds none.
#[derive(Debug, PartialEq, Eq, Clone, Copy, Structural)]
pub struct ParseExpenseError;

/// An expense, as a mathematical value.
pub struct ExpenseView {
    pub day_of_year: Date,
    pub price: i64,
    pub concepts: Seq<Seq<char>>,
    pub shop: Seq<char>,
    pub city: Seq<char>,
    pub description: Seq<char>,
}

impl View for Expense {
    type V = ExpenseView;

    open spec fn view(&self) -> ExpenseView {
        ExpenseView {
            day_of_year: self.day_of_year,
            price: self.price,
            concepts: path_view(self.concepts@),
            shop: self.shop@,
            city: self.city@,
            description: self.description@,
        }
    }
}

impl Expense {
    /// The expense that a line stands for: its six fields are the date, the
    /// price, the concepts with semicolons between them, the shop, the
    /// city and the description. None where the line has no six fields,
    /// or the date or the price cannot be read, or the price is larger
    /// than an `i64` holds with either sign.
    pub open spec fn spec_from_str(line: Seq<char>) -> Option<ExpenseView> {
        match spec_split_string_data(line) {
            Some(parts) => match (Date::spec_from_str(parts[0]), spec_parse_amount(parts[1])) {
                (Some(d), Some(p)) => if -i64::MAX <= p <= i64::MAX {
                    Some(
                        ExpenseView {
                            day_of_year: d,
                            price: p as i64,
                            concepts: trimmed_pieces(parts[2], ';'),
                            shop: parts[3],
                            city: parts[4],
                            description: parts[5],
                        },
                    )
                } else {
                    None
                },
                _ => None,
            },
            None => None,
        }
    }

    /// Reads an expense from a line of a file.
    pub fn from_str(s: &str) -> (r: Result<Expense, ParseExpenseError>)
        ensures
            match r {
                Ok(e) => Expense::spec_from_str(s@) == Some(e@),
                Err(_) => Expense::spec_from_str(s@) is None,
            },
    {
        let mut parts = match split_string_data(s) {
            Some(parts) => parts,
            None => {
                return Err(ParseExpenseError);
            },
        };
        let ghost fields = path_view(parts@);
        assert(fields[0] == parts[0]@ && fields[1] == parts[1]@ && fields[2] == parts[2]@);
        assert(fields[3] == parts[3]@ && fields[4] == parts[4]@ && fields[5] == parts[5]@);
        let date = match Date::from_str(parts[0].as_str()) {
            Ok(d) => d,
            Err(_) => {
                return Err(ParseExpenseError);
            },
        };
        let price = match parse_amount(parts[1].as_str()) {
            Some(p) => p,
            None => {
                return Err(ParseExpenseError);
            },
        };
        let concepts = split_trimmed(parts[2].as_str(), ';');
        let description = parts.pop().unwrap();
        let second = parts.pop().unwrap();
        let first = parts.pop().unwrap();
        Ok(
            Expense {
                day_of_year: date,
                price: price,
                concepts: concepts,
                shop: first,
                city: second,
                description: description,
            },
        )
    }

    /// The fields of the line of the expense.
    pub open spec fn spec_fields(self) -> Seq<Seq<char>> {
        seq![
            self.day_of_year.spec_text(),
            amount_text(self.price as int),
            join(path_view(self.concepts@), ';'),
            self.shop@,
            self.city@,
            self.description@,
        ]
    }

    /// The line of the expense in a file: its six fields in double quotes,
    /// with tabs between them.
    pub fn to_line(&self) -> (r: String)
        ensures
            r@ == line_of(self.spec_fields()),
    {
        let mut fields: Vec<String> = Vec::new();
        fields.push(self.day_of_year.to_text());
        fields.push(amount_to_text(self.price));
        fields.push(join_text(&self.concepts, ';'));
        fields.push(self.shop.clone());
        fields.push(self.city.clone());
        fields.push(self.description.clone());
        proof {
            assert(path_view(fields@) =~= self.spec_fields());
        }
        format_line(&fields)
    }
}

impl Activity for Expense {
    open spec fn spec_date(&self) -> Date {
        self.day_of_year
    }

    open spec fn spec_price(&self) -> i64 {
        self.price
    }

    open spec fn spec_concepts(&self) -> Seq<Seq<char>> {
        path_view(self.concepts@)
    }

    open spec fn spec_source(&self) -> Seq<char> {
        self.shop@
    }

    fn get_source(&self) -> (s: &String) {
        &self.shop
    }

    open spec fn spec_location(&self) -> Seq<char> {
        self.city@
    }

    fn get_location(&self) -> (s: &String) {
        &self.city
    }

    open spec fn spec_description(&self) -> Seq<char> {
        self.description@
    }

    fn get_concepts_mut(&mut self) -> (c: &mut Vec<String>) {
        &mut self.concepts
    }

    open spec fn spec_line(&self) -> Seq<char> {
        line_of(self.spec_fields())
    }

    fn line(&self) -> (r: String) {
        self.to_line()
    }

    fn get_date(&self) -> (d: &Date) {
        &self.day_of_year
    }

    fn get_price(&self) -> (p: i64) {
        self.price
    }

    fn get_concepts(&self) -> (c: &Vec<String>) {
        &self.concepts
    }
}

} // verus!
