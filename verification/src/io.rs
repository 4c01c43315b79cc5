//! What to make of a line that the user has typed.

use vstd::prelude::*;
use crate::decimal::{parse_amount, parse_number, spec_parse_amount, spec_parse_number};
use crate::text::{path_view, same_text, trim, trimmed};

verus! {

/// What a line holds where a value is asked for and an empty line ends
/// the asking.
#[derive(Debug, PartialEq, Eq, Clone)]
pub enum Answer<T> {
    /// Nothing but white space: the user gives no value.
    Empty,
    /// A value.
    Value(T),
    /// Something that is no value: the question is to be asked again.
    Again,
}

/// The line without the white space around it; none where nothing is
/// left.
pub fn read_string_or_empty(input: &str) -> (r: Option<String>)
    ensures
        match r {
            Some(s) => s@ == trim(input@) && s@.len() > 0,
            None => trim(input@).len() == 0,
        },
{
    let str = trimmed(input);
    if str.is_empty() {
        return None;
    }
    Some(str.to_owned())
}

/// A kind of number that can be read from a line.
pub trait Numeric: Sized {
    /// The number that a text stands for, if it stands for one.
    spec fn spec_read(s: Seq<char>) -> Option<Self>;

    /// The number that a text stands for, if it stands for one.
    fn read(s: &str) -> (r: Option<Self>)
        ensures
            r == Self::spec_read(s@),
    ;
}

/// A whole number.
pub trait Integral: Numeric {

}

/// An amount of money, counted in hundredths.
pub trait Decimal: Numeric {

}

impl Numeric for u8 {
    open spec fn spec_read(s: Seq<char>) -> Option<u8> {
        match spec_parse_number(s) {
            Some(v) => if v <= u8::MAX {
                Some(v as u8)
            } else {
                None
            },
            None => None,
        }
    }

    fn read(s: &str) -> (r: Option<u8>) {
        match parse_number(s, 0xFF) {
            Some(v) => Some(v as u8),
            None => None,
        }
    }
}

impl Numeric for u16 {
    open spec fn spec_read(s: Seq<char>) -> Option<u16> {
        match spec_parse_number(s) {
            Some(v) => if v <= u16::MAX {
                Some(v as u16)
            } else {
                None
            },
            None => None,
        }
    }

    fn read(s: &str) -> (r: Option<u16>) {
        match parse_number(s, 0xFFFF) {
            Some(v) => Some(v as u16),
            None => None,
        }
    }
}

impl Numeric for u32 {
    open spec fn spec_read(s: Seq<char>) -> Option<u32> {
        match spec_parse_number(s) {
            Some(v) => if v <= u32::MAX {
                Some(v as u32)
            } else {
                None
            },
            None => None,
        }
    }

    fn read(s: &str) -> (r: Option<u32>) {
        match parse_number(s, 0xFFFF_FFFF) {
            Some(v) => Some(v as u32),
            None => None,
        }
    }
}

impl Numeric for i64 {
    open spec fn spec_read(s: Seq<char>) -> Option<i64> {
        match spec_parse_amount(s) {
            Some(v) => if -i64::MAX <= v <= i64::MAX {
                Some(v as i64)
            } else {
                None
            },
            None => None,
        }
    }

    fn read(s: &str) -> (r: Option<i64>) {
        parse_amount(s)
    }
}

impl Integral for u8 {

}

impl Integral for u16 {

}

impl Integral for u32 {

}

impl Decimal for i64 {

}

/// What a line holds where a number is asked for and an empty line ends
/// the asking.
pub open spec fn spec_read_num_or_empty<T: Numeric>(input: Seq<char>) -> Answer<T> {
    if trim(input).len() == 0 {
        Answer::Empty
    } else {
        match T::spec_read(trim(input)) {
            Some(v) => Answer::Value(v),
            None => Answer::Again,
        }
    }
}

/// What a line holds where a number is asked for and an empty line ends
/// the asking: nothing, the number, or something else, after which the
/// question is to be asked again.
pub fn read_num_or_empty<T: Numeric>(input: &str) -> (r: Answer<T>)
    ensures
        r == spec_read_num_or_empty::<T>(input@),
{
    match read_string_or_empty(input) {
        Some(str) => match T::read(str.as_str()) {
            Some(value) => Answer::Value(value),
            None => Answer::Again,
        },
        None => Answer::Empty,
    }
}

/// The number that a line holds; none where the question is to be asked
/// again.
pub fn read_num<T: Numeric>(input: &str) -> (r: Option<T>)
    ensures
        r == T::spec_read(trim(input@)),
{
    T::read(trimmed(input))
}

/// What a line holds where a whole number is asked for and an empty line
/// ends the asking.
pub fn read_int_or_empty<T: Integral>(input: &str) -> (r: Answer<T>)
    ensures
        r == spec_read_num_or_empty::<T>(input@),
{
    read_num_or_empty::<T>(input)
}

/// The whole number that a line holds; none where the question is to be
/// asked again.
pub fn read_int<T: Integral>(input: &str) -> (r: Option<T>)
    ensures
        r == T::spec_read(trim(input@)),
{
    read_num::<T>(input)
}

/// What a line holds where an amount of money is asked for and an empty
/// line ends the asking.
pub fn read_float_or_empty<T: Decimal>(input: &str) -> (r: Answer<T>)
    ensures
        r == spec_read_num_or_empty::<T>(input@),
{
    read_num_or_empty::<T>(input)
}

/// The amount of money that a line holds; none where the question is to
/// be asked again.
pub fn read_float<T: Decimal>(input: &str) -> (r: Option<T>)
    ensures
        r == T::spec_read(trim(input@)),
{
    read_num::<T>(input)
}

/// What a line holds where one of several options is asked for.
#[derive(Debug, PartialEq, Eq, Clone)]
pub enum Choice {
    /// Nothing but white space: the user chooses nothing.
    Nothing,
    /// A question mark: the options are to be shown.
    List,
    /// One of the options.
    Chosen(String),
    /// Something else: the question is to be asked again.
    Again,
}

/// What a line holds where one of several options is asked for, as a
/// mathematical value.
pub enum ChoiceView {
    Nothing,
    List,
    Chosen(Seq<char>),
    Again,
}

impl View for Choice {
    type V = ChoiceView;

    open spec fn view(&self) -> ChoiceView {
        match self {
            Choice::Nothing => ChoiceView::Nothing,
            Choice::List => ChoiceView::List,
            Choice::Chosen(s) => ChoiceView::Chosen(s@),
            Choice::Again => ChoiceView::Again,
        }
    }
}

/// What a line holds where one of `options` is asked for.
pub open spec fn spec_read_from_options(options: Seq<Seq<char>>, input: Seq<char>) -> ChoiceView {
    let answer = trim(input);
    if answer.len() == 0 {
        ChoiceView::Nothing
    } else if answer == seq!['?'] {
        ChoiceView::List
    } else if options.contains(answer) {
        ChoiceView::Chosen(answer)
    } else {
        ChoiceView::Again
    }
}

/// What a line holds where one of `options` is asked for: nothing, a
/// question mark that asks for the options, one of the options, or
/// something else, after which the question is to be asked again.
pub fn read_from_options_or_empty(options: &Vec<String>, input: &str) -> (r: Choice)
    ensures
        r@ == spec_read_from_options(path_view(options@), input@),
{
    let str = match read_string_or_empty(input) {
        Some(str) => str,
        None => {
            return Choice::Nothing;
        },
    };
    let mark = "?";
    proof {
        reveal_strlit("?");
        assert(mark@ =~= seq!['?']);
    }
    if same_text(str.as_str(), mark) {
        return Choice::List;
    }
    let ghost all = path_view(options@);
    let mut i: usize = 0;
    while i < options.len()
        invariant
            i <= options.len(),
            all == path_view(options@),
            str@ == trim(input@),
            str@.len() > 0,
            str@ != seq!['?'],
            forall|k: int| 0 <= k < i ==> all[k] != str@,
        decreases options.len() - i,
    {
        assert(all[i as int] == options[i as int]@);
        if options[i] == str {
            assert(all.contains(str@));
            return Choice::Chosen(str);
        }
        i = i + 1;
    }
    Choice::Again
}

/// The option that a line holds, where it is a number from `min_valid` to
/// `max_valid`; none where the question is to be asked again.
pub fn read_option(input: &str, min_valid: u32, max_valid: u32) -> (r: Option<u32>)
    ensures
        r == match u32::spec_read(trim(input@)) {
            Some(option) => if min_valid <= option <= max_valid {
                Some(option)
            } else {
                None
            },
            None => None,
        },
{
    match read_int::<u32>(input) {
        Some(option) => if min_valid <= option && option <= max_valid {
            Some(option)
        } else {
            None
        },
        None => None,
    }
}

} // verus!
