//! What the store needs to know of an activity.

use vstd::prelude::*;
use crate::text::path_view;
use crate::time::date::Date;

verus! {

/// A dated, priced entry that is filed under a path of concepts.
pub trait Activity: Sized {
    /// The day of the activity, by which the store orders it.
    spec fn spec_date(&self) -> Date;

    /// The amount of money, in hundredths of the currency unit.
    spec fn spec_price(&self) -> i64;

    /// The path of concepts, from the general to the specific.
    spec fn spec_concepts(&self) -> Seq<Seq<char>>;

    /// Whom the money went to or came from: the shop of an expense, the
    /// giver of an income.
    spec fn spec_source(&self) -> Seq<char>;

    /// Where it happened: the city of an expense, the place of an income.
    spec fn spec_location(&self) -> Seq<char>;

    /// The free text that describes the activity.
    spec fn spec_description(&self) -> Seq<char>;

    /// The line of the activity in a file.
    spec fn spec_line(&self) -> Seq<char>;

    /// The day of the activity.
    fn get_date(&self) -> (d: &Date)
        ensures
            *d == self.spec_date(),
    ;

    /// The amount of money, in hundredths of the currency unit.
    fn get_price(&self) -> (p: i64)
        ensures
            p == self.spec_price(),
    ;

    /// The path of concepts, from the general to the specific.
    fn get_concepts(&self) -> (c: &Vec<String>)
        ensures
            path_view(c@) == self.spec_concepts(),
    ;

    /// Whom the money went to or came from: the shop of an expense, the
    /// giver of an income.
    fn get_source(&self) -> (s: &String)
        ensures
            s@ == self.spec_source(),
    ;

    /// Where it happened: the city of an expense, the place of an income.
    fn get_location(&self) -> (s: &String)
        ensures
            s@ == self.spec_location(),
    ;

    /// The path of concepts, to be changed. What the caller leaves is the
    /// path of the activity; nothing else of it changes.
    fn get_concepts_mut(&mut self) -> (c: &mut Vec<String>)
        ensures
            path_view(c@) == old(self).spec_concepts(),
            final(self).spec_concepts() == path_view(final(c)@),
            final(self).spec_date() == old(self).spec_date(),
            final(self).spec_price() == old(self).spec_price(),
            final(self).spec_source() == old(self).spec_source(),
            final(self).spec_location() == old(self).spec_location(),
            final(self).spec_description() == old(self).spec_description(),
    ;

    /// The line of the activity in a file: its six fields in double
    /// quotes, with tabs between them.
    fn line(&self) -> (r: String)
        ensures
            r@ == self.spec_line(),
    ;
}

} // verus!
