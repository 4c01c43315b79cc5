//! A flat list of the types of expenses, beside the one name that stands
//! for incomes.

use vstd::prelude::*;
use crate::text::path_view;

verus! {

/// The types of expenses, in the order in which they were added, with the
/// name that stands for incomes and a flag that tells whether the list
/// may have changed.
#[derive(Debug)]
pub struct ExpenseTypes {
    changes: bool,
    pub types: Vec<String>,
    pub income_name: String,
}

/// `name` stands at place `i` and at no place before.
pub open spec fn is_first_place(names: Seq<Seq<char>>, name: Seq<char>, i: int) -> bool {
    &&& 0 <= i < names.len()
    &&& names[i] == name
    &&& forall|j: int| 0 <= j < i ==> names[j] != name
}

/// The list as a mathematical value.
pub struct ExpenseTypesView {
    pub changes: bool,
    pub types: Seq<Seq<char>>,
    pub income_name: Seq<char>,
}

impl View for ExpenseTypes {
    type V = ExpenseTypesView;

    closed spec fn view(&self) -> ExpenseTypesView {
        ExpenseTypesView {
            changes: self.changes,
            types: path_view(self.types@),
            income_name: self.income_name@,
        }
    }
}

impl ExpenseTypes {
    /// No types, nothing changed.
    pub fn new(income_name: String) -> (r: ExpenseTypes)
        ensures
            r@ == (ExpenseTypesView {
                changes: false,
                types: Seq::empty(),
                income_name: income_name@,
            }),
    {
        let r = ExpenseTypes { changes: false, types: Vec::new(), income_name };
        assert(r@.types =~= Seq::empty());
        r
    }

    /// The types `ts`, nothing changed.
    pub fn new_vec(ts: Vec<String>, income_name: String) -> (r: ExpenseTypes)
        ensures
            r@ == (ExpenseTypesView {
                changes: false,
                types: path_view(ts@),
                income_name: income_name@,
            }),
    {
        ExpenseTypes { changes: false, types: ts, income_name }
    }

    /// Whether the list may have changed.
    pub fn has_changes(&self) -> (c: bool)
        ensures
            c == self@.changes,
    {
        self.changes
    }

    /// Sets the change flag.
    pub fn set_changes(&mut self, c: bool)
        ensures
            final(self)@ == (ExpenseTypesView {
                changes: c,
                types: old(self)@.types,
                income_name: old(self)@.income_name,
            }),
    {
        self.changes = c;
    }

    /// Whether `expense_type` is one of the types.
    pub fn has_expense_type(&self, expense_type: &String) -> (r: bool)
        ensures
            r == self@.types.contains(expense_type@),
    {
        self.position_expense_type(expense_type).is_some()
    }

    /// The first place at which `expense_type` stands among the types.
    pub fn position_expense_type(&self, expense_type: &String) -> (r: Option<usize>)
        ensures
            match r {
                Some(i) => is_first_place(self@.types, expense_type@, i as int),
                None => !self@.types.contains(expense_type@),
            },
    {
        let ghost names = path_view(self.types@);
        let mut i: usize = 0;
        while i < self.types.len()
            invariant
                i <= self.types.len(),
                names == path_view(self.types@),
                forall|j: int| 0 <= j < i ==> names[j] != expense_type@,
            decreases self.types.len() - i,
        {
            assert(names[i as int] == self.types[i as int]@);
            if self.types[i] == *expense_type {
                return Some(i);
            }
            i = i + 1;
        }
        None
    }

    /// Takes the type at place `idx` out and marks the list as changed.
    pub fn remove_element(&mut self, idx: usize)
        requires
            idx < old(self)@.types.len(),
        ensures
            final(self)@ == (ExpenseTypesView {
                changes: true,
                types: old(self)@.types.remove(idx as int),
                income_name: old(self)@.income_name,
            }),
    {
        self.types.remove(idx);
        self.changes = true;
        assert(self@.types =~= old(self)@.types.remove(idx as int));
    }

    /// Puts `new_elem` in the place of the type at `idx` and marks the
    /// list as changed.
    pub fn replace_element(&mut self, idx: usize, new_elem: String)
        requires
            idx < old(self)@.types.len(),
        ensures
            final(self)@ == (ExpenseTypesView {
                changes: true,
                types: old(self)@.types.update(idx as int, new_elem@),
                income_name: old(self)@.income_name,
            }),
    {
        self.types[idx] = new_elem;
        self.changes = true;
        assert(self@.types =~= old(self)@.types.update(idx as int, new_elem@));
    }

    /// Adds `new_elem` behind the types and marks the list as changed.
    pub fn add_element(&mut self, new_elem: String)
        ensures
            final(self)@ == (ExpenseTypesView {
                changes: true,
                types: old(self)@.types.push(new_elem@),
                income_name: old(self)@.income_name,
            }),
    {
        self.types.push(new_elem);
        self.changes = true;
        assert(self@.types =~= old(self)@.types.push(new_elem@));
    }

    /// Whether `expense_type` is one of the types or the name that stands
    /// for incomes.
    pub fn is_expense_type_ok(&self, expense_type: &String) -> (r: bool)
        ensures
            r == (self@.types.contains(expense_type@) || self@.income_name == expense_type@),
    {
        let is_expense = self.has_expense_type(expense_type);
        let is_income = self.income_name == *expense_type;
        is_expense || is_income
    }
}

} // verus!
