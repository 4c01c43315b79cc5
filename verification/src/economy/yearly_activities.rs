//! The activities of one year: its expenses and its incomes, by month.

use vstd::prelude::*;
use crate::economy::expense::Expense;
use crate::economy::income::Income;
use crate::economy::monthly_activities::{
    CollectionView, MonthlyActivities, MonthlyActivitiesCollection,
};

verus! {

/// The activities of one year, as a mathematical value.
pub struct YearView {
    pub year: u32,
    pub expenses: CollectionView<Expense>,
    pub incomes: CollectionView<Income>,
}

impl YearView {
    /// Both collections are well-formed.
    pub open spec fn wf(self) -> bool {
        self.expenses.wf() && self.incomes.wf()
    }

    /// The year with the expenses and the incomes of `other` merged into
    /// its own. The year of `other` plays no part.
    pub open spec fn merge(self, other: YearView) -> YearView {
        YearView {
            year: self.year,
            expenses: self.expenses.merge(other.expenses),
            incomes: self.incomes.merge(other.incomes),
        }
    }

    /// The year with both change flags set to `c`.
    pub open spec fn with_changes(self, c: bool) -> YearView {
        YearView {
            year: self.year,
            expenses: CollectionView { changes: c, months: self.expenses.months },
            incomes: CollectionView { changes: c, months: self.incomes.months },
        }
    }

    /// A year without activities, both change flags set to `c`.
    pub open spec fn empty(y: u32, c: bool) -> YearView {
        YearView {
            year: y,
            expenses: CollectionView { changes: c, months: Seq::empty() },
            incomes: CollectionView { changes: c, months: Seq::empty() },
        }
    }

    /// The year after the expense `e` was filed under the month of its
    /// date. The expenses are marked as changed.
    pub open spec fn with_expense(self, e: Expense) -> YearView {
        YearView {
            year: self.year,
            expenses: self.expenses.with_activity(e.day_of_year.month, e),
            incomes: self.incomes,
        }
    }

    /// The year after the income `e` was filed under the month of its
    /// date. The incomes are marked as changed.
    pub open spec fn with_income(self, e: Income) -> YearView {
        YearView {
            year: self.year,
            expenses: self.expenses,
            incomes: self.incomes.with_activity(e.day_of_year.month, e),
        }
    }

    /// Merging well-formed years gives a well-formed year.
    pub proof fn lemma_merge_wf(self, other: YearView)
        requires
            self.wf(),
            other.wf(),
        ensures
            self.merge(other).wf(),
    {
        self.expenses.lemma_merge_first_wf(other.expenses.months, other.expenses.months.len());
        self.incomes.lemma_merge_first_wf(other.incomes.months, other.incomes.months.len());
    }
}

/// The activities of one year: the expenses and the incomes, each by
/// month.
#[derive(Debug)]
pub struct YearlyActivities {
    m_year: u32,
    m_expenses: MonthlyActivitiesCollection<Expense>,
    m_incomes: MonthlyActivitiesCollection<Income>,
}

impl View for YearlyActivities {
    type V = YearView;

    closed spec fn view(&self) -> YearView {
        YearView { year: self.m_year, expenses: self.m_expenses@, incomes: self.m_incomes@ }
    }
}

impl YearlyActivities {
    /// Both collections are well-formed.
    pub open spec fn wf(&self) -> bool {
        self@.wf()
    }

    /// The year 0 without activities, nothing changed.
    pub fn new() -> (r: YearlyActivities)
        ensures
            r@ == YearView::empty(0, false),
            r.wf(),
    {
        YearlyActivities {
            m_year: 0,
            m_expenses: MonthlyActivitiesCollection::new(),
            m_incomes: MonthlyActivitiesCollection::new(),
        }
    }

    /// The year `y` without activities, marked as changed.
    pub fn new_year(y: u32) -> (r: YearlyActivities)
        ensures
            r@ == YearView::empty(y, true),
            r.wf(),
    {
        YearlyActivities {
            m_year: y,
            m_expenses: MonthlyActivitiesCollection::new_changes(true),
            m_incomes: MonthlyActivitiesCollection::new_changes(true),
        }
    }

    /// The year 0 without activities, with both change flags set to `c`.
    pub fn new_changes(c: bool) -> (r: YearlyActivities)
        ensures
            r@ == YearView::empty(0, c),
            r.wf(),
    {
        YearlyActivities {
            m_year: 0,
            m_expenses: MonthlyActivitiesCollection::new_changes(c),
            m_incomes: MonthlyActivitiesCollection::new_changes(c),
        }
    }

    /// The year `y` without activities, with both change flags set to
    /// `c`.
    pub fn new_year_changes(y: u32, c: bool) -> (r: YearlyActivities)
        ensures
            r@ == YearView::empty(y, c),
            r.wf(),
    {
        YearlyActivities {
            m_year: y,
            m_expenses: MonthlyActivitiesCollection::new_changes(c),
            m_incomes: MonthlyActivitiesCollection::new_changes(c),
        }
    }

    /// An iterator over the months of the expenses, in order.
    pub fn iter_expenses(&self) -> (it: std::slice::Iter<'_, MonthlyActivities<Expense>>)
        ensures
            crate::economy::monthly_activities::months_view(
                vstd::std_specs::iter::IteratorSpec::remaining(&it).unref(),
            ) == self@.expenses.months,
            vstd::std_specs::iter::IteratorSpec::decrease(&it) is Some,
            vstd::std_specs::iter::IteratorSpec::initial_value_relation(&it, &it),
    {
        proof {
            self.m_expenses.lemma_entries();
        }
        let it = self.m_expenses.iter();
        assert(vstd::std_specs::iter::IteratorSpec::remaining(&it).unref()
            =~= self.m_expenses.entries());
        it
    }

    /// An iterator over the months of the incomes, in order.
    pub fn iter_incomes(&self) -> (it: std::slice::Iter<'_, MonthlyActivities<Income>>)
        ensures
            crate::economy::monthly_activities::months_view(
                vstd::std_specs::iter::IteratorSpec::remaining(&it).unref(),
            ) == self@.incomes.months,
            vstd::std_specs::iter::IteratorSpec::decrease(&it) is Some,
            vstd::std_specs::iter::IteratorSpec::initial_value_relation(&it, &it),
    {
        proof {
            self.m_incomes.lemma_entries();
        }
        let it = self.m_incomes.iter();
        assert(vstd::std_specs::iter::IteratorSpec::remaining(&it).unref()
            =~= self.m_incomes.entries());
        it
    }

    /// The expenses, by month.
    pub fn get_expenses(&self) -> (r: &MonthlyActivitiesCollection<Expense>)
        ensures
            r@ == self@.expenses,
    {
        &self.m_expenses
    }

    /// The expenses, to be changed; they are marked as changed. What the
    /// caller leaves is what the year holds.
    pub fn get_expenses_mut(&mut self) -> (r: &mut MonthlyActivitiesCollection<Expense>)
        ensures
            r@ == (CollectionView::<Expense> {
                changes: true,
                months: old(self)@.expenses.months,
            }),
            final(self)@ == (YearView {
                year: old(self)@.year,
                expenses: final(r)@,
                incomes: old(self)@.incomes,
            }),
            old(self).wf() && final(r).wf() ==> final(self).wf(),
    {
        self.m_expenses.set_changes(true);
        &mut self.m_expenses
    }

    /// The incomes, by month.
    pub fn get_incomes(&self) -> (r: &MonthlyActivitiesCollection<Income>)
        ensures
            r@ == self@.incomes,
    {
        &self.m_incomes
    }

    /// The incomes, to be changed; they are marked as changed. What the
    /// caller leaves is what the year holds.
    pub fn get_incomes_mut(&mut self) -> (r: &mut MonthlyActivitiesCollection<Income>)
        ensures
            r@ == (CollectionView::<Income> {
                changes: true,
                months: old(self)@.incomes.months,
            }),
            final(self)@ == (YearView {
                year: old(self)@.year,
                expenses: old(self)@.expenses,
                incomes: final(r)@,
            }),
            old(self).wf() && final(r).wf() ==> final(self).wf(),
    {
        self.m_incomes.set_changes(true);
        &mut self.m_incomes
    }

    /// The year.
    pub fn get_year(&self) -> (y: &u32)
        ensures
            *y == self@.year,
    {
        &self.m_year
    }

    /// Sets the year.
    pub fn set_year(&mut self, y: u32)
        ensures
            final(self)@ == (YearView {
                year: y,
                expenses: old(self)@.expenses,
                incomes: old(self)@.incomes,
            }),
    {
        self.m_year = y;
    }

    /// The value itself.
    pub fn as_ref(&self) -> (r: &YearlyActivities)
        ensures
            r == self,
    {
        self
    }

    /// The value itself, to be changed; both collections are marked as
    /// changed.
    pub fn as_mut(&mut self) -> (r: &mut YearlyActivities)
        ensures
            r@ == old(self)@.with_changes(true),
            final(self)@ == final(r)@,
    {
        self.set_changes(true);
        self
    }

    /// Merges the expenses and the incomes of `year_acts` into those of
    /// this year; both collections are marked as changed.
    pub fn merge(&mut self, year_acts: YearlyActivities)
        requires
            old(self).wf(),
            year_acts.wf(),
        ensures
            final(self)@ == old(self)@.merge(year_acts@),
            final(self).wf(),
    {
        self.m_expenses.merge(year_acts.m_expenses);
        self.m_incomes.merge(year_acts.m_incomes);
    }

    /// Files the expense `e` under the month of its date, at the place
    /// of its date. The expenses are marked as changed.
    pub fn add_expense(&mut self, e: Expense)
        requires
            old(self).wf(),
        ensures
            final(self)@ == old(self)@.with_expense(e),
            final(self).wf(),
    {
        let ghost pre = self@;
        let month = e.day_of_year.month;
        proof {
            pre.expenses.lemma_with_activity_wf(month, e);
            pre.expenses.lemma_add_wf(month);
        }
        self.m_expenses.add(&month).push(e);
    }

    /// Files the income `e` under the month of its date, at the place of
    /// its date. The incomes are marked as changed.
    pub fn add_income(&mut self, e: Income)
        requires
            old(self).wf(),
        ensures
            final(self)@ == old(self)@.with_income(e),
            final(self).wf(),
    {
        let ghost pre = self@;
        let month = e.day_of_year.month;
        proof {
            pre.incomes.lemma_with_activity_wf(month, e);
            pre.incomes.lemma_add_wf(month);
        }
        self.m_incomes.add(&month).push(e);
    }

    /// Whether both collections are well-formed.
    pub fn is_well_formed(&self) -> (r: bool)
        ensures
            r == self.wf(),
    {
        self.m_expenses.is_well_formed() && self.m_incomes.is_well_formed()
    }

    /// Sets both change flags.
    pub fn set_changes(&mut self, c: bool)
        ensures
            final(self)@ == old(self)@.with_changes(c),
    {
        self.m_expenses.set_changes(c);
        self.m_incomes.set_changes(c);
    }
}

impl PartialEq for YearlyActivities {
    /// Two years are equal where they have the same number, whatever
    /// they hold.
    fn eq(&self, other: &Self) -> (r: bool) {
        self.m_year == other.m_year
    }
}

impl Eq for YearlyActivities {

}

impl vstd::std_specs::cmp::PartialEqSpecImpl for YearlyActivities {
    open spec fn obeys_eq_spec() -> bool {
        true
    }

    open spec fn eq_spec(&self, other: &Self) -> bool {
        self@.year == other@.year
    }
}

impl PartialEq<u32> for YearlyActivities {
    /// A year is equal to its number.
    fn eq(&self, y: &u32) -> (r: bool) {
        self.m_year == *y
    }
}

impl vstd::std_specs::cmp::PartialEqSpecImpl<u32> for YearlyActivities {
    open spec fn obeys_eq_spec() -> bool {
        true
    }

    open spec fn eq_spec(&self, y: &u32) -> bool {
        self@.year == *y
    }
}

impl PartialOrd<u32> for YearlyActivities {
    /// A year stands to a number as its own number does.
    fn partial_cmp(&self, y: &u32) -> (r: Option<std::cmp::Ordering>) {
        if self.m_year < *y {
            Some(std::cmp::Ordering::Less)
        } else if self.m_year == *y {
            Some(std::cmp::Ordering::Equal)
        } else {
            Some(std::cmp::Ordering::Greater)
        }
    }
}

impl vstd::std_specs::cmp::PartialOrdSpecImpl<u32> for YearlyActivities {
    open spec fn obeys_partial_cmp_spec() -> bool {
        true
    }

    open spec fn partial_cmp_spec(&self, y: &u32) -> Option<std::cmp::Ordering> {
        if self@.year < *y {
            Some(std::cmp::Ordering::Less)
        } else if self@.year == *y {
            Some(std::cmp::Ordering::Equal)
        } else {
            Some(std::cmp::Ordering::Greater)
        }
    }
}

impl PartialOrd for YearlyActivities {
    /// Years are ordered by their number, whatever they hold.
    fn partial_cmp(&self, other: &Self) -> (r: Option<std::cmp::Ordering>) {
        if self.m_year < other.m_year {
            Some(std::cmp::Ordering::Less)
        } else if self.m_year == other.m_year {
            Some(std::cmp::Ordering::Equal)
        } else {
            Some(std::cmp::Ordering::Greater)
        }
    }
}

impl vstd::std_specs::cmp::PartialOrdSpecImpl for YearlyActivities {
    open spec fn obeys_partial_cmp_spec() -> bool {
        true
    }

    open spec fn partial_cmp_spec(&self, other: &Self) -> Option<std::cmp::Ordering> {
        if self@.year < other@.year {
            Some(std::cmp::Ordering::Less)
        } else if self@.year == other@.year {
            Some(std::cmp::Ordering::Equal)
        } else {
            Some(std::cmp::Ordering::Greater)
        }
    }
}

} // verus!
