//! The whole store: the years that hold activities, sorted by year, with
//! the first and the last year kept at hand, and the two trees of
//! concepts.

use vstd::prelude::*;
use crate::concepts::tree::TreeView;
use crate::concepts::types::{ConceptTypes, ConceptTypesView};
use crate::economy::expense::Expense;
use crate::economy::income::Income;
use crate::economy::monthly_activities::{MonthView, MonthlyActivities};
use crate::economy::yearly_activities::{YearView, YearlyActivities};
use crate::sorted::{
    ascending, lemma_insert_ascending, lemma_rank, lemma_rank_of_member, lemma_rank_parts, rank,
};
use crate::time::date::Month;

verus! {

/// The year of each entry, one for one.
pub open spec fn year_keys(years: Seq<YearView>) -> Seq<int> {
    Seq::new(years.len(), |i: int| years[i].year as int)
}

/// The views of a sequence of years, one for one.
pub open spec fn years_view(years: Seq<YearlyActivities>) -> Seq<YearView> {
    Seq::new(years.len(), |i: int| years[i]@)
}

/// The whole store, as a mathematical value.
pub struct LedgerView {
    pub min_year: u32,
    pub max_year: u32,
    pub expense_types: ConceptTypesView,
    pub income_types: ConceptTypesView,
    pub years: Seq<YearView>,
}

impl LedgerView {
    /// The years are strictly ascending.
    pub open spec fn years_ascending(self) -> bool {
        ascending(year_keys(self.years))
    }

    /// `min_year` and `max_year` are the first and the last year that is
    /// there. Where no year is there, they are the greatest and the least
    /// number, so that no year lies between them.
    pub open spec fn bounds_exact(self) -> bool {
        if self.years.len() == 0 {
            self.min_year == u32::MAX && self.max_year == 0
        } else {
            self.min_year == self.years[0].year && self.max_year == self.years.last().year
        }
    }

    /// The years are strictly ascending, so none is there twice; the
    /// bounds are exact; and each year is well-formed.
    pub open spec fn wf(self) -> bool {
        &&& self.years_ascending()
        &&& self.bounds_exact()
        &&& forall|i: int| 0 <= i < self.years.len() ==> (#[trigger] self.years[i]).wf()
    }

    /// The year `y` is there.
    pub open spec fn has_year(self, y: u32) -> bool {
        year_keys(self.years).contains(y as int)
    }

    /// The place of the year `y`, where it is there.
    pub open spec fn index_of(self, y: u32) -> int {
        year_keys(self.years).index_of(y as int)
    }

    /// The place where the year `y` stands, or would stand.
    pub open spec fn place_of(self, y: u32) -> int {
        rank(year_keys(self.years), y as int)
    }

    /// The activities of the year `y`, where it is there.
    pub open spec fn get(self, y: u32) -> Option<YearView> {
        if self.has_year(y) {
            Some(self.years[self.index_of(y)])
        } else {
            None
        }
    }

    /// The expenses of the month `m` of the year `y`, where both are
    /// there.
    pub open spec fn month_expenses(self, y: u32, m: Month) -> Option<MonthView<Expense>> {
        match self.get(y) {
            Some(year) => year.expenses.get(m),
            None => None,
        }
    }

    /// The incomes of the month `m` of the year `y`, where both are
    /// there.
    pub open spec fn month_incomes(self, y: u32, m: Month) -> Option<MonthView<Income>> {
        match self.get(y) {
            Some(year) => year.incomes.get(m),
            None => None,
        }
    }

    /// The store with `years` in the place of its years.
    pub open spec fn with_years(self, years: Seq<YearView>) -> LedgerView {
        LedgerView {
            min_year: self.min_year,
            max_year: self.max_year,
            expense_types: self.expense_types,
            income_types: self.income_types,
            years: years,
        }
    }

    /// The store with the year `yv`, which is not there, put in at its
    /// sorted place, and the bounds widened to hold it.
    pub open spec fn insert(self, yv: YearView) -> LedgerView {
        LedgerView {
            min_year: if self.min_year > yv.year {
                yv.year
            } else {
                self.min_year
            },
            max_year: if self.max_year < yv.year {
                yv.year
            } else {
                self.max_year
            },
            expense_types: self.expense_types,
            income_types: self.income_types,
            years: self.years.insert(self.place_of(yv.year), yv),
        }
    }

    /// The store after the year `y` was asked for: it is there, empty and
    /// marked as changed if it was not there before.
    pub open spec fn add_year(self, y: u32) -> LedgerView {
        if self.has_year(y) {
            self
        } else {
            self.insert(YearView::empty(y, true))
        }
    }

    /// The store after `yv` was pushed: it comes in at its sorted place
    /// unless its year is there already, in which case it is dropped.
    pub open spec fn push_year(self, yv: YearView) -> LedgerView {
        if self.has_year(yv.year) {
            self
        } else {
            self.insert(yv)
        }
    }

    /// The store after `yv` was merged in: a year that is not there comes
    /// in whole, one that is there has the activities of `yv` merged into
    /// its own.
    pub open spec fn merge(self, yv: YearView) -> LedgerView {
        if self.has_year(yv.year) {
            let i = self.index_of(yv.year);
            self.with_years(self.years.update(i, self.years[i].merge(yv)))
        } else {
            self.insert(yv)
        }
    }

    /// The store after the expense `e` was filed under the year and the
    /// month of its date.
    pub open spec fn with_expense(self, e: Expense) -> LedgerView {
        let added = self.add_year(e.day_of_year.year);
        let i = added.index_of(e.day_of_year.year);
        added.with_years(added.years.update(i, added.years[i].with_expense(e)))
    }

    /// The store after the income `e` was filed under the year and the
    /// month of its date.
    pub open spec fn with_income(self, e: Income) -> LedgerView {
        let added = self.add_year(e.day_of_year.year);
        let i = added.index_of(e.day_of_year.year);
        added.with_years(added.years.update(i, added.years[i].with_income(e)))
    }

    /// Asking for a year keeps the store well-formed, and the year is
    /// then there.
    pub proof fn lemma_add_year_wf(self, y: u32)
        requires
            self.wf(),
        ensures
            self.add_year(y).wf(),
            self.add_year(y).has_year(y),
            0 <= self.add_year(y).index_of(y) < self.add_year(y).years.len(),
            self.add_year(y).years[self.add_year(y).index_of(y)].year == y,
    {
        let added = self.add_year(y);
        if !self.has_year(y) {
            self.lemma_insert_wf(YearView::empty(y, true));
            let r = self.place_of(y);
            assert(year_keys(added.years)[r] == y);
        }
        let keys = year_keys(added.years);
        let j = keys.index_of(y as int);
        assert(keys[j] == y);
    }

    /// Replacing a year by a well-formed one of the same number keeps
    /// the store well-formed.
    pub proof fn lemma_update_wf(self, i: int, yv: YearView)
        requires
            self.wf(),
            0 <= i < self.years.len(),
            yv.wf(),
            yv.year == self.years[i].year,
        ensures
            self.with_years(self.years.update(i, yv)).wf(),
    {
        let after = self.years.update(i, yv);
        assert(year_keys(after) =~= year_keys(self.years));
        assert forall|a: int| 0 <= a < after.len() implies (#[trigger] after[a]).wf() by {
            if a != i {
                assert(after[a] == self.years[a]);
            }
        }
    }

    /// Filing an expense keeps the store well-formed.
    pub proof fn lemma_with_expense_wf(self, e: Expense)
        requires
            self.wf(),
        ensures
            self.with_expense(e).wf(),
    {
        self.lemma_add_year_wf(e.day_of_year.year);
        let added = self.add_year(e.day_of_year.year);
        let i = added.index_of(e.day_of_year.year);
        added.years[i].expenses.lemma_with_activity_wf(e.day_of_year.month, e);
        added.lemma_update_wf(i, added.years[i].with_expense(e));
    }

    /// Filing an income keeps the store well-formed.
    pub proof fn lemma_with_income_wf(self, e: Income)
        requires
            self.wf(),
        ensures
            self.with_income(e).wf(),
    {
        self.lemma_add_year_wf(e.day_of_year.year);
        let added = self.add_year(e.day_of_year.year);
        let i = added.index_of(e.day_of_year.year);
        added.years[i].incomes.lemma_with_activity_wf(e.day_of_year.month, e);
        added.lemma_update_wf(i, added.years[i].with_income(e));
    }

    /// The store with the change flags of every year set to `c`.
    pub open spec fn with_changes_activities(self, c: bool) -> LedgerView {
        self.with_years(Seq::new(self.years.len(), |i: int| self.years[i].with_changes(c)))
    }

    /// The store with every change flag set to `c`: those of the years
    /// and those of the two trees of concepts.
    pub open spec fn with_changes(self, c: bool) -> LedgerView {
        LedgerView {
            min_year: self.min_year,
            max_year: self.max_year,
            expense_types: ConceptTypesView { changes: c, tree: self.expense_types.tree },
            income_types: ConceptTypesView { changes: c, tree: self.income_types.tree },
            years: Seq::new(self.years.len(), |i: int| self.years[i].with_changes(c)),
        }
    }

    /// A year that lies outside the bounds is not there.
    pub proof fn lemma_outside_bounds(self, y: u32)
        requires
            self.wf(),
            !(self.min_year <= y <= self.max_year),
        ensures
            !self.has_year(y),
    {
        let keys = year_keys(self.years);
        if keys.contains(y as int) {
            let i = keys.index_of(y as int);
            assert(keys[i] == y);
            let last = self.years.len() - 1;
            assert(keys[0] == self.min_year && keys[last] == self.max_year);
            if 0 < i {
                assert(keys[0] < keys[i]);
            }
            if i < last {
                assert(keys[i] < keys[last]);
            }
        }
    }

    /// The bounds are the least and the greatest year that is there.
    pub proof fn lemma_bounds_are_extremes(self)
        requires
            self.wf(),
            self.years.len() > 0,
        ensures
            self.has_year(self.min_year),
            self.has_year(self.max_year),
            forall|i: int|
                0 <= i < self.years.len() ==> self.min_year <= (#[trigger] self.years[i]).year
                    <= self.max_year,
    {
        let keys = year_keys(self.years);
        let last = self.years.len() - 1;
        assert(keys[0] == self.min_year && keys[last] == self.max_year);
        assert forall|i: int| 0 <= i < self.years.len() implies self.min_year <= (
        #[trigger] self.years[i]).year <= self.max_year by {
            assert(keys[i] == self.years[i].year);
            if 0 < i {
                assert(keys[0] < keys[i]);
            }
            if i < last {
                assert(keys[i] < keys[last]);
            }
        }
    }

    /// Putting a well-formed year in, where it was not there, keeps the
    /// store well-formed.
    pub proof fn lemma_insert_wf(self, yv: YearView)
        requires
            self.wf(),
            yv.wf(),
            !self.has_year(yv.year),
        ensures
            self.insert(yv).wf(),
            0 <= self.place_of(yv.year) <= self.years.len(),
    {
        let keys = year_keys(self.years);
        let r = self.place_of(yv.year);
        lemma_rank_parts(keys, yv.year as int);
        lemma_insert_ascending(keys, yv.year as int);
        let after = self.years.insert(r, yv);
        assert(year_keys(after) =~= keys.insert(r, yv.year as int));
        assert forall|i: int| 0 <= i < after.len() implies (#[trigger] after[i]).wf() by {
            if i < r {
                assert(after[i] == self.years[i]);
            } else if i > r {
                assert(after[i] == self.years[i - 1]);
            }
        }
        if self.years.len() > 0 {
            let last = self.years.len() - 1;
            assert(keys[0] == self.min_year && keys[last] == self.max_year);
            if r == 0 {
                assert(keys[0] >= yv.year);
                assert(keys.contains(keys[0]));
                assert(after[after.len() - 1] == self.years[last]);
            } else {
                assert(keys[0] < yv.year);
                assert(after[0] == self.years[0]);
            }
            if r == self.years.len() {
                assert(keys[last] < yv.year);
            } else {
                assert(keys[last] >= yv.year);
                assert(keys.contains(keys[last]));
                assert(after[after.len() - 1] == self.years[last]);
            }
        }
    }

    /// Merging a well-formed year in keeps the store well-formed.
    pub proof fn lemma_merge_wf(self, yv: YearView)
        requires
            self.wf(),
            yv.wf(),
        ensures
            self.merge(yv).wf(),
    {
        if self.has_year(yv.year) {
            let keys = year_keys(self.years);
            let i = self.index_of(yv.year);
            let merged = self.years[i].merge(yv);
            self.years[i].lemma_merge_wf(yv);
            let after = self.years.update(i, merged);
            assert(year_keys(after) =~= keys);
            assert forall|a: int| 0 <= a < after.len() implies (#[trigger] after[a]).wf() by {
                if a != i {
                    assert(after[a] == self.years[a]);
                }
            }
        } else {
            self.lemma_insert_wf(yv);
        }
    }

    /// Setting the change flags keeps the store well-formed.
    pub proof fn lemma_with_changes_wf(self, c: bool)
        requires
            self.wf(),
        ensures
            self.with_changes_activities(c).wf(),
            self.with_changes(c).wf(),
    {
        let after = self.with_changes_activities(c).years;
        assert(year_keys(after) =~= year_keys(self.years));
        assert forall|a: int| 0 <= a < after.len() implies (#[trigger] after[a]).wf() by {
            assert(self.years[a].wf());
        }
    }
}

/// The whole store: the years that hold activities, sorted by year, and
/// the trees of the concepts of expenses and of incomes.
#[derive(Debug)]
pub struct AllActivities {
    m_min_year: u32,
    m_max_year: u32,
    m_expense_types: ConceptTypes,
    m_income_types: ConceptTypes,
    m_activities: Vec<YearlyActivities>,
}

impl View for AllActivities {
    type V = LedgerView;

    closed spec fn view(&self) -> LedgerView {
        LedgerView {
            min_year: self.m_min_year,
            max_year: self.m_max_year,
            expense_types: self.m_expense_types@,
            income_types: self.m_income_types@,
            years: years_view(self.m_activities@),
        }
    }
}

impl AllActivities {
    /// The years are strictly ascending, the bounds are exact, and each
    /// year is well-formed.
    pub open spec fn wf(&self) -> bool {
        self@.wf()
    }

    /// A store without years, with two empty trees of concepts.
    pub fn new() -> (r: AllActivities)
        ensures
            r@.years == Seq::<YearView>::empty(),
            r@.min_year == u32::MAX,
            r@.max_year == 0,
            r@.expense_types == (ConceptTypesView { changes: false, tree: TreeView::empty() }),
            r@.income_types == (ConceptTypesView { changes: false, tree: TreeView::empty() }),
            r.wf(),
    {
        let r = AllActivities {
            m_min_year: u32::MAX,
            m_max_year: 0,
            m_expense_types: ConceptTypes::new(),
            m_income_types: ConceptTypes::new(),
            m_activities: Vec::new(),
        };
        assert(r@.years =~= Seq::empty());
        r
    }

    /// The first year that is there; the greatest number where none is.
    pub fn get_min_year(&self) -> (y: u32)
        ensures
            y == self@.min_year,
    {
        self.m_min_year
    }

    /// The last year that is there; 0 where none is.
    pub fn get_max_year(&self) -> (y: u32)
        ensures
            y == self@.max_year,
    {
        self.m_max_year
    }

    /// An iterator over the years, in order.
    pub fn iter_activities(&self) -> (it: std::slice::Iter<'_, YearlyActivities>)
        ensures
            years_view(vstd::std_specs::iter::IteratorSpec::remaining(&it).unref())
                == self@.years,
            vstd::std_specs::iter::IteratorSpec::decrease(&it) is Some,
            vstd::std_specs::iter::IteratorSpec::initial_value_relation(&it, &it),
    {
        let it = self.m_activities.as_slice().iter();
        assert(vstd::std_specs::iter::IteratorSpec::remaining(&it).unref() =~= self.m_activities@);
        it
    }

    /// The years, in order.
    pub fn get_activities(&self) -> (r: &Vec<YearlyActivities>)
        ensures
            years_view(r@) == self@.years,
    {
        &self.m_activities
    }

    /// The years, to be changed; each is marked as changed. What the
    /// caller leaves is what the store holds; the order and the bounds
    /// are the caller's to keep.
    pub fn get_activities_mut(&mut self) -> (r: &mut Vec<YearlyActivities>)
        ensures
            years_view(r@) == old(self)@.with_changes_activities(true).years,
            final(self)@ == old(self)@.with_years(years_view(final(r)@)),
    {
        self.set_changes_activities(true);
        &mut self.m_activities
    }

    /// The concepts of expenses.
    pub fn get_expense_concepts(&self) -> (r: &ConceptTypes)
        ensures
            r@ == self@.expense_types,
    {
        &self.m_expense_types
    }

    /// The concepts of expenses, to be changed; they are marked as
    /// changed.
    pub fn get_expense_concepts_mut(&mut self) -> (r: &mut ConceptTypes)
        ensures
            r@ == (ConceptTypesView { changes: true, tree: old(self)@.expense_types.tree }),
            final(self)@ == (LedgerView {
                min_year: old(self)@.min_year,
                max_year: old(self)@.max_year,
                expense_types: final(r)@,
                income_types: old(self)@.income_types,
                years: old(self)@.years,
            }),
    {
        self.m_expense_types.set_changes(true);
        &mut self.m_expense_types
    }

    /// The concepts of incomes.
    pub fn get_income_concepts(&self) -> (r: &ConceptTypes)
        ensures
            r@ == self@.income_types,
    {
        &self.m_income_types
    }

    /// The concepts of incomes, to be changed; they are marked as
    /// changed.
    pub fn get_income_concepts_mut(&mut self) -> (r: &mut ConceptTypes)
        ensures
            r@ == (ConceptTypesView { changes: true, tree: old(self)@.income_types.tree }),
            final(self)@ == (LedgerView {
                min_year: old(self)@.min_year,
                max_year: old(self)@.max_year,
                expense_types: old(self)@.expense_types,
                income_types: final(r)@,
                years: old(self)@.years,
            }),
    {
        self.m_income_types.set_changes(true);
        &mut self.m_income_types
    }

    /// Binary search for the year `y`: its place, or else the place where
    /// it would stand.
    fn search(&self, y: u32) -> (r: Result<usize, usize>)
        requires
            self@.years_ascending(),
        ensures
            match r {
                Ok(i) => {
                    &&& i < self@.years.len()
                    &&& self@.years[i as int].year == y
                    &&& self@.has_year(y)
                    &&& self@.index_of(y) == i
                },
                Err(i) => {
                    &&& i <= self@.years.len()
                    &&& !self@.has_year(y)
                    &&& self@.place_of(y) == i
                },
            },
    {
        let ghost keys = year_keys(self@.years);
        let mut lo: usize = 0;
        let mut hi: usize = self.m_activities.len();
        while lo < hi
            invariant
                keys == year_keys(self@.years),
                keys.len() == self.m_activities.len(),
                ascending(keys),
                lo <= hi <= self.m_activities.len(),
                forall|j: int| 0 <= j < lo ==> #[trigger] keys[j] < y,
                forall|j: int| hi <= j < keys.len() ==> #[trigger] keys[j] > y,
            decreases hi - lo,
        {
            let mid: usize = lo + (hi - lo) / 2;
            let probe: u32 = *self.m_activities[mid].get_year();
            assert(keys[mid as int] == probe);
            if probe < y {
                proof {
                    assert forall|j: int| 0 <= j < mid + 1 implies #[trigger] keys[j] < y by {
                        if j < mid {
                            assert(keys[j] < keys[mid as int]);
                        }
                    }
                }
                lo = mid + 1;
            } else if probe == y {
                proof {
                    lemma_rank_of_member(keys, mid as int);
                }
                return Ok(mid);
            } else {
                proof {
                    assert forall|j: int| mid <= j < keys.len() implies #[trigger] keys[j] > y by {
                        if mid < j {
                            assert(keys[mid as int] < keys[j]);
                        }
                    }
                }
                hi = mid;
            }
        }
        proof {
            lemma_rank(keys, y as int, lo as int);
            if keys.contains(y as int) {
                let w = keys.index_of(y as int);
                assert(keys[w] == y);
            }
        }
        Err(lo)
    }

    /// The activities of the year `y`, where it is there. A year outside
    /// the bounds is turned down without a search.
    pub fn get_year(&self, y: &u32) -> (r: Option<&YearlyActivities>)
        requires
            self.wf(),
        ensures
            match r {
                Some(year) => self@.get(*y) == Some(year@) && year.wf(),
                None => self@.get(*y) is None,
            },
            !(self@.min_year <= *y <= self@.max_year) ==> r is None,
    {
        if !(self.m_min_year <= *y && *y <= self.m_max_year) {
            proof {
                self@.lemma_outside_bounds(*y);
            }
            return None;
        }
        match self.search(*y) {
            Ok(idx) => {
                assert(self@.years[idx as int] == self.m_activities[idx as int]@);
                Some(self.m_activities[idx].as_ref())
            },
            Err(_) => None,
        }
    }

    /// The activities of the year `y`, to be changed, where the year is
    /// there; it is then marked as changed. A year outside the bounds is
    /// turned down without a search. What the caller leaves stands in the
    /// place of the year.
    pub fn get_year_mut(&mut self, y: &u32) -> (r: Option<&mut YearlyActivities>)
        requires
            old(self).wf(),
        ensures
            match r {
                Some(year) => {
                    &&& old(self)@.has_year(*y)
                    &&& year@ == old(self)@.years[old(self)@.index_of(*y)].with_changes(true)
                    &&& year.wf()
                    &&& final(self)@ == old(self)@.with_years(
                        old(self)@.years.update(old(self)@.index_of(*y), final(year)@),
                    )
                    &&& final(year).wf() && final(year)@.year == *y ==> final(self).wf()
                },
                None => !old(self)@.has_year(*y) && final(self)@ == old(self)@,
            },
            !(old(self)@.min_year <= *y <= old(self)@.max_year) ==> r is None,
    {
        if !(self.m_min_year <= *y && *y <= self.m_max_year) {
            proof {
                self@.lemma_outside_bounds(*y);
            }
            return None;
        }
        match self.search(*y) {
            Ok(idx) => {
                assert(self@.years[idx as int] == self.m_activities[idx as int]@);
                let ghost pre = self@;
                let ghost post = *final(self);
                proof {
                    assert forall|x: YearView| x.wf() && x.year == *y implies pre.with_years(
                        #[trigger] pre.years.update(idx as int, x),
                    ).wf() by {
                        pre.lemma_update_wf(idx as int, x);
                    }
                }
                let year = self.m_activities[idx].as_mut();
                assert(post@.years =~= pre.years.update(idx as int, final(year)@));
                Some(year)
            },
            Err(_) => None,
        }
    }

    /// The expenses of the month `m` of the year `y`, where both are
    /// there.
    pub fn get_month_expenses(&self, y: &u32, m: &Month) -> (r: Option<&MonthlyActivities<Expense>>)
        requires
            self.wf(),
        ensures
            match r {
                Some(month) => self@.month_expenses(*y, *m) == Some(month@) && month.wf(),
                None => self@.month_expenses(*y, *m) is None,
            },
    {
        if let Some(year) = self.get_year(y) {
            year.get_expenses().get_month(m)
        } else {
            None
        }
    }

    /// The incomes of the month `m` of the year `y`, where both are
    /// there.
    pub fn get_month_incomes(&self, y: &u32, m: &Month) -> (r: Option<&MonthlyActivities<Income>>)
        requires
            self.wf(),
        ensures
            match r {
                Some(month) => self@.month_incomes(*y, *m) == Some(month@) && month.wf(),
                None => self@.month_incomes(*y, *m) is None,
            },
    {
        if let Some(year) = self.get_year(y) {
            year.get_incomes().get_month(m)
        } else {
            None
        }
    }

    /// Whether the year `y` is there.
    pub fn has_year(&self, y: &u32) -> (r: bool)
        requires
            self.wf(),
        ensures
            r == self@.has_year(*y),
    {
        self.search(*y).is_ok()
    }

    /// The activities of the year `y`, to be changed; the year is made,
    /// empty and marked as changed, where it is not there, and the bounds
    /// are widened to hold it. What the caller leaves stands in the place
    /// of the year.
    pub fn add_year(&mut self, y: u32) -> (r: &mut YearlyActivities)
        requires
            old(self).wf(),
        ensures
            old(self)@.add_year(y).wf(),
            old(self)@.add_year(y).get(y) == Some(r@),
            r.wf(),
            final(self)@ == old(self)@.add_year(y).with_years(
                old(self)@.add_year(y).years.update(old(self)@.add_year(y).index_of(y), final(r)@),
            ),
            r@.year == y,
            final(r).wf() && final(r)@.year == y ==> final(self).wf(),
    {
        let ghost pre = self@;
        let pos: usize = match self.search(y) {
            Ok(pos) => pos,
            Err(pos) => {
                let fresh = YearlyActivities::new_year(y);
                proof {
                    pre.lemma_insert_wf(fresh@);
                }
                self.m_activities.insert(pos, fresh);
                if self.m_min_year > y {
                    self.m_min_year = y;
                }
                if self.m_max_year < y {
                    self.m_max_year = y;
                }
                assert(self@.years =~= pre.add_year(y).years);
                pos
            },
        };
        let ghost mid = self@;
        let ghost post = *final(self);
        proof {
            assert(mid == pre.add_year(y));
            assert(year_keys(mid.years)[pos as int] == y);
            lemma_rank_of_member(year_keys(mid.years), pos as int);
        }
        assert(mid.years[pos as int] == self.m_activities[pos as int]@);
        proof {
            assert forall|x: YearView| x.wf() && x.year == y implies mid.with_years(
                #[trigger] mid.years.update(pos as int, x),
            ).wf() by {
                mid.lemma_update_wf(pos as int, x);
            }
        }
        let year = &mut self.m_activities[pos];
        assert(post@.years =~= mid.years.update(pos as int, final(year)@));
        year
    }

    /// Puts the year `y` into the store, at its sorted place, and widens
    /// the bounds to hold it, unless a year of that number is there
    /// already: then `y` is dropped and nothing changes.
    pub fn push_year(&mut self, y: YearlyActivities)
        requires
            old(self).wf(),
            y.wf(),
        ensures
            final(self)@ == old(self)@.push_year(y@),
            final(self).wf(),
    {
        let ghost pre = self@;
        let year: u32 = *y.get_year();
        match self.search(year) {
            Ok(_) => {},
            Err(pos) => {
                proof {
                    pre.lemma_insert_wf(y@);
                }
                if self.m_min_year > year {
                    self.m_min_year = year;
                }
                if self.m_max_year < year {
                    self.m_max_year = year;
                }
                self.m_activities.insert(pos, y);
                assert(self@.years =~= pre.push_year(y@).years);
            },
        }
    }

    /// Merges the year `year_acts` in: a year that is not there comes in
    /// whole, as `push_year` puts it; one that is there has the
    /// activities of the other merged into its own.
    pub fn merge(&mut self, year_acts: YearlyActivities)
        requires
            old(self).wf(),
            year_acts.wf(),
        ensures
            final(self)@ == old(self)@.merge(year_acts@),
            final(self).wf(),
    {
        let ghost pre = self@;
        let ghost yv = year_acts@;
        let year: u32 = *year_acts.get_year();
        proof {
            pre.lemma_merge_wf(yv);
        }
        match self.search(year) {
            Ok(idx) => {
                assert(self@.years[idx as int] == self.m_activities[idx as int]@);
                self.m_activities[idx].merge(year_acts);
                assert(self@.years =~= pre.merge(yv).years);
            },
            Err(_) => {
                self.push_year(year_acts);
            },
        }
    }

    /// Files the expense `e` under the year and the month of its date,
    /// at the place of its date. The year and the month are made where
    /// they are not there; the expenses of the year are marked as
    /// changed.
    pub fn add_expense(&mut self, e: Expense)
        requires
            old(self).wf(),
        ensures
            final(self)@ == old(self)@.with_expense(e),
            final(self).wf(),
    {
        let ghost pre = self@;
        proof {
            pre.lemma_with_expense_wf(e);
            pre.lemma_add_year_wf(e.day_of_year.year);
        }
        let year = e.day_of_year.year;
        self.add_year(year).add_expense(e);
    }

    /// Files the income `e` under the year and the month of its date, at
    /// the place of its date. The year and the month are made where they
    /// are not there; the incomes of the year are marked as changed.
    pub fn add_income(&mut self, e: Income)
        requires
            old(self).wf(),
        ensures
            final(self)@ == old(self)@.with_income(e),
            final(self).wf(),
    {
        let ghost pre = self@;
        proof {
            pre.lemma_with_income_wf(e);
            pre.lemma_add_year_wf(e.day_of_year.year);
        }
        let year = e.day_of_year.year;
        self.add_year(year).add_income(e);
    }

    /// Whether the years are strictly ascending, the bounds are exact,
    /// and each year is well-formed.
    pub fn is_well_formed(&self) -> (r: bool)
        ensures
            r == self.wf(),
    {
        let n: usize = self.m_activities.len();
        let ghost keys = year_keys(self@.years);
        if n == 0 {
            return self.m_min_year == u32::MAX && self.m_max_year == 0;
        }
        assert(self@.years[0] == self.m_activities[0]@);
        assert(self@.years[n - 1] == self.m_activities[n - 1]@);
        if self.m_min_year != *self.m_activities[0].get_year() || self.m_max_year
            != *self.m_activities[n - 1].get_year() {
            return false;
        }
        let mut i: usize = 0;
        while i < n
            invariant
                i <= n,
                n == self.m_activities.len(),
                keys == year_keys(self@.years),
                keys.len() == n,
                forall|k: int| 0 <= k < i && k < n - 1 ==> #[trigger] keys[k] < keys[k + 1],
                forall|k: int| 0 <= k < i ==> (#[trigger] self@.years[k]).wf(),
            decreases n - i,
        {
            assert(self@.years[i as int] == self.m_activities[i as int]@);
            if i + 1 < n {
                assert(self@.years[i + 1] == self.m_activities[i + 1]@);
                if *self.m_activities[i].get_year() >= *self.m_activities[i + 1].get_year() {
                    assert(!(keys[i as int] < keys[i + 1]));
                    return false;
                }
            }
            if !self.m_activities[i].is_well_formed() {
                return false;
            }
            i = i + 1;
        }
        proof {
            crate::sorted::lemma_neighbours_ascending(keys);
        }
        true
    }

    /// Sets the change flags of every year.
    pub fn set_changes_activities(&mut self, c: bool)
        ensures
            final(self)@ == old(self)@.with_changes_activities(c),
            old(self).wf() ==> final(self).wf(),
    {
        proof {
            if self.wf() {
                self@.lemma_with_changes_wf(c);
            }
        }
        let ghost pre = self@;
        let n: usize = self.m_activities.len();
        let mut i: usize = 0;
        while i < n
            invariant
                i <= n,
                n == self.m_activities.len(),
                self@.with_years(pre.years) == pre,
                self@.years.len() == pre.years.len(),
                forall|k: int| 0 <= k < i ==> #[trigger] self@.years[k] == pre.years[k].with_changes(c),
                forall|k: int| i <= k < n ==> #[trigger] self@.years[k] == pre.years[k],
            decreases n - i,
        {
            let ghost before = self@.years;
            let ghost nodes = self.m_activities@;
            assert(before[i as int] == nodes[i as int]@);
            self.m_activities[i].set_changes(c);
            proof {
                assert(self.m_activities@[i as int]@ == before[i as int].with_changes(c));
                assert(self@.years[i as int] == self.m_activities@[i as int]@);
                assert forall|k: int| 0 <= k < n && k != i implies #[trigger] self@.years[k]
                    == before[k] by {
                    assert(self.m_activities@[k] == nodes[k]);
                    assert(before[k] == nodes[k]@);
                }
            }
            i = i + 1;
        }
        assert(self@.years =~= pre.with_changes_activities(c).years);
    }

    /// Sets every change flag: those of the years and those of the two
    /// trees of concepts.
    pub fn set_changes(&mut self, c: bool)
        ensures
            final(self)@ == old(self)@.with_changes(c),
            old(self).wf() ==> final(self).wf(),
    {
        proof {
            if self.wf() {
                self@.lemma_with_changes_wf(c);
            }
        }
        self.m_expense_types.set_changes(c);
        self.m_income_types.set_changes(c);
        self.set_changes_activities(c);
    }
}

} // verus!
