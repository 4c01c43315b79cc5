//! The activities of one month, sorted by date, and the months of a year
//! that hold activities, sorted by month.

use vstd::prelude::*;
use crate::economy::traits::Activity;
use crate::sorted::{
    ascending, lemma_insert_ascending, lemma_rank, lemma_rank_of_member, lemma_rank_parts, rank,
};
use crate::text::Comparison;
use crate::time::date::{Date, Month};

verus! {

/// The activities are in ascending order of date; equal dates may stand
/// side by side.
pub open spec fn dates_sorted<T: Activity>(s: Seq<T>) -> bool {
    forall|i: int, j: int|
        0 <= i < j < s.len() ==> (#[trigger] s[i]).spec_date().le((#[trigger] s[j]).spec_date())
}

/// The number of activities that are not after `d`: the place behind the
/// last activity of that date or an earlier one.
pub open spec fn upper_place<T: Activity>(s: Seq<T>, d: Date) -> int
    decreases s.len(),
{
    if s.len() == 0 {
        0
    } else {
        upper_place(s.drop_last(), d) + if s.last().spec_date().le(d) {
            1int
        } else {
            0int
        }
    }
}

/// The sorted activities with `e` put in behind those of its date.
pub open spec fn place<T: Activity>(s: Seq<T>, e: T) -> Seq<T> {
    s.insert(upper_place(s, e.spec_date()), e)
}

/// The sorted activities with the first `n` of `other` put in, one after
/// the other.
pub open spec fn place_first<T: Activity>(s: Seq<T>, other: Seq<T>, n: nat) -> Seq<T>
    decreases n,
{
    if n == 0 || n > other.len() {
        s
    } else {
        place(place_first(s, other, (n - 1) as nat), other[n - 1])
    }
}

/// The sorted activities with all of `other` put in, one after the other.
pub open spec fn place_all<T: Activity>(s: Seq<T>, other: Seq<T>) -> Seq<T> {
    place_first(s, other, other.len())
}

/// A place that parts the activities that are not after `d` from those
/// that are is the upper place of `d`.
pub proof fn lemma_upper_place<T: Activity>(s: Seq<T>, d: Date, i: int)
    requires
        0 <= i <= s.len(),
        forall|j: int| 0 <= j < i ==> (#[trigger] s[j]).spec_date().le(d),
        forall|j: int| i <= j < s.len() ==> !(#[trigger] s[j]).spec_date().le(d),
    ensures
        upper_place(s, d) == i,
    decreases s.len(),
{
    if s.len() > 0 {
        let rest = s.drop_last();
        assert forall|j: int| 0 <= j < rest.len() implies rest[j] == s[j] by {}
        if i == s.len() {
            assert(s[s.len() - 1].spec_date().le(d));
            lemma_upper_place(rest, d, i - 1);
        } else {
            assert(!s[s.len() - 1].spec_date().le(d));
            lemma_upper_place(rest, d, i);
        }
    }
}

/// Among sorted activities, those that are not after `d` are exactly the
/// ones below its upper place.
pub proof fn lemma_upper_place_parts<T: Activity>(s: Seq<T>, d: Date)
    requires
        dates_sorted(s),
    ensures
        0 <= upper_place(s, d) <= s.len(),
        forall|j: int| 0 <= j < upper_place(s, d) ==> (#[trigger] s[j]).spec_date().le(d),
        forall|j: int| upper_place(s, d) <= j < s.len() ==> !(#[trigger] s[j]).spec_date().le(d),
    decreases s.len(),
{
    if s.len() > 0 {
        let rest = s.drop_last();
        let last = s.len() - 1;
        assert forall|j: int| 0 <= j < rest.len() implies rest[j] == s[j] by {}
        assert(dates_sorted(rest)) by {
            assert forall|i: int, j: int| 0 <= i < j < rest.len() implies (#[trigger] rest[i]).spec_date().le(
                (#[trigger] rest[j]).spec_date(),
            ) by {
                assert(rest[i] == s[i] && rest[j] == s[j]);
            }
        }
        lemma_upper_place_parts(rest, d);
        if s[last].spec_date().le(d) {
            assert forall|j: int| 0 <= j < last implies (#[trigger] s[j]).spec_date().le(d) by {
                Date::lemma_order(s[j].spec_date(), s[last].spec_date(), d);
            }
            if upper_place(rest, d) < last {
                assert(!rest[upper_place(rest, d)].spec_date().le(d));
            }
        }
    }
}

/// Putting an activity in behind those of its date keeps the order.
pub proof fn lemma_place_sorted<T: Activity>(s: Seq<T>, e: T)
    requires
        dates_sorted(s),
    ensures
        dates_sorted(place(s, e)),
        place(s, e).len() == s.len() + 1,
{
    let d = e.spec_date();
    let r = upper_place(s, d);
    lemma_upper_place_parts(s, d);
    let after = place(s, e);
    assert forall|i: int, j: int| 0 <= i < j < after.len() implies (#[trigger] after[i]).spec_date().le(
        (#[trigger] after[j]).spec_date(),
    ) by {
        if j < r {
            assert(after[i] == s[i] && after[j] == s[j]);
        } else if j == r {
            assert(after[i] == s[i]);
        } else if i == r {
            assert(after[j] == s[j - 1]);
            Date::lemma_order(d, s[j - 1].spec_date(), d);
        } else if i < r {
            assert(after[i] == s[i] && after[j] == s[j - 1]);
        } else {
            assert(after[i] == s[i - 1] && after[j] == s[j - 1]);
        }
    }
}

/// Putting activities in one after the other keeps the order.
pub proof fn lemma_place_first_sorted<T: Activity>(s: Seq<T>, other: Seq<T>, n: nat)
    requires
        dates_sorted(s),
        n <= other.len(),
    ensures
        dates_sorted(place_first(s, other, n)),
        place_first(s, other, n).len() == s.len() + n,
    decreases n,
{
    if n > 0 {
        lemma_place_first_sorted(s, other, (n - 1) as nat);
        lemma_place_sorted(place_first(s, other, (n - 1) as nat), other[n - 1]);
    }
}

/// Among activities of which none is after the next, none is after any
/// that follows.
pub proof fn lemma_neighbours_sorted<T: Activity>(s: Seq<T>, i: int, j: int)
    requires
        forall|k: int| 0 <= k < s.len() - 1 ==> (#[trigger] s[k]).spec_date().le(s[k + 1].spec_date()),
        0 <= i < j < s.len(),
    ensures
        s[i].spec_date().le(s[j].spec_date()),
    decreases j - i,
{
    if i + 1 < j {
        lemma_neighbours_sorted(s, i, j - 1);
        assert(s[j - 1].spec_date().le(s[j - 1 + 1].spec_date()));
        Date::lemma_order(s[i].spec_date(), s[j - 1].spec_date(), s[j].spec_date());
    } else {
        assert(s[i].spec_date().le(s[i + 1].spec_date()));
    }
}

/// The activities of one month, as a mathematical value.
pub struct MonthView<T> {
    pub month: Month,
    pub activities: Seq<T>,
}

impl<T: Activity> MonthView<T> {
    /// The activities are in ascending order of date.
    pub open spec fn wf(self) -> bool {
        dates_sorted(self.activities)
    }

    /// The month with the activities of `other` put in, one after the
    /// other in their order, each behind those of its date.
    pub open spec fn merge(self, other: MonthView<T>) -> MonthView<T> {
        MonthView { month: self.month, activities: place_all(self.activities, other.activities) }
    }
}

/// The activities of one month, sorted by date.
#[derive(Debug)]
pub struct MonthlyActivities<T> {
    m_month: Month,
    m_activities: Vec<T>,
}

impl<T: Activity> View for MonthlyActivities<T> {
    type V = MonthView<T>;

    closed spec fn view(&self) -> MonthView<T> {
        MonthView { month: self.m_month, activities: self.m_activities@ }
    }
}

impl<T: Activity> MonthlyActivities<T> {
    /// The activities are in ascending order of date.
    pub open spec fn wf(&self) -> bool {
        self@.wf()
    }

    /// An empty January.
    pub fn new() -> (r: Self)
        ensures
            r@ == (MonthView::<T> { month: Month::January, activities: Seq::empty() }),
            r.wf(),
    {
        MonthlyActivities { m_month: Month::January, m_activities: Vec::new() }
    }

    /// The month `m`, empty.
    pub fn new_month(m: &Month) -> (r: Self)
        ensures
            r@ == (MonthView::<T> { month: *m, activities: Seq::empty() }),
            r.wf(),
    {
        MonthlyActivities { m_month: *m, m_activities: Vec::new() }
    }

    /// The value itself.
    pub fn as_ref(&self) -> (r: &Self)
        ensures
            r == self,
    {
        self
    }

    /// The value itself, to be changed.
    pub fn as_mut(&mut self) -> (r: &mut Self)
        ensures
            *r == *old(self),
            *final(self) == *final(r),
    {
        self
    }

    /// An iterator over the activities, in order.
    pub fn iter(&self) -> (it: std::slice::Iter<'_, T>)
        ensures
            vstd::std_specs::iter::IteratorSpec::remaining(&it) == self@.activities.as_ref(),
            vstd::std_specs::iter::IteratorSpec::decrease(&it) is Some,
            vstd::std_specs::iter::IteratorSpec::initial_value_relation(&it, &it),
    {
        self.m_activities.as_slice().iter()
    }

    /// The activities, in order.
    pub fn get_activities(&self) -> (r: &Vec<T>)
        ensures
            r@ == self@.activities,
    {
        &self.m_activities
    }

    /// The activities, to be changed. What the caller leaves is what the
    /// month holds; the order is the caller's to keep.
    pub fn get_activities_mut(&mut self) -> (r: &mut Vec<T>)
        ensures
            r@ == old(self)@.activities,
            final(self)@ == (MonthView::<T> {
                month: old(self)@.month,
                activities: final(r)@,
            }),
    {
        &mut self.m_activities
    }

    /// The month.
    pub fn get_month(&self) -> (m: &Month)
        ensures
            *m == self@.month,
    {
        &self.m_month
    }

    /// The activity at place `i`.
    pub fn get(&self, i: usize) -> (r: &T)
        requires
            i < self@.activities.len(),
        ensures
            *r == self@.activities[i as int],
    {
        &self.m_activities[i]
    }

    /// The activity at place `i`, to be changed. What the caller leaves
    /// stands at that place; the order is the caller's to keep.
    pub fn get_mut(&mut self, i: usize) -> (r: &mut T)
        requires
            i < old(self)@.activities.len(),
        ensures
            *r == old(self)@.activities[i as int],
            final(self)@ == (MonthView::<T> {
                month: old(self)@.month,
                activities: old(self)@.activities.update(i as int, *final(r)),
            }),
    {
        &mut self.m_activities[i]
    }

    /// The place behind the last activity that is not after `d`.
    fn upper_bound(v: &Vec<T>, d: &Date) -> (pos: usize)
        requires
            dates_sorted(v@),
        ensures
            pos == upper_place(v@, *d),
            pos <= v.len(),
    {
        let mut lo: usize = 0;
        let mut hi: usize = v.len();
        while lo < hi
            invariant
                dates_sorted(v@),
                lo <= hi <= v.len(),
                forall|j: int| 0 <= j < lo ==> (#[trigger] v@[j]).spec_date().le(*d),
                forall|j: int| hi <= j < v.len() ==> !(#[trigger] v@[j]).spec_date().le(*d),
            decreases hi - lo,
        {
            let mid: usize = lo + (hi - lo) / 2;
            match v[mid].get_date().compare(d) {
                Comparison::Greater => {
                    proof {
                        assert forall|j: int| mid <= j < v.len() implies !(#[trigger] v@[j]).spec_date().le(
                            *d,
                        ) by {
                            Date::lemma_order(v@[mid as int].spec_date(), v@[j].spec_date(), *d);
                        }
                    }
                    hi = mid;
                },
                _ => {
                    proof {
                        assert forall|j: int| 0 <= j < mid + 1 implies (#[trigger] v@[j]).spec_date().le(
                            *d,
                        ) by {
                            Date::lemma_order(v@[j].spec_date(), v@[mid as int].spec_date(), *d);
                        }
                    }
                    lo = mid + 1;
                },
            }
        }
        proof {
            lemma_upper_place(v@, *d, lo as int);
        }
        lo
    }

    /// Puts `d` into the sorted vector, behind the activities of its
    /// date.
    fn add_to_vector(v: &mut Vec<T>, d: T)
        requires
            dates_sorted(old(v)@),
        ensures
            final(v)@ == place(old(v)@, d),
            dates_sorted(final(v)@),
    {
        let pos = Self::upper_bound(v, d.get_date());
        proof {
            lemma_place_sorted(v@, d);
        }
        v.insert(pos, d);
    }

    /// Puts an activity into the month, at the place of its date and
    /// behind the activities of the same date.
    pub fn push(&mut self, exp: T)
        requires
            old(self).wf(),
        ensures
            final(self)@ == (MonthView::<T> {
                month: old(self)@.month,
                activities: place(old(self)@.activities, exp),
            }),
            final(self).wf(),
    {
        Self::add_to_vector(&mut self.m_activities, exp);
    }

    /// Takes the activity at place `i` out.
    pub fn remove(&mut self, i: usize)
        requires
            i < old(self)@.activities.len(),
        ensures
            final(self)@ == (MonthView::<T> {
                month: old(self)@.month,
                activities: old(self)@.activities.remove(i as int),
            }),
            old(self).wf() ==> final(self).wf(),
    {
        self.m_activities.remove(i);
        proof {
            if old(self).wf() {
                let before = old(self)@.activities;
                let after = self@.activities;
                assert forall|a: int, b: int| 0 <= a < b < after.len() implies (#[trigger] after[a]).spec_date().le(
                    (#[trigger] after[b]).spec_date(),
                ) by {
                    let a0 = if a < i { a } else { a + 1 };
                    let b0 = if b < i { b } else { b + 1 };
                    assert(after[a] == before[a0] && after[b] == before[b0]);
                }
            }
        }
    }

    /// Whether the activities are in ascending order of date.
    pub fn is_well_formed(&self) -> (r: bool)
        ensures
            r == self.wf(),
    {
        let n: usize = self.m_activities.len();
        let mut i: usize = 0;
        while i < n && i + 1 < n
            invariant
                n == self.m_activities.len(),
                forall|k: int|
                    0 <= k < i && k < n - 1 ==> (#[trigger] self.m_activities@[k]).spec_date().le(
                        self.m_activities@[k + 1].spec_date(),
                    ),
            decreases n - i,
        {
            match self.m_activities[i].get_date().compare(self.m_activities[i + 1].get_date()) {
                Comparison::Greater => {
                    assert(!self.m_activities@[i as int].spec_date().le(
                        self.m_activities@[i + 1].spec_date(),
                    ));
                    return false;
                },
                _ => {},
            }
            i = i + 1;
        }
        proof {
            let s = self.m_activities@;
            assert forall|a: int, b: int| 0 <= a < b < s.len() implies (#[trigger] s[a]).spec_date().le(
                (#[trigger] s[b]).spec_date(),
            ) by {
                lemma_neighbours_sorted(s, a, b);
            }
        }
        true
    }

    /// The number of activities.
    pub fn size(&self) -> (n: usize)
        ensures
            n == self@.activities.len(),
    {
        self.m_activities.len()
    }

    /// Puts every activity of `month` into this month, one after the
    /// other in their order, each as `push` does. The month of `month`
    /// plays no part.
    pub fn merge(&mut self, month: MonthlyActivities<T>)
        requires
            old(self).wf(),
        ensures
            final(self)@ == old(self)@.merge(month@),
            final(self).wf(),
    {
        let ghost pre = self@.activities;
        let ghost other = month@.activities;
        for e in it: month.m_activities
            invariant
                it.seq() == other,
                self.m_month == old(self).m_month,
                dates_sorted(self.m_activities@),
                self.m_activities@ == place_first(pre, other, it.index() as nat),
        {
            Self::add_to_vector(&mut self.m_activities, e);
        }
    }
}

/// The months of the year of each entry, one for one.
pub open spec fn month_keys<T>(months: Seq<MonthView<T>>) -> Seq<int> {
    Seq::new(months.len(), |i: int| months[i].month.spec_index())
}

/// The months of a year that hold activities, as a mathematical value.
pub struct CollectionView<T> {
    pub changes: bool,
    pub months: Seq<MonthView<T>>,
}

impl<T: Activity> CollectionView<T> {
    /// The months are in strictly ascending order, so none is there
    /// twice, and the activities of each are in ascending order of date.
    pub open spec fn wf(self) -> bool {
        &&& ascending(month_keys(self.months))
        &&& forall|i: int| 0 <= i < self.months.len() ==> (#[trigger] self.months[i]).wf()
    }

    /// The month `m` is there.
    pub open spec fn has_month(self, m: Month) -> bool {
        month_keys(self.months).contains(m.spec_index())
    }

    /// The place of the month `m`, where it is there.
    pub open spec fn index_of(self, m: Month) -> int {
        month_keys(self.months).index_of(m.spec_index())
    }

    /// The place where the month `m` stands, or would stand.
    pub open spec fn place_of(self, m: Month) -> int {
        rank(month_keys(self.months), m.spec_index())
    }

    /// The activities of the month `m`, where it is there.
    pub open spec fn get(self, m: Month) -> Option<MonthView<T>> {
        if self.has_month(m) {
            Some(self.months[self.index_of(m)])
        } else {
            None
        }
    }

    /// The months with `mv` in the place of the month of that name.
    pub open spec fn set(self, mv: MonthView<T>) -> Seq<MonthView<T>> {
        self.months.update(self.index_of(mv.month), mv)
    }

    /// The collection after the month `m` was asked for: it is there,
    /// empty if it was not there before, and the collection is marked as
    /// changed.
    pub open spec fn add(self, m: Month) -> CollectionView<T> {
        CollectionView {
            changes: true,
            months: if self.has_month(m) {
                self.months
            } else {
                self.months.insert(self.place_of(m), MonthView { month: m, activities: Seq::empty() })
            },
        }
    }

    /// The collection after `mv` was pushed: it comes in at its sorted
    /// place unless its month is there already, in which case it is
    /// dropped. Either way the collection is marked as changed.
    pub open spec fn push(self, mv: MonthView<T>) -> CollectionView<T> {
        CollectionView {
            changes: true,
            months: if self.has_month(mv.month) {
                self.months
            } else {
                self.months.insert(self.place_of(mv.month), mv)
            },
        }
    }

    /// The collection after `mv` was merged in: a month that is not there
    /// comes in whole, at its sorted place; one that is there has the
    /// activities of `mv` merged into its own.
    pub open spec fn merge_month(self, mv: MonthView<T>) -> CollectionView<T> {
        CollectionView {
            changes: true,
            months: if self.has_month(mv.month) {
                self.set(self.months[self.index_of(mv.month)].merge(mv))
            } else {
                self.months.insert(self.place_of(mv.month), mv)
            },
        }
    }

    /// The collection after the first `n` months of `other` were merged
    /// in, one after the other.
    pub open spec fn merge_first(self, other: Seq<MonthView<T>>, n: nat) -> CollectionView<T>
        decreases n,
    {
        if n == 0 || n > other.len() {
            CollectionView { changes: true, months: self.months }
        } else {
            self.merge_first(other, (n - 1) as nat).merge_month(other[n - 1])
        }
    }

    /// The collection after every month of `other` was merged in, and
    /// marked as changed.
    pub open spec fn merge(self, other: CollectionView<T>) -> CollectionView<T> {
        self.merge_first(other.months, other.months.len())
    }

    /// The collection after the activity `e` was filed under the month
    /// `m`: the month is there, and holds `e` at the place of its date.
    /// The collection is marked as changed.
    pub open spec fn with_activity(self, m: Month, e: T) -> CollectionView<T> {
        let added = self.add(m);
        let j = added.index_of(m);
        let month = added.months[j];
        CollectionView {
            changes: true,
            months: added.months.update(
                j,
                MonthView { month: month.month, activities: place(month.activities, e) },
            ),
        }
    }

    /// Asking for a month keeps the collection well-formed, and the
    /// month is then there.
    pub proof fn lemma_add_wf(self, m: Month)
        requires
            self.wf(),
        ensures
            self.add(m).wf(),
            self.add(m).has_month(m),
            0 <= self.add(m).index_of(m) < self.add(m).months.len(),
            self.add(m).months[self.add(m).index_of(m)].month == m,
    {
        let added = self.add(m);
        if !self.has_month(m) {
            let fresh = MonthView::<T> { month: m, activities: Seq::empty() };
            self.lemma_insert_wf(fresh);
            let r = self.place_of(m);
            assert(month_keys(added.months)[r] == m.spec_index());
        }
        let keys = month_keys(added.months);
        let j = keys.index_of(m.spec_index());
        assert(keys[j] == m.spec_index());
        added.months[j].month.lemma_index_injective(m);
    }

    /// Filing an activity keeps the collection well-formed.
    pub proof fn lemma_with_activity_wf(self, m: Month, e: T)
        requires
            self.wf(),
        ensures
            self.with_activity(m, e).wf(),
    {
        self.lemma_add_wf(m);
        let added = self.add(m);
        let j = added.index_of(m);
        let month = added.months[j];
        let grown = MonthView { month: month.month, activities: place(month.activities, e) };
        lemma_place_sorted(month.activities, e);
        added.lemma_set_wf(grown);
    }

    /// A month put in at its place, where it was not there, keeps the
    /// collection well-formed.
    pub proof fn lemma_insert_wf(self, mv: MonthView<T>)
        requires
            self.wf(),
            mv.wf(),
            !self.has_month(mv.month),
        ensures
            (CollectionView { changes: true, months: self.months.insert(self.place_of(mv.month), mv) }).wf(),
            0 <= self.place_of(mv.month) <= self.months.len(),
    {
        let keys = month_keys(self.months);
        let r = self.place_of(mv.month);
        lemma_rank_parts(keys, mv.month.spec_index());
        lemma_insert_ascending(keys, mv.month.spec_index());
        let after = self.months.insert(r, mv);
        assert(month_keys(after) =~= keys.insert(r, mv.month.spec_index()));
        assert forall|i: int| 0 <= i < after.len() implies (#[trigger] after[i]).wf() by {
            if i < r {
                assert(after[i] == self.months[i]);
            } else if i > r {
                assert(after[i] == self.months[i - 1]);
            }
        }
    }

    /// Replacing a month by a well-formed one of the same name keeps the
    /// collection well-formed.
    pub proof fn lemma_set_wf(self, mv: MonthView<T>)
        requires
            self.wf(),
            mv.wf(),
            self.has_month(mv.month),
        ensures
            (CollectionView { changes: true, months: self.set(mv) }).wf(),
    {
        let keys = month_keys(self.months);
        let i = self.index_of(mv.month);
        let after = self.set(mv);
        assert(month_keys(after) =~= keys);
        assert forall|a: int| 0 <= a < after.len() implies (#[trigger] after[a]).wf() by {
            if a != i {
                assert(after[a] == self.months[a]);
            }
        }
    }

    /// Merging a well-formed month in keeps the collection well-formed.
    pub proof fn lemma_merge_month_wf(self, mv: MonthView<T>)
        requires
            self.wf(),
            mv.wf(),
        ensures
            self.merge_month(mv).wf(),
    {
        if self.has_month(mv.month) {
            let i = self.index_of(mv.month);
            let own = self.months[i];
            assert(month_keys(self.months)[i] == own.month.spec_index());
            own.month.lemma_index_injective(mv.month);
            lemma_place_first_sorted(own.activities, mv.activities, mv.activities.len());
            self.lemma_set_wf(own.merge(mv));
            assert(self.set(own.merge(mv)) == self.months.update(i, own.merge(mv)));
        } else {
            self.lemma_insert_wf(mv);
        }
    }

    /// Merging well-formed months in keeps the collection well-formed.
    pub proof fn lemma_merge_first_wf(self, other: Seq<MonthView<T>>, n: nat)
        requires
            self.wf(),
            forall|i: int| 0 <= i < other.len() ==> (#[trigger] other[i]).wf(),
        ensures
            self.merge_first(other, n).wf(),
        decreases n,
    {
        if n == 0 || n > other.len() {
        } else {
            self.lemma_merge_first_wf(other, (n - 1) as nat);
            self.merge_first(other, (n - 1) as nat).lemma_merge_month_wf(other[n - 1]);
        }
    }
}

/// The views of a sequence of months, one for one.
pub open spec fn months_view<T: Activity>(months: Seq<MonthlyActivities<T>>) -> Seq<MonthView<T>> {
    Seq::new(months.len(), |i: int| months[i]@)
}

/// The months of a year that hold activities, sorted by month, with a
/// flag that tells whether they may have changed.
#[derive(Debug)]
pub struct MonthlyActivitiesCollection<T> {
    m_changes: bool,
    m_activities: Vec<MonthlyActivities<T>>,
}

impl<T: Activity> View for MonthlyActivitiesCollection<T> {
    type V = CollectionView<T>;

    closed spec fn view(&self) -> CollectionView<T> {
        CollectionView { changes: self.m_changes, months: months_view(self.m_activities@) }
    }
}

impl<T: Activity> MonthlyActivitiesCollection<T> {
    /// The months are in strictly ascending order and the activities of
    /// each are in ascending order of date.
    pub open spec fn wf(&self) -> bool {
        self@.wf()
    }

    /// No months, nothing changed.
    pub fn new() -> (r: Self)
        ensures
            r@ == (CollectionView::<T> { changes: false, months: Seq::empty() }),
            r.wf(),
    {
        let r = MonthlyActivitiesCollection { m_changes: false, m_activities: Vec::new() };
        assert(r@.months =~= Seq::empty());
        r
    }

    /// No months, with the change flag as given.
    pub fn new_changes(changes: bool) -> (r: Self)
        ensures
            r@ == (CollectionView::<T> { changes: changes, months: Seq::empty() }),
            r.wf(),
    {
        let r = MonthlyActivitiesCollection { m_changes: changes, m_activities: Vec::new() };
        assert(r@.months =~= Seq::empty());
        r
    }

    /// The months, in order.
    pub closed spec fn entries(&self) -> Seq<MonthlyActivities<T>> {
        self.m_activities@
    }

    /// The view holds the views of the months, one for one.
    pub proof fn lemma_entries(&self)
        ensures
            self@.months == months_view(self.entries()),
    {
    }

    /// An iterator over the months, in order.
    pub fn iter(&self) -> (it: std::slice::Iter<'_, MonthlyActivities<T>>)
        ensures
            vstd::std_specs::iter::IteratorSpec::remaining(&it) == self.entries().as_ref(),
            vstd::std_specs::iter::IteratorSpec::decrease(&it) is Some,
            vstd::std_specs::iter::IteratorSpec::initial_value_relation(&it, &it),
    {
        self.m_activities.as_slice().iter()
    }

    /// The months, in order.
    pub fn get_activities(&self) -> (r: &Vec<MonthlyActivities<T>>)
        ensures
            r@ == self.entries(),
            months_view(r@) == self@.months,
    {
        &self.m_activities
    }

    /// The months, to be changed; the collection is marked as changed.
    /// What the caller leaves is what the collection holds; the order is
    /// the caller's to keep.
    pub fn get_activities_mut(&mut self) -> (r: &mut Vec<MonthlyActivities<T>>)
        ensures
            months_view(r@) == old(self)@.months,
            final(self)@ == (CollectionView::<T> {
                changes: true,
                months: months_view(final(r)@),
            }),
    {
        self.set_changes(true);
        &mut self.m_activities
    }

    /// Whether the collection may have changed.
    pub fn has_changes(&self) -> (c: bool)
        ensures
            c == self@.changes,
    {
        self.m_changes
    }

    /// Sets the change flag.
    pub fn set_changes(&mut self, c: bool)
        ensures
            final(self)@ == (CollectionView::<T> { changes: c, months: old(self)@.months }),
    {
        self.m_changes = c;
    }

    /// Binary search for the month `m`: its place, or else the place
    /// where it would stand.
    fn search(&self, m: &Month) -> (r: Result<usize, usize>)
        requires
            self.wf(),
        ensures
            match r {
                Ok(i) => {
                    &&& i < self@.months.len()
                    &&& self@.months[i as int].month == *m
                    &&& self@.has_month(*m)
                    &&& self@.index_of(*m) == i
                },
                Err(i) => {
                    &&& i <= self@.months.len()
                    &&& !self@.has_month(*m)
                    &&& self@.place_of(*m) == i
                },
            },
    {
        let ghost keys = month_keys(self@.months);
        let target = m.index();
        let mut lo: usize = 0;
        let mut hi: usize = self.m_activities.len();
        while lo < hi
            invariant
                keys == month_keys(self@.months),
                keys.len() == self.m_activities.len(),
                ascending(keys),
                target == m.spec_index(),
                lo <= hi <= self.m_activities.len(),
                forall|j: int| 0 <= j < lo ==> #[trigger] keys[j] < target,
                forall|j: int| hi <= j < keys.len() ==> #[trigger] keys[j] > target,
            decreases hi - lo,
        {
            let mid: usize = lo + (hi - lo) / 2;
            let probe = self.m_activities[mid].get_month().index();
            assert(keys[mid as int] == probe);
            if probe < target {
                proof {
                    assert forall|j: int| 0 <= j < mid + 1 implies #[trigger] keys[j] < target by {
                        if j < mid {
                            assert(keys[j] < keys[mid as int]);
                        }
                    }
                }
                lo = mid + 1;
            } else if probe == target {
                proof {
                    lemma_rank_of_member(keys, mid as int);
                    self@.months[mid as int].month.lemma_index_injective(*m);
                }
                return Ok(mid);
            } else {
                proof {
                    assert forall|j: int| mid <= j < keys.len() implies #[trigger] keys[j]
                        > target by {
                        if mid < j {
                            assert(keys[mid as int] < keys[j]);
                        }
                    }
                }
                hi = mid;
            }
        }
        proof {
            lemma_rank(keys, target as int, lo as int);
            if keys.contains(target as int) {
                let w = keys.index_of(target as int);
                assert(keys[w] == target);
            }
        }
        Err(lo)
    }

    /// Whether the months are in strictly ascending order and the
    /// activities of each are in ascending order of date.
    pub fn is_well_formed(&self) -> (r: bool)
        ensures
            r == self.wf(),
    {
        let n: usize = self.m_activities.len();
        let ghost keys = month_keys(self@.months);
        let mut i: usize = 0;
        while i < n
            invariant
                i <= n,
                n == self.m_activities.len(),
                keys == month_keys(self@.months),
                keys.len() == n,
                forall|k: int| 0 <= k < i && k < n - 1 ==> #[trigger] keys[k] < keys[k + 1],
                forall|k: int| 0 <= k < i ==> (#[trigger] self@.months[k]).wf(),
            decreases n - i,
        {
            assert(self@.months[i as int] == self.m_activities[i as int]@);
            if i + 1 < n {
                assert(self@.months[i + 1] == self.m_activities[i + 1]@);
                if self.m_activities[i].get_month().index() >= self.m_activities[i
                    + 1].get_month().index() {
                    assert(!(keys[i as int] < keys[i + 1]));
                    return false;
                }
            }
            if !self.m_activities[i].is_well_formed() {
                return false;
            }
            i = i + 1;
        }
        proof {
            crate::sorted::lemma_neighbours_ascending(keys);
        }
        true
    }

    /// Whether the month `m` is there.
    pub fn has_month(&self, m: &Month) -> (r: bool)
        requires
            self.wf(),
        ensures
            r == self@.has_month(*m),
    {
        self.search(m).is_ok()
    }

    /// The activities of the month `m`, where it is there.
    pub fn get_month(&self, m: &Month) -> (r: Option<&MonthlyActivities<T>>)
        requires
            self.wf(),
        ensures
            match r {
                Some(month) => self@.get(*m) == Some(month@) && month.wf(),
                None => self@.get(*m) is None,
            },
    {
        match self.search(m) {
            Ok(idx) => {
                assert(self@.months[idx as int] == self.m_activities[idx as int]@);
                Some(&self.m_activities[idx])
            },
            Err(_) => None,
        }
    }

    /// The activities of the month `m`, to be changed, where the month is
    /// there; the collection is then marked as changed. What the caller
    /// leaves stands in the place of the month.
    pub fn get_month_mut(&mut self, m: &Month) -> (r: Option<&mut MonthlyActivities<T>>)
        requires
            old(self).wf(),
        ensures
            match r {
                Some(month) => {
                    &&& old(self)@.get(*m) == Some(month@)
                    &&& month.wf()
                    &&& final(self)@ == (CollectionView::<T> {
                        changes: true,
                        months: old(self)@.months.update(old(self)@.index_of(*m), final(month)@),
                    })
                    &&& final(month).wf() && final(month)@.month == *m ==> final(self).wf()
                },
                None => old(self)@.get(*m) is None && final(self)@ == old(self)@,
            },
    {
        match self.search(m) {
            Ok(idx) => {
                assert(self@.months[idx as int] == self.m_activities[idx as int]@);
                self.m_changes = true;
                let ghost pre = self@;
                let ghost post = *final(self);
                proof {
                    assert forall|x: MonthView<T>| x.wf() && x.month == *m implies (
                    CollectionView { changes: true, months: #[trigger] pre.set(x) }).wf() by {
                        pre.lemma_set_wf(x);
                    }
                }
                let month = &mut self.m_activities[idx];
                assert(post@.months =~= pre.months.update(idx as int, final(month)@));
                assert(final(month)@.month == *m ==> post@.months == pre.set(final(month)@));
                Some(month)
            },
            Err(_) => None,
        }
    }

    /// The activities of the month `m`, to be changed; the month is made,
    /// empty, where it is not there. The collection is marked as
    /// changed. What the caller leaves stands in the place of the month.
    pub fn add(&mut self, m: &Month) -> (r: &mut MonthlyActivities<T>)
        requires
            old(self).wf(),
        ensures
            old(self)@.add(*m).wf(),
            old(self)@.add(*m).get(*m) == Some(r@),
            r.wf(),
            final(self)@ == (CollectionView::<T> {
                changes: true,
                months: old(self)@.add(*m).months.update(
                    old(self)@.add(*m).index_of(*m),
                    final(r)@,
                ),
            }),
            final(r).wf() && final(r)@.month == *m ==> final(self).wf(),
    {
        let ghost pre = self@;
        self.m_changes = true;
        let pos: usize = match self.search(m) {
            Ok(pos) => pos,
            Err(pos) => {
                let fresh = MonthlyActivities::<T>::new_month(m);
                proof {
                    pre.lemma_insert_wf(fresh@);
                }
                self.m_activities.insert(pos, fresh);
                assert(self@.months =~= pre.add(*m).months);
                pos
            },
        };
        let ghost mid = self@;
        let ghost post = *final(self);
        proof {
            assert(mid == pre.add(*m));
            assert(month_keys(mid.months)[pos as int] == m.spec_index());
            lemma_rank_of_member(month_keys(mid.months), pos as int);
        }
        assert(mid.months[pos as int] == self.m_activities[pos as int]@);
        proof {
            assert forall|x: MonthView<T>| x.wf() && x.month == *m implies (CollectionView {
                changes: true,
                months: #[trigger] mid.set(x),
            }).wf() by {
                mid.lemma_set_wf(x);
            }
        }
        let month = &mut self.m_activities[pos];
        assert(post@.months =~= mid.months.update(pos as int, final(month)@));
        assert(final(month)@.month == *m ==> post@.months == mid.set(final(month)@));
        month
    }

    /// Puts the month `m` into the collection, at its sorted place,
    /// unless a month of that name is there already: then `m` is dropped.
    /// Either way the collection is marked as changed.
    pub fn push(&mut self, m: MonthlyActivities<T>)
        requires
            old(self).wf(),
            m.wf(),
        ensures
            final(self)@ == old(self)@.push(m@),
            final(self).wf(),
    {
        let ghost pre = self@;
        self.m_changes = true;
        match self.search(m.get_month()) {
            Ok(_) => {},
            Err(pos) => {
                proof {
                    pre.lemma_insert_wf(m@);
                }
                self.m_activities.insert(pos, m);
                assert(self@.months =~= pre.push(m@).months);
            },
        }
    }

    /// Merges the months of `acts` in, one after the other: a month that
    /// is not there comes in whole, one that is there has the activities
    /// of the other merged into its own. The collection is marked as
    /// changed.
    pub fn merge(&mut self, acts: MonthlyActivitiesCollection<T>)
        requires
            old(self).wf(),
            acts.wf(),
        ensures
            final(self)@ == old(self)@.merge(acts@),
            final(self).wf(),
    {
        let ghost pre = self@;
        let ghost other = acts@.months;
        self.set_changes(true);
        for month in it: acts.m_activities
            invariant
                it.seq().len() == other.len(),
                forall|i: int| 0 <= i < other.len() ==> (#[trigger] it.seq()[i])@ == other[i],
                forall|i: int| 0 <= i < other.len() ==> (#[trigger] other[i]).wf(),
                self.wf(),
                self@ == pre.merge_first(other, it.index() as nat),
        {
            let ghost before = self@;
            let ghost mv = month@;
            proof {
                before.lemma_merge_month_wf(mv);
            }
            match self.search(month.get_month()) {
                Ok(idx) => {
                    assert(self@.months[idx as int] == self.m_activities[idx as int]@);
                    self.m_activities[idx].merge(month);
                    assert(self@.months =~= before.merge_month(mv).months);
                },
                Err(pos) => {
                    self.m_activities.insert(pos, month);
                    assert(self@.months =~= before.merge_month(mv).months);
                },
            }
        }
    }
}

} // verus!
