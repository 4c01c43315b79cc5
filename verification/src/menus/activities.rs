//! Filing one activity under every month of a range.

use vstd::prelude::*;
use crate::economy::all_activities::{AllActivities, LedgerView};
use crate::economy::expense::{Expense, ExpenseView};
use crate::economy::income::{Income, IncomeView};
use crate::time::date::{month_at, month_range, Date, YearMonth};

verus! {

/// The number of months from `start` to `end`, both included; 0 where
/// `end` is before `start`.
pub open spec fn months_between(start: YearMonth, end: YearMonth) -> nat {
    if start.ordinal() <= end.ordinal() {
        (end.ordinal() - start.ordinal() + 1) as nat
    } else {
        0
    }
}

/// The day `day` of the month that is `k` months after `start`.
pub open spec fn day_of_month_after(start: YearMonth, k: int, day: u8) -> Date {
    Date {
        year: ((start.ordinal() + k) / 12) as u32,
        month: month_at((start.ordinal() + k) % 12),
        day: day,
    }
}

/// The store after the first `n` of the expenses were filed, one after
/// the other.
pub open spec fn with_expenses(all: LedgerView, filed: Seq<Expense>, n: nat) -> LedgerView
    decreases n,
{
    if n == 0 || n > filed.len() {
        all
    } else {
        with_expenses(all, filed, (n - 1) as nat).with_expense(filed[n - 1])
    }
}

/// The store after the first `n` of the incomes were filed, one after the
/// other.
pub open spec fn with_incomes(all: LedgerView, filed: Seq<Income>, n: nat) -> LedgerView
    decreases n,
{
    if n == 0 || n > filed.len() {
        all
    } else {
        with_incomes(all, filed, (n - 1) as nat).with_income(filed[n - 1])
    }
}

/// A month of a year is the month that its number of months stands for.
pub proof fn lemma_ordinal(ym: YearMonth)
    ensures
        ym.year == ym.ordinal() / 12,
        ym.month == month_at(ym.ordinal() % 12),
{
    let i = ym.month.spec_index();
    assert(0 <= i < 12);
    assert((ym.year * 12 + i) / 12 == ym.year && (ym.year * 12 + i) % 12 == i) by (nonlinear_arith)
        requires
            0 <= i < 12,
    ;
    assert(month_at(i) == ym.month);
}

/// Files a copy of `template` under every month from `start` to `end`,
/// both included, each on the day `day` of its month. The range must end
/// before the last year that a `u32` can hold.
pub fn add_monthly_expense(
    all_data: &mut AllActivities,
    template: &Expense,
    start: YearMonth,
    end: YearMonth,
    day: u8,
)
    requires
        old(all_data).wf(),
        end.year < u32::MAX,
    ensures
        final(all_data).wf(),
        exists|filed: Seq<Expense>|
            {
                &&& filed.len() == months_between(start, end)
                &&& forall|k: int|
                    0 <= k < filed.len() ==> (#[trigger] filed[k])@ == (ExpenseView {
                        day_of_year: day_of_month_after(start, k, day),
                        ..template@
                    })
                &&& final(all_data)@ == with_expenses(old(all_data)@, filed, filed.len())
            },
{
    let ghost pre = all_data@;
    let ghost mut filed: Seq<Expense> = Seq::empty();
    let mut months = month_range(start, end);
    loop
        invariant
            all_data.wf(),
            months.end == end,
            end.year < u32::MAX,
            months.current.ordinal() == start.ordinal() + filed.len(),
            filed.len() <= months_between(start, end),
            months.current.ordinal() > end.ordinal() ==> filed.len() == months_between(start, end),
            forall|k: int|
                0 <= k < filed.len() ==> (#[trigger] filed[k])@ == (ExpenseView {
                    day_of_year: day_of_month_after(start, k, day),
                    ..template@
                }),
            all_data@ == with_expenses(pre, filed, filed.len()),
        ensures
            all_data.wf(),
            filed.len() == months_between(start, end),
            forall|k: int|
                0 <= k < filed.len() ==> (#[trigger] filed[k])@ == (ExpenseView {
                    day_of_year: day_of_month_after(start, k, day),
                    ..template@
                }),
            all_data@ == with_expenses(pre, filed, filed.len()),
        decreases
                if months.current.ordinal() <= end.ordinal() {
                    end.ordinal() - months.current.ordinal() + 1
                } else {
                    0
                },
    {
        match months.next() {
            Some(ym) => {
                proof {
                    lemma_ordinal(ym);
                }
                let e = Expense {
                    day_of_year: Date { year: ym.year, month: ym.month, day },
                    price: template.price,
                    concepts: template.concepts.clone(),
                    shop: template.shop.clone(),
                    city: template.city.clone(),
                    description: template.description.clone(),
                };
                proof {
                    assert(crate::text::path_view(e.concepts@) =~= crate::text::path_view(
                        template.concepts@,
                    )) by {
                        assert forall|k: int| 0 <= k < e.concepts@.len() implies e.concepts@[k]@
                            == template.concepts@[k]@ by {}
                    }
                    let ghost old_filed = filed;
                    filed = filed.push(e);
                    assert(with_expenses(pre, filed, old_filed.len()) == with_expenses(
                        pre,
                        old_filed,
                        old_filed.len(),
                    )) by {
                        lemma_with_expenses_prefix(pre, old_filed, filed, old_filed.len());
                    }
                }
                all_data.add_expense(e);
            },
            None => {
                break ;
            },
        }
    }
}

/// Filing the first expenses does not depend on those that follow.
pub proof fn lemma_with_expenses_prefix(
    all: LedgerView,
    short: Seq<Expense>,
    long: Seq<Expense>,
    n: nat,
)
    requires
        n <= short.len() <= long.len(),
        forall|k: int| 0 <= k < short.len() ==> short[k] == long[k],
    ensures
        with_expenses(all, long, n) == with_expenses(all, short, n),
    decreases n,
{
    if n > 0 {
        lemma_with_expenses_prefix(all, short, long, (n - 1) as nat);
    }
}

/// Filing the first incomes does not depend on those that follow.
pub proof fn lemma_with_incomes_prefix(
    all: LedgerView,
    short: Seq<Income>,
    long: Seq<Income>,
    n: nat,
)
    requires
        n <= short.len() <= long.len(),
        forall|k: int| 0 <= k < short.len() ==> short[k] == long[k],
    ensures
        with_incomes(all, long, n) == with_incomes(all, short, n),
    decreases n,
{
    if n > 0 {
        lemma_with_incomes_prefix(all, short, long, (n - 1) as nat);
    }
}

/// Files a copy of `template` under every month from `start` to `end`,
/// both included, each on the day `day` of its month. The range must end
/// before the last year that a `u32` can hold.
pub fn add_monthly_income(
    all_data: &mut AllActivities,
    template: &Income,
    start: YearMonth,
    end: YearMonth,
    day: u8,
)
    requires
        old(all_data).wf(),
        end.year < u32::MAX,
    ensures
        final(all_data).wf(),
        exists|filed: Seq<Income>|
            {
                &&& filed.len() == months_between(start, end)
                &&& forall|k: int|
                    0 <= k < filed.len() ==> (#[trigger] filed[k])@ == (IncomeView {
                        day_of_year: day_of_month_after(start, k, day),
                        ..template@
                    })
                &&& final(all_data)@ == with_incomes(old(all_data)@, filed, filed.len())
            },
{
    let ghost pre = all_data@;
    let ghost mut filed: Seq<Income> = Seq::empty();
    let mut months = month_range(start, end);
    loop
        invariant
            all_data.wf(),
            months.end == end,
            end.year < u32::MAX,
            months.current.ordinal() == start.ordinal() + filed.len(),
            filed.len() <= months_between(start, end),
            months.current.ordinal() > end.ordinal() ==> filed.len() == months_between(start, end),
            forall|k: int|
                0 <= k < filed.len() ==> (#[trigger] filed[k])@ == (IncomeView {
                    day_of_year: day_of_month_after(start, k, day),
                    ..template@
                }),
            all_data@ == with_incomes(pre, filed, filed.len()),
        ensures
            all_data.wf(),
            filed.len() == months_between(start, end),
            forall|k: int|
                0 <= k < filed.len() ==> (#[trigger] filed[k])@ == (IncomeView {
                    day_of_year: day_of_month_after(start, k, day),
                    ..template@
                }),
            all_data@ == with_incomes(pre, filed, filed.len()),
        decreases
                if months.current.ordinal() <= end.ordinal() {
                    end.ordinal() - months.current.ordinal() + 1
                } else {
                    0
                },
    {
        match months.next() {
            Some(ym) => {
                proof {
                    lemma_ordinal(ym);
                }
                let e = Income {
                    day_of_year: Date { year: ym.year, month: ym.month, day },
                    price: template.price,
                    concepts: template.concepts.clone(),
                    from: template.from.clone(),
                    place: template.place.clone(),
                    description: template.description.clone(),
                };
                proof {
                    assert(crate::text::path_view(e.concepts@) =~= crate::text::path_view(
                        template.concepts@,
                    )) by {
                        assert forall|k: int| 0 <= k < e.concepts@.len() implies e.concepts@[k]@
                            == template.concepts@[k]@ by {}
                    }
                    let ghost old_filed = filed;
                    filed = filed.push(e);
                    assert(with_incomes(pre, filed, old_filed.len()) == with_incomes(
                        pre,
                        old_filed,
                        old_filed.len(),
                    )) by {
                        lemma_with_incomes_prefix(pre, old_filed, filed, old_filed.len());
                    }
                }
                all_data.add_income(e);
            },
            None => {
                break ;
            },
        }
    }
}

} // verus!
