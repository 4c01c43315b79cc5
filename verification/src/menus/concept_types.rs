//! Renaming a concept: in the tree of concepts, and in the paths of the
//! activities that are filed under it.

use vstd::prelude::*;
use crate::concepts::tree::TreeView;
use crate::concepts::types::ConceptTypesView;
use crate::economy::all_activities::{years_view, AllActivities, LedgerView};
use crate::economy::monthly_activities::{
    month_keys, months_view, CollectionView, MonthView, MonthlyActivities,
    MonthlyActivitiesCollection,
};
use crate::economy::traits::Activity;
use crate::economy::yearly_activities::YearView;
use crate::text::path_view;
use crate::utils::{spec_vector_includes, vector_includes};

verus! {

/// A path after the concept at the end of `branch` got the name `name`:
/// where the path starts as `branch` does, case apart, and is no shorter,
/// the concept at the place of the end of `branch` has the new name.
pub open spec fn renamed_path(
    concepts: Seq<Seq<char>>,
    branch: Seq<Seq<char>>,
    name: Seq<char>,
) -> Seq<Seq<char>> {
    if spec_vector_includes(concepts, branch) && concepts.len() >= branch.len() {
        concepts.update(branch.len() - 1, name)
    } else {
        concepts
    }
}

/// `after` is `before` with the concept renamed in its path, and nothing
/// else changed.
pub open spec fn renamed<T: Activity>(
    before: T,
    after: T,
    branch: Seq<Seq<char>>,
    name: Seq<char>,
) -> bool {
    &&& after.spec_concepts() == renamed_path(before.spec_concepts(), branch, name)
    &&& after.spec_date() == before.spec_date()
    &&& after.spec_price() == before.spec_price()
    &&& after.spec_source() == before.spec_source()
    &&& after.spec_location() == before.spec_location()
    &&& after.spec_description() == before.spec_description()
}

/// `after` holds the activities of `before`, one for one, each with the
/// concept renamed in its path.
pub open spec fn month_renamed<T: Activity>(
    before: MonthView<T>,
    after: MonthView<T>,
    branch: Seq<Seq<char>>,
    name: Seq<char>,
) -> bool {
    &&& after.month == before.month
    &&& after.activities.len() == before.activities.len()
    &&& forall|k: int|
        0 <= k < before.activities.len() ==> renamed(
            #[trigger] before.activities[k],
            after.activities[k],
            branch,
            name,
        )
}

/// `after` holds the months of `before`, one for one, each with the
/// concept renamed in the paths of its activities, and is marked as
/// changed.
pub open spec fn collection_renamed<T: Activity>(
    before: CollectionView<T>,
    after: CollectionView<T>,
    branch: Seq<Seq<char>>,
    name: Seq<char>,
) -> bool {
    &&& after.changes
    &&& after.months.len() == before.months.len()
    &&& forall|m: int|
        0 <= m < before.months.len() ==> month_renamed(
            #[trigger] before.months[m],
            after.months[m],
            branch,
            name,
        )
}

/// Renaming a concept in the paths of its activities keeps a month
/// well-formed.
pub proof fn lemma_month_renamed_wf<T: Activity>(
    before: MonthView<T>,
    after: MonthView<T>,
    branch: Seq<Seq<char>>,
    name: Seq<char>,
)
    requires
        month_renamed(before, after, branch, name),
        before.wf(),
    ensures
        after.wf(),
{
    assert forall|i: int, j: int| 0 <= i < j < after.activities.len() implies (
    #[trigger] after.activities[i]).spec_date().le((#[trigger] after.activities[j]).spec_date()) by {
        assert(renamed(before.activities[i], after.activities[i], branch, name));
        assert(renamed(before.activities[j], after.activities[j], branch, name));
    }
}

/// Renaming a concept in the paths of its activities keeps a collection
/// well-formed.
pub proof fn lemma_collection_renamed_wf<T: Activity>(
    before: CollectionView<T>,
    after: CollectionView<T>,
    branch: Seq<Seq<char>>,
    name: Seq<char>,
)
    requires
        collection_renamed(before, after, branch, name),
        before.wf(),
    ensures
        after.wf(),
{
    assert(month_keys(after.months) =~= month_keys(before.months)) by {
        assert forall|m: int| 0 <= m < before.months.len() implies after.months[m].month
            == before.months[m].month by {
            assert(month_renamed(before.months[m], after.months[m], branch, name));
        }
    }
    assert forall|m: int| 0 <= m < after.months.len() implies (#[trigger] after.months[m]).wf() by {
        assert(month_renamed(before.months[m], after.months[m], branch, name));
        lemma_month_renamed_wf(before.months[m], after.months[m], branch, name);
    }
}

/// Gives the concept at the end of `branch` the name `new_concept` in the
/// path of an activity, where the path starts as `branch` does, case
/// apart, and is no shorter.
pub fn rename_in_activity<T: Activity>(d: &mut T, branch: &Vec<String>, new_concept: &String)
    requires
        branch.len() > 0,
    ensures
        renamed(*old(d), *final(d), path_view(branch@), new_concept@),
{
    let included = vector_includes(d.get_concepts().as_slice(), branch.as_slice());
    let concepts = d.get_concepts_mut();
    if included && concepts.len() >= branch.len() {
        let s: usize = branch.len();
        let ghost before = path_view(concepts@);
        concepts[s - 1] = new_concept.clone();
        assert(path_view(concepts@) =~= before.update(s - 1, new_concept@));
    }
}

/// Renames the concept in the paths of the activities of a month.
pub fn rename_in_month<T: Activity>(
    month: &mut MonthlyActivities<T>,
    branch: &Vec<String>,
    new_concept: &String,
)
    requires
        branch.len() > 0,
    ensures
        month_renamed(old(month)@, final(month)@, path_view(branch@), new_concept@),
        old(month).wf() ==> final(month).wf(),
{
    let ghost before = month@;
    let n: usize = month.size();
    let mut k: usize = 0;
    while k < n
        invariant
            k <= n,
            branch.len() > 0,
            n == before.activities.len(),
            month@.month == before.month,
            month@.activities.len() == n,
            forall|j: int|
                0 <= j < k ==> renamed(
                    #[trigger] before.activities[j],
                    month@.activities[j],
                    path_view(branch@),
                    new_concept@,
                ),
            forall|j: int| k <= j < n ==> #[trigger] month@.activities[j] == before.activities[j],
        decreases n - k,
    {
        rename_in_activity(month.get_mut(k), branch, new_concept);
        k = k + 1;
    }
    proof {
        if before.wf() {
            lemma_month_renamed_wf(before, month@, path_view(branch@), new_concept@);
        }
    }
}

/// Renames the concept in the paths of the activities of every month of
/// a collection, and marks the collection as changed.
pub fn rename_in_collection<T: Activity>(
    months: &mut MonthlyActivitiesCollection<T>,
    branch: &Vec<String>,
    new_concept: &String,
)
    requires
        branch.len() > 0,
    ensures
        collection_renamed(old(months)@, final(months)@, path_view(branch@), new_concept@),
        old(months).wf() ==> final(months).wf(),
{
    let ghost before = months@;
    let all = months.get_activities_mut();
    let n: usize = all.len();
    let mut m: usize = 0;
    while m < n
        invariant
            m <= n,
            branch.len() > 0,
            n == before.months.len(),
            all@.len() == n,
            forall|j: int|
                0 <= j < m ==> month_renamed(
                    #[trigger] before.months[j],
                    all@[j]@,
                    path_view(branch@),
                    new_concept@,
                ),
            forall|j: int| m <= j < n ==> (#[trigger] all@[j])@ == before.months[j],
        decreases n - m,
    {
        let ghost cur = all@;
        rename_in_month(&mut all[m], branch, new_concept);
        proof {
            assert forall|j: int| 0 <= j < n && j != m implies all@[j] == cur[j] by {}
        }
        m = m + 1;
    }
    proof {
        let after = CollectionView::<T> { changes: true, months: months_view(all@) };
        assert forall|j: int| 0 <= j < n implies month_renamed(
            #[trigger] before.months[j],
            after.months[j],
            path_view(branch@),
            new_concept@,
        ) by {
            assert(after.months[j] == all@[j]@);
        }
        if before.wf() {
            lemma_collection_renamed_wf(before, after, path_view(branch@), new_concept@);
        }
    }
}

/// `after` holds the years of `before`, one for one, all marked as
/// changed, each with the concept renamed in the paths of its expenses.
pub open spec fn expenses_renamed(
    before: Seq<YearView>,
    after: Seq<YearView>,
    branch: Seq<Seq<char>>,
    name: Seq<char>,
) -> bool {
    &&& after.len() == before.len()
    &&& forall|y: int|
        0 <= y < before.len() ==> {
            &&& after[y].year == (#[trigger] before[y]).year
            &&& after[y].incomes == before[y].with_changes(true).incomes
            &&& collection_renamed(before[y].expenses, after[y].expenses, branch, name)
        }
}

/// `after` holds the years of `before`, one for one, all marked as
/// changed, each with the concept renamed in the paths of its incomes.
pub open spec fn incomes_renamed(
    before: Seq<YearView>,
    after: Seq<YearView>,
    branch: Seq<Seq<char>>,
    name: Seq<char>,
) -> bool {
    &&& after.len() == before.len()
    &&& forall|y: int|
        0 <= y < before.len() ==> {
            &&& after[y].year == (#[trigger] before[y]).year
            &&& after[y].expenses == before[y].with_changes(true).expenses
            &&& collection_renamed(before[y].incomes, after[y].incomes, branch, name)
        }
}

/// Renaming a concept in the paths of the activities keeps the store
/// well-formed.
pub proof fn lemma_years_renamed_wf(
    before: LedgerView,
    after: Seq<YearView>,
    branch: Seq<Seq<char>>,
    name: Seq<char>,
)
    requires
        before.wf(),
        expenses_renamed(before.years, after, branch, name) || incomes_renamed(
            before.years,
            after,
            branch,
            name,
        ),
    ensures
        before.with_years(after).wf(),
{
    assert(crate::economy::all_activities::year_keys(after)
        =~= crate::economy::all_activities::year_keys(before.years)) by {
        assert forall|y: int| 0 <= y < after.len() implies after[y].year
            == before.years[y].year by {
            assert(before.years[y].wf());
        }
    }
    assert forall|y: int| 0 <= y < after.len() implies (#[trigger] after[y]).wf() by {
        assert(before.years[y].wf());
        if expenses_renamed(before.years, after, branch, name) {
            lemma_collection_renamed_wf(before.years[y].expenses, after[y].expenses, branch, name);
        } else {
            lemma_collection_renamed_wf(before.years[y].incomes, after[y].incomes, branch, name);
        }
    }
    if after.len() > 0 {
        assert(before.years[0].wf());
        assert(before.years[after.len() - 1].wf());
    }
}

/// Renames the concept in the paths of all expenses. Every year is
/// marked as changed.
pub fn rename_in_expenses(all_data: &mut AllActivities, branch: &Vec<String>, new_concept: &String)
    requires
        branch.len() > 0,
    ensures
        expenses_renamed(
            old(all_data)@.years,
            final(all_data)@.years,
            path_view(branch@),
            new_concept@,
        ),
        final(all_data)@ == old(all_data)@.with_years(final(all_data)@.years),
        old(all_data).wf() ==> final(all_data).wf(),
{
    let ghost before = all_data@;
    let years = all_data.get_activities_mut();
    let ghost marked = years_view(years@);
    let n: usize = years.len();
    assert(marked.len() == before.years.len());
    assert(marked.len() == years@.len());
    let mut y: usize = 0;
    while y < n
        invariant
            y <= n,
            branch.len() > 0,
            n == before.years.len(),
            years@.len() == n,
            marked == before.with_changes_activities(true).years,
            forall|j: int|
                0 <= j < y ==> {
                    &&& (#[trigger] years@[j])@.year == before.years[j].year
                    &&& years@[j]@.incomes == before.years[j].with_changes(true).incomes
                    &&& collection_renamed(
                        before.years[j].expenses,
                        years@[j]@.expenses,
                        path_view(branch@),
                        new_concept@,
                    )
                },
            forall|j: int| y <= j < n ==> (#[trigger] years@[j])@ == marked[j],
        decreases n - y,
    {
        let ghost cur = years@;
        assert(cur[y as int]@ == before.years[y as int].with_changes(true));
        let ghost year_before = cur[y as int]@;
        let expenses = years[y].get_expenses_mut();
        rename_in_collection(expenses, branch, new_concept);
        proof {
            assert forall|j: int| 0 <= j < n && j != y implies years@[j] == cur[j] by {}
            let got = years@[y as int]@;
            assert(got.year == year_before.year);
            assert(got.incomes == year_before.incomes);
            assert(collection_renamed(
                before.years[y as int].expenses,
                got.expenses,
                path_view(branch@),
                new_concept@,
            )) by {
                assert forall|m: int| 0 <= m < before.years[y as int].expenses.months.len() implies month_renamed(
                    #[trigger] before.years[y as int].expenses.months[m],
                    got.expenses.months[m],
                    path_view(branch@),
                    new_concept@,
                ) by {
                    assert(month_renamed(
                        year_before.expenses.months[m],
                        got.expenses.months[m],
                        path_view(branch@),
                        new_concept@,
                    ));
                }
            }
        }
        y = y + 1;
    }
    proof {
        let after = years_view(years@);
        assert(expenses_renamed(before.years, after, path_view(branch@), new_concept@)) by {
            assert forall|j: int| 0 <= j < before.years.len() implies {
                &&& after[j].year == (#[trigger] before.years[j]).year
                &&& after[j].incomes == before.years[j].with_changes(true).incomes
                &&& collection_renamed(
                    before.years[j].expenses,
                    after[j].expenses,
                    path_view(branch@),
                    new_concept@,
                )
            } by {
                assert(after[j] == years@[j]@);
            }
        }
        if before.wf() {
            lemma_years_renamed_wf(before, after, path_view(branch@), new_concept@);
        }
    }
}

/// Renames the concept in the paths of all incomes. Every year is marked
/// as changed.
pub fn rename_in_incomes(all_data: &mut AllActivities, branch: &Vec<String>, new_concept: &String)
    requires
        branch.len() > 0,
    ensures
        incomes_renamed(
            old(all_data)@.years,
            final(all_data)@.years,
            path_view(branch@),
            new_concept@,
        ),
        final(all_data)@ == old(all_data)@.with_years(final(all_data)@.years),
        old(all_data).wf() ==> final(all_data).wf(),
{
    let ghost before = all_data@;
    let years = all_data.get_activities_mut();
    let ghost marked = years_view(years@);
    let n: usize = years.len();
    assert(marked.len() == before.years.len());
    assert(marked.len() == years@.len());
    let mut y: usize = 0;
    while y < n
        invariant
            y <= n,
            branch.len() > 0,
            n == before.years.len(),
            years@.len() == n,
            marked == before.with_changes_activities(true).years,
            forall|j: int|
                0 <= j < y ==> {
                    &&& (#[trigger] years@[j])@.year == before.years[j].year
                    &&& years@[j]@.expenses == before.years[j].with_changes(true).expenses
                    &&& collection_renamed(
                        before.years[j].incomes,
                        years@[j]@.incomes,
                        path_view(branch@),
                        new_concept@,
                    )
                },
            forall|j: int| y <= j < n ==> (#[trigger] years@[j])@ == marked[j],
        decreases n - y,
    {
        let ghost cur = years@;
        assert(cur[y as int]@ == before.years[y as int].with_changes(true));
        let ghost year_before = cur[y as int]@;
        let incomes = years[y].get_incomes_mut();
        rename_in_collection(incomes, branch, new_concept);
        proof {
            assert forall|j: int| 0 <= j < n && j != y implies years@[j] == cur[j] by {}
            let got = years@[y as int]@;
            assert(got.year == year_before.year);
            assert(got.expenses == year_before.expenses);
            assert(collection_renamed(
                before.years[y as int].incomes,
                got.incomes,
                path_view(branch@),
                new_concept@,
            )) by {
                assert forall|m: int| 0 <= m < before.years[y as int].incomes.months.len() implies month_renamed(
                    #[trigger] before.years[y as int].incomes.months[m],
                    got.incomes.months[m],
                    path_view(branch@),
                    new_concept@,
                ) by {
                    assert(month_renamed(
                        year_before.incomes.months[m],
                        got.incomes.months[m],
                        path_view(branch@),
                        new_concept@,
                    ));
                }
            }
        }
        y = y + 1;
    }
    proof {
        let after = years_view(years@);
        assert(incomes_renamed(before.years, after, path_view(branch@), new_concept@)) by {
            assert forall|j: int| 0 <= j < before.years.len() implies {
                &&& after[j].year == (#[trigger] before.years[j]).year
                &&& after[j].expenses == before.years[j].with_changes(true).expenses
                &&& collection_renamed(
                    before.years[j].incomes,
                    after[j].incomes,
                    path_view(branch@),
                    new_concept@,
                )
            } by {
                assert(after[j] == years@[j]@);
            }
        }
        if before.wf() {
            lemma_years_renamed_wf(before, after, path_view(branch@), new_concept@);
        }
    }
}

/// The tree after the concept at the end of `branch` got the name `name`:
/// the branch before its end is made where it is not there, the key at
/// its end is renamed below it, and every level is sorted again.
pub open spec fn renamed_tree(t: TreeView, branch: Seq<Seq<char>>, name: Seq<char>) -> TreeView {
    let stem = branch.drop_last();
    let made = t.make_path(stem);
    match made.lookup(stem) {
        Some(below) => made.set_at(stem, below.rename(branch.last(), name)).normalize(),
        None => made.normalize(),
    }
}

/// Renames the concept at the end of `branch` in a tree of concepts.
pub fn rename_in_tree(
    tree: &mut crate::concepts::tree::Tree,
    branch: &Vec<String>,
    new_concept: String,
)
    requires
        branch.len() > 0,
        old(tree).wf(),
    ensures
        final(tree)@ == renamed_tree(old(tree)@, path_view(branch@), new_concept@),
        final(tree)@.ascending(),
{
    let s: usize = branch.len();
    let stem = &branch[0..s - 1];
    assert(path_view(stem@) =~= path_view(branch@).drop_last());
    assert(path_view(branch@).last() == branch[s - 1]@);
    tree.make_subtree(stem).rename_key(&branch[s - 1], new_concept);
    tree.normalize_tree();
}

/// Renames the concept at the end of `branch`: in the tree of the concepts
/// of expenses, which is marked as changed, and in the paths of all
/// expenses. Every year is marked as changed.
pub fn rename_expense_concept(
    all_data: &mut AllActivities,
    branch: &Vec<String>,
    new_concept: String,
)
    requires
        branch.len() > 0,
        old(all_data)@.expense_types.tree.wf(),
    ensures
        final(all_data)@.expense_types == (ConceptTypesView {
            changes: true,
            tree: renamed_tree(
                old(all_data)@.expense_types.tree,
                path_view(branch@),
                new_concept@,
            ),
        }),
        final(all_data)@.income_types == old(all_data)@.income_types,
        final(all_data)@.min_year == old(all_data)@.min_year,
        final(all_data)@.max_year == old(all_data)@.max_year,
        expenses_renamed(
            old(all_data)@.years,
            final(all_data)@.years,
            path_view(branch@),
            new_concept@,
        ),
        old(all_data).wf() ==> final(all_data).wf(),
{
    let name = new_concept.clone();
    rename_in_tree(all_data.get_expense_concepts_mut().get_tree_mut(), branch, new_concept);
    rename_in_expenses(all_data, branch, &name);
}

/// Renames the concept at the end of `branch`: in the tree of the concepts
/// of incomes, which is marked as changed, and in the paths of all
/// incomes. Every year is marked as changed.
pub fn rename_income_concept(
    all_data: &mut AllActivities,
    branch: &Vec<String>,
    new_concept: String,
)
    requires
        branch.len() > 0,
        old(all_data)@.income_types.tree.wf(),
    ensures
        final(all_data)@.income_types == (ConceptTypesView {
            changes: true,
            tree: renamed_tree(old(all_data)@.income_types.tree, path_view(branch@), new_concept@),
        }),
        final(all_data)@.expense_types == old(all_data)@.expense_types,
        final(all_data)@.min_year == old(all_data)@.min_year,
        final(all_data)@.max_year == old(all_data)@.max_year,
        incomes_renamed(
            old(all_data)@.years,
            final(all_data)@.years,
            path_view(branch@),
            new_concept@,
        ),
        old(all_data).wf() ==> final(all_data).wf(),
{
    let name = new_concept.clone();
    rename_in_tree(all_data.get_income_concepts_mut().get_tree_mut(), branch, new_concept);
    rename_in_incomes(all_data, branch, &name);
}

} // verus!
