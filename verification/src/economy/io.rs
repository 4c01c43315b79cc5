//! From the lines of a file to the activities of a year, and back.

use vstd::prelude::*;
use crate::decimal::{decimal, number_to_text, parse_number, spec_parse_number};
use crate::economy::all_activities::{years_view, AllActivities};
use crate::economy::expense::{Expense, ExpenseView, ParseExpenseError};
use crate::economy::income::{Income, IncomeView, ParseIncomeError};
use crate::economy::monthly_activities::{
    place, CollectionView, MonthView, MonthlyActivities, MonthlyActivitiesCollection,
};
use crate::economy::traits::Activity;
use crate::economy::yearly_activities::{YearView, YearlyActivities};
use crate::text::{path_view, push_char, push_text, to_chars, to_text};
use crate::time::date::Month;

verus! {

/// The year that the name of a file starts with: the number that its
/// first four characters stand for. None where the name is shorter or
/// those characters stand for no number.
pub open spec fn spec_year_of_file_name(name: Seq<char>) -> Option<u32> {
    if name.len() < 4 {
        None
    } else {
        match spec_parse_number(name.take(4)) {
            Some(y) => if y <= u32::MAX {
                Some(y as u32)
            } else {
                None
            },
            None => None,
        }
    }
}

/// The year that the name of a file starts with.
pub fn year_of_file_name(name: &str) -> (r: Option<u32>)
    ensures
        r == spec_year_of_file_name(name@),
{
    let chars = to_chars(name);
    if chars.len() < 4 {
        return None;
    }
    let head = to_text(&chars, 0, 4);
    assert(head@ =~= name@.take(4));
    match parse_number(head.as_str(), 0xFFFF_FFFF) {
        Some(y) => Some(y as u32),
        None => None,
    }
}

/// The expenses that the first `n` lines stand for, in order; empty lines
/// stand for nothing. None where a line that is not empty holds no
/// expense.
pub open spec fn spec_read_expenses(lines: Seq<Seq<char>>, n: nat) -> Option<Seq<ExpenseView>>
    decreases n,
{
    if n == 0 || n > lines.len() {
        Some(Seq::empty())
    } else {
        match spec_read_expenses(lines, (n - 1) as nat) {
            Some(before) => if lines[n - 1].len() == 0 {
                Some(before)
            } else {
                match Expense::spec_from_str(lines[n - 1]) {
                    Some(e) => Some(before.push(e)),
                    None => None,
                }
            },
            None => None,
        }
    }
}

/// The incomes that the first `n` lines stand for, in order; empty lines
/// stand for nothing. None where a line that is not empty holds no
/// income.
pub open spec fn spec_read_incomes(lines: Seq<Seq<char>>, n: nat) -> Option<Seq<IncomeView>>
    decreases n,
{
    if n == 0 || n > lines.len() {
        Some(Seq::empty())
    } else {
        match spec_read_incomes(lines, (n - 1) as nat) {
            Some(before) => if lines[n - 1].len() == 0 {
                Some(before)
            } else {
                match Income::spec_from_str(lines[n - 1]) {
                    Some(e) => Some(before.push(e)),
                    None => None,
                }
            },
            None => None,
        }
    }
}

/// The views of a sequence of expenses, one for one.
pub open spec fn expenses_view(s: Seq<Expense>) -> Seq<ExpenseView> {
    Seq::new(s.len(), |i: int| s[i]@)
}

/// The views of a sequence of incomes, one for one.
pub open spec fn incomes_view(s: Seq<Income>) -> Seq<IncomeView> {
    Seq::new(s.len(), |i: int| s[i]@)
}

/// Reads the expenses of the lines of a file, in order. Empty lines are
/// passed over; the first line that holds no expense ends the reading
/// with an error.
pub fn read_expense_lines(lines: &Vec<String>) -> (r: Result<Vec<Expense>, ParseExpenseError>)
    ensures
        match r {
            Ok(v) => spec_read_expenses(path_view(lines@), lines@.len()) == Some(
                expenses_view(v@),
            ),
            Err(_) => spec_read_expenses(path_view(lines@), lines@.len()) is None,
        },
{
    let ghost all = path_view(lines@);
    let mut v: Vec<Expense> = Vec::new();
    let mut i: usize = 0;
    proof {
        assert(expenses_view(v@) =~= Seq::<ExpenseView>::empty());
    }
    while i < lines.len()
        invariant
            i <= lines.len(),
            all == path_view(lines@),
            spec_read_expenses(all, i as nat) == Some(expenses_view(v@)),
        decreases lines.len() - i,
    {
        assert(all[i as int] == lines[i as int]@);
        if !lines[i].as_str().is_empty() {
            match Expense::from_str(lines[i].as_str()) {
                Ok(e) => {
                    let ghost before = expenses_view(v@);
                    v.push(e);
                    assert(expenses_view(v@) =~= before.push(e@));
                },
                Err(_) => {
                    proof {
                        lemma_read_expenses_fails(all, (i + 1) as nat, lines@.len());
                    }
                    return Err(ParseExpenseError);
                },
            }
        }
        i = i + 1;
    }
    Ok(v)
}

/// Once the reading of expenses has failed, more lines do not mend it.
pub proof fn lemma_read_expenses_fails(lines: Seq<Seq<char>>, n: nat, m: nat)
    requires
        n <= m <= lines.len(),
        spec_read_expenses(lines, n) is None,
    ensures
        spec_read_expenses(lines, m) is None,
    decreases m,
{
    if n < m {
        lemma_read_expenses_fails(lines, n, (m - 1) as nat);
    }
}

/// Reads the incomes of the lines of a file, in order. Empty lines are
/// passed over; the first line that holds no income ends the reading
/// with an error.
pub fn read_income_lines(lines: &Vec<String>) -> (r: Result<Vec<Income>, ParseIncomeError>)
    ensures
        match r {
            Ok(v) => spec_read_incomes(path_view(lines@), lines@.len()) == Some(incomes_view(v@)),
            Err(_) => spec_read_incomes(path_view(lines@), lines@.len()) is None,
        },
{
    let ghost all = path_view(lines@);
    let mut v: Vec<Income> = Vec::new();
    let mut i: usize = 0;
    proof {
        assert(incomes_view(v@) =~= Seq::<IncomeView>::empty());
    }
    while i < lines.len()
        invariant
            i <= lines.len(),
            all == path_view(lines@),
            spec_read_incomes(all, i as nat) == Some(incomes_view(v@)),
        decreases lines.len() - i,
    {
        assert(all[i as int] == lines[i as int]@);
        if !lines[i].as_str().is_empty() {
            match Income::from_str(lines[i].as_str()) {
                Ok(e) => {
                    let ghost before = incomes_view(v@);
                    v.push(e);
                    assert(incomes_view(v@) =~= before.push(e@));
                },
                Err(_) => {
                    proof {
                        lemma_read_incomes_fails(all, (i + 1) as nat, lines@.len());
                    }
                    return Err(ParseIncomeError);
                },
            }
        }
        i = i + 1;
    }
    Ok(v)
}

/// Once the reading of incomes has failed, more lines do not mend it.
pub proof fn lemma_read_incomes_fails(lines: Seq<Seq<char>>, n: nat, m: nat)
    requires
        n <= m <= lines.len(),
        spec_read_incomes(lines, n) is None,
    ensures
        spec_read_incomes(lines, m) is None,
    decreases m,
{
    if n < m {
        lemma_read_incomes_fails(lines, n, (m - 1) as nat);
    }
}

/// The state of gathering activities into months: the months that are
/// done and the month that is being filled.
pub struct Gathering<T> {
    pub done: CollectionView<T>,
    pub open: MonthView<T>,
}

/// The state after the first `n` activities were gathered. An activity of
/// the month that is being filled goes into it; one of another month has
/// the month that is being filled pushed to those that are done, unless
/// it is empty, and starts a month of its own.
pub open spec fn gather<T: Activity>(records: Seq<T>, n: nat) -> Gathering<T>
    decreases n,
{
    if n == 0 || n > records.len() {
        Gathering {
            done: CollectionView { changes: true, months: Seq::empty() },
            open: MonthView { month: Month::January, activities: Seq::empty() },
        }
    } else {
        let before = gather(records, (n - 1) as nat);
        let e = records[n - 1];
        if e.spec_date().month == before.open.month {
            Gathering {
                done: before.done,
                open: MonthView {
                    month: before.open.month,
                    activities: place(before.open.activities, e),
                },
            }
        } else {
            Gathering {
                done: if before.open.activities.len() > 0 {
                    before.done.push(before.open)
                } else {
                    before.done
                },
                open: MonthView {
                    month: e.spec_date().month,
                    activities: place(Seq::<T>::empty(), e),
                },
            }
        }
    }
}

/// The months of the activities of a file: what was gathered, with the
/// month that was being filled at the end pushed to the others. A month
/// that comes up again after another one is dropped by that push.
pub open spec fn grouped<T: Activity>(records: Seq<T>) -> CollectionView<T> {
    let state = gather(records, records.len());
    state.done.push(state.open)
}

/// Gathering keeps the months well-formed.
pub proof fn lemma_gather_wf<T: Activity>(records: Seq<T>, n: nat)
    requires
        n <= records.len(),
    ensures
        gather(records, n).done.wf(),
        gather(records, n).open.wf(),
    decreases n,
{
    if n > 0 {
        lemma_gather_wf(records, (n - 1) as nat);
        let before = gather(records, (n - 1) as nat);
        let e = records[n - 1];
        crate::economy::monthly_activities::lemma_place_sorted(before.open.activities, e);
        crate::economy::monthly_activities::lemma_place_sorted(Seq::<T>::empty(), e);
        if !before.done.has_month(before.open.month) {
            before.done.lemma_insert_wf(before.open);
        }
    }
}

/// Gathers the activities of a file into the months of a year, in the
/// order of the file.
pub fn group_by_month<T: Activity>(records: Vec<T>) -> (r: MonthlyActivitiesCollection<T>)
    ensures
        r@ == grouped(records@),
        r.wf(),
{
    let ghost all = records@;
    let mut done = MonthlyActivitiesCollection::<T>::new_changes(true);
    let mut open = MonthlyActivities::<T>::new();
    for e in it: records
        invariant
            it.seq() == all,
            done@ == gather(all, it.index() as nat).done,
            open@ == gather(all, it.index() as nat).open,
            done.wf(),
            open.wf(),
    {
        let ghost i = it.index();
        proof {
            lemma_gather_wf(all, (i + 1) as nat);
        }
        if e.get_date().month.index() == open.get_month().index() {
            proof {
                e.spec_date().month.lemma_index_injective(open@.month);
            }
            open.push(e);
        } else {
            proof {
                e.spec_date().month.lemma_index_injective(open@.month);
            }
            let month = e.get_date().month;
            let mut next = MonthlyActivities::<T>::new_month(&month);
            next.push(e);
            if open.size() > 0 {
                done.push(open);
            }
            open = next;
        }
    }
    proof {
        lemma_gather_wf(all, all.len());
        let state = gather(all, all.len());
        if !state.done.has_month(state.open.month) {
            state.done.lemma_insert_wf(state.open);
        }
    }
    done.push(open);
    done
}

/// The activities of a year that a file of expenses holds: the year that
/// the name of the file starts with, the expenses of its lines gathered
/// into months and marked as changed, and no incomes. An error where the
/// name starts with no year or a line that is not empty holds no expense.
pub fn read_expense_file(file_name: &str, lines: &Vec<String>) -> (r: Result<
    YearlyActivities,
    ParseExpenseError,
>)
    ensures
        match r {
            Ok(y) => {
                &&& spec_year_of_file_name(file_name@) == Some(y@.year)
                &&& y@.incomes == (CollectionView::<Income> { changes: false, months: Seq::empty() })
                &&& exists|v: Seq<Expense>|
                    spec_read_expenses(path_view(lines@), lines@.len()) == Some(
                        #[trigger] expenses_view(v),
                    ) && y@.expenses == grouped(v)
                &&& y.wf()
            },
            Err(_) => spec_year_of_file_name(file_name@) is None || spec_read_expenses(
                path_view(lines@),
                lines@.len(),
            ) is None,
        },
{
    let year = match year_of_file_name(file_name) {
        Some(y) => y,
        None => {
            return Err(ParseExpenseError);
        },
    };
    let records = match read_expense_lines(lines) {
        Ok(v) => v,
        Err(e) => {
            return Err(e);
        },
    };
    let ghost v = records@;
    let mut yearly = YearlyActivities::new_year_changes(year, false);
    let months = group_by_month(records);
    let place = yearly.get_expenses_mut();
    *place = months;
    proof {
        assert(yearly@.expenses == grouped(v));
        assert(spec_read_expenses(path_view(lines@), lines@.len()) == Some(expenses_view(v)));
    }
    Ok(yearly)
}

/// The activities of a year that a file of incomes holds: the year that
/// the name of the file starts with, the incomes of its lines gathered
/// into months and marked as changed, and no expenses. An error where the
/// name starts with no year or a line that is not empty holds no income.
pub fn read_income_file(file_name: &str, lines: &Vec<String>) -> (r: Result<
    YearlyActivities,
    ParseIncomeError,
>)
    ensures
        match r {
            Ok(y) => {
                &&& spec_year_of_file_name(file_name@) == Some(y@.year)
                &&& y@.expenses == (CollectionView::<Expense> {
                    changes: false,
                    months: Seq::empty(),
                })
                &&& exists|v: Seq<Income>|
                    spec_read_incomes(path_view(lines@), lines@.len()) == Some(
                        #[trigger] incomes_view(v),
                    ) && y@.incomes == grouped(v)
                &&& y.wf()
            },
            Err(_) => spec_year_of_file_name(file_name@) is None || spec_read_incomes(
                path_view(lines@),
                lines@.len(),
            ) is None,
        },
{
    let year = match year_of_file_name(file_name) {
        Some(y) => y,
        None => {
            return Err(ParseIncomeError);
        },
    };
    let records = match read_income_lines(lines) {
        Ok(v) => v,
        Err(e) => {
            return Err(e);
        },
    };
    let ghost v = records@;
    let mut yearly = YearlyActivities::new_year_changes(year, false);
    let months = group_by_month(records);
    let place = yearly.get_incomes_mut();
    *place = months;
    proof {
        assert(yearly@.incomes == grouped(v));
        assert(spec_read_incomes(path_view(lines@), lines@.len()) == Some(incomes_view(v)));
    }
    Ok(yearly)
}

/// The lines of the activities of all months, in order, each ended by a
/// line break.
pub open spec fn lines_of<T: Activity>(months: Seq<MonthView<T>>, m: nat, n: nat) -> Seq<char>
    decreases m, n,
{
    if m == 0 || m > months.len() {
        Seq::empty()
    } else if n == 0 || n > months[m - 1].activities.len() {
        lines_of(months, (m - 1) as nat, months_len(months, (m - 1) as nat))
    } else {
        lines_of(months, m, (n - 1) as nat) + months[m - 1].activities[n - 1].spec_line() + seq![
            '\n',
        ]
    }
}

/// The number of activities of the month at place `m - 1`; 0 where there
/// is no such month.
pub open spec fn months_len<T: Activity>(months: Seq<MonthView<T>>, m: nat) -> nat {
    if m == 0 || m > months.len() {
        0
    } else {
        months[m - 1].activities.len()
    }
}

/// The text of the file of a collection: the lines of its activities,
/// month after month, each ended by a line break.
pub open spec fn file_text<T: Activity>(c: CollectionView<T>) -> Seq<char> {
    lines_of(c.months, c.months.len(), months_len(c.months, c.months.len()))
}

/// The text of the file of a collection: the lines of its activities,
/// month after month, each ended by a line break.
pub fn format_collection<T: Activity>(c: &MonthlyActivitiesCollection<T>) -> (r: String)
    ensures
        r@ == file_text(c@),
{
    let months = c.get_activities();
    let ghost all = c@.months;
    let mut r = String::new();
    let mut m: usize = 0;
    while m < months.len()
        invariant
            m <= months.len(),
            crate::economy::monthly_activities::months_view(months@) == all,
            r@ == lines_of(all, m as nat, months_len(all, m as nat)),
        decreases months.len() - m,
    {
        let month = &months[m];
        assert(all[m as int] == month@);
        let acts = month.get_activities();
        let mut n: usize = 0;
        assert(r@ == lines_of(all, (m + 1) as nat, 0));
        while n < acts.len()
            invariant
                n <= acts.len(),
                m < months.len(),
                all.len() == months.len(),
                acts@ == all[m as int].activities,
                r@ == lines_of(all, (m + 1) as nat, n as nat),
            decreases acts.len() - n,
        {
            let ghost before = r@;
            let text = acts[n].line();
            push_text(&mut r, text.as_str());
            push_char(&mut r, '\n');
            n = n + 1;
            proof {
                assert(r@ =~= before + acts@[n - 1].spec_line() + seq!['\n']);
            }
        }
        m = m + 1;
    }
    r
}

/// The name of the file of the expenses of a year, below the directory
/// of the data.
pub open spec fn expense_file_name(year: u32) -> Seq<char> {
    "expenses/"@ + decimal(year as nat) + ".txt"@
}

/// The name of the file of the incomes of a year, below the directory of
/// the data.
pub open spec fn income_file_name(year: u32) -> Seq<char> {
    "incomes/"@ + decimal(year as nat) + ".txt"@
}

/// A file to be written, as a mathematical value: its name below the
/// directory of the data, and its text.
pub struct FileView {
    pub name: Seq<char>,
    pub text: Seq<char>,
}

/// The files of the first `n` years that are to be written: for each
/// year, that of its expenses and then that of its incomes, each only
/// where the collection is marked as changed.
pub open spec fn changed_files(years: Seq<YearView>, n: nat) -> Seq<FileView>
    decreases n,
{
    if n == 0 || n > years.len() {
        Seq::empty()
    } else {
        let y = years[n - 1];
        changed_files(years, (n - 1) as nat) + (if y.expenses.changes {
            seq![FileView { name: expense_file_name(y.year), text: file_text(y.expenses) }]
        } else {
            Seq::empty()
        }) + (if y.incomes.changes {
            seq![FileView { name: income_file_name(y.year), text: file_text(y.incomes) }]
        } else {
            Seq::empty()
        })
    }
}

/// The views of a sequence of files, one for one.
pub open spec fn files_view(files: Seq<(String, String)>) -> Seq<FileView> {
    Seq::new(files.len(), |i: int| FileView { name: files[i].0@, text: files[i].1@ })
}

/// The files that are to be written to save the activities: for each year
/// in order, the file of its expenses and then that of its incomes, each
/// only where the collection is marked as changed. Each file comes as its
/// name below the directory of the data and its text.
pub fn write_all_data(all_data: &AllActivities) -> (r: Vec<(String, String)>)
    ensures
        files_view(r@) == changed_files(all_data@.years, all_data@.years.len()),
{
    let years = all_data.get_activities();
    let ghost all = all_data@.years;
    let mut r: Vec<(String, String)> = Vec::new();
    let mut i: usize = 0;
    proof {
        assert(files_view(r@) =~= Seq::<FileView>::empty());
    }
    while i < years.len()
        invariant
            i <= years.len(),
            years_view(years@) == all,
            files_view(r@) == changed_files(all, i as nat),
        decreases years.len() - i,
    {
        let ye = &years[i];
        assert(all[i as int] == ye@);
        let ghost before = files_view(r@);
        let ghost first = if ye@.expenses.changes {
            seq![FileView { name: expense_file_name(ye@.year), text: file_text(ye@.expenses) }]
        } else {
            Seq::empty()
        };
        let ghost second = if ye@.incomes.changes {
            seq![FileView { name: income_file_name(ye@.year), text: file_text(ye@.incomes) }]
        } else {
            Seq::empty()
        };
        if ye.get_expenses().has_changes() {
            let mut name = String::new();
            push_text(&mut name, "expenses/");
            push_text(&mut name, number_to_text(*ye.get_year() as u64).as_str());
            push_text(&mut name, ".txt");
            assert(name@ =~= expense_file_name(ye@.year));
            r.push((name, format_collection(ye.get_expenses())));
        }
        assert(files_view(r@) =~= before + first);
        if ye.get_incomes().has_changes() {
            let mut name = String::new();
            push_text(&mut name, "incomes/");
            push_text(&mut name, number_to_text(*ye.get_year() as u64).as_str());
            push_text(&mut name, ".txt");
            assert(name@ =~= income_file_name(ye@.year));
            r.push((name, format_collection(ye.get_incomes())));
        }
        assert(files_view(r@) =~= before + first + second);
        i = i + 1;
    }
    r
}

} // verus!
