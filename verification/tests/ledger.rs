use finances_manager::concepts::io::{
    read_expense_types, read_income_types, read_types, write_all_data as write_concept_files,
    write_concept_types, ParseTreeError,
};
use finances_manager::concepts::types::ConceptTypes;
use finances_manager::economy::all_activities::AllActivities;
use finances_manager::economy::expense::{Expense, ParseExpenseError};
use finances_manager::economy::income::{Income, ParseIncomeError};
use finances_manager::economy::io::{
    format_collection, group_by_month, read_expense_file, read_expense_lines, read_income_file,
    read_income_lines, write_all_data, year_of_file_name,
};
use finances_manager::economy::monthly_activities::{
    MonthlyActivities, MonthlyActivitiesCollection,
};
use finances_manager::economy::traits::Activity;
use finances_manager::economy::yearly_activities::YearlyActivities;
use finances_manager::menus::statistics::{accounting, Filter};
use finances_manager::time::date::{Date, Month};

fn s(text: &str) -> String {
    text.to_string()
}

fn v(items: &[&str]) -> Vec<String> {
    items.iter().map(|x| x.to_string()).collect()
}

fn expense(y: u32, m: Month, d: u8, price: i64, concepts: &[&str], note: &str) -> Expense {
    Expense {
        day_of_year: Date { year: y, month: m, day: d },
        price,
        concepts: v(concepts),
        shop: s("shop"),
        city: s("city"),
        description: s(note),
    }
}

fn income(y: u32, m: Month, d: u8, price: i64, concepts: &[&str], note: &str) -> Income {
    Income {
        day_of_year: Date { year: y, month: m, day: d },
        price,
        concepts: v(concepts),
        from: s("from"),
        place: s("place"),
        description: s(note),
    }
}

fn notes(m: &MonthlyActivities<Expense>) -> Vec<String> {
    m.get_activities().iter().map(|e| e.description.clone()).collect()
}

fn days(m: &MonthlyActivities<Expense>) -> Vec<u8> {
    m.get_activities().iter().map(|e| e.day_of_year.day).collect()
}

fn months_of<T: Activity>(c: &MonthlyActivitiesCollection<T>) -> Vec<Month> {
    c.get_activities().iter().map(|m| *m.get_month()).collect()
}

fn years_of(a: &AllActivities) -> Vec<u32> {
    a.get_activities().iter().map(|y| *y.get_year()).collect()
}

#[test]
fn push_keeps_the_month_sorted_by_date() {
    let mut m = MonthlyActivities::<Expense>::new();
    assert_eq!(*m.get_month(), Month::January);
    assert_eq!(m.size(), 0);
    m.push(expense(2024, Month::January, 5, 100, &["a"], "five"));
    m.push(expense(2024, Month::January, 3, 100, &["a"], "three"));
    assert_eq!(days(&m), vec![3, 5]);
    assert_eq!(m.get(0).day_of_year.to_text(), "2024/January/3");
    assert_eq!(m.get(1).day_of_year.to_text(), "2024/January/5");
    assert_eq!(m.size(), 2);
}

#[test]
fn push_puts_equal_dates_behind_those_that_are_there() {
    let mut m = MonthlyActivities::<Expense>::new_month(&Month::March);
    assert_eq!(*m.get_month(), Month::March);
    for (d, n) in [(4, "a"), (2, "b"), (4, "c"), (9, "d"), (2, "e"), (4, "f"), (1, "g")] {
        m.push(expense(2024, Month::March, d, 1, &[], n));
    }
    assert_eq!(notes(&m), v(&["g", "b", "e", "a", "c", "f", "d"]));
}

#[test]
fn monthly_merge_is_repeated_push() {
    let mut a = MonthlyActivities::<Expense>::new();
    a.push(expense(2024, Month::January, 2, 1, &[], "a2"));
    a.push(expense(2024, Month::January, 7, 1, &[], "a7"));
    let mut b = MonthlyActivities::<Expense>::new_month(&Month::May);
    b.push(expense(2024, Month::January, 7, 1, &[], "b7"));
    b.push(expense(2024, Month::January, 1, 1, &[], "b1"));
    b.push(expense(2024, Month::January, 2, 1, &[], "b2"));
    a.merge(b);
    assert_eq!(notes(&a), v(&["b1", "a2", "b2", "a7", "b7"]));
    assert_eq!(*a.get_month(), Month::January);
}

#[test]
fn monthly_remove_and_get_mut() {
    let mut m = MonthlyActivities::<Expense>::new();
    m.push(expense(2024, Month::January, 1, 1, &[], "a"));
    m.push(expense(2024, Month::January, 2, 1, &[], "b"));
    m.push(expense(2024, Month::January, 3, 1, &[], "c"));
    m.get_mut(1).description = s("B");
    m.remove(0);
    assert_eq!(notes(&m), v(&["B", "c"]));
    m.get_activities_mut().clear();
    assert_eq!(m.size(), 0);
    assert_eq!(m.as_ref().size(), 0);
    m.as_mut().push(expense(2024, Month::January, 3, 1, &[], "z"));
    assert_eq!(m.size(), 1);
}

#[test]
fn collection_keeps_months_sorted_and_single() {
    let mut c = MonthlyActivitiesCollection::<Expense>::new();
    assert!(!c.has_changes());
    c.add(&Month::June);
    assert!(c.has_changes());
    c.add(&Month::February).push(expense(2024, Month::February, 1, 1, &[], "x"));
    c.add(&Month::December);
    c.add(&Month::June).push(expense(2024, Month::June, 1, 1, &[], "y"));
    assert_eq!(months_of(&c), vec![Month::February, Month::June, Month::December]);
    assert!(c.has_month(&Month::June));
    assert!(!c.has_month(&Month::January));
    assert_eq!(c.get_month(&Month::June).unwrap().size(), 1);
    assert!(c.get_month(&Month::July).is_none());
}

#[test]
fn collection_get_month_mut_marks_changes_only_when_found() {
    let mut c = MonthlyActivitiesCollection::<Expense>::new_changes(false);
    c.add(&Month::May);
    c.set_changes(false);
    assert!(c.get_month_mut(&Month::April).is_none());
    assert!(!c.has_changes());
    assert!(c.get_month_mut(&Month::May).is_some());
    assert!(c.has_changes());
    c.set_changes(false);
    c.get_activities_mut();
    assert!(c.has_changes());
}

#[test]
fn collection_push_drops_a_month_that_is_there() {
    let mut c = MonthlyActivitiesCollection::<Expense>::new();
    let mut first = MonthlyActivities::new_month(&Month::May);
    first.push(expense(2024, Month::May, 1, 1, &[], "kept"));
    let mut second = MonthlyActivities::new_month(&Month::May);
    second.push(expense(2024, Month::May, 2, 1, &[], "dropped"));
    c.push(first);
    c.set_changes(false);
    c.push(second);
    assert!(c.has_changes());
    assert_eq!(months_of(&c), vec![Month::May]);
    assert_eq!(notes(c.get_month(&Month::May).unwrap()), v(&["kept"]));
}

#[test]
fn collection_merge_adopts_or_merges() {
    let mut a = MonthlyActivitiesCollection::<Expense>::new();
    a.add(&Month::May).push(expense(2024, Month::May, 5, 1, &[], "a5"));
    let mut b = MonthlyActivitiesCollection::<Expense>::new();
    b.add(&Month::May).push(expense(2024, Month::May, 3, 1, &[], "b3"));
    b.add(&Month::January).push(expense(2024, Month::January, 9, 1, &[], "b9"));
    a.set_changes(false);
    a.merge(b);
    assert!(a.has_changes());
    assert_eq!(months_of(&a), vec![Month::January, Month::May]);
    assert_eq!(notes(a.get_month(&Month::May).unwrap()), v(&["b3", "a5"]));
    assert_eq!(notes(a.get_month(&Month::January).unwrap()), v(&["b9"]));
}

#[test]
fn yearly_constructors_set_year_and_flags() {
    let y = YearlyActivities::new();
    assert_eq!(*y.get_year(), 0);
    assert!(!y.get_expenses().has_changes() && !y.get_incomes().has_changes());
    let y = YearlyActivities::new_year(2024);
    assert_eq!(*y.get_year(), 2024);
    assert!(y.get_expenses().has_changes() && y.get_incomes().has_changes());
    let y = YearlyActivities::new_changes(true);
    assert_eq!(*y.get_year(), 0);
    assert!(y.get_expenses().has_changes() && y.get_incomes().has_changes());
    let mut y = YearlyActivities::new_year_changes(1999, false);
    assert_eq!(*y.get_year(), 1999);
    assert!(!y.get_expenses().has_changes() && !y.get_incomes().has_changes());
    y.set_year(2000);
    assert_eq!(*y.as_ref().get_year(), 2000);
}

#[test]
fn yearly_mutable_access_marks_that_collection() {
    let mut y = YearlyActivities::new_year_changes(2024, false);
    y.get_incomes_mut();
    assert!(!y.get_expenses().has_changes());
    assert!(y.get_incomes().has_changes());
    y.set_changes(false);
    y.get_expenses_mut();
    assert!(y.get_expenses().has_changes());
    assert!(!y.get_incomes().has_changes());
    y.set_changes(false);
    y.as_mut();
    assert!(y.get_expenses().has_changes() && y.get_incomes().has_changes());
}

#[test]
fn yearly_merge_merges_both_collections() {
    let mut a = YearlyActivities::new_year_changes(2024, false);
    a.get_expenses_mut().add(&Month::May).push(expense(2024, Month::May, 5, 1, &[], "a"));
    let mut b = YearlyActivities::new_year_changes(1, false);
    b.get_expenses_mut().add(&Month::May).push(expense(2024, Month::May, 1, 1, &[], "b"));
    b.get_incomes_mut().add(&Month::June).push(income(2024, Month::June, 1, 1, &[], "c"));
    a.merge(b);
    assert_eq!(*a.get_year(), 2024);
    assert_eq!(notes(a.get_expenses().get_month(&Month::May).unwrap()), v(&["b", "a"]));
    assert_eq!(a.get_incomes().get_month(&Month::June).unwrap().size(), 1);
    assert!(a.get_expenses().has_changes() && a.get_incomes().has_changes());
}

#[test]
fn add_year_sets_and_widens_the_bounds() {
    let mut all = AllActivities::new();
    all.add_year(2025);
    assert_eq!(all.get_min_year(), 2025);
    assert_eq!(all.get_max_year(), 2025);
    all.add_year(2020);
    assert_eq!(all.get_min_year(), 2020);
    assert_eq!(all.get_max_year(), 2025);
    all.add_year(2030);
    all.add_year(2022);
    all.add_year(2020);
    assert_eq!(all.get_min_year(), 2020);
    assert_eq!(all.get_max_year(), 2030);
    assert_eq!(years_of(&all), vec![2020, 2022, 2025, 2030]);
}

#[test]
fn bounds_of_an_empty_store_hold_no_year() {
    let all = AllActivities::new();
    assert!(all.get_min_year() > all.get_max_year());
    assert!(all.get_year(&0).is_none());
    assert!(all.get_year(&2024).is_none());
    assert!(all.get_year(&u32::MAX).is_none());
    assert!(!all.has_year(&2024));
}

#[test]
fn bounds_hold_for_years_at_the_ends_of_the_range() {
    let mut all = AllActivities::new();
    all.add_year(u32::MAX);
    assert_eq!((all.get_min_year(), all.get_max_year()), (u32::MAX, u32::MAX));
    all.add_year(0);
    assert_eq!((all.get_min_year(), all.get_max_year()), (0, u32::MAX));
    all.add_year(12000);
    assert_eq!(years_of(&all), vec![0, 12000, u32::MAX]);
    assert!(all.get_year(&12000).is_some());
}

#[test]
fn get_year_outside_the_bounds_is_none() {
    let mut all = AllActivities::new();
    all.add_year(2021);
    all.add_year(2023);
    assert!(all.get_year(&2020).is_none());
    assert!(all.get_year(&2024).is_none());
    assert!(all.get_year(&2022).is_none());
    assert!(all.get_year_mut(&2020).is_none());
    assert!(all.get_year_mut(&2022).is_none());
    assert_eq!(*all.get_year(&2021).unwrap().get_year(), 2021);
    assert_eq!(*all.get_year(&2023).unwrap().get_year(), 2023);
    assert!(all.has_year(&2023) && !all.has_year(&2022));
}

#[test]
fn get_year_mut_marks_the_year() {
    let mut all = AllActivities::new();
    all.add_year(2021);
    all.set_changes(false);
    assert!(!all.get_year(&2021).unwrap().get_expenses().has_changes());
    all.get_year_mut(&2021).unwrap();
    let y = all.get_year(&2021).unwrap();
    assert!(y.get_expenses().has_changes() && y.get_incomes().has_changes());
}

#[test]
fn push_year_drops_a_year_that_is_there() {
    let mut all = AllActivities::new();
    let mut first = YearlyActivities::new_year(2024);
    first.get_expenses_mut().add(&Month::May).push(expense(2024, Month::May, 1, 1, &[], "kept"));
    let mut second = YearlyActivities::new_year(2024);
    second.get_expenses_mut().add(&Month::June);
    all.push_year(first);
    all.push_year(YearlyActivities::new_year(2019));
    all.push_year(second);
    assert_eq!(years_of(&all), vec![2019, 2024]);
    assert_eq!((all.get_min_year(), all.get_max_year()), (2019, 2024));
    assert_eq!(months_of(all.get_year(&2024).unwrap().get_expenses()), vec![Month::May]);
}

#[test]
fn merging_a_year_that_is_there_sums_under_its_concepts() {
    let mut all = AllActivities::new();
    all.add_year(2023).get_expenses_mut().add(&Month::April).push(expense(
        2023,
        Month::April,
        10,
        1500,
        &["Food"],
        "fifteen",
    ));
    let mut other = YearlyActivities::new_year(2023);
    other.get_expenses_mut().add(&Month::April).push(expense(
        2023,
        Month::April,
        2,
        1000,
        &["Food"],
        "ten",
    ));
    all.merge(other);
    assert_eq!(years_of(&all), vec![2023]);
    let month = all.get_month_expenses(&2023, &Month::April).unwrap();
    assert_eq!(notes(month), v(&["ten", "fifteen"]));
    let summary = accounting(month, &Filter::All, 1);
    assert_eq!(summary.get_total(), 2500);
    let buckets: Vec<(Vec<String>, i128)> = summary.iter_summary().cloned().collect();
    assert_eq!(buckets, vec![(v(&["Food"]), 2500)]);
}

#[test]
fn merging_a_year_that_is_not_there_pushes_it() {
    let mut all = AllActivities::new();
    all.add_year(2023);
    let mut other = YearlyActivities::new_year(2021);
    other.get_incomes_mut().add(&Month::April).push(income(2021, Month::April, 2, 5, &[], "i"));
    all.merge(other);
    assert_eq!(years_of(&all), vec![2021, 2023]);
    assert_eq!((all.get_min_year(), all.get_max_year()), (2021, 2023));
    assert_eq!(all.get_month_incomes(&2021, &Month::April).unwrap().size(), 1);
    assert!(all.get_month_incomes(&2021, &Month::May).is_none());
    assert!(all.get_month_incomes(&2022, &Month::April).is_none());
    assert!(all.get_month_expenses(&2021, &Month::April).is_none());
}

#[test]
fn years_stay_sorted_after_any_mix_of_operations() {
    let mut all = AllActivities::new();
    for (i, y) in [2030u32, 1990, 2010, 2010, 2000, 2040, 1990, 2020].iter().enumerate() {
        match i % 3 {
            0 => {
                all.add_year(*y);
            }
            1 => all.push_year(YearlyActivities::new_year(*y)),
            _ => all.merge(YearlyActivities::new_year(*y)),
        }
        let years = years_of(&all);
        assert!(years.windows(2).all(|w| w[0] < w[1]));
        assert_eq!(all.get_min_year(), *years.first().unwrap());
        assert_eq!(all.get_max_year(), *years.last().unwrap());
    }
    assert_eq!(years_of(&all), vec![1990, 2000, 2010, 2020, 2030, 2040]);
}

#[test]
fn set_changes_reaches_every_flag() {
    let mut all = AllActivities::new();
    all.add_year(2020);
    all.add_year(2021);
    all.set_changes(false);
    assert!(!all.get_expense_concepts().has_changes());
    assert!(!all.get_income_concepts().has_changes());
    assert!(all.get_activities().iter().all(|y| !y.get_expenses().has_changes()
        && !y.get_incomes().has_changes()));
    all.set_changes_activities(true);
    assert!(!all.get_expense_concepts().has_changes());
    assert!(all.get_activities().iter().all(|y| y.get_expenses().has_changes()
        && y.get_incomes().has_changes()));
    all.set_changes(false);
    all.get_expense_concepts_mut();
    assert!(all.get_expense_concepts().has_changes());
    assert!(!all.get_income_concepts().has_changes());
    all.get_income_concepts_mut();
    assert!(all.get_income_concepts().has_changes());
    all.set_changes(false);
    all.get_activities_mut();
    assert!(all.get_activities().iter().all(|y| y.get_expenses().has_changes()));
}

const LINE_A: &str = "\"2024/January/5\"\t\"12.5\"\t\"Food; Groceries\"\t\"Shop\"\t\"Town\"\t\"milk\"";
const LINE_B: &str = "\"2024/January/3\"\t\"-3\"\t\"Fun\"\t\"Cinema\"\t\"City\"\t\"\"";
const LINE_C: &str = "\"2024/March/1\"\t\"0.30000001\"\t\"\"\t\"x\"\t\"y\"\t\"z\"";

#[test]
fn expense_reads_from_a_line_and_writes_back() {
    let e = Expense::from_str(LINE_A).unwrap();
    assert_eq!(e.day_of_year, Date { year: 2024, month: Month::January, day: 5 });
    assert_eq!(e.price, 1250);
    assert_eq!(e.concepts, v(&["Food", "Groceries"]));
    assert_eq!(e.shop, "Shop");
    assert_eq!(e.city, "Town");
    assert_eq!(e.description, "milk");
    assert_eq!(
        e.to_line(),
        "\"2024/January/5\"\t\"12.50\"\t\"Food;Groceries\"\t\"Shop\"\t\"Town\"\t\"milk\""
    );
    assert_eq!(e.line(), e.to_line());
    let again = Expense::from_str(&e.to_line()).unwrap();
    assert_eq!(again.to_line(), e.to_line());
}

#[test]
fn income_reads_from_a_line_and_writes_back() {
    let i = Income::from_str(LINE_B).unwrap();
    assert_eq!(i.day_of_year, Date { year: 2024, month: Month::January, day: 3 });
    assert_eq!(i.price, -300);
    assert_eq!(i.concepts, v(&["Fun"]));
    assert_eq!(i.from, "Cinema");
    assert_eq!(i.place, "City");
    assert_eq!(i.description, "");
    assert_eq!(
        i.to_line(),
        "\"2024/January/3\"\t\"-3.00\"\t\"Fun\"\t\"Cinema\"\t\"City\"\t\"\""
    );
    assert_eq!(*i.get_date(), i.day_of_year);
    assert_eq!(i.get_price(), -300);
    assert_eq!(*i.get_concepts(), v(&["Fun"]));
}

#[test]
fn malformed_lines_are_errors() {
    let bad_date = "\"2024/Januar/5\"\t\"12.5\"\t\"a\"\t\"b\"\t\"c\"\t\"d\"";
    let bad_price = "\"2024/January/5\"\t\"12,5\"\t\"a\"\t\"b\"\t\"c\"\t\"d\"";
    let short = "\"2024/January/5\"\t\"12.5\"\t\"a\"\t\"b\"\t\"c\"";
    for line in [bad_date, bad_price, short, ""] {
        assert_eq!(Expense::from_str(line).err(), Some(ParseExpenseError), "{}", line);
        assert_eq!(Income::from_str(line).err(), Some(ParseIncomeError), "{}", line);
    }
}

#[test]
fn year_of_file_name_reads_four_digits() {
    assert_eq!(year_of_file_name("2024.txt"), Some(2024));
    assert_eq!(year_of_file_name("0007"), Some(7));
    assert_eq!(year_of_file_name("20245.txt"), Some(2024));
    assert_eq!(year_of_file_name("202"), None);
    assert_eq!(year_of_file_name("x024.txt"), None);
    assert_eq!(year_of_file_name(""), None);
}

#[test]
fn lines_read_in_order_and_empty_ones_are_passed_over() {
    let lines = v(&[LINE_A, "", LINE_C]);
    let got = read_expense_lines(&lines).unwrap();
    assert_eq!(got.len(), 2);
    assert_eq!(got[0].price, 1250);
    assert_eq!(got[1].price, 30);
    assert!(got[1].concepts.is_empty());
    assert_eq!(read_income_lines(&v(&[LINE_B])).unwrap().len(), 1);
    assert_eq!(read_expense_lines(&v(&[LINE_A, "junk"])).err(), Some(ParseExpenseError));
    assert_eq!(read_income_lines(&v(&[" "])).err(), Some(ParseIncomeError));
    assert!(read_expense_lines(&v(&[])).unwrap().is_empty());
}

#[test]
fn group_by_month_gathers_runs_of_a_month() {
    let records = vec![
        expense(2024, Month::February, 9, 1, &[], "f9"),
        expense(2024, Month::February, 2, 1, &[], "f2"),
        expense(2024, Month::January, 5, 1, &[], "j5"),
        expense(2024, Month::March, 1, 1, &[], "m1"),
    ];
    let c = group_by_month(records);
    assert!(c.has_changes());
    assert_eq!(months_of(&c), vec![Month::January, Month::February, Month::March]);
    assert_eq!(notes(c.get_month(&Month::February).unwrap()), v(&["f2", "f9"]));
}

#[test]
fn group_by_month_drops_a_month_that_comes_up_again() {
    let records = vec![
        expense(2024, Month::February, 1, 1, &[], "first"),
        expense(2024, Month::March, 1, 1, &[], "between"),
        expense(2024, Month::February, 2, 1, &[], "again"),
    ];
    let c = group_by_month(records);
    assert_eq!(months_of(&c), vec![Month::February, Month::March]);
    assert_eq!(notes(c.get_month(&Month::February).unwrap()), v(&["first"]));
}

#[test]
fn group_by_month_of_nothing_holds_an_empty_january() {
    let c = group_by_month(Vec::<Expense>::new());
    assert_eq!(months_of(&c), vec![Month::January]);
    assert_eq!(c.get_month(&Month::January).unwrap().size(), 0);
}

#[test]
fn files_read_into_a_year() {
    let y = read_expense_file("2024.txt", &v(&[LINE_A, LINE_C])).unwrap();
    assert_eq!(*y.get_year(), 2024);
    assert_eq!(months_of(y.get_expenses()), vec![Month::January, Month::March]);
    assert!(y.get_expenses().has_changes());
    assert!(!y.get_incomes().has_changes());
    assert!(y.get_incomes().get_activities().is_empty());
    let z = read_income_file("1999.txt", &v(&[LINE_B])).unwrap();
    assert_eq!(*z.get_year(), 1999);
    assert_eq!(months_of(z.get_incomes()), vec![Month::January]);
    assert!(z.get_expenses().get_activities().is_empty());
    assert_eq!(read_expense_file("x.txt", &v(&[LINE_A])).err(), Some(ParseExpenseError));
    assert_eq!(read_income_file("2024.txt", &v(&["junk"])).err(), Some(ParseIncomeError));
}

#[test]
fn only_changed_collections_are_written() {
    let mut all = AllActivities::new();
    all.merge(read_expense_file("2024.txt", &v(&[LINE_A, LINE_B, LINE_C])).unwrap());
    all.merge(read_income_file("2024.txt", &v(&[LINE_B])).unwrap());
    all.merge(read_income_file("2020.txt", &v(&[LINE_B])).unwrap());
    all.set_changes(false);
    assert!(write_all_data(&all).is_empty());
    all.get_year_mut(&2024).unwrap().get_expenses_mut();
    let files = write_all_data(&all);
    assert_eq!(files.len(), 2);
    assert_eq!(files[0].0, "expenses/2024.txt");
    assert_eq!(
        files[0].1,
        "\"2024/January/3\"\t\"-3.00\"\t\"Fun\"\t\"Cinema\"\t\"City\"\t\"\"\n\
         \"2024/January/5\"\t\"12.50\"\t\"Food;Groceries\"\t\"Shop\"\t\"Town\"\t\"milk\"\n\
         \"2024/March/1\"\t\"0.30\"\t\"\"\t\"x\"\t\"y\"\t\"z\"\n"
    );
    assert_eq!(files[1].0, "incomes/2024.txt");
    all.set_changes(true);
    let names: Vec<String> = write_all_data(&all).into_iter().map(|f| f.0).collect();
    assert_eq!(
        names,
        v(&["expenses/2020.txt", "incomes/2020.txt", "expenses/2024.txt", "incomes/2024.txt"])
    );
}

#[test]
fn format_collection_of_nothing_is_empty() {
    let c = MonthlyActivitiesCollection::<Income>::new();
    assert_eq!(format_collection(&c), "");
}

#[test]
fn concept_files_read_and_write() {
    let lines = v(&["  Food (", "\tRestaurants ()", "\tGroceries ()", ")", "Bills ()"]);
    let mut c = ConceptTypes::new();
    assert_eq!(read_types(&lines, &mut c), Ok(()));
    assert!(!c.has_changes());
    assert_eq!(
        write_concept_types(&c),
        "Bills ()\nFood (\n\tGroceries ()\n\tRestaurants ()\n)\n"
    );
    assert_eq!(read_types(&v(&["a ())", "b ()"]), &mut c), Err(ParseTreeError));
    assert_eq!(c.get_tree().num_keys(), 2);
}

#[test]
fn concept_files_of_the_store() {
    let mut all = AllActivities::new();
    assert_eq!(read_expense_types(&v(&["a ()"]), &mut all), Ok(()));
    assert_eq!(read_income_types(&v(&["b (c ())"]), &mut all), Ok(()));
    assert!(all.get_expense_concepts().has_changes());
    let files = write_concept_files(&all);
    assert_eq!(
        files,
        vec![(s("expense_types.txt"), s("a ()\n")), (s("income_types.txt"), s("b (\n\tc ()\n)\n"))]
    );
    all.set_changes(false);
    assert!(write_concept_files(&all).is_empty());
    all.get_income_concepts_mut();
    assert_eq!(write_concept_files(&all).len(), 1);
    assert_eq!(read_income_types(&v(&[") x ()"]), &mut all), Err(ParseTreeError));
    assert_eq!(all.get_income_concepts().get_tree().num_keys(), 1);
}

#[test]
fn add_expense_files_under_year_and_month() {
    let mut all = AllActivities::new();
    all.add_expense(expense(2024, Month::May, 9, 1, &[], "b"));
    all.add_expense(expense(2024, Month::May, 2, 1, &[], "a"));
    all.add_expense(expense(2022, Month::January, 1, 1, &[], "c"));
    all.add_income(income(2023, Month::March, 3, 5, &[], "i"));
    assert_eq!(years_of(&all), vec![2022, 2023, 2024]);
    assert_eq!((all.get_min_year(), all.get_max_year()), (2022, 2024));
    assert_eq!(notes(all.get_month_expenses(&2024, &Month::May).unwrap()), v(&["a", "b"]));
    assert_eq!(all.get_month_incomes(&2023, &Month::March).unwrap().size(), 1);
    assert!(all.get_month_expenses(&2023, &Month::March).is_none());
    assert!(all.is_well_formed());
    let mut y = YearlyActivities::new_year_changes(2000, false);
    y.add_income(income(2000, Month::July, 1, 5, &[], "j"));
    assert!(y.get_incomes().has_changes());
    assert!(!y.get_expenses().has_changes());
    assert_eq!(months_of(y.get_incomes()), vec![Month::July]);
    assert!(y.is_well_formed());
}

#[test]
fn well_formedness_can_be_tested() {
    let mut m = MonthlyActivities::<Expense>::new();
    m.push(expense(2024, Month::January, 1, 1, &[], "a"));
    m.push(expense(2024, Month::January, 1, 1, &[], "b"));
    m.push(expense(2024, Month::January, 4, 1, &[], "c"));
    assert!(m.is_well_formed());
    m.get_mut(0).day_of_year.day = 9;
    assert!(!m.is_well_formed());
    let mut c = MonthlyActivitiesCollection::<Expense>::new();
    c.add(&Month::May);
    c.add(&Month::March);
    assert!(c.is_well_formed());
    c.get_activities_mut().swap(0, 1);
    assert!(!c.is_well_formed());
    let mut all = AllActivities::new();
    assert!(all.is_well_formed());
    all.add_year(2020);
    all.add_year(2021);
    assert!(all.is_well_formed());
    all.get_activities_mut().pop();
    assert!(!all.is_well_formed());
    all.get_activities_mut().push(YearlyActivities::new_year(2021));
    assert!(all.is_well_formed());
    all.get_activities_mut().push(YearlyActivities::new_year(2021));
    assert!(!all.is_well_formed());
}

#[test]
fn years_compare_by_their_number_alone() {
    let mut a = YearlyActivities::new_year(2024);
    a.add_expense(expense(2024, Month::May, 1, 1, &[], "x"));
    let b = YearlyActivities::new_year_changes(2024, false);
    let c = YearlyActivities::new_year(2025);
    assert!(a == b);
    assert!(a != c);
    assert!(a < c && c > b);
    assert!(a <= b && a >= b);
    assert!(a == 2024u32);
    assert!(a != 2025u32);
    assert!(a < 2025u32 && a > 2023u32);
}
