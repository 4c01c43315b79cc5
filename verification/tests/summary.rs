use finances_manager::economy::expense::Expense;
use finances_manager::economy::monthly_activities::MonthlyActivities;
use finances_manager::menus::activity_summary::ActivitySummary;
use finances_manager::economy::all_activities::AllActivities;
use finances_manager::economy::monthly_activities::MonthlyActivitiesCollection;
use finances_manager::menus::activities::{add_monthly_expense, add_monthly_income};
use finances_manager::economy::income::Income;
use finances_manager::concepts::tree_io::{build_tree, format_tree};
use finances_manager::menus::concept_types::{
    rename_expense_concept, rename_in_activity, rename_in_tree, rename_income_concept,
};
use finances_manager::menus::statistics::{
    accounting, accounting_collection, compare_rows, concept, group_key, history_of_month,
    rows_of, sort_by_concept, sort_by_times, sort_by_value, sort_rows, Cell, Filter, Grouping,
    SortOrder,
};
use finances_manager::text::Comparison;
use finances_manager::time::date::YearMonth;
use finances_manager::time::date::{Date, Month};

fn v(items: &[&str]) -> Vec<String> {
    items.iter().map(|x| x.to_string()).collect()
}

fn expense(day: u8, price: i64, concepts: &[&str]) -> Expense {
    Expense {
        day_of_year: Date { year: 2024, month: Month::January, day },
        price,
        concepts: v(concepts),
        shop: String::new(),
        city: String::new(),
        description: String::new(),
    }
}

fn buckets(s: &ActivitySummary) -> Vec<(Vec<String>, i128)> {
    s.iter_summary().cloned().collect()
}

#[test]
fn new_summary_is_empty() {
    let s = ActivitySummary::new();
    assert_eq!(s.get_total(), 0);
    assert!(!s.has_data());
    assert!(buckets(&s).is_empty());
}

#[test]
fn add_sums_under_the_exact_path() {
    let mut s = ActivitySummary::new();
    s.add(v(&["Food", "Groceries"]), 1000);
    s.add(v(&["Food"]), 200);
    s.add(v(&["Food", "Groceries"]), 50);
    s.add(v(&["Bills"]), -30);
    s.add(v(&[]), 7);
    assert!(s.has_data());
    assert_eq!(s.get_total(), 1227);
    assert_eq!(
        buckets(&s),
        vec![
            (v(&[]), 7),
            (v(&["Bills"]), -30),
            (v(&["Food"]), 200),
            (v(&["Food", "Groceries"]), 1050),
        ]
    );
}

#[test]
fn buckets_come_in_the_order_of_their_paths() {
    let mut s = ActivitySummary::new();
    for p in [&["b"][..], &["a", "z"], &["a"], &["B"], &["a", "b"], &["ab"]] {
        s.add(v(p), 1);
    }
    let paths: Vec<Vec<String>> = buckets(&s).into_iter().map(|b| b.0).collect();
    assert_eq!(
        paths,
        vec![v(&["B"]), v(&["a"]), v(&["a", "b"]), v(&["a", "z"]), v(&["ab"]), v(&["b"])]
    );
}

#[test]
fn merge_sums_bucket_by_bucket() {
    let mut a = ActivitySummary::new();
    a.add(v(&["Food"]), 100);
    a.add(v(&["Rent"]), 500);
    let mut b = ActivitySummary::new();
    b.add(v(&["Food"]), 11);
    b.add(v(&["Fun"]), 7);
    b.add(v(&["Food"]), 1);
    a.merge(b);
    assert_eq!(a.get_total(), 619);
    assert_eq!(buckets(&a), vec![(v(&["Food"]), 112), (v(&["Fun"]), 7), (v(&["Rent"]), 500)]);
    a.merge(ActivitySummary::new());
    assert_eq!(a.get_total(), 619);
}

#[test]
fn sums_hold_the_largest_amounts() {
    let mut s = ActivitySummary::new();
    for _ in 0..4 {
        s.add(v(&["x"]), i64::MAX);
        s.add(v(&["y"]), i64::MIN);
    }
    assert_eq!(s.get_total(), -4);
    assert_eq!(
        buckets(&s),
        vec![(v(&["x"]), 4 * (i64::MAX as i128)), (v(&["y"]), 4 * (i64::MIN as i128))]
    );
}

#[test]
fn concept_takes_the_first_of_the_path() {
    let e = expense(1, 1, &["a", "b", "c"]);
    assert_eq!(concept(0, &e), v(&[]));
    assert_eq!(concept(1, &e), v(&["a"]));
    assert_eq!(concept(2, &e), v(&["a", "b"]));
    assert_eq!(concept(3, &e), v(&["a", "b", "c"]));
    assert_eq!(concept(9, &e), v(&["a", "b", "c"]));
}

fn month() -> MonthlyActivities<Expense> {
    let mut m = MonthlyActivities::new();
    m.push(expense(1, 1000, &["Food", "Groceries"]));
    m.push(expense(2, 250, &["Food", "Restaurants"]));
    m.push(expense(3, 40, &["Food"]));
    m.push(expense(4, 9000, &["Rent"]));
    m.push(expense(5, -5, &["Food", "Groceries", "Refund"]));
    m
}

#[test]
fn accounting_groups_by_the_depth() {
    let m = month();
    assert_eq!(buckets(&accounting(&m, &Filter::All, 1)), vec![(v(&["Food"]), 1285), (v(&["Rent"]), 9000)]);
    assert_eq!(
        buckets(&accounting(&m, &Filter::All, 2)),
        vec![
            (v(&["Food"]), 40),
            (v(&["Food", "Groceries"]), 995),
            (v(&["Food", "Restaurants"]), 250),
            (v(&["Rent"]), 9000),
        ]
    );
    assert_eq!(buckets(&accounting(&m, &Filter::All, 0)), vec![(v(&[]), 10285)]);
    assert_eq!(buckets(&accounting(&m, &Filter::All, -1)).len(), 5);
    assert_eq!(buckets(&accounting(&m, &Filter::All, 7)), buckets(&accounting(&m, &Filter::All, -1)));
}

#[test]
fn total_is_the_sum_of_all_prices_at_every_depth() {
    let m = month();
    for depth in [-1, 0, 1, 2, 3, 10] {
        let s = accounting(&m, &Filter::All, depth);
        assert_eq!(s.get_total(), 10285);
        assert_eq!(buckets(&s).iter().map(|b| b.1).sum::<i128>(), 10285);
    }
}

#[test]
fn accounting_of_an_empty_month() {
    let s = accounting(&MonthlyActivities::<Expense>::new(), &Filter::All, 1);
    assert_eq!(s.get_total(), 0);
    assert!(!s.has_data());
}

fn shop_expense(day: u8, price: i64, concepts: &[&str], shop: &str, city: &str) -> Expense {
    let mut e = expense(day, price, concepts);
    e.shop = shop.to_string();
    e.city = city.to_string();
    e
}

fn shops() -> MonthlyActivities<Expense> {
    let mut m = MonthlyActivities::new();
    m.push(shop_expense(1, 100, &["Food", "Groceries"], "Market", "Town"));
    m.push(shop_expense(2, 250, &["food", "Bakery"], "Corner Bakery", "Town"));
    m.push(shop_expense(3, 40, &["Fun"], "Market", "City"));
    m.push(shop_expense(4, 1000, &["Rent"], "Landlord", "City"));
    m
}

#[test]
fn filters_take_what_they_describe() {
    let m = shops();
    let e = m.get(0);
    assert!(Filter::All.takes(e));
    assert!(Filter::Concepts(v(&["FOOD"])).takes(e));
    assert!(Filter::Concepts(v(&["Food", "Groceries", "Milk"])).takes(e));
    assert!(!Filter::Concepts(v(&["Food", "Bakery"])).takes(e));
    assert!(Filter::PriceRange(100, 100).takes(e));
    assert!(!Filter::PriceRange(101, 200).takes(e));
    assert!(!Filter::PriceRange(0, 99).takes(e));
    assert!(Filter::Source("Market".to_string()).takes(e));
    assert!(!Filter::Source("market".to_string()).takes(e));
    assert!(Filter::SourceHolds("ark".to_string()).takes(e));
    assert!(!Filter::SourceHolds("Bakery".to_string()).takes(e));
}

#[test]
fn accounting_counts_only_what_the_filter_takes() {
    let m = shops();
    let s = accounting(&m, &Filter::Concepts(v(&["Food"])), 1);
    assert_eq!(s.get_total(), 350);
    assert_eq!(s.get_count(), 2);
    assert_eq!(buckets(&s), vec![(v(&["Food"]), 100), (v(&["food"]), 250)]);
    let s = accounting(&m, &Filter::PriceRange(40, 100), -1);
    assert_eq!(s.get_total(), 140);
    let s = accounting(&m, &Filter::Source("Market".to_string()), 0);
    assert_eq!(buckets(&s), vec![(v(&[]), 140)]);
    let s = accounting(&m, &Filter::SourceHolds("or".to_string()), 1);
    assert_eq!(buckets(&s), vec![(v(&["Rent"]), 1000), (v(&["food"]), 250)]);
    let s = accounting(&m, &Filter::Source("Nobody".to_string()), 1);
    assert!(!s.has_data());
    assert_eq!(s.get_total(), 0);
}

#[test]
fn accounting_collection_merges_the_months() {
    let mut c = MonthlyActivitiesCollection::<Expense>::new();
    c.add(&Month::January).push(shop_expense(1, 100, &["Food"], "a", "b"));
    c.add(&Month::March).push(shop_expense(1, 11, &["Food"], "a", "b"));
    c.add(&Month::March).push(shop_expense(2, 5, &["Fun"], "a", "b"));
    c.add(&Month::July);
    let s = accounting_collection(&c, &Filter::All, 1).unwrap();
    assert_eq!(s.get_total(), 116);
    assert_eq!(s.get_count(), 3);
    assert_eq!(buckets(&s), vec![(v(&["Food"]), 111), (v(&["Fun"]), 5)]);
    let empty = MonthlyActivitiesCollection::<Expense>::new();
    assert!(!accounting_collection(&empty, &Filter::All, 1).unwrap().has_data());
}

#[test]
fn try_merge_and_lookup() {
    let mut a = ActivitySummary::new();
    a.add(v(&["x"]), 5);
    let mut b = ActivitySummary::new();
    b.add(v(&["x"]), 6);
    b.add(v(&["y"]), 7);
    assert!(a.try_merge(b));
    assert_eq!(a.get_money(&v(&["x"])), 11);
    assert_eq!(a.get_money(&v(&["y"])), 7);
    assert_eq!(a.get_money(&v(&["z"])), 0);
    assert_eq!(a.get_money(&v(&[])), 0);
    assert_eq!(a.get_count(), 3);
    assert_eq!(a.get_total(), 18);
}

#[test]
fn group_keys() {
    let e = shop_expense(1, 1, &["a", "b"], "Shop", "City");
    assert_eq!(group_key(&Grouping::Concepts(1), &e), v(&["a"]));
    assert_eq!(group_key(&Grouping::Concepts(5), &e), v(&["a", "b"]));
    assert_eq!(group_key(&Grouping::Source, &e), v(&["Shop"]));
    assert_eq!(group_key(&Grouping::Location, &e), v(&["City"]));
    assert_eq!(group_key(&Grouping::SourceAndLocation, &e), v(&["Shop - City"]));
}

fn row(key: &[&str], times: u32, value: i128) -> (Vec<String>, Cell) {
    (v(key), Cell { num_times: times, total_value: value, classifier: String::new() })
}

fn keys(rows: &[(Vec<String>, Cell)]) -> Vec<String> {
    rows.iter().map(|r| r.0.join("/")).collect()
}

#[test]
fn history_counts_and_sums_by_group() {
    let m = shops();
    let mut money = ActivitySummary::new();
    let mut times = ActivitySummary::new();
    history_of_month(&mut money, &mut times, &m, &Grouping::Source);
    history_of_month(&mut money, &mut times, &m, &Grouping::Source);
    let rows = rows_of(&money, &times);
    let got: Vec<(String, u32, i128)> =
        rows.iter().map(|r| (r.0.join("/"), r.1.num_times, r.1.total_value)).collect();
    assert_eq!(
        got,
        vec![
            ("Corner Bakery".to_string(), 2, 500),
            ("Landlord".to_string(), 2, 2000),
            ("Market".to_string(), 4, 280),
        ]
    );
    assert!(rows.iter().all(|r| r.1.classifier.is_empty()));
    assert_eq!(keys(&sort_rows(rows.clone(), SortOrder::ByTimes)), v(&["Market", "Corner Bakery", "Landlord"]));
    assert_eq!(keys(&sort_rows(rows.clone(), SortOrder::ByValue)), v(&["Landlord", "Corner Bakery", "Market"]));
    assert_eq!(keys(&sort_rows(rows, SortOrder::ByConcept)), v(&["Corner Bakery", "Landlord", "Market"]));
}

#[test]
fn rows_compare_in_each_order() {
    let a = row(&["a"], 2, 10);
    let b = row(&["b"], 2, 30);
    let c = row(&["c"], 5, 10);
    assert_eq!(sort_by_concept(&a, &b), Comparison::Less);
    assert_eq!(sort_by_concept(&b, &a), Comparison::Greater);
    assert_eq!(sort_by_concept(&a, &row(&["a"], 9, 9)), Comparison::Equal);
    assert_eq!(sort_by_times(&a, &b), Comparison::Less);
    assert_eq!(sort_by_times(&a, &c), Comparison::Greater);
    assert_eq!(sort_by_times(&c, &b), Comparison::Less);
    assert_eq!(sort_by_value(&a, &b), Comparison::Greater);
    assert_eq!(sort_by_value(&a, &c), Comparison::Less);
    assert_eq!(sort_by_value(&c, &a), Comparison::Greater);
    assert_eq!(compare_rows(SortOrder::ByValue, &b, &c), Comparison::Less);
    assert_eq!(compare_rows(SortOrder::ByTimes, &b, &c), Comparison::Greater);
    assert_eq!(compare_rows(SortOrder::ByConcept, &b, &c), Comparison::Less);
}

#[test]
fn sort_rows_keeps_all_rows_and_breaks_ties_by_key() {
    let rows = vec![
        row(&["d"], 1, 5),
        row(&["b"], 3, 5),
        row(&["a"], 1, 9),
        row(&["c"], 3, 1),
        row(&["b", "x"], 1, 5),
    ];
    assert_eq!(keys(&sort_rows(rows.clone(), SortOrder::ByConcept)), v(&["a", "b", "b/x", "c", "d"]));
    assert_eq!(keys(&sort_rows(rows.clone(), SortOrder::ByTimes)), v(&["b", "c", "a", "b/x", "d"]));
    assert_eq!(keys(&sort_rows(rows.clone(), SortOrder::ByValue)), v(&["a", "b", "b/x", "d", "c"]));
    assert!(sort_rows(Vec::new(), SortOrder::ByValue).is_empty());
}

#[test]
fn monthly_expense_is_filed_under_every_month_of_the_range() {
    let mut all = AllActivities::new();
    let template = shop_expense(1, 500, &["Rent"], "Landlord", "City");
    let start = YearMonth { year: 2023, month: Month::November };
    let end = YearMonth { year: 2024, month: Month::February };
    add_monthly_expense(&mut all, &template, start, end, 28);
    let years: Vec<u32> = all.get_activities().iter().map(|y| *y.get_year()).collect();
    assert_eq!(years, vec![2023, 2024]);
    for (y, m) in [
        (2023, Month::November),
        (2023, Month::December),
        (2024, Month::January),
        (2024, Month::February),
    ] {
        let month = all.get_month_expenses(&y, &m).unwrap();
        assert_eq!(month.size(), 1);
        let e = month.get(0);
        assert_eq!(e.day_of_year, Date { year: y, month: m, day: 28 });
        assert_eq!((e.price, e.shop.as_str(), e.city.as_str()), (500, "Landlord", "City"));
        assert_eq!(e.concepts, v(&["Rent"]));
    }
    assert!(all.get_month_expenses(&2024, &Month::March).is_none());
    add_monthly_expense(&mut all, &template, end, start, 1);
    assert_eq!(all.get_month_expenses(&2024, &Month::February).unwrap().size(), 1);
    assert!(all.is_well_formed());
}

#[test]
fn monthly_income_is_filed_under_every_month_of_the_range() {
    let mut all = AllActivities::new();
    let template = Income {
        day_of_year: Date { year: 1, month: Month::January, day: 1 },
        price: 100000,
        concepts: v(&["Salary"]),
        from: "Work".to_string(),
        place: "Office".to_string(),
        description: "pay".to_string(),
    };
    let ym = YearMonth { year: 2024, month: Month::December };
    add_monthly_income(&mut all, &template, ym, YearMonth { year: 2025, month: Month::January }, 1);
    assert_eq!(all.get_month_incomes(&2024, &Month::December).unwrap().size(), 1);
    assert_eq!(all.get_month_incomes(&2025, &Month::January).unwrap().get(0).description, "pay");
    assert_eq!((all.get_min_year(), all.get_max_year()), (2024, 2025));
}

#[test]
fn rename_in_activity_changes_the_end_of_the_branch() {
    let mut e = expense(1, 1, &["Food", "Groceries", "Milk"]);
    rename_in_activity(&mut e, &v(&["food", "groceries"]), &"Market".to_string());
    assert_eq!(e.concepts, v(&["Food", "Market", "Milk"]));
    rename_in_activity(&mut e, &v(&["Food", "Groceries"]), &"x".to_string());
    assert_eq!(e.concepts, v(&["Food", "Market", "Milk"]));
    rename_in_activity(&mut e, &v(&["Food", "Market", "Milk", "Soy"]), &"x".to_string());
    assert_eq!(e.concepts, v(&["Food", "Market", "Milk"]));
    rename_in_activity(&mut e, &v(&["FOOD"]), &"Eating".to_string());
    assert_eq!(e.concepts, v(&["Eating", "Market", "Milk"]));
}

#[test]
fn rename_in_tree_renames_and_sorts() {
    let mut t = build_tree("Food (Bakery () Groceries ()) Rent ()".to_string());
    rename_in_tree(&mut t, &v(&["Food", "Bakery"]), "Sweets".to_string());
    assert_eq!(format_tree(&t), "Food (\n\tGroceries ()\n\tSweets ()\n)\nRent ()\n");
    rename_in_tree(&mut t, &v(&["Food"]), "Zoo".to_string());
    assert_eq!(format_tree(&t), "Rent ()\nZoo (\n\tGroceries ()\n\tSweets ()\n)\n");
    assert!(t.is_well_formed());
    rename_in_tree(&mut t, &v(&["Rent"]), "Zoo".to_string());
    assert!(!t.is_well_formed());
    assert_eq!(format_tree(&t), "Zoo ()\nZoo (\n\tGroceries ()\n\tSweets ()\n)\n");
}

#[test]
fn rename_concept_reaches_tree_and_activities() {
    let mut all = AllActivities::new();
    all.get_expense_concepts_mut()
        .set_tree(build_tree("Food (Bakery () Groceries ())".to_string()));
    all.add_expense(expense(1, 1, &["Food", "Bakery"]));
    all.add_expense(expense(2, 1, &["Food", "Groceries"]));
    all.add_income(Income {
        day_of_year: Date { year: 2024, month: Month::January, day: 1 },
        price: 1,
        concepts: v(&["Food", "Bakery"]),
        from: String::new(),
        place: String::new(),
        description: String::new(),
    });
    all.set_changes(false);
    rename_expense_concept(&mut all, &v(&["Food", "Bakery"]), "Bread".to_string());
    assert_eq!(
        format_tree(all.get_expense_concepts().get_tree()),
        "Food (\n\tBread ()\n\tGroceries ()\n)\n"
    );
    assert!(all.get_expense_concepts().has_changes());
    assert!(!all.get_income_concepts().has_changes());
    let month = all.get_month_expenses(&2024, &Month::January).unwrap();
    assert_eq!(month.get(0).concepts, v(&["Food", "Bread"]));
    assert_eq!(month.get(1).concepts, v(&["Food", "Groceries"]));
    let incomes = all.get_month_incomes(&2024, &Month::January).unwrap();
    assert_eq!(incomes.get(0).concepts, v(&["Food", "Bakery"]));
    let year = all.get_year(&2024).unwrap();
    assert!(year.get_expenses().has_changes() && year.get_incomes().has_changes());
    rename_income_concept(&mut all, &v(&["Food", "Bakery"]), "Pay".to_string());
    let incomes = all.get_month_incomes(&2024, &Month::January).unwrap();
    assert_eq!(incomes.get(0).concepts, v(&["Food", "Pay"]));
    assert_eq!(format_tree(all.get_income_concepts().get_tree()), "Food (\n)\n");
}
