use finances_manager::economy::expense::Expense;
use finances_manager::economy::monthly_activities::MonthlyActivities;
use finances_manager::io::{
    read_float, read_float_or_empty, read_from_options_or_empty, read_int, read_int_or_empty,
    read_num, read_num_or_empty, read_option, read_string_or_empty, Answer, Choice, Numeric,
};
use finances_manager::menus::activity_summary::ActivitySummary;
use finances_manager::menus::statistics::Filter;
use finances_manager::menus::utils::{
    calculate_type_columns_width, center_string, get_concepts_max_widths,
    left_justified_columns_text, left_justify_string, types_text, widen,
};
use finances_manager::time::date::{Date, Month};

fn s(text: &str) -> String {
    text.to_string()
}

fn v(items: &[&str]) -> Vec<String> {
    items.iter().map(|x| x.to_string()).collect()
}

#[test]
fn a_line_is_trimmed_and_may_be_empty() {
    assert_eq!(read_string_or_empty("  hello world \n"), Some(s("hello world")));
    assert_eq!(read_string_or_empty("\n"), None);
    assert_eq!(read_string_or_empty(""), None);
    assert_eq!(read_string_or_empty(" \t \u{a0}\r\n"), None);
}

#[test]
fn numbers_are_read_within_their_type() {
    assert_eq!(u8::read("255"), Some(255u8));
    assert_eq!(u8::read("256"), None);
    assert_eq!(u16::read("65535"), Some(65535u16));
    assert_eq!(u16::read("65536"), None);
    assert_eq!(u32::read("4294967295"), Some(u32::MAX));
    assert_eq!(u32::read("4294967296"), None);
    assert_eq!(i64::read("-12.345"), Some(-1235));
    assert_eq!(i64::read("twelve"), None);
}

#[test]
fn a_number_is_read_or_asked_again() {
    assert_eq!(read_num_or_empty::<u32>(" 42 \n"), Answer::Value(42));
    assert_eq!(read_num_or_empty::<u32>("\n"), Answer::Empty);
    assert_eq!(read_num_or_empty::<u32>("x\n"), Answer::Again);
    assert_eq!(read_num_or_empty::<u8>("300\n"), Answer::Again);
    assert_eq!(read_int_or_empty::<u16>("7\n"), Answer::Value(7));
    assert_eq!(read_int_or_empty::<u16>("  \n"), Answer::Empty);
    assert_eq!(read_float_or_empty::<i64>("1.5\n"), Answer::Value(150));
    assert_eq!(read_float_or_empty::<i64>("1.5.2\n"), Answer::Again);
    assert_eq!(read_num::<u32>(" 9\n"), Some(9));
    assert_eq!(read_num::<u32>("\n"), None);
    assert_eq!(read_int::<u8>("12\n"), Some(12));
    assert_eq!(read_int::<u8>("-1\n"), None);
    assert_eq!(read_float::<i64>("3\n"), Some(300));
    assert_eq!(read_float::<i64>("\n"), None);
}

#[test]
fn an_option_is_chosen_listed_or_asked_again() {
    let options = v(&["Food", "Rent", "?x"]);
    assert_eq!(read_from_options_or_empty(&options, " Rent \n"), Choice::Chosen(s("Rent")));
    assert_eq!(read_from_options_or_empty(&options, "?\n"), Choice::List);
    assert_eq!(read_from_options_or_empty(&options, "?x\n"), Choice::Chosen(s("?x")));
    assert_eq!(read_from_options_or_empty(&options, "\n"), Choice::Nothing);
    assert_eq!(read_from_options_or_empty(&options, "rent\n"), Choice::Again);
    assert_eq!(read_from_options_or_empty(&v(&["?"]), "?\n"), Choice::List);
    assert_eq!(read_from_options_or_empty(&v(&[]), "a\n"), Choice::Again);
}

#[test]
fn a_menu_option_must_lie_in_its_range() {
    assert_eq!(read_option("3\n", 0, 8), Some(3));
    assert_eq!(read_option("0\n", 0, 8), Some(0));
    assert_eq!(read_option("8\n", 0, 8), Some(8));
    assert_eq!(read_option("9\n", 0, 8), None);
    assert_eq!(read_option("2\n", 3, 8), None);
    assert_eq!(read_option("\n", 0, 8), None);
    assert_eq!(read_option("three\n", 0, 8), None);
}

#[test]
fn texts_are_justified_to_a_width() {
    assert_eq!(left_justify_string(&s("ab"), 5), "ab   ");
    assert_eq!(left_justify_string(&s("ab"), 2), "ab");
    assert_eq!(left_justify_string(&s(""), 3), "   ");
    assert_eq!(left_justify_string(&s("\u{e9}\u{e9}"), 3), "\u{e9}\u{e9} ");
    assert_eq!(center_string(&s("ab"), 6), "  ab  ");
    assert_eq!(center_string(&s("ab"), 5), " ab  ");
    assert_eq!(center_string(&s("abc"), 2), "abc");
    assert_eq!(center_string(&s(""), 0), "");
    assert_eq!(center_string(&s("\u{e9}"), 3), " \u{e9} ");
}

#[test]
fn rows_are_justified_column_by_column() {
    let widths = vec![4usize, 2, 3];
    assert_eq!(types_text(&v(&["ab", "c"]), &widths, " ; "), "ab   ; c  ;    ");
    assert_eq!(types_text(&v(&["abcd", "cc", "eee", "more"]), &widths, "|"), "abcd|cc|eee");
    assert_eq!(types_text(&v(&["a"]), &vec![], "|"), "");
    assert_eq!(left_justified_columns_text(&v(&["ab"]), &vec![3usize], " ; ", 7), "ab     ");
    assert_eq!(left_justified_columns_text(&v(&["ab"]), &vec![3usize], " ; ", 2), "ab ");
    assert_eq!(
        left_justified_columns_text(&v(&["a", "b"]), &vec![1usize, 1], " ; ", 5),
        "a ; b"
    );
}

#[test]
fn columns_are_as_wide_as_their_longest_text() {
    let mut widths: Vec<usize> = Vec::new();
    widen(&mut widths, &v(&["ab", "c"]));
    assert_eq!(widths, vec![2, 1]);
    widen(&mut widths, &v(&["a", "ccc", "\u{e9}\u{e9}"]));
    assert_eq!(widths, vec![2, 3, 2]);
    widen(&mut widths, &v(&[]));
    assert_eq!(widths, vec![2, 3, 2]);
}

fn expense(day: u8, price: i64, concepts: &[&str]) -> Expense {
    Expense {
        day_of_year: Date { year: 2024, month: Month::January, day },
        price,
        concepts: v(concepts),
        shop: String::new(),
        city: String::new(),
        description: String::new(),
    }
}

#[test]
fn column_widths_of_a_month_and_of_a_summary() {
    let mut m = MonthlyActivities::new();
    m.push(expense(1, 100, &["Food", "Groceries"]));
    m.push(expense(2, 500, &["Rent"]));
    m.push(expense(3, 900, &["Leisure", "Cinema", "Popcorn"]));
    assert_eq!(calculate_type_columns_width(&m, &Filter::All), vec![7, 9, 7]);
    assert_eq!(calculate_type_columns_width(&m, &Filter::PriceRange(0, 500)), vec![4, 9]);
    assert!(calculate_type_columns_width(&m, &Filter::PriceRange(1, 2)).is_empty());
    let mut summary = ActivitySummary::new();
    summary.add(v(&["Food", "Groceries"]), 1);
    summary.add(v(&["Rent"]), 1);
    assert_eq!(get_concepts_max_widths(&summary), vec![4, 9]);
    assert!(get_concepts_max_widths(&ActivitySummary::new()).is_empty());
}
