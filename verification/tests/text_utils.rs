use finances_manager::decimal::{amount_to_text, number_to_text, parse_amount, parse_number};
use finances_manager::economy::line::{
    format_line, join_text, split_string_data, split_trimmed,
};
use finances_manager::expense_types::ExpenseTypes;
use finances_manager::text::{
    compare_paths, same_text, split_text, to_chars, to_text, Comparison,
};
use finances_manager::utils::{
    compare_strings, keep_ascii, string_contains, to_compared_form, vector_includes,
};

fn s(text: &str) -> String {
    text.to_string()
}

fn v(items: &[&str]) -> Vec<String> {
    items.iter().map(|x| x.to_string()).collect()
}

#[test]
fn paths_compare_text_by_text() {
    assert_eq!(compare_paths(&v(&[]), &v(&[])), Comparison::Equal);
    assert_eq!(compare_paths(&v(&[]), &v(&["a"])), Comparison::Less);
    assert_eq!(compare_paths(&v(&["a"]), &v(&[])), Comparison::Greater);
    assert_eq!(compare_paths(&v(&["a", "b"]), &v(&["a", "b"])), Comparison::Equal);
    assert_eq!(compare_paths(&v(&["a"]), &v(&["a", "b"])), Comparison::Less);
    assert_eq!(compare_paths(&v(&["a", "c"]), &v(&["a", "b", "z"])), Comparison::Greater);
    assert_eq!(compare_paths(&v(&["B"]), &v(&["a"])), Comparison::Less);
    assert_eq!(compare_paths(&v(&["ab"]), &v(&["a", "b"])), Comparison::Greater);
}

#[test]
fn chars_and_text_convert_both_ways() {
    let chars = to_chars("h\u{e9}llo");
    assert_eq!(chars, vec!['h', '\u{e9}', 'l', 'l', 'o']);
    assert_eq!(to_text(&chars, 1, 4), "\u{e9}ll");
    assert_eq!(to_text(&chars, 2, 2), "");
    assert_eq!(to_text(&chars, 0, 5), "h\u{e9}llo");
    assert!(to_chars("").is_empty());
}

#[test]
fn same_text_compares_contents() {
    assert!(same_text("abc", "abc"));
    assert!(same_text("", ""));
    assert!(!same_text("abc", "abd"));
    assert!(!same_text("abc", "ab"));
}

#[test]
fn split_text_keeps_empty_pieces() {
    assert_eq!(split_text("a/b/c", '/'), v(&["a", "b", "c"]));
    assert_eq!(split_text("", '/'), v(&[""]));
    assert_eq!(split_text("/", '/'), v(&["", ""]));
    assert_eq!(split_text("a//b/", '/'), v(&["a", "", "b", ""]));
    assert_eq!(split_text("abc", '/'), v(&["abc"]));
}

#[test]
fn split_trimmed_drops_empty_pieces() {
    assert_eq!(split_trimmed(" a ; ;b;; c d ;", ';'), v(&["a", "b", "c d"]));
    assert!(split_trimmed("", ';').is_empty());
    assert!(split_trimmed(" ; \n ;", ';').is_empty());
}

#[test]
fn parse_number_reads_digits() {
    assert_eq!(parse_number("0", 255), Some(0));
    assert_eq!(parse_number("255", 255), Some(255));
    assert_eq!(parse_number("256", 255), None);
    assert_eq!(parse_number("+12", 255), Some(12));
    assert_eq!(parse_number("007", 255), Some(7));
    assert_eq!(parse_number("4294967295", 4294967295), Some(4294967295));
    assert_eq!(parse_number("4294967296", 4294967295), None);
    assert_eq!(parse_number("99999999999999999999999999", 4294967295), None);
}

#[test]
fn parse_number_refuses_other_text() {
    for text in ["", "+", "-1", "1 ", " 1", "1a", "a", "1+", "++1", "1.0", "\u{663}"] {
        assert_eq!(parse_number(text, 4294967295), None, "{}", text);
    }
}

#[test]
fn number_to_text_writes_digits() {
    assert_eq!(number_to_text(0), "0");
    assert_eq!(number_to_text(7), "7");
    assert_eq!(number_to_text(10), "10");
    assert_eq!(number_to_text(2024), "2024");
    assert_eq!(number_to_text(u64::MAX), "18446744073709551615");
}

#[test]
fn parse_amount_counts_hundredths() {
    assert_eq!(parse_amount("10.0"), Some(1000));
    assert_eq!(parse_amount("15"), Some(1500));
    assert_eq!(parse_amount("0.01"), Some(1));
    assert_eq!(parse_amount("12.5"), Some(1250));
    assert_eq!(parse_amount("12.34"), Some(1234));
    assert_eq!(parse_amount("-3.20"), Some(-320));
    assert_eq!(parse_amount("+3.2"), Some(320));
    assert_eq!(parse_amount(".5"), Some(50));
    assert_eq!(parse_amount("5."), Some(500));
    assert_eq!(parse_amount("-0"), Some(0));
    assert_eq!(parse_amount("007.070"), Some(707));
}

#[test]
fn parse_amount_rounds_at_the_third_digit() {
    assert_eq!(parse_amount("0.004"), Some(0));
    assert_eq!(parse_amount("0.005"), Some(1));
    assert_eq!(parse_amount("1.2349999"), Some(123));
    assert_eq!(parse_amount("1.995"), Some(200));
    assert_eq!(parse_amount("-1.995"), Some(-200));
    assert_eq!(parse_amount("0.30000001"), Some(30));
}

#[test]
fn parse_amount_refuses_other_text() {
    for text in ["", "+", "-", ".", "-.", "1e3", "inf", "NaN", "1.2.3", "1,5", " 1", "1 ", "--1", "1.-2"] {
        assert_eq!(parse_amount(text), None, "{}", text);
    }
}

#[test]
fn parse_amount_at_the_limits() {
    assert_eq!(parse_amount("92233720368547758.07"), Some(i64::MAX));
    assert_eq!(parse_amount("-92233720368547758.07"), Some(-i64::MAX));
    assert_eq!(parse_amount("92233720368547758.08"), None);
    assert_eq!(parse_amount("92233720368547758.075"), None);
    assert_eq!(parse_amount("92233720368547759"), None);
    assert_eq!(parse_amount("999999999999999999999999"), None);
}

#[test]
fn amount_to_text_writes_two_digits_behind_the_point() {
    assert_eq!(amount_to_text(0), "0.00");
    assert_eq!(amount_to_text(5), "0.05");
    assert_eq!(amount_to_text(1250), "12.50");
    assert_eq!(amount_to_text(-320), "-3.20");
    assert_eq!(amount_to_text(-1), "-0.01");
    assert_eq!(amount_to_text(i64::MAX), "92233720368547758.07");
    assert_eq!(amount_to_text(i64::MIN), "-92233720368547758.08");
}

#[test]
fn amounts_read_back() {
    for a in [0i64, 1, -1, 99, 100, 101, -2500, 123456789, i64::MAX, -i64::MAX] {
        assert_eq!(parse_amount(&amount_to_text(a)), Some(a));
    }
}

#[test]
fn split_string_data_takes_six_fields_out_of_their_quotes() {
    let line = "\"2024/January/5\"\t\"12.5\"\t\"Food;Groceries\"\t\"Shop\"\t\"City\"\t\"note\"";
    assert_eq!(
        split_string_data(line),
        Some(v(&["2024/January/5", "12.5", "Food;Groceries", "Shop", "City", "note"]))
    );
}

#[test]
fn split_string_data_passes_over_empty_pieces_and_white_space() {
    let line = " \"a\" \t\t \"b\"\t\"\"\t\"d\"\t\"e\"\t\"f\"\t\t\"g\"\t";
    assert_eq!(split_string_data(line), Some(v(&["a", "b", "", "d", "e", "f"])));
}

#[test]
fn split_string_data_refuses_short_lines() {
    assert_eq!(split_string_data(""), None);
    assert_eq!(split_string_data("\"a\"\t\"b\"\t\"c\"\t\"d\"\t\"e\""), None);
    assert_eq!(split_string_data("\"a\"\t\"b\"\t\"c\"\t\"d\"\t\"e\"\tx"), None);
}

#[test]
fn join_text_puts_the_separator_between() {
    assert_eq!(join_text(&v(&[]), ';'), "");
    assert_eq!(join_text(&v(&["a"]), ';'), "a");
    assert_eq!(join_text(&v(&["a", "b", "c"]), ';'), "a;b;c");
    assert_eq!(join_text(&v(&["", ""]), ';'), ";");
}

#[test]
fn format_line_quotes_every_field() {
    assert_eq!(format_line(&v(&["a", "", "c d"])), "\"a\"\t\"\"\t\"c d\"");
    assert_eq!(format_line(&v(&[])), "");
}

#[test]
fn keep_ascii_drops_the_rest() {
    assert_eq!(keep_ascii("h\u{e9}llo w\u{f6}rld\u{7f}"), "hllo wrld\u{7f}");
    assert_eq!(keep_ascii(""), "");
}

#[test]
fn compared_form_follows_both_flags() {
    assert_eq!(to_compared_form(&s("Caf\u{e9}"), true, true), "Caf\u{e9}");
    assert_eq!(to_compared_form(&s("Caf\u{e9}"), false, true), "caf\u{e9}");
    assert_eq!(to_compared_form(&s("Caf\u{e9}"), true, false), "Cafe");
    assert_eq!(to_compared_form(&s("Caf\u{e9}"), false, false), "cafe");
}

#[test]
fn compare_strings_may_pass_over_case_and_accents() {
    assert!(compare_strings(&s("Caf\u{e9}"), &s("Caf\u{e9}"), true, true));
    assert!(!compare_strings(&s("Caf\u{e9}"), &s("caf\u{e9}"), true, true));
    assert!(compare_strings(&s("Caf\u{e9}"), &s("caf\u{e9}"), false, true));
    assert!(!compare_strings(&s("Caf\u{e9}"), &s("Cafe"), true, true));
    assert!(compare_strings(&s("Caf\u{e9}"), &s("Cafe"), true, false));
    assert!(!compare_strings(&s("Caf\u{e9}"), &s("cafe"), true, false));
    assert!(compare_strings(&s("Caf\u{e9}"), &s("cafe"), false, false));
    assert!(!compare_strings(&s("Caf\u{e9}"), &s("cafes"), false, false));
}

#[test]
fn string_contains_looks_for_the_first_in_the_second() {
    assert!(string_contains(&s("ark"), &s("Supermarket"), true, true));
    assert!(!string_contains(&s("Ark"), &s("Supermarket"), true, true));
    assert!(string_contains(&s("MARK"), &s("Supermarket"), false, true));
    assert!(string_contains(&s("cafe"), &s("Le Caf\u{e9} Bleu"), false, false));
    assert!(!string_contains(&s("cafe"), &s("Le Caf\u{e9} Bleu"), false, true));
    assert!(string_contains(&s(""), &s("anything"), true, true));
    assert!(!string_contains(&s("Supermarket"), &s("ark"), true, true));
}

#[test]
fn vector_includes_compares_the_common_start_without_case() {
    assert!(vector_includes(&v(&["Food", "Groceries"]), &v(&["food"])));
    assert!(vector_includes(&v(&["food"]), &v(&["FOOD", "Groceries"])));
    assert!(!vector_includes(&v(&["Food", "Groceries"]), &v(&["Food", "Bakery"])));
    assert!(vector_includes(&v(&[]), &v(&["x"])));
    assert!(vector_includes(&v(&[]), &v(&[])));
    assert!(!vector_includes(&v(&["a"]), &v(&["b"])));
}

#[test]
fn expense_types_keep_a_list() {
    let mut t = ExpenseTypes::new(s("Income"));
    assert!(!t.has_changes());
    assert!(t.types.is_empty());
    assert_eq!(t.income_name, "Income");
    t.add_element(s("Food"));
    t.add_element(s("Rent"));
    t.add_element(s("Food"));
    assert!(t.has_changes());
    assert_eq!(t.types, v(&["Food", "Rent", "Food"]));
    assert!(t.has_expense_type(&s("Rent")));
    assert!(!t.has_expense_type(&s("rent")));
    assert_eq!(t.position_expense_type(&s("Food")), Some(0));
    assert_eq!(t.position_expense_type(&s("Rent")), Some(1));
    assert_eq!(t.position_expense_type(&s("Fun")), None);
    assert!(t.is_expense_type_ok(&s("Income")));
    assert!(t.is_expense_type_ok(&s("Food")));
    assert!(!t.is_expense_type_ok(&s("Fun")));
    t.set_changes(false);
    t.replace_element(1, s("Fun"));
    assert!(t.has_changes());
    assert_eq!(t.types, v(&["Food", "Fun", "Food"]));
    t.set_changes(false);
    t.remove_element(0);
    assert!(t.has_changes());
    assert_eq!(t.types, v(&["Fun", "Food"]));
}

#[test]
fn expense_types_from_a_list() {
    let t = ExpenseTypes::new_vec(v(&["a", "b"]), s("in"));
    assert!(!t.has_changes());
    assert_eq!(t.types, v(&["a", "b"]));
    assert_eq!(t.income_name, "in");
}
