use finances_manager::concepts::tree::{KeyTree, Tree};
use finances_manager::concepts::tree_io::{
    build_tree, build_tree_rec, classify_char, format_tree, tokenize, try_build_tree,
    CharacterType, Token,
};
use finances_manager::concepts::types::ConceptTypes;

fn s(text: &str) -> String {
    text.to_string()
}

fn keys_of(t: &Tree) -> Vec<String> {
    t.get_keys().iter().map(|k| k.to_string()).collect()
}

fn leaves(keys: &[&str]) -> Tree {
    let mut t = Tree::new();
    for k in keys {
        t.insert_key(s(k), None);
    }
    t
}

#[test]
fn new_tree_has_no_keys() {
    let t = Tree::new();
    assert_eq!(t.num_keys(), 0);
    assert!(t.get_keys().is_empty());
    assert_eq!(format_tree(&t), "");
}

#[test]
fn insert_keeps_siblings_sorted() {
    let t = leaves(&["pear", "apple", "fig", "banana"]);
    assert_eq!(keys_of(&t), vec![s("apple"), s("banana"), s("fig"), s("pear")]);
    assert_eq!(t.num_keys(), 4);
}

#[test]
fn keys_are_ordered_by_code_point() {
    let t = leaves(&["b", "B", "a", "Z", "\u{e9}", "ab", ""]);
    assert_eq!(keys_of(&t), vec![s(""), s("B"), s("Z"), s("a"), s("ab"), s("b"), s("\u{e9}")]);
}

#[test]
fn insert_existing_key_merges_subtrees() {
    let mut t = Tree::new();
    t.insert_key(s("Food"), Some(leaves(&["Groceries"])));
    t.insert_key(s("Food"), Some(leaves(&["Restaurants", "Groceries"])));
    t.insert_key(s("Food"), None);
    assert_eq!(keys_of(&t), vec![s("Food")]);
    let food = t.get_child(&s("Food")).unwrap();
    assert_eq!(keys_of(food), vec![s("Groceries"), s("Restaurants")]);
}

#[test]
fn insert_subtree_under_leaf_adopts_it() {
    let mut t = leaves(&["Food"]);
    assert!(t.get_child(&s("Food")).is_none());
    t.insert_key(s("Food"), Some(leaves(&["Groceries"])));
    assert_eq!(keys_of(t.get_child(&s("Food")).unwrap()), vec![s("Groceries")]);
}

#[test]
fn merge_of_disjoint_trees_keeps_both_either_way() {
    let food = || {
        let mut t = Tree::new();
        t.insert_key(s("Food"), Some(leaves(&["Groceries", "Restaurants"])));
        t
    };
    let transport = || {
        let mut t = Tree::new();
        t.insert_key(s("Transport"), Some(leaves(&["Bus"])));
        t
    };
    let mut a = food();
    a.merge(transport());
    let mut b = transport();
    b.merge(food());
    let expected = "Food (\n\tGroceries ()\n\tRestaurants ()\n)\nTransport (\n\tBus ()\n)\n";
    assert_eq!(format_tree(&a), expected);
    assert_eq!(format_tree(&b), expected);
}

#[test]
fn merge_recurses_into_shared_branches() {
    let mut a = Tree::new();
    a.make_subtree(&[s("Home"), s("Bills")]).insert_key(s("Water"), None);
    let mut b = Tree::new();
    b.make_subtree(&[s("Home"), s("Bills")]).insert_key(s("Power"), None);
    b.make_subtree(&[s("Home")]).insert_key(s("Rent"), None);
    a.merge(b);
    assert_eq!(
        format_tree(&a),
        "Home (\n\tBills (\n\t\tPower ()\n\t\tWater ()\n\t)\n\tRent ()\n)\n"
    );
}

#[test]
fn get_child_of_missing_key_is_none() {
    let mut t = leaves(&["a"]);
    assert!(t.get_child(&s("b")).is_none());
    assert!(t.get_child_mut(&s("b")).is_none());
    assert!(t.get_child_mut(&s("a")).is_none());
}

#[test]
fn get_child_mut_changes_the_subtree() {
    let mut t = Tree::new();
    t.insert_key(s("Food"), Some(leaves(&["Groceries"])));
    t.get_child_mut(&s("Food")).unwrap().insert_key(s("Bakery"), None);
    assert_eq!(keys_of(t.get_child(&s("Food")).unwrap()), vec![s("Bakery"), s("Groceries")]);
}

#[test]
fn make_child_creates_or_returns() {
    let mut t = leaves(&["b"]);
    t.make_child(&s("a")).insert_key(s("x"), None);
    t.make_child(&s("a")).insert_key(s("y"), None);
    t.make_child(&s("b"));
    assert_eq!(keys_of(&t), vec![s("a"), s("b")]);
    assert_eq!(keys_of(t.get_child(&s("a")).unwrap()), vec![s("x"), s("y")]);
    assert_eq!(t.get_child(&s("b")).unwrap().num_keys(), 0);
}

#[test]
fn get_subtree_mut_descends_along_a_branch() {
    let mut t = Tree::new();
    t.make_subtree(&[s("a"), s("b"), s("c")]);
    t.get_subtree_mut(&[s("a"), s("b")]).insert_key(s("d"), None);
    assert_eq!(keys_of(t.get_subtree_mut(&[s("a"), s("b")])), vec![s("c"), s("d")]);
    assert_eq!(t.get_subtree_mut(&[]).num_keys(), 1);
}

#[test]
fn remove_child_drops_the_whole_branch() {
    let mut t = Tree::new();
    t.make_subtree(&[s("a"), s("b")]);
    t.insert_key(s("c"), None);
    t.remove_child(&s("zz"));
    assert_eq!(t.num_keys(), 2);
    t.remove_child(&s("a"));
    assert_eq!(keys_of(&t), vec![s("c")]);
}

#[test]
fn rename_key_keeps_place_and_subtree() {
    let mut t = Tree::new();
    t.make_subtree(&[s("a"), s("x")]);
    t.insert_key(s("b"), None);
    t.rename_key(&s("a"), s("z"));
    assert_eq!(keys_of(&t), vec![s("z"), s("b")]);
    t.normalize_tree();
    assert_eq!(keys_of(&t), vec![s("b"), s("z")]);
    assert_eq!(keys_of(t.get_child(&s("z")).unwrap()), vec![s("x")]);
    t.rename_key(&s("missing"), s("q"));
    assert_eq!(keys_of(&t), vec![s("b"), s("z")]);
}

#[test]
fn normalize_twice_is_normalize_once() {
    let mut t = Tree::new();
    t.make_subtree(&[s("m"), s("k")]);
    t.make_subtree(&[s("m"), s("c")]);
    t.insert_key(s("d"), None);
    t.get_subtree_mut(&[s("m")]).rename_key(&s("c"), s("x"));
    t.rename_key(&s("d"), s("z"));
    assert_eq!(format_tree(&t), "z ()\nm (\n\tx (\n\t)\n\tk (\n\t)\n)\n");
    t.normalize_tree();
    let once = format_tree(&t);
    assert_eq!(once, "m (\n\tk (\n\t)\n\tx (\n\t)\n)\nz ()\n");
    t.normalize_tree();
    assert_eq!(format_tree(&t), once);
}

#[test]
fn normalize_keeps_equal_keys_in_their_order() {
    let mut t = Tree::new();
    t.make_subtree(&[s("a"), s("first")]);
    t.make_subtree(&[s("b"), s("second")]);
    t.rename_key(&s("b"), s("a"));
    t.normalize_tree();
    assert_eq!(format_tree(&t), "a (\n\tfirst (\n\t)\n)\na (\n\tsecond (\n\t)\n)\n");
}

#[test]
fn iter_walks_the_nodes_in_order() {
    let mut t = leaves(&["b", "a"]);
    t.make_child(&s("c"));
    let seen: Vec<(String, bool)> =
        t.iter().map(|KeyTree { key, tree }| (key.clone(), tree.is_some())).collect();
    assert_eq!(seen, vec![(s("a"), false), (s("b"), false), (s("c"), true)]);
}

#[test]
fn classify_char_tells_the_kinds_apart() {
    assert_eq!(classify_char('('), CharacterType::Separator { open: true });
    assert_eq!(classify_char(')'), CharacterType::Separator { open: false });
    assert_eq!(classify_char('\t'), CharacterType::Ignored);
    assert_eq!(classify_char('a'), CharacterType::Content);
    assert_eq!(classify_char(' '), CharacterType::Content);
    assert_eq!(classify_char('\n'), CharacterType::Content);
}

fn show(tokens: &[Token]) -> Vec<String> {
    tokens
        .iter()
        .map(|t| match t {
            Token::Content(c) => format!("[{}]", c),
            Token::Open => s("("),
            Token::Close => s(")"),
        })
        .collect()
}

#[test]
fn tokenize_trims_keys_and_skips_tabs() {
    let tokens = tokenize("  Fo\tod  (\n\tGroceries ()\n) tail");
    assert_eq!(show(&tokens), vec!["[Food]", "(", "[Groceries]", "(", ")", "[]", ")"]);
}

#[test]
fn tokenize_without_parentheses_gives_nothing() {
    assert!(tokenize("no separators here").is_empty());
    assert!(tokenize("").is_empty());
}

#[test]
fn tokenize_emits_no_key_between_adjacent_parentheses() {
    assert_eq!(show(&tokenize("()(")), vec!["(", ")", "("]);
}

#[test]
fn parses_nested_entries() {
    let text = "Food (\n\tGroceries ()\n\tRestaurants ()\n)\nTransport ()\n";
    let tree = build_tree(s(text));
    assert_eq!(keys_of(&tree), vec![s("Food"), s("Transport")]);
    let food = tree.get_child(&s("Food")).unwrap();
    assert_eq!(keys_of(food), vec![s("Groceries"), s("Restaurants")]);
    assert!(food.get_child(&s("Groceries")).is_none());
    assert!(food.get_child(&s("Restaurants")).is_none());
    assert!(tree.get_child(&s("Transport")).is_none());

    let again = format_tree(&tree);
    assert_eq!(again, text);
    let reparsed = try_build_tree(&again).unwrap();
    assert_eq!(format_tree(&reparsed), text);
}

#[test]
fn parses_text_on_one_line() {
    let tree = build_tree(s("Food (Groceries ()Restaurants ())Transport ()"));
    assert_eq!(
        format_tree(&tree),
        "Food (\n\tGroceries ()\n\tRestaurants ()\n)\nTransport ()\n"
    );
}

#[test]
fn parsing_sorts_and_merges_entries() {
    let tree = build_tree(s("b () a (y ()) a (x ())"));
    assert_eq!(format_tree(&tree), "a (\n\tx ()\n\ty ()\n)\nb ()\n");
}

#[test]
fn round_trip_of_a_deep_tree() {
    let mut t = Tree::new();
    t.make_subtree(&[s("Home"), s("Bills")]).insert_key(s("Water"), None);
    t.make_subtree(&[s("Home"), s("Bills")]).insert_key(s("Power and light"), None);
    t.insert_key(s("Leisure"), None);
    let text = format_tree(&t);
    let back = try_build_tree(&text).unwrap();
    assert_eq!(format_tree(&back), text);
    assert_eq!(keys_of(&back), vec![s("Home"), s("Leisure")]);
    assert_eq!(
        keys_of(back.get_child(&s("Home")).unwrap().get_child(&s("Bills")).unwrap()),
        vec![s("Power and light"), s("Water")]
    );
}

#[test]
fn empty_subtree_reads_back_as_leaf() {
    let mut t = Tree::new();
    t.make_child(&s("a"));
    let text = format_tree(&t);
    assert_eq!(text, "a (\n)\n");
    let back = try_build_tree(&text).unwrap();
    assert!(back.get_child(&s("a")).is_none());
    assert_eq!(format_tree(&back), "a ()\n");
}

#[test]
fn surplus_closing_parenthesis_before_more_tokens_is_refused() {
    assert!(try_build_tree("a ( ) ) b ( )").is_none());
    assert!(try_build_tree(") a ()").is_none());
}

#[test]
fn surplus_closing_parenthesis_at_the_end_is_accepted() {
    let t = try_build_tree("a ( ) )").unwrap();
    assert_eq!(keys_of(&t), vec![s("a")]);
}

#[test]
fn missing_closing_parentheses_are_accepted() {
    let t = try_build_tree("a ( b ( )").unwrap();
    assert_eq!(format_tree(&t), "a (\n\tb ()\n)\n");
    let u = try_build_tree("a (").unwrap();
    assert_eq!(format_tree(&u), "a ()\n");
}

#[test]
fn build_tree_rec_returns_the_place_behind_the_closing_parenthesis() {
    let tokens = tokenize("a(b()c())d()");
    let (inner, next) = build_tree_rec(&tokens, 2);
    assert_eq!(keys_of(&inner), vec![s("b"), s("c")]);
    assert_eq!(next, 9);
    let (all, end) = build_tree_rec(&tokens, 0);
    assert_eq!(keys_of(&all), vec![s("a"), s("d")]);
    assert_eq!(end, tokens.len());
}

#[test]
fn concept_types_hold_a_tree_and_a_flag() {
    let mut c = ConceptTypes::new();
    assert!(!c.has_changes());
    assert_eq!(c.get_tree().num_keys(), 0);
    c.set_tree(leaves(&["a", "b"]));
    assert!(!c.has_changes());
    assert_eq!(c.get_tree().num_keys(), 2);
    c.get_tree_mut().insert_key(s("c"), None);
    assert_eq!(keys_of(c.get_tree()), vec![s("a"), s("b"), s("c")]);
    c.set_changes(true);
    assert!(c.has_changes());
}

#[test]
fn well_formedness_of_a_tree_can_be_tested() {
    let mut t = Tree::new();
    assert!(t.is_well_formed());
    t.make_subtree(&[s("a"), s("x")]);
    t.make_subtree(&[s("a"), s("y")]);
    t.insert_key(s("b"), None);
    assert!(t.is_well_formed());
    t.get_subtree_mut(&[s("a")]).rename_key(&s("y"), s("x"));
    assert!(!t.is_well_formed());
    t.normalize_tree();
    assert!(!t.is_well_formed());
    t.get_subtree_mut(&[s("a")]).remove_child(&s("x"));
}

#[test]
fn has_subtree_follows_the_branch() {
    let mut t = Tree::new();
    t.make_subtree(&[s("a"), s("b")]).insert_key(s("leaf"), None);
    assert!(t.has_subtree(&[]));
    assert!(t.has_subtree(&[s("a")]));
    assert!(t.has_subtree(&[s("a"), s("b")]));
    assert!(!t.has_subtree(&[s("a"), s("b"), s("leaf")]));
    assert!(!t.has_subtree(&[s("b")]));
    assert!(!t.has_subtree(&[s("a"), s("c")]));
}

#[test]
fn get_subtree_looks_a_branch_up() {
    let mut t = Tree::new();
    t.make_subtree(&[s("a"), s("b")]).insert_key(s("leaf"), None);
    assert_eq!(t.get_subtree(&[]).unwrap().num_keys(), 1);
    assert_eq!(keys_of(t.get_subtree(&[s("a")]).unwrap()), vec![s("b")]);
    assert_eq!(keys_of(t.get_subtree(&[s("a"), s("b")]).unwrap()), vec![s("leaf")]);
    assert!(t.get_subtree(&[s("a"), s("b"), s("leaf")]).is_none());
    assert!(t.get_subtree(&[s("x")]).is_none());
    assert!(t.get_subtree(&[s("a"), s("x"), s("y")]).is_none());
}
