use bug_graph::names::{compare, cuts, prefix, same, starts_with, NameOrder, DELIMITER};

#[test]
fn names_compare_by_code_points() {
    assert_eq!(compare("a", "b"), NameOrder::Before);
    assert_eq!(compare("b", "a"), NameOrder::After);
    assert_eq!(compare("abc", "abc"), NameOrder::Same);
    assert_eq!(compare("", ""), NameOrder::Same);
    assert_eq!(compare("", "a"), NameOrder::Before);
    assert_eq!(compare("ab", "abc"), NameOrder::Before);
    assert_eq!(compare("abd", "abc"), NameOrder::After);
    assert_eq!(compare("Z", "a"), NameOrder::Before);
    assert_eq!(compare("z", "é"), NameOrder::Before);
    assert_eq!(compare("\u{ffff}", "\u{10000}"), NameOrder::Before);
}

#[test]
fn comparing_agrees_with_the_order_of_strings() {
    let names = ["", "a", "a:b", "a:", "ab", "b", "é", "日本", "\u{10000}", "A"];
    for a in names {
        for b in names {
            let expected = match a.cmp(b) {
                std::cmp::Ordering::Less => NameOrder::Before,
                std::cmp::Ordering::Equal => NameOrder::Same,
                std::cmp::Ordering::Greater => NameOrder::After,
            };
            assert_eq!(compare(a, b), expected);
            assert_eq!(same(a, b), a == b);
            assert_eq!(starts_with(a, b), a.starts_with(b));
        }
    }
}

#[test]
fn a_name_starts_with_its_prefixes() {
    assert!(starts_with("env:product", "env"));
    assert!(starts_with("env", "env"));
    assert!(starts_with("env", ""));
    assert!(!starts_with("en", "env"));
    assert!(!starts_with("enw:product", "env"));
    assert!(!starts_with("", "e"));
}

#[test]
fn cuts_are_the_places_of_the_delimiter() {
    assert_eq!(DELIMITER, ':');
    assert_eq!(cuts("env:productA:rev1"), vec![3, 12]);
    assert_eq!(cuts("plain"), Vec::<usize>::new());
    assert_eq!(cuts(""), Vec::<usize>::new());
    assert_eq!(cuts(":"), vec![0]);
    assert_eq!(cuts("a::b:"), vec![1, 2, 4]);
    // Places count characters, not bytes.
    assert_eq!(cuts("é:日本:x"), vec![1, 4]);
}

#[test]
fn a_prefix_holds_the_first_characters() {
    assert_eq!(prefix("env:productA:rev1", 3), "env");
    assert_eq!(prefix("env:productA:rev1", 12), "env:productA");
    assert_eq!(prefix("env", 0), "");
    assert_eq!(prefix("env", 3), "env");
    assert_eq!(prefix("é:日本:x", 4), "é:日本");
}
