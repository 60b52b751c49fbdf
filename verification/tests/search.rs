use bug_graph::search::{Msg, Props, Search};

fn completions(names: &[&str]) -> Vec<(String, u128)> {
    names.iter().enumerate().map(|(i, name)| (name.to_string(), 100 + i as u128)).collect()
}

fn filled(term: &str, names: &[&str]) -> Search {
    Search::create(Props { term: term.to_string(), completions: Some(completions(names)) })
}

#[test]
fn a_box_matches_its_term_against_its_completions() {
    let state = filled("ab", &["a", "ab", "abc", "b", "ab"]);
    assert_eq!(state.matches, vec![1, 2, 4]);
    assert_eq!(state.exact_match, Some(104));
    assert!(!state.show_compls);
    let state = filled("", &["a", "b"]);
    assert_eq!(state.matches, vec![0, 1]);
    assert_eq!(state.exact_match, None);
}

#[test]
fn typing_asks_for_more_while_few_completions_match() {
    let mut state = filled("", &["s:a", "s:b", "s:c", "s:d", "s:e", "t"]);
    let effect = state.update(Msg::Term("s".to_string()));
    assert!(effect.render);
    assert_eq!(effect.need_more, None);
    assert_eq!(effect.matched, None);
    assert_eq!(state.matches, vec![0, 1, 2, 3, 4]);
    assert!(state.show_compls);

    let effect = state.update(Msg::Term("s:b".to_string()));
    assert_eq!(effect.need_more, Some("s:b".to_string()));
    assert_eq!(effect.matched, Some(101));
    assert_eq!(state.exact_match, Some(101));
    assert_eq!(state.matches, vec![1]);

    // The same term again changes nothing.
    let effect = state.update(Msg::Term("s:b".to_string()));
    assert!(!effect.render);
    assert_eq!(effect.need_more, None);
    assert_eq!(effect.matched, None);

    // A term without a match leaves the list as it is shown.
    let effect = state.update(Msg::Term("x".to_string()));
    assert!(effect.render);
    assert_eq!(effect.need_more, Some("x".to_string()));
    assert!(state.matches.is_empty());
    assert!(state.show_compls);
}

#[test]
fn choosing_a_completion_takes_its_name() {
    let mut state = filled("s", &["s:a", "s:b"]);
    state.show_compls = true;
    let effect = state.update(Msg::ChooseCompl(1, 101));
    assert!(effect.render);
    assert_eq!(effect.matched, Some(101));
    assert_eq!(effect.need_more, None);
    assert_eq!(state.term, "s:b");
    assert!(!state.show_compls);
}

#[test]
fn a_blur_hides_the_list() {
    let mut state = filled("s", &["s:a"]);
    assert!(!state.update(Msg::Blur).render);
    state.show_compls = true;
    assert!(state.update(Msg::Blur).render);
    assert!(!state.show_compls);
}

#[test]
fn new_completions_are_matched_at_once() {
    let mut state = Search::create(Props { term: "s".to_string(), completions: None });
    assert!(!state.change(Props { term: "t".to_string(), completions: None }));
    assert_eq!(state.term, "s");
    assert!(state.matches.is_empty());
    assert!(state.change(Props { term: String::new(), completions: Some(completions(&["t", "s", "s:a"])) }));
    assert_eq!(state.matches, vec![1, 2]);
    assert_eq!(state.exact_match, Some(101));
}

