use image_tagger::booru::{BooruTag, BooruTagManager, MAX_SUGGESTIONS};

fn tag(name: &str, tag_type: i32, aliases: &[&str]) -> BooruTag {
    BooruTag {
        name: name.to_string(),
        tag_type,
        aliases: aliases.iter().map(|a| a.to_string()).collect(),
    }
}

fn pets() -> BooruTagManager {
    let mut manager = BooruTagManager::new();
    manager.insert(tag("dog", 0, &["canine", "cat_chaser"]));
    manager.insert(tag("cat_ears", 0, &[]));
    manager.insert(tag("black_cat", 0, &["kuroneko"]));
    manager.insert(tag("cat", 4, &["neko", "feline"]));
    manager.insert(tag("bird", 1, &["avian"]));
    manager.insert(tag("catgirl", 0, &[]));
    manager
}

fn names(manager: &BooruTagManager) -> Vec<&str> {
    manager.suggestions().iter().map(|s| s.as_str()).collect()
}

#[test]
fn new_manager_is_empty() {
    let manager = BooruTagManager::new();
    assert_eq!(manager.len(), 0);
    assert!(manager.suggestions().is_empty());
    assert_eq!(manager.current_input(), "");
    assert_eq!(manager.selected_suggestion(), None);
    assert!(!manager.is_focused());
    assert_eq!(manager.get_tag_type("cat"), None);
    assert!(manager.get_aliases("cat").is_none());
}

#[test]
fn tag_type_and_aliases_are_found_by_name() {
    let manager = pets();
    assert_eq!(manager.len(), 6);
    assert_eq!(manager.get_tag_type("cat"), Some(4));
    assert_eq!(manager.get_tag_type("bird"), Some(1));
    assert_eq!(manager.get_tag_type("dog"), Some(0));
    assert_eq!(manager.get_tag_type("neko"), None);
    assert_eq!(manager.get_tag_type("ca"), None);
    assert_eq!(manager.get_tag_type(""), None);
    assert_eq!(manager.get_aliases("cat"), Some(&vec!["neko".to_string(), "feline".to_string()]));
    assert_eq!(manager.get_aliases("cat_ears"), Some(&Vec::new()));
    assert!(manager.get_aliases("fish").is_none());
}

#[test]
fn insert_replaces_the_tag_of_the_same_name() {
    let mut manager = pets();
    manager.insert(tag("cat", 3, &["kitty"]));
    assert_eq!(manager.len(), 6);
    assert_eq!(manager.get_tag_type("cat"), Some(3));
    assert_eq!(manager.get_aliases("cat"), Some(&vec!["kitty".to_string()]));
    assert_eq!(manager.get_tag_type("dog"), Some(0));
}

#[test]
fn suggestions_put_the_exact_name_first_then_prefixes_then_the_rest() {
    let mut manager = pets();
    manager.update_suggestions("cat");
    assert_eq!(names(&manager), vec!["cat", "cat_ears", "catgirl", "black_cat", "dog"]);
}

#[test]
fn suggestions_match_aliases_too() {
    let mut manager = pets();
    manager.update_suggestions("neko");
    assert_eq!(names(&manager), vec!["black_cat", "cat"]);
    manager.update_suggestions("avi");
    assert_eq!(names(&manager), vec!["bird"]);
}

#[test]
fn blanks_of_the_input_count_as_underscores() {
    let mut manager = pets();
    manager.update_suggestions("cat ears");
    assert_eq!(names(&manager), vec!["cat_ears"]);
    manager.update_suggestions("black cat");
    assert_eq!(names(&manager), vec!["black_cat"]);
    manager.update_suggestions(" ");
    assert_eq!(names(&manager), vec!["black_cat", "cat_ears", "dog"]);
}

#[test]
fn input_that_matches_nothing_suggests_nothing() {
    let mut manager = pets();
    manager.update_suggestions("zebra");
    assert!(manager.suggestions().is_empty());
    manager.update_suggestions("CAT");
    assert!(manager.suggestions().is_empty());
}

#[test]
fn empty_input_clears_the_suggestions() {
    let mut manager = pets();
    manager.update_suggestions("cat");
    assert!(!manager.suggestions().is_empty());
    manager.update_suggestions("");
    assert!(manager.suggestions().is_empty());
}

#[test]
fn at_most_ten_suggestions_are_offered_and_they_are_the_best() {
    let mut manager = BooruTagManager::new();
    for k in (0..25).rev() {
        manager.insert(tag(&format!("extra_hat_{:02}", k), 0, &[]));
    }
    manager.insert(tag("hat_rack", 0, &[]));
    manager.insert(tag("hat", 0, &[]));
    manager.insert(tag("hatless", 0, &[]));
    manager.update_suggestions("hat");
    assert_eq!(MAX_SUGGESTIONS, 10);
    assert_eq!(
        names(&manager),
        vec![
            "hat",
            "hat_rack",
            "hatless",
            "extra_hat_00",
            "extra_hat_01",
            "extra_hat_02",
            "extra_hat_03",
            "extra_hat_04",
            "extra_hat_05",
            "extra_hat_06",
        ]
    );
}

#[test]
fn suggestions_do_not_depend_on_the_order_of_insertion() {
    let mut forward = BooruTagManager::new();
    let mut backward = BooruTagManager::new();
    let all = ["b_x", "a_x", "x", "xa", "c_x", "xb", "ax"];
    for name in all.iter() {
        forward.insert(tag(name, 0, &[]));
    }
    for name in all.iter().rev() {
        backward.insert(tag(name, 0, &[]));
    }
    forward.update_suggestions("x");
    backward.update_suggestions("x");
    assert_eq!(names(&forward), vec!["x", "xa", "xb", "a_x", "ax", "b_x", "c_x"]);
    assert_eq!(names(&forward), names(&backward));
}

#[test]
fn names_are_ordered_as_texts_not_by_length() {
    let mut manager = BooruTagManager::new();
    for name in ["zz_k", "z_k", "Z_k", "é_k", "a_k", "a_ka", "a_k_"] {
        manager.insert(tag(name, 0, &[]));
    }
    manager.update_suggestions("k");
    assert_eq!(names(&manager), vec!["Z_k", "a_k", "a_k_", "a_ka", "z_k", "zz_k", "é_k"]);
}

#[test]
fn updating_suggestions_leaves_input_and_pick_alone() {
    let mut manager = pets();
    manager.set_current_input("ca".to_string());
    manager.update_suggestions("ca");
    manager.select_next_suggestion();
    manager.select_next_suggestion();
    let picked = manager.selected_suggestion();
    let input = manager.current_input().clone();
    manager.update_suggestions("do");
    assert_eq!(manager.selected_suggestion(), picked);
    assert_eq!(manager.current_input(), &input);
    assert_eq!(names(&manager), vec!["dog"]);
}

#[test]
fn next_moves_down_and_stops_at_the_last() {
    let mut manager = pets();
    manager.update_suggestions("cat");
    manager.select_next_suggestion();
    assert_eq!(manager.selected_suggestion(), Some(0));
    assert_eq!(manager.current_input(), "cat");
    manager.select_next_suggestion();
    assert_eq!(manager.selected_suggestion(), Some(1));
    assert_eq!(manager.current_input(), "cat_ears");
    for _ in 0..10 {
        manager.select_next_suggestion();
    }
    assert_eq!(manager.selected_suggestion(), Some(4));
    assert_eq!(manager.current_input(), "dog");
}

#[test]
fn previous_moves_up_and_stops_at_the_first() {
    let mut manager = pets();
    manager.update_suggestions("cat");
    manager.select_previous_suggestion();
    assert_eq!(manager.selected_suggestion(), Some(4));
    assert_eq!(manager.current_input(), "dog");
    manager.select_previous_suggestion();
    assert_eq!(manager.selected_suggestion(), Some(3));
    assert_eq!(manager.current_input(), "black_cat");
    for _ in 0..10 {
        manager.select_previous_suggestion();
    }
    assert_eq!(manager.selected_suggestion(), Some(0));
    assert_eq!(manager.current_input(), "cat");
}

#[test]
fn selecting_without_suggestions_does_nothing() {
    let mut manager = pets();
    manager.set_current_input("typed".to_string());
    manager.select_next_suggestion();
    manager.select_previous_suggestion();
    assert_eq!(manager.selected_suggestion(), None);
    assert_eq!(manager.current_input(), "typed");
}

#[test]
fn stale_pick_is_brought_back_among_the_suggestions() {
    let mut manager = pets();
    manager.update_suggestions("cat");
    for _ in 0..5 {
        manager.select_next_suggestion();
    }
    assert_eq!(manager.selected_suggestion(), Some(4));
    manager.update_suggestions("bird");
    assert_eq!(names(&manager), vec!["bird"]);
    // One step up from a pick far below the list leaves it below the list: the pick
    // moves, the input stays.
    manager.set_current_input("kept".to_string());
    manager.select_previous_suggestion();
    assert_eq!(manager.selected_suggestion(), Some(3));
    assert_eq!(manager.current_input(), "kept");
    manager.select_next_suggestion();
    assert_eq!(manager.selected_suggestion(), Some(0));
    assert_eq!(manager.current_input(), "bird");
}

#[test]
fn focus_and_input_are_kept_as_set() {
    let mut manager = pets();
    manager.set_focused(true);
    assert!(manager.is_focused());
    manager.set_current_input("abc".to_string());
    manager.update_suggestions("cat");
    manager.clear_input();
    assert_eq!(manager.current_input(), "");
    assert!(manager.suggestions().is_empty());
    assert!(manager.is_focused());
    assert_eq!(manager.len(), 6);
}
