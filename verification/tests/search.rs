use ssh_tui_rs::search::{accept_compact_match, fuzzy_indices};

#[test]
fn accepts_compact_fuzzy_matches() {
    assert!(fuzzy_indices("prod-api", "prdapi").is_some());
    assert!(fuzzy_indices("Billing frontend", "bill").is_some());
}

#[test]
fn rejects_characters_scattered_across_a_sentence() {
    assert!(fuzzy_indices("all hosts from testlab", "home").is_none());
}

#[test]
fn blank_queries_match_nothing() {
    assert!(fuzzy_indices("anything", "   ").is_none());
    assert!(fuzzy_indices("anything", "").is_none());
}

#[test]
fn matched_positions_are_those_of_the_query() {
    assert_eq!(fuzzy_indices("bastion", "bas"), Some(vec![0, 1, 2]));
    assert_eq!(fuzzy_indices("bastion", "  bas  "), Some(vec![0, 1, 2]));
}

#[test]
fn compact_matches_allow_a_small_gap() {
    assert_eq!(accept_compact_match(vec![0, 1, 2, 3]), Some(vec![0, 1, 2, 3]));
    assert_eq!(accept_compact_match(vec![0, 2]), Some(vec![0, 2]));
    assert_eq!(accept_compact_match(vec![0, 3]), None);
    assert_eq!(accept_compact_match(vec![0, 1, 2, 3, 4, 5, 6, 7, 8, 9, 14]), Some(vec![0, 1, 2, 3, 4, 5, 6, 7, 8, 9, 14]));
    assert_eq!(accept_compact_match(vec![0, 1, 2, 3, 4, 5, 6, 7, 8, 9, 15]), None);
    assert_eq!(accept_compact_match(vec![]), None);
}
