use ssh_tui_rs::host_options::{block_applies_to, glob_match};

fn chars(s: &str) -> Vec<char> {
    s.chars().collect()
}

fn applies(patterns: &[&str], alias: &str) -> bool {
    let patterns: Vec<Vec<char>> = patterns.iter().map(|p| chars(p)).collect();
    block_applies_to(&patterns, &chars(alias))
}

#[test]
fn plain_patterns_match_only_their_own_name() {
    assert!(glob_match(&chars("work-db"), &chars("work-db")));
    assert!(!glob_match(&chars("work-db"), &chars("work-dbx")));
    assert!(!glob_match(&chars("work-db"), &chars("work-d")));
    assert!(!glob_match(&chars("work-db"), &chars("Work-db")));
    assert!(glob_match(&chars(""), &chars("")));
}

#[test]
fn star_matches_every_name() {
    for name in ["", "a", "work-web", "192.168.1.50"] {
        assert!(glob_match(&chars("*"), &chars(name)));
    }
}

#[test]
fn wildcards_match_runs_and_single_characters() {
    assert!(glob_match(&chars("work-*"), &chars("work-web")));
    assert!(glob_match(&chars("work-*"), &chars("work-")));
    assert!(!glob_match(&chars("work-*"), &chars("lab-web")));
    assert!(glob_match(&chars("db?"), &chars("db1")));
    assert!(!glob_match(&chars("db?"), &chars("db")));
    assert!(glob_match(&chars("*-web"), &chars("work-web")));
}

#[test]
fn negated_patterns_exclude_hosts_from_a_block() {
    assert!(applies(&["work-*"], "work-db"));
    assert!(!applies(&["work-*", "!work-db"], "work-db"));
    assert!(applies(&["work-*", "!work-db"], "work-web"));
    assert!(!applies(&["!work-db"], "work-web"));
    assert!(!applies(&[], "work-web"));
}
