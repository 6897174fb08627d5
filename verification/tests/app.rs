use ssh_tui_rs::app::{App, ConnectionFailure, InputMode};
use ssh_tui_rs::reachability::HostReachability;
use ssh_tui_rs::ssh_config::{GroupEntry, HostEntry, ResolvedHost, SshConfig};

fn group(path: &[&str], description: Option<&str>, expanded: bool, source: &str, line: usize) -> GroupEntry {
    GroupEntry {
        path: path.iter().map(|part| part.to_string()).collect(),
        description: description.map(str::to_string),
        expanded_by_default: expanded,
        source: source.to_string(),
        line,
    }
}

fn host(
    alias: &str,
    description: Option<&str>,
    group_path: &[&str],
    source: &str,
    line: usize,
    resolved: ResolvedHost,
) -> HostEntry {
    HostEntry {
        alias: alias.to_string(),
        description: description.map(str::to_string),
        group_path: group_path.iter().map(|part| part.to_string()).collect(),
        source: source.to_string(),
        line,
        options: Vec::new(),
        resolved,
    }
}

fn visible_names(app: &App) -> Vec<String> {
    app.visible
        .iter()
        .map(|row| app.nodes[row.node_id].name.clone())
        .collect()
}

#[test]
fn tree_contains_nested_groups_and_hosts() {
    let config = SshConfig {
        source: "config".to_string(),
        groups: vec![group(&["Work", "Prod"], Some("Production"), false, "config", 1)],
        hosts: vec![host(
            "prod-api",
            Some("Customer API"),
            &["Work", "Prod"],
            "config",
            3,
            ResolvedHost::default(),
        )],
    };

    let app = App::new(config);
    assert_eq!(visible_names(&app), vec!["Work"]);
    assert!(app.expanded.is_empty());
    assert_eq!(app.status, "1 host");
}

#[test]
fn fuzzy_search_matches_descriptions_and_usernames_and_keeps_ancestors() {
    let config = SshConfig {
        source: "config".to_string(),
        groups: vec![group(&["Work", "Prod"], Some("Customer environment"), false, "config", 1)],
        hosts: vec![host(
            "prod-api",
            Some("Billing frontend"),
            &["Work", "Prod"],
            "config",
            3,
            ResolvedHost {
                user: Some("deploy".to_string()),
                ..ResolvedHost::default()
            },
        )],
    };

    let mut app = App::new(config);
    app.search = "bill".into();
    app.rebuild_visible();

    assert_eq!(visible_names(&app), vec!["Work", "Prod", "prod-api"]);
    assert_eq!(app.host_reachability(0), HostReachability::Unchecked);

    app.search = "deploy".into();
    app.rebuild_visible();

    assert_eq!(visible_names(&app), vec!["Work", "Prod", "prod-api"]);
}

#[test]
fn revealing_search_results_expands_and_preserves_group_and_host_selection() {
    let config = SshConfig {
        source: "config".to_string(),
        groups: vec![group(&["Work", "Prod"], Some("Production"), false, "config", 1)],
        hosts: vec![host(
            "prod-api",
            Some("Billing frontend"),
            &["Work", "Prod"],
            "config",
            3,
            ResolvedHost::default(),
        )],
    };

    let mut group_app = App::with_network_checks(config.clone(), false);
    group_app.start_search();
    for character in "prod".chars() {
        group_app.push_search(character);
    }
    group_app.select_next();
    group_app.reveal_search_selection();

    assert_eq!(group_app.input_mode, InputMode::Normal);
    assert!(group_app.search.is_empty());
    assert_eq!(group_app.selected_node().unwrap().name, "Prod");
    assert_eq!(group_app.expanded.len(), 2);
    assert!(group_app
        .visible
        .iter()
        .any(|row| group_app.nodes[row.node_id].name == "prod-api"));

    let mut host_app = App::with_network_checks(config, false);
    host_app.start_search();
    for character in "billing".chars() {
        host_app.push_search(character);
    }
    host_app.select_next();
    host_app.select_next();
    host_app.reveal_search_selection();

    assert_eq!(host_app.input_mode, InputMode::Normal);
    assert!(host_app.search.is_empty());
    assert_eq!(host_app.selected_host().unwrap().alias, "prod-api");
    let mut parent = host_app.selected_node().unwrap().parent;
    while let Some(group_id) = parent {
        if group_id == host_app.root_id {
            break;
        }
        assert!(host_app.expanded.contains(&group_id));
        parent = host_app.nodes[group_id].parent;
    }
}

#[test]
fn search_ignores_source_paths_and_rejects_scattered_description_matches() {
    let config = SshConfig {
        source: "/home/m3nix/.ssh/config".to_string(),
        groups: vec![group(
            &["Testlab"],
            Some("all hosts from testlab"),
            false,
            "/home/m3nix/.ssh/config.d/test.conf",
            1,
        )],
        hosts: vec![host(
            "lab-api",
            Some("internal endpoint"),
            &["Testlab"],
            "/home/m3nix/.ssh/config.d/test.conf",
            3,
            ResolvedHost {
                host_name: Some("test1.internal".to_string()),
                ..ResolvedHost::default()
            },
        )],
    };

    let mut app = App::new(config);
    app.search = "home".into();
    app.rebuild_visible();

    assert!(app.visible.is_empty());
}

#[test]
fn disabled_network_checks_report_every_host_as_reachable() {
    let config = SshConfig {
        source: "config".to_string(),
        groups: vec![group(&["Work"], None, false, "config", 1)],
        hosts: vec![host("offline", None, &["Work"], "config", 2, ResolvedHost::default())],
    };

    let mut app = App::with_network_checks(config, false);
    assert_eq!(app.host_reachability(0), HostReachability::Reachable);

    app.toggle_selected_group();

    assert_eq!(app.host_reachability(0), HostReachability::Reachable);
    assert!(app.reachability.is_empty());
    assert!(app.reachability_idle());
}

#[test]
fn connection_failures_do_not_replace_the_host_count() {
    let config = SshConfig {
        source: "config".to_string(),
        groups: Vec::new(),
        hosts: vec![host("offline", None, &[], "config", 1, ResolvedHost::default())],
    };

    let mut app = App::with_network_checks(config, false);
    app.show_connection_failure(ConnectionFailure {
        alias: "offline".into(),
        message: "Connection refused".into(),
        exit_status: Some(255),
    });

    assert_eq!(app.status, "1 host");
}

#[test]
fn click_toggles_group_rows() {
    let config = SshConfig {
        source: "config".to_string(),
        groups: vec![group(&["Work"], None, false, "config", 1)],
        hosts: vec![host(
            "prod-api",
            None,
            &["Work"],
            "config",
            2,
            ResolvedHost {
                host_name: Some("127.0.0.1".to_string()),
                port: Some(0),
                ..ResolvedHost::default()
            },
        )],
    };

    let mut app = App::new(config);
    assert_eq!(app.host_reachability(0), HostReachability::Unchecked);
    app.set_tree_area(1, 2, 20, 10);
    assert!(!app.click_at(21, 2));
    assert!(app.click_at(1, 2));

    assert!(app.expanded.contains(&app.visible[0].node_id));
    assert_eq!(app.visible.len(), 2);
    assert_eq!(app.host_reachability(0), HostReachability::Checking);

    app.reachability.insert(0, HostReachability::Reachable);
    app.click_at(1, 2);
    assert_eq!(app.host_reachability(0), HostReachability::Reachable);
    app.click_at(1, 2);
    assert_eq!(app.host_reachability(0), HostReachability::Checking);
}

#[test]
fn siblings_are_sorted_alphabetically_regardless_of_kind() {
    let config = SshConfig {
        source: "config".to_string(),
        groups: vec![
            group(&["zebra"], None, false, "config", 1),
            group(&["Bravo"], None, false, "config", 2),
        ],
        hosts: vec![
            host("charlie", None, &[], "config", 3, ResolvedHost::default()),
            host("alpha", None, &[], "config", 4, ResolvedHost::default()),
        ],
    };

    let app = App::new(config);

    assert_eq!(visible_names(&app), vec!["alpha", "Bravo", "charlie", "zebra"]);
    assert_eq!(app.host_reachability(0), HostReachability::Checking);
    assert_eq!(app.host_reachability(1), HostReachability::Checking);
}

#[test]
fn configured_group_starts_expanded_with_its_ancestors() {
    let config = SshConfig {
        source: "config".to_string(),
        groups: vec![group(&["Work", "Prod"], None, true, "config", 1)],
        hosts: vec![host(
            "prod-api",
            None,
            &["Work", "Prod"],
            "config",
            3,
            ResolvedHost {
                host_name: Some("127.0.0.1".to_string()),
                port: Some(0),
                ..ResolvedHost::default()
            },
        )],
    };

    let app = App::new(config);

    assert_eq!(visible_names(&app), ["Work", "Prod", "prod-api"]);
    assert_eq!(app.expanded.len(), 2);
    assert_eq!(app.host_reachability(0), HostReachability::Checking);
}

#[test]
fn scrolling_keeps_the_selection_in_view() {
    let hosts = (0..10)
        .map(|index| host(&format!("host-{index}"), None, &[], "config", index, ResolvedHost::default()))
        .collect();
    let config = SshConfig { source: "config".to_string(), groups: Vec::new(), hosts };
    let mut app = App::with_network_checks(config, false);
    app.set_tree_area(0, 0, 20, 3);
    for _ in 0..5 {
        app.select_next();
    }
    assert_eq!(app.selected, 5);
    assert_eq!(app.visible_offset, 3);
    for _ in 0..20 {
        app.select_next();
    }
    assert_eq!(app.selected, 9);
    assert_eq!(app.visible_offset, 7);
    for _ in 0..8 {
        app.select_previous();
    }
    assert_eq!(app.selected, 1);
    assert_eq!(app.visible_offset, 1);
    assert!(app.select_at(3, 2));
    assert_eq!(app.selected, 3);
    assert!(!app.select_at(3, 3));
}

#[test]
fn every_host_is_in_the_tree_once_below_its_groups() {
    let config = SshConfig {
        source: "config".to_string(),
        groups: vec![group(&["Work", "Prod"], None, false, "config", 1), group(&["Work"], None, false, "config", 2)],
        hosts: vec![
            host("a", None, &["Work", "Prod"], "config", 3, ResolvedHost::default()),
            host("b", None, &["Work"], "config", 4, ResolvedHost::default()),
            host("c", None, &["Lab", "Bench"], "config", 5, ResolvedHost::default()),
            host("d", None, &[], "config", 6, ResolvedHost::default()),
        ],
    };
    let app = App::with_network_checks(config, false);
    for (index, entry) in app.config.hosts.iter().enumerate() {
        let places: Vec<usize> = app
            .nodes
            .iter()
            .filter(|node| node.kind == ssh_tui_rs::tree::NodeKind::Host(index))
            .map(|node| node.id)
            .collect();
        assert_eq!(places.len(), 1);
        let mut path = Vec::new();
        let mut current = app.nodes[places[0]].parent;
        while let Some(id) = current {
            if id == app.root_id {
                break;
            }
            path.insert(0, app.nodes[id].name.clone());
            current = app.nodes[id].parent;
        }
        assert_eq!(path, entry.group_path);
    }
    let groups = app
        .nodes
        .iter()
        .filter(|node| node.kind == ssh_tui_rs::tree::NodeKind::Group)
        .count();
    assert_eq!(groups, 4);
}

#[test]
fn search_edits_and_leaving_the_search_restore_the_tree() {
    let config = SshConfig {
        source: "config".to_string(),
        groups: vec![group(&["Work"], None, false, "config", 1)],
        hosts: vec![
            host("alpha", None, &["Work"], "config", 2, ResolvedHost::default()),
            host("beta", None, &[], "config", 3, ResolvedHost::default()),
        ],
    };
    let mut app = App::with_network_checks(config, false);
    assert_eq!(visible_names(&app), vec!["beta", "Work"]);
    app.start_search();
    app.push_search('a');
    app.push_search('l');
    assert_eq!(app.search, "al");
    assert_eq!(visible_names(&app), vec!["Work", "alpha"]);
    app.pop_search();
    assert_eq!(app.search, "a");
    app.clear_search();
    assert_eq!(app.input_mode, InputMode::Normal);
    assert_eq!(visible_names(&app), vec!["beta", "Work"]);
}

#[test]
fn blank_and_padded_searches_match_the_plain_ones() {
    let config = SshConfig {
        source: "config".to_string(),
        groups: vec![group(&["Work"], None, false, "config", 1)],
        hosts: vec![
            host("alpha", None, &["Work"], "config", 2, ResolvedHost::default()),
            host("beta", None, &[], "config", 3, ResolvedHost::default()),
        ],
    };
    let mut app = App::with_network_checks(config, false);
    app.start_search();
    app.push_search(' ');
    app.push_search(' ');
    assert_eq!(visible_names(&app), vec!["beta", "Work"]);
    app.push_search('a');
    app.push_search('l');
    app.push_search(' ');
    assert_eq!(visible_names(&app), vec!["Work", "alpha"]);
}

#[test]
fn a_second_press_on_a_host_opens_it() {
    let config = SshConfig {
        source: "config".to_string(),
        groups: vec![group(&["Work"], None, false, "config", 1)],
        hosts: vec![
            host("alpha", None, &["Work"], "config", 2, ResolvedHost::default()),
            host("beta", None, &[], "config", 3, ResolvedHost::default()),
        ],
    };
    let mut app = App::with_network_checks(config, false);
    app.set_tree_area(1, 2, 20, 10);
    assert_eq!(visible_names(&app), vec!["beta", "Work"]);
    let beta = app.visible[0].node_id;
    let mut previous = None;

    assert!(!app.click_host(1, 2, 1000, &mut previous));
    assert_eq!(previous, Some((1000, beta)));
    assert!(app.click_host(1, 2, 1300, &mut previous));
    assert_eq!(previous, None);

    assert!(!app.click_host(1, 2, 2000, &mut previous));
    assert!(!app.click_host(1, 2, 2501, &mut previous));
    assert_eq!(previous, Some((2501, beta)));

    assert!(!app.click_host(1, 3, 2600, &mut previous));
    assert_eq!(previous, None);
    assert_eq!(visible_names(&app), vec!["beta", "Work", "alpha"]);
    assert_eq!(app.nodes[app.selected_node_id().unwrap()].name, "Work");

    assert!(!app.click_host(1, 2, 2700, &mut previous));
    assert!(!app.click_host(30, 2, 2800, &mut previous));
    assert_eq!(previous, None);

    app.start_search();
    app.push_search('a');
    app.push_search('l');
    assert_eq!(visible_names(&app), vec!["Work", "alpha"]);
    assert!(!app.click_host(1, 3, 5000, &mut previous));
    assert!(app.click_host(1, 3, 5100, &mut previous));
    assert_eq!(app.input_mode, InputMode::Normal);
    assert_eq!(app.search, "");
    assert_eq!(app.nodes[app.selected_node_id().unwrap()].name, "alpha");
}

#[test]
fn toggling_a_group_twice_restores_the_view() {
    let config = SshConfig {
        source: "config".to_string(),
        groups: vec![
            group(&["Work"], None, false, "config", 1),
            group(&["Work", "Prod"], None, false, "config", 2),
        ],
        hosts: vec![
            host("alpha", None, &["Work"], "config", 3, ResolvedHost::default()),
            host("beta", None, &["Work", "Prod"], "config", 4, ResolvedHost::default()),
            host("gamma", None, &[], "config", 5, ResolvedHost::default()),
        ],
    };
    let mut app = App::with_network_checks(config, false);
    assert_eq!(visible_names(&app), vec!["gamma", "Work"]);
    app.select_next();
    let work = app.selected_node_id();
    let rows = visible_names(&app);
    app.toggle_selected_group();
    assert_eq!(visible_names(&app), vec!["gamma", "Work", "alpha", "Prod"]);
    assert_eq!(app.selected_node_id(), work);
    app.toggle_selected_group();
    assert_eq!(visible_names(&app), rows);
    assert_eq!(app.selected_node_id(), work);
    assert!(app.expanded.is_empty());
}

#[test]
fn rows_never_repeat_a_node_and_hosts_have_no_children() {
    let config = SshConfig {
        source: "config".to_string(),
        groups: vec![
            group(&["Work"], None, true, "config", 1),
            group(&["Work", "Prod"], None, true, "config", 2),
            group(&["Work"], None, false, "config", 6),
        ],
        hosts: vec![
            host("alpha", None, &["Work"], "config", 3, ResolvedHost::default()),
            host("beta", None, &["Work", "Prod"], "config", 4, ResolvedHost::default()),
            host("gamma", None, &[], "config", 5, ResolvedHost::default()),
        ],
    };
    let mut app = App::with_network_checks(config, false);
    for search in ["", "a", "work"] {
        app.clear_search();
        app.start_search();
        for c in search.chars() {
            app.push_search(c);
        }
        let ids: Vec<usize> = app.visible.iter().map(|row| row.node_id).collect();
        assert!(!ids.contains(&app.root_id));
        for (i, id) in ids.iter().enumerate() {
            assert!(!ids[i + 1..].contains(id));
        }
    }
    for node in &app.nodes {
        if let ssh_tui_rs::tree::NodeKind::Host(_) = node.kind {
            assert!(node.children.is_empty());
        }
        for (i, child) in node.children.iter().enumerate() {
            assert!(!node.children[i + 1..].contains(child));
            assert_eq!(app.nodes[*child].parent, Some(node.id));
        }
    }
    let work_groups = app.nodes.iter().filter(|node| node.name == "Work").count();
    assert_eq!(work_groups, 1);
}
