use ssh_tui_rs::app::{App, InputMode};
use ssh_tui_rs::details::{
    count_descendants, empty_or_joined, footer_text, group_fields, highlighted_name, host_fields,
    hosts_label, node_path, option_fields, padded_label, row_marker, search_label,
};
use ssh_tui_rs::ssh_config::{GroupEntry, HostEntry, ResolvedHost, SshConfig};

fn sample() -> App {
    let config = SshConfig {
        source: "config".to_string(),
        groups: vec![GroupEntry {
            path: vec!["Work".into(), "Prod".into()],
            description: Some("Production".into()),
            expanded_by_default: false,
            source: "config".into(),
            line: 1,
        }],
        hosts: vec![
            HostEntry {
                alias: "prod-api".into(),
                description: None,
                group_path: vec!["Work".into(), "Prod".into()],
                source: "/etc/ssh/config".into(),
                line: 12,
                options: vec![("HostName".into(), vec!["10.0.0.10".into()]), ("LocalForward".into(), vec!["8080".into(), "localhost:80".into()])],
                resolved: ResolvedHost {
                    host_name: Some("10.0.0.10".into()),
                    user: None,
                    port: Some(2222),
                    identity_files: vec!["~/.ssh/a".into(), "~/.ssh/b".into()],
                    proxy_jump: Vec::new(),
                },
            },
            HostEntry {
                alias: "lone".into(),
                description: None,
                group_path: Vec::new(),
                source: "config".into(),
                line: 20,
                options: Vec::new(),
                resolved: ResolvedHost::default(),
            },
        ],
    };
    App::with_network_checks(config, false)
}

fn node_named(app: &App, name: &str) -> usize {
    app.nodes.iter().position(|node| node.name == name).unwrap()
}

#[test]
fn values_are_joined_or_marked_missing() {
    assert_eq!(empty_or_joined(&Vec::new(), ", "), "(not set)");
    assert_eq!(empty_or_joined(&vec!["a".to_string(), "b".to_string()], ", "), "a, b");
}

#[test]
fn labels_are_padded_to_twelve_characters() {
    assert_eq!(padded_label("Host"), "Host        ");
    assert_eq!(padded_label("IdentityFile"), "IdentityFile");
    assert_eq!(padded_label("A much longer label"), "A much longer label");
}

#[test]
fn paths_and_counts_describe_groups() {
    let app = sample();
    let prod = node_named(&app, "Prod");
    let work = node_named(&app, "Work");
    assert_eq!(node_path(&app, prod), "Work/Prod");
    assert_eq!(node_path(&app, 0), "");
    assert_eq!(count_descendants(&app, work), (1, 1));
    assert_eq!(count_descendants(&app, 0), (2, 2));
    let fields = group_fields(&app, work);
    assert_eq!(fields[0], ("Path".to_string(), "Work".to_string()));
    assert_eq!(fields[1], ("Folders".to_string(), "1".to_string()));
    assert_eq!(fields[2], ("Hosts".to_string(), "1".to_string()));
    assert_eq!(group_fields(&app, 0)[0].1, "/");
}

#[test]
fn host_details_show_resolved_settings() {
    let app = sample();
    let fields = host_fields(&app.config.hosts[0]);
    let values: Vec<(&str, &str)> = fields.iter().map(|(k, v)| (k.as_str(), v.as_str())).collect();
    assert_eq!(
        values,
        vec![
            ("Host", "prod-api"),
            ("HostName", "10.0.0.10"),
            ("User", "(not set)"),
            ("Port", "2222"),
            ("ProxyJump", "(not set)"),
            ("IdentityFile", "~/.ssh/a, ~/.ssh/b"),
            ("Group", "Work/Prod"),
            ("Source", "/etc/ssh/config:12"),
        ]
    );
    assert_eq!(host_fields(&app.config.hosts[1])[6].1, "/");
    let options = option_fields(&app.config.hosts[0]);
    assert_eq!(options[1], ("LocalForward".to_string(), "8080 localhost:80".to_string()));
}

#[test]
fn markers_show_open_and_closed_groups() {
    let mut app = sample();
    let work = node_named(&app, "Work");
    let api = node_named(&app, "prod-api");
    assert_eq!(row_marker(&app, work), "[+] ");
    assert_eq!(row_marker(&app, api), "> ");
    assert_eq!(row_marker(&app, 0), "  ");
    app.expanded.insert(work);
    assert_eq!(row_marker(&app, work), "[-] ");
    app.expanded.clear();
    app.search = "x".into();
    assert_eq!(row_marker(&app, work), "[-] ");
}

#[test]
fn matched_characters_are_highlighted() {
    assert_eq!(
        highlighted_name("abc", &vec![0, 2]),
        vec![('a', true), ('b', false), ('c', true)]
    );
}

#[test]
fn header_and_footer_texts() {
    assert_eq!(search_label(""), "Search: /");
    assert_eq!(search_label("pro"), "Search: pro");
    assert_eq!(hosts_label(3), "3 hosts");
    assert_eq!(footer_text("", InputMode::Search), "Esc clear  Enter keep search  Backspace edit");
    assert_eq!(
        footer_text("2 hosts", InputMode::Normal),
        "2 hosts  |  q quit  / search  arrows/jk move  h/l fold  Enter connect"
    );
}
