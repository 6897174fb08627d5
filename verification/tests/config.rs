use ssh_tui_rs::app::App;
use ssh_tui_rs::config_scan::ConfigScan;
use ssh_tui_rs::ssh_config::{SshConfig, resolve_include_pattern};

/// Files of a test, by path.
type Files<'a> = [(&'a str, String)];

/// Shell-style matching of a path against a pattern with `*` and `?`.
fn matches(pattern: &[char], path: &[char]) -> bool {
    match pattern.first() {
        None => path.is_empty(),
        Some('*') => (0..=path.len()).any(|skip| {
            !path[..skip].contains(&'/') && matches(&pattern[1..], &path[skip..])
        }),
        Some('?') => !path.is_empty() && path[0] != '/' && matches(&pattern[1..], &path[1..]),
        Some(c) => path.first() == Some(c) && matches(&pattern[1..], &path[1..]),
    }
}

fn scan_file(scan: &mut ConfigScan, files: &Files, path: &str) {
    let Some((_, text)) = files.iter().find(|(name, _)| *name == path) else {
        return;
    };
    if !scan.enter_file(path, path) {
        return;
    }
    for line in text.lines() {
        if let Some(patterns) = scan.scan_line(line) {
            for pattern in patterns {
                let resolved = resolve_include_pattern(&pattern, Some("/home/tester"));
                let pattern_chars: Vec<char> = resolved.chars().collect();
                let mut found: Vec<&str> = files
                    .iter()
                    .map(|(name, _)| *name)
                    .filter(|name| matches(&pattern_chars, &name.chars().collect::<Vec<_>>()))
                    .collect();
                found.sort();
                for name in found {
                    scan_file(scan, files, name);
                }
            }
        }
    }
    scan.leave_file();
}

fn load(files: &Files, source: &str) -> SshConfig {
    let mut scan = ConfigScan::new();
    scan_file(&mut scan, files, source);
    SshConfig::load(source, scan)
}

#[test]
fn parses_metadata_and_nested_groups() {
    let files = [(
        "/tmp/t/config",
        r#"
# @group Work/Prod | Production machines
# @description Handles customer traffic
Host prod-api
  HostName 10.0.0.10
  User deploy
  Port 2222
"#
        .to_string(),
    )];

    let parsed = load(&files, "/tmp/t/config");
    assert_eq!(parsed.groups[0].path, vec!["Work", "Prod"]);
    assert_eq!(parsed.groups[0].description.as_deref(), Some("Production machines"));
    assert_eq!(parsed.hosts[0].alias, "prod-api");
    assert_eq!(parsed.hosts[0].description.as_deref(), Some("Handles customer traffic"));
    assert_eq!(parsed.hosts[0].group_path, vec!["Work", "Prod"]);
}

#[test]
fn parses_hidden_hosts_and_expanded_groups() {
    let files = [(
        "/tmp/t/config",
        r#"
# @group Work/Prod | Production machines
# @expanded
# @hidden
Host internal-helper
  HostName helper.internal

Host prod-api
  HostName api.internal
"#
        .to_string(),
    )];

    let parsed = load(&files, "/tmp/t/config");

    assert_eq!(parsed.hosts.len(), 1);
    assert_eq!(parsed.hosts[0].alias, "prod-api");
    assert!(parsed.groups[0].expanded_by_default);
}

#[test]
fn include_files_have_independent_group_state() {
    let included = "/tmp/t/included.conf";
    let files = [
        (
            included,
            r#"
Host app-01
  HostName app.internal
# group: Other | A new section
Host other-01
"#
            .to_string(),
        ),
        (
            "/tmp/t/config",
            format!(
                r#"
# @group Work/Apps | Application servers
Include {}
Host after-include
"#,
                included
            ),
        ),
    ];

    let parsed = load(&files, "/tmp/t/config");
    let app = parsed.hosts.iter().find(|host| host.alias == "app-01").unwrap();
    let other = parsed.hosts.iter().find(|host| host.alias == "other-01").unwrap();
    let after = parsed.hosts.iter().find(|host| host.alias == "after-include").unwrap();

    assert!(app.group_path.is_empty());
    assert_eq!(other.group_path, vec!["Other"]);
    assert_eq!(after.group_path, vec!["Work", "Apps"]);
}

#[test]
fn globbed_file_without_group_stays_ungrouped() {
    let config_dir = "/tmp/t/config.d";
    let files = [
        (
            "/tmp/t/config.d/grouped.conf",
            r#"
# @group Work
Host work
  HostName work.internal
"#
            .to_string(),
        ),
        (
            "/tmp/t/config.d/ungrouped.conf",
            r#"
Host arch
  HostName localhost
  User m3nix
"#
            .to_string(),
        ),
        ("/tmp/t/config", format!("Include {}/*.conf\n", config_dir)),
    ];

    let parsed = load(&files, "/tmp/t/config");
    let work = parsed.hosts.iter().find(|host| host.alias == "work").unwrap();
    let arch = parsed.hosts.iter().find(|host| host.alias == "arch").unwrap();

    assert_eq!(work.group_path, ["Work"]);
    assert!(arch.group_path.is_empty());
}

#[test]
fn skips_wildcard_hosts() {
    let files = [(
        "/tmp/t/config",
        r#"
Host *
  ForwardAgent no
Host bastion *.internal !blocked
"#
        .to_string(),
    )];

    let parsed = load(&files, "/tmp/t/config");
    assert_eq!(parsed.hosts.len(), 1);
    assert_eq!(parsed.hosts[0].alias, "bastion");
}

#[test]
fn example_config_loads_with_nested_groups_and_hostnames() {
    let files = [(
        "/tmp/t/example",
        r#"# @group Work/Production
# @description Customer-facing production systems
# @description Public API node
Host prod-api
  HostName 10.0.0.10
  User deploy
  Port 2222

# @description SSH jump host
Host bastion
  HostName bastion.example.com
  User ops

# @group Work/Production/Databases
# @description Persistent storage
# @description Primary database node
Host prod-db
  HostName prod-db.internal
  User postgres
  ProxyJump bastion

# @group Personal/Lab
# @description Local experiments
# @description Home lab controller
Host lab-controller
  HostName 192.168.1.50
  User m3nix
"#
        .to_string(),
    )];

    let config = load(&files, "/tmp/t/example");

    assert_eq!(config.hosts.len(), 4);
    assert!(config
        .groups
        .iter()
        .any(|group| group.path == ["Work", "Production", "Databases"]));

    let db = config.hosts.iter().find(|host| host.alias == "prod-db").unwrap();
    assert_eq!(db.group_path, ["Work", "Production", "Databases"]);
    assert_eq!(db.resolved.host_name.as_deref(), Some("prod-db.internal"));
    assert_eq!(db.resolved.proxy_jump, ["bastion"]);

    let mut app = App::new(config);
    app.search = "persistent".into();
    app.rebuild_visible();

    let names = app
        .visible
        .iter()
        .map(|row| app.nodes[row.node_id].name.as_str())
        .collect::<Vec<_>>();
    assert!(names.contains(&"Databases"));
    assert!(names.contains(&"prod-db"));
}

#[test]
fn loads_large_configs_in_a_single_scan() {
    let mut contents = String::from("Host *\n  User deploy\n  IdentityFile ~/.ssh/deploy\n\n");
    for index in 0..1_000 {
        contents.push_str(&format!(
            "Host host-{index}\n  HostName 10.0.{}.{index}\n\nMatch originalhost conditional-{index}\n  Port 2222\n\n",
            index / 256
        ));
    }
    let files = [("/tmp/t/config", contents)];

    let parsed = load(&files, "/tmp/t/config");

    assert_eq!(parsed.hosts.len(), 1_000);
    assert_eq!(parsed.hosts[999].resolved.user.as_deref(), Some("deploy"));
    assert_eq!(parsed.hosts[999].resolved.port, None);
    assert_eq!(parsed.hosts[999].resolved.host_name.as_deref(), Some("10.0.3.999"));
}

#[test]
fn quoted_values_stay_whole_and_inline_comments_are_dropped() {
    let files = [(
        "/tmp/t/config",
        "Host quoted\n  IdentityFile \"/keys/my key\" # personal\n  ProxyJump first second\n"
            .to_string(),
    )];

    let parsed = load(&files, "/tmp/t/config");

    assert_eq!(parsed.hosts[0].resolved.identity_files, ["/keys/my key"]);
    assert_eq!(parsed.hosts[0].resolved.proxy_jump, ["first", "second"]);
}

#[test]
fn groups_come_out_in_path_order_each_once() {
    let files = [(
        "/tmp/t/config",
        "# @group Zeta\nHost z\n# @group Alpha/Beta | first\nHost b\n# @group Alpha\nHost a\n# @group Alpha/Beta | second\nHost c\n"
            .to_string(),
    )];

    let parsed = load(&files, "/tmp/t/config");
    let paths: Vec<Vec<String>> = parsed.groups.iter().map(|group| group.path.clone()).collect();

    assert_eq!(paths, vec![vec!["Alpha".to_string()], vec!["Alpha".to_string(), "Beta".to_string()], vec!["Zeta".to_string()]]);
    assert_eq!(parsed.groups[1].description.as_deref(), Some("second"));
}

#[test]
fn a_file_included_twice_is_read_once() {
    let files = [
        ("/tmp/t/common.conf", "Host shared\n".to_string()),
        (
            "/tmp/t/config",
            "Include /tmp/t/common.conf\nInclude /tmp/t/common.conf\n".to_string(),
        ),
    ];

    let parsed = load(&files, "/tmp/t/config");
    assert_eq!(parsed.hosts.len(), 1);
}

#[test]
fn relative_includes_are_read_from_the_ssh_directory() {
    assert_eq!(resolve_include_pattern("config.d/*", Some("/home/tester")), "/home/tester/.ssh/config.d/*");
    assert_eq!(resolve_include_pattern("~/other", Some("/home/tester")), "/home/tester/other");
    assert_eq!(resolve_include_pattern("/etc/ssh/extra", Some("/home/tester")), "/etc/ssh/extra");
    assert_eq!(resolve_include_pattern("config.d/*", None), "config.d/*");
}
