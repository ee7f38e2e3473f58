use fleet::config::{DeployConfig, FleetConfig, HookPair, NodeOverride, SshConfig};
use fleet::strings::{is_sorted_by_key, join_strings, less_than, strip_tag};
use fleet::registry::{Node, NodeRegistry};
use fleet::targeting::{resolve, ResolvedTargets, TargetError};

fn node(host: &str, tags: &[&str]) -> Node {
    Node {
        system: "x86_64-linux".to_string(),
        hostname: host.to_string(),
        ssh_user: "root".to_string(),
        tags: tags.iter().map(|t| t.to_string()).collect(),
    }
}

fn registry() -> NodeRegistry {
    vec![
        ("alpha".to_string(), node("10.0.0.1", &["web"])),
        ("beta".to_string(), node("10.0.0.2", &["db"])),
        ("gamma".to_string(), node("10.0.0.3", &["web", "db"])),
    ]
}

fn names(r: &ResolvedTargets) -> Vec<String> {
    r.names().iter().map(|n| n.to_string()).collect()
}

fn strings(v: &[&str]) -> Vec<String> {
    v.iter().map(|s| s.to_string()).collect()
}

#[test]
fn all_selects_every_node_in_order() {
    let r = resolve(&registry(), &[], true).ok().expect("resolved");
    assert_eq!(names(&r), vec!["alpha", "beta", "gamma"]);
    assert!(!r.is_single());
    assert_eq!(r.nodes[1].1.hostname, "10.0.0.2");
}

#[test]
fn no_targets_without_all_is_an_error() {
    assert!(matches!(resolve(&registry(), &[], false), Err(TargetError::NoTargets)));
}

#[test]
fn unknown_name_is_reported() {
    match resolve(&registry(), &strings(&["alpha", "zeta", "omega"]), false) {
        Err(TargetError::UnknownNode { name }) => assert_eq!(name, "zeta"),
        _ => panic!("expected an unknown node"),
    }
}

#[test]
fn tag_selects_tagged_nodes_without_repeats() {
    let r = resolve(&registry(), &strings(&["gamma", "@web", "@db"]), false).ok().expect("resolved");
    assert_eq!(names(&r), vec!["gamma", "alpha", "beta"]);
}

#[test]
fn single_name_is_single() {
    let r = resolve(&registry(), &strings(&["beta"]), false).ok().expect("resolved");
    assert!(r.is_single());
    assert_eq!(r.nodes[0].1.tags, vec!["db".to_string()]);
}

#[test]
fn unmatched_tag_is_an_error() {
    assert!(matches!(resolve(&registry(), &strings(&["@gpu"]), false), Err(TargetError::NoMatch)));
}

#[test]
fn ssh_settings_merge_node_overrides() {
    let mut config = FleetConfig::default();
    config.ssh.options.push(("ServerAliveInterval".to_string(), "30".to_string()));
    let mut o = NodeOverride::default();
    o.ssh.connect_timeout = Some(20);
    o.ssh.options.push(("ServerAliveInterval".to_string(), "60".to_string()));
    o.ssh.options.push(("Port".to_string(), "2222".to_string()));
    config.nodes.push(("beta".to_string(), o));

    let plain = config.resolve_ssh("alpha");
    assert_eq!(plain.connect_timeout, 5);
    assert_eq!(plain.strict_host_key, "accept-new");
    assert_eq!(plain.options, vec![("ServerAliveInterval".to_string(), "30".to_string())]);

    let tuned = config.resolve_ssh("beta");
    assert_eq!(tuned.connect_timeout, 20);
    assert_eq!(tuned.strict_host_key, "accept-new");
    assert_eq!(
        tuned.options,
        vec![
            ("ServerAliveInterval".to_string(), "60".to_string()),
            ("Port".to_string(), "2222".to_string()),
        ]
    );
}

#[test]
fn deploy_settings_take_node_overrides() {
    let mut config = FleetConfig::default();
    let mut o = NodeOverride::default();
    o.deploy.magic_rollback = Some(false);
    config.nodes.push(("beta".to_string(), o));
    let d = config.resolve_deploy("beta");
    assert!(!d.show_trace);
    assert!(!d.magic_rollback);
    let d = config.resolve_deploy("alpha");
    assert!(d.magic_rollback);
}

#[test]
fn defaults_are_documented_values() {
    let s = SshConfig::default();
    assert_eq!(s.connect_timeout, 5);
    assert_eq!(s.strict_host_key, "accept-new");
    let d = DeployConfig::default();
    assert!(!d.show_trace && d.magic_rollback);
}

#[test]
fn names_order_by_characters() {
    assert!(less_than("alpha", "beta"));
    assert!(less_than("web", "web1"));
    assert!(!less_than("web1", "web"));
    assert!(!less_than("same", "same"));
    assert!(less_than("", "a"));
    assert!(less_than("Zeta", "alpha"));
}

#[test]
fn registry_order_is_checked() {
    assert!(is_sorted_by_key(&registry()));
    let mut r = registry();
    r.swap(0, 2);
    assert!(!is_sorted_by_key(&r));
    let mut d = registry();
    d.push(("gamma".to_string(), node("10.0.0.9", &[])));
    assert!(!is_sorted_by_key(&d));
}

#[test]
fn tags_are_stripped_and_parts_joined() {
    assert_eq!(strip_tag(&"@web".to_string()), Some("web".to_string()));
    assert_eq!(strip_tag(&"@".to_string()), Some(String::new()));
    assert_eq!(strip_tag(&"web".to_string()), None);
    assert_eq!(join_strings(&strings(&["a", "b", "c"]), ", "), "a, b, c");
    assert_eq!(join_strings(&strings(&["solo"]), ", "), "solo");
    assert_eq!(join_strings(&Vec::new(), ", "), "");
}

#[test]
fn hooks_are_found_by_command() {
    let mut config = FleetConfig::default();
    config.hooks.push(("build".to_string(), HookPair { pre: Some("true".to_string()), post: None }));
    config.hooks.push(("deploy".to_string(), HookPair::default()));
    assert_eq!(config.find_hook("deploy"), Some(1));
    assert_eq!(config.find_hook("reboot"), None);
    assert!(config.is_well_formed());
    config.hooks.swap(0, 1);
    assert!(!config.is_well_formed());
}
