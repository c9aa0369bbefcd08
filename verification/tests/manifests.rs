use deploy_common::manifest::{
    binary_entry, collect_meta, default_exec_mode, CURRENT_SCHEMA_VERSION,
};
use deploy_common::path::FsPath;
use deploy_common::project::{
    default_health_timeout, default_retain_count, HealthCheckFile, ProjectConfig, ProjectFile,
};

fn pair(key: &str, value: &str) -> (String, String) {
    (String::from(key), String::from(value))
}

#[test]
fn metadata_is_ordered_and_the_last_value_counts() {
    let given = vec![
        pair("run_id", "1"),
        pair("branch", "main"),
        pair("run_id", "2"),
        pair("", "empty"),
        pair("é", "x"),
        pair("z", "y"),
    ];
    let meta = collect_meta(&given);
    assert_eq!(
        meta,
        vec![
            pair("", "empty"),
            pair("branch", "main"),
            pair("run_id", "2"),
            pair("z", "y"),
            pair("é", "x"),
        ]
    );
    let map: std::collections::BTreeMap<String, String> = given.into_iter().collect();
    assert_eq!(meta, map.into_iter().collect::<Vec<(String, String)>>());
    assert!(collect_meta(&Vec::new()).is_empty());
}

#[test]
fn what_is_left_out_has_a_default() {
    assert_eq!(default_exec_mode(), 0o755);
    assert_eq!(default_retain_count(), 5);
    assert_eq!(default_health_timeout(), 10);
    assert_eq!(CURRENT_SCHEMA_VERSION, 1);
    let entry = binary_entry(String::from("bin/a"), String::from("00"), None);
    assert_eq!((entry.path.as_str(), entry.sha256.as_str(), entry.mode), ("bin/a", "00", 0o755));
    let entry = binary_entry(String::from("bin/a"), String::from("00"), Some(0o700));
    assert_eq!(entry.mode, 0o700);
    let config = ProjectConfig::load(ProjectFile {
        install_dir: FsPath::from_text("/srv/apps/p"),
        allowed_units: None,
        retain_count: None,
        health_check: Some(HealthCheckFile {
            url: String::from("http://127.0.0.1/healthz"),
            timeout_secs: None,
        }),
        secret_path: FsPath::from_text("/s/p.key"),
    });
    assert_eq!(config.install_dir.bytes, b"/srv/apps/p");
    assert_eq!(config.secret_path.bytes, b"/s/p.key");
    assert!(config.allowed_units.is_empty());
    assert_eq!(config.retain_count, 5);
    let check = config.health_check.unwrap();
    assert_eq!((check.url.as_str(), check.timeout_secs), ("http://127.0.0.1/healthz", 10));
}

#[test]
fn what_a_policy_states_counts() {
    let config = ProjectConfig::load(ProjectFile {
        install_dir: FsPath::from_text("/a"),
        allowed_units: Some(vec![String::from("a.service")]),
        retain_count: Some(0),
        health_check: None,
        secret_path: FsPath::from_text("/b"),
    });
    assert_eq!(config.allowed_units, ["a.service"]);
    assert_eq!(config.retain_count, 0);
    assert!(config.health_check.is_none());
    let config = ProjectConfig::load(ProjectFile {
        install_dir: FsPath::from_text("/a"),
        allowed_units: None,
        retain_count: None,
        health_check: Some(HealthCheckFile {
            url: String::new(),
            timeout_secs: Some(3),
        }),
        secret_path: FsPath::from_text("/b"),
    });
    assert_eq!(config.health_check.unwrap().timeout_secs, 3);
}
