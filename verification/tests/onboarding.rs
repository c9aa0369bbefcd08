use deploy_common::admin::{
    generate_secret, needs_secret, onboard, polkit_snippet, secret_text, OnboardRequest,
    SECRET_MODE,
};
use deploy_common::deploy::project_config_path;
use deploy_common::path::FsPath;
use deploy_common::settings::{config_root, own_project_name, own_unit_name};

fn request(install_dir: Option<&str>, url: Option<&str>) -> OnboardRequest {
    OnboardRequest {
        project: String::from("myproj"),
        units: vec![String::from("api.service")],
        install_dir: install_dir.map(FsPath::from_text),
        retain_count: 3,
        health_check_url: url.map(String::from),
        health_check_timeout_secs: 20,
        agent_user: String::from("deploy-agent"),
        agent_group: String::from("staff"),
    }
}

#[test]
fn onboarding_has_defaults() {
    let root = FsPath::from_text("/etc/deploy-agent");
    let plan = onboard(&root, request(None, None));
    assert_eq!(plan.secrets_dir.bytes, b"/etc/deploy-agent/secrets");
    assert_eq!(plan.projects_dir.bytes, b"/etc/deploy-agent/projects");
    assert_eq!(plan.secret_path.bytes, b"/etc/deploy-agent/secrets/myproj.key");
    assert_eq!(plan.project_toml_path.bytes, b"/etc/deploy-agent/projects/myproj.toml");
    assert_eq!(plan.config.install_dir.bytes, b"/srv/apps/myproj");
    assert_eq!(plan.config.allowed_units, ["api.service"]);
    assert_eq!(plan.config.retain_count, 3);
    assert!(plan.config.health_check.is_none());
    assert_eq!(plan.config.secret_path.bytes, plan.secret_path.bytes);
    assert_eq!(plan.releases_dir.bytes, b"/srv/apps/myproj/releases");
    assert_eq!(plan.shared_dir.bytes, b"/srv/apps/myproj/shared");
    assert_eq!(plan.owner, "deploy-agent:staff");
}

#[test]
fn onboarding_takes_what_is_given() {
    let root = FsPath::from_text("/tmp/scratch");
    let plan = onboard(&root, request(Some("/opt/deploy-agent"), Some("http://x/healthz")));
    assert_eq!(plan.config.install_dir.bytes, b"/opt/deploy-agent");
    assert_eq!(plan.releases_dir.bytes, b"/opt/deploy-agent/releases");
    let check = plan.config.health_check.unwrap();
    assert_eq!((check.url.as_str(), check.timeout_secs), ("http://x/healthz", 20));
    assert_eq!(
        plan.project_toml_path.bytes,
        project_config_path(&root, "myproj").bytes
    );
}

#[test]
fn a_secret_is_kept_unless_forced() {
    assert!(needs_secret(false, false));
    assert!(!needs_secret(false, true));
    assert!(needs_secret(true, true));
    assert!(needs_secret(true, false));
    assert_eq!(SECRET_MODE, 0o600);
}

#[test]
fn a_secret_is_hexadecimal() {
    assert_eq!(secret_text(&[0, 255, 16]), "00ff10");
    let secret = generate_secret();
    assert_eq!(secret.len(), 64);
    assert!(secret.bytes().all(|b| b.is_ascii_digit() || (b'a'..=b'f').contains(&b)));
    assert_ne!(secret, "0".repeat(64));
    assert_ne!(secret, generate_secret());
}

#[test]
fn the_allow_list_is_shown() {
    assert_eq!(
        polkit_snippet("myproj", &Vec::new()),
        "\nno units given — nothing to add to the polkit allow-list for 'myproj'.\n"
    );
    assert_eq!(
        polkit_snippet(
            "myproj",
            &vec![String::from("a.service"), String::from("b.service")]
        ),
        "\nAdd these units to the allowedUnits array in \
         /etc/polkit-1/rules.d/49-deploy-agent.rules (polkit picks up \
         rule-file changes automatically, no daemon-reload needed):\n\n    \
         \"a.service\",\n    \"b.service\",\n"
    );
}

#[test]
fn settings_have_defaults() {
    assert_eq!(config_root(None, None).bytes, b"/etc/deploy-agent");
    let given = Some(FsPath::from_text("/given"));
    let environment = Some(FsPath::from_text("/env"));
    assert_eq!(config_root(given, environment).bytes, b"/given");
    assert_eq!(config_root(None, Some(FsPath::from_text("/env"))).bytes, b"/env");
    assert_eq!(own_unit_name(None), "deploy-agent.service");
    assert_eq!(own_unit_name(Some(String::from("x.service"))), "x.service");
    assert_eq!(own_project_name(None), "deploy-agent");
    assert_eq!(own_project_name(Some(String::from("x"))), "x");
}
