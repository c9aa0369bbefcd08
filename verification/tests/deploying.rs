use deploy_common::deploy::{
    failure_response, rollback, Cause, Deploy, Event, Lookup, Phase, Release, Response, Step,
};
use deploy_common::hmac::compute_signature;
use deploy_common::manifest::{BinaryEntry, BuildTime, Manifest, UnitEntry};
use deploy_common::path::FsPath;
use deploy_common::project::ProjectConfig;
use deploy_common::request::DeployRequest;

const NOW: u64 = 1_757_000_000;
const BODY: &[u8] = b"bundle";
const SECRET: &[u8] = b"secret";
const BINARY: &[u8] = b"abc";
const BINARY_SHA: &str = "ba7816bf8f01cfea414140de5dae2223b00361a396177a9cb410ff61f20015ad";
const EMPTY_SHA: &str = "e3b0c44298fc1c149afbf4c8996fb92427ae41e4649b934ca495991b7852b855";
const RELEASE: &str = "/srv/apps/p/releases/2026-09-09T14-03-00Z_0123456789ab";

// What the machine that is deployed to is like, and what goes wrong on it.
struct World {
    now: Result<u64, String>,
    configured: bool,
    units: Vec<&'static str>,
    allowed: Vec<&'static str>,
    manifest_project: &'static str,
    git_sha: &'static str,
    month: u8,
    binary_paths: Vec<&'static str>,
    schema_version: u32,
    secret: Option<&'static [u8]>,
    previous: Option<&'static str>,
    units_changed: bool,
    exists: bool,
    binary: &'static [u8],
    moved_binary: &'static [u8],
    failing: Vec<&'static str>,
    signature: Option<String>,
    log: Vec<String>,
}

fn world() -> World {
    World {
        now: Ok(NOW),
        configured: true,
        units: vec!["a.service", "b.service"],
        allowed: vec!["a.service", "b.service", "c.service"],
        manifest_project: "p",
        git_sha: "0123456789abcdef",
        month: 9,
        binary_paths: vec!["bin/tool"],
        schema_version: 1,
        secret: Some(SECRET),
        previous: Some("releases/old"),
        units_changed: true,
        exists: false,
        binary: BINARY,
        moved_binary: BINARY,
        failing: Vec::new(),
        signature: None,
        log: Vec::new(),
    }
}

fn text(path: &FsPath) -> String {
    String::from_utf8(path.bytes.clone()).unwrap()
}

impl World {
    fn done(&mut self, what: String) -> Event {
        let failed = self.failing.iter().any(|f| what == *f);
        self.log.push(what.clone());
        if failed {
            Event::Done(Err(format!("{what} broke")))
        } else {
            Event::Done(Ok(()))
        }
    }

    fn fails(&self, what: &str) -> bool {
        self.failing.contains(&what)
    }

    fn answer(&mut self, step: Step) -> Result<Event, Response> {
        let event = match step {
            Step::ReadClock => Event::Clock(self.now.clone()),
            Step::LoadConfig(path) => {
                assert_eq!(text(&path), "/etc/deploy-agent/projects/p.toml");
                if self.fails("config") {
                    Event::Config(Lookup::Failed(String::from("no TOML")))
                } else if self.configured {
                    Event::Config(Lookup::Found(ProjectConfig {
                        install_dir: FsPath::from_text("/srv/apps/p"),
                        allowed_units: self.allowed.iter().map(|u| String::from(*u)).collect(),
                        retain_count: 4,
                        health_check: None,
                        secret_path: FsPath::from_text("/secrets/p.key"),
                    }))
                } else {
                    Event::Config(Lookup::Absent)
                }
            }
            Step::ReadSecret(path) => {
                assert_eq!(text(&path), "/secrets/p.key");
                if self.fails("secret") {
                    Event::Secret(Lookup::Failed(String::from("no permission")))
                } else {
                    match self.secret {
                        Some(secret) => Event::Secret(Lookup::Found(secret.to_vec())),
                        None => Event::Secret(Lookup::Absent),
                    }
                }
            }
            Step::Unpack => {
                self.log.push(String::from("unpack"));
                if self.fails("unpack") {
                    Event::Unpacked(Err(String::from("hostile")))
                } else {
                    Event::Unpacked(Ok(FsPath::from_text("/tmp/extracted")))
                }
            }
            Step::ReadManifest(path) => {
                assert_eq!(text(&path), "/tmp/extracted/manifest.toml");
                if self.fails("manifest") {
                    Event::Manifest(Err(String::from("no manifest")))
                } else {
                    Event::Manifest(Ok(self.manifest()))
                }
            }
            Step::ReadFile(path) => {
                self.log.push(format!("read {}", text(&path)));
                let path = text(&path);
                if self.fails(&path) {
                    Event::File(Err(format!("opening {path}")))
                } else if path.contains("/systemd/") {
                    Event::File(Ok(Vec::new()))
                } else if path.starts_with(RELEASE) {
                    Event::File(Ok(self.moved_binary.to_vec()))
                } else {
                    Event::File(Ok(self.binary.to_vec()))
                }
            }
            Step::SetMode { path, mode } => self.done(format!("mode {} {mode:o}", text(&path))),
            Step::Prepare { releases_dir, current_link } => {
                assert_eq!(text(&releases_dir), "/srv/apps/p/releases");
                assert_eq!(text(&current_link), "/srv/apps/p/current");
                if self.fails("prepare") {
                    Event::Prepared(Err(String::from("read-only")))
                } else {
                    Event::Prepared(Ok(self.previous.map(FsPath::from_text)))
                }
            }
            Step::Probe(path) => {
                assert_eq!(text(&path), RELEASE);
                Event::Probed(self.exists)
            }
            Step::Move { from, to } => {
                assert_eq!(text(&from), "/tmp/extracted");
                assert_eq!(text(&to), RELEASE);
                self.done(String::from("move"))
            }
            Step::SyncUnits { release_dir } => {
                assert_eq!(text(&release_dir), RELEASE);
                self.log.push(String::from("sync"));
                if self.fails("sync") {
                    Event::Synced(Err(String::from("disk full")))
                } else {
                    Event::Synced(Ok(self.units_changed))
                }
            }
            Step::Swap { app_root, release_dir } => {
                assert_eq!(text(&app_root), "/srv/apps/p");
                self.done(format!("swap {}", text(&release_dir)))
            }
            Step::Connect => self.done(String::from("connect")),
            Step::StopUnit(name) => self.done(format!("stop {name}")),
            Step::Reload => self.done(String::from("reload")),
            Step::StartUnit(name) => self.done(format!("start {name}")),
            Step::RestartUnit(name) => self.done(format!("restart {name}")),
            Step::Prune { app_root, retain_count } => {
                assert_eq!(text(&app_root), "/srv/apps/p");
                assert_eq!(retain_count, 4);
                self.done(String::from("prune"))
            }
            Step::Respond(response) => return Err(response),
        };
        Ok(event)
    }

    fn manifest(&self) -> Manifest {
        Manifest {
            schema_version: self.schema_version,
            project: String::from(self.manifest_project),
            git_sha: String::from(self.git_sha),
            built_at: BuildTime {
                year: 2026,
                month: self.month,
                day: 9,
                hour: 14,
                minute: 3,
                second: 0,
                nanosecond: 0,
                offset_seconds: 0,
            },
            build_meta: Vec::new(),
            binaries: self
                .binary_paths
                .iter()
                .map(|path| BinaryEntry {
                    path: String::from(*path),
                    sha256: String::from(BINARY_SHA),
                    mode: 0o750,
                })
                .collect(),
            units: self
                .units
                .iter()
                .map(|name| UnitEntry {
                    name: String::from(*name),
                    path: format!("systemd/{name}"),
                    sha256: String::from(EMPTY_SHA),
                })
                .collect(),
        }
    }

    fn run(&mut self) -> (u16, String, bool) {
        let signature_hex = match &self.signature {
            Some(signature) => signature.clone(),
            None => compute_signature(SECRET, NOW as i64, "p", BODY).unwrap(),
        };
        let request = DeployRequest {
            project: String::from("p"),
            timestamp: NOW as i64,
            signature_hex,
        };
        let mut deploy = Deploy::new(
            FsPath::from_text("/etc/deploy-agent"),
            String::from("deploy-agent.service"),
            request,
            BODY.to_vec(),
        );
        loop {
            match self.answer(deploy.step()) {
                Ok(event) => deploy = deploy.advance(event),
                Err(response) => {
                    return (response.status, response.body, response.restart);
                }
            }
        }
    }

    fn failure(&mut self) -> String {
        let (status, body, restart) = self.run();
        assert_eq!(status, 400);
        assert!(!restart);
        let rest = body.strip_prefix("deploy failed: ").unwrap();
        String::from(rest.strip_suffix("\n").unwrap())
    }
}

#[test]
fn a_deploy_goes_through() {
    let mut w = world();
    assert_eq!(
        w.run(),
        (
            200,
            String::from("deployed release 2026-09-09T14-03-00Z_0123456789ab\n"),
            false
        )
    );
    assert_eq!(
        w.log,
        [
            "unpack",
            "read /tmp/extracted/bin/tool",
            "read /tmp/extracted/systemd/a.service",
            "read /tmp/extracted/systemd/b.service",
            "mode /tmp/extracted/bin/tool 750",
            "move",
            &format!("read {RELEASE}/bin/tool"),
            &format!("read {RELEASE}/systemd/a.service"),
            &format!("read {RELEASE}/systemd/b.service"),
            "sync",
            &format!("swap {RELEASE}"),
            "connect",
            "stop a.service",
            "stop b.service",
            "reload",
            "start a.service",
            "start b.service",
            "prune",
        ]
    );
}

#[test]
fn unit_files_are_reloaded_only_where_one_changed() {
    let mut w = world();
    w.units_changed = false;
    assert_eq!(w.run().0, 200);
    assert!(!w.log.iter().any(|line| line == "reload"));
    assert!(w.log.ends_with(&[
        String::from("stop b.service"),
        String::from("start a.service"),
        String::from("start b.service"),
        String::from("prune"),
    ]));
}

#[test]
fn a_failed_prune_is_no_failure() {
    let mut w = world();
    w.failing = vec!["prune"];
    assert_eq!(w.run().0, 200);
}

#[test]
fn a_self_update_restarts_by_exiting() {
    let mut w = world();
    w.units = vec!["deploy-agent.service", "a.service"];
    w.allowed = vec!["deploy-agent.service", "a.service"];
    assert_eq!(
        w.run(),
        (
            200,
            String::from(
                "deployed self-update release 2026-09-09T14-03-00Z_0123456789ab; \
                 agent restarting...\n"
            ),
            true
        )
    );
    assert!(w.log.ends_with(&[
        String::from("connect"),
        String::from("stop a.service"),
        String::from("reload"),
        String::from("start a.service"),
    ]));
}

#[test]
fn unsigned_requests_touch_nothing() {
    let mut w = world();
    w.signature = Some(compute_signature(b"other", NOW as i64, "p", BODY).unwrap());
    assert_eq!(w.failure(), "signature verification failed");
    assert!(w.log.is_empty());
    let mut w = world();
    w.signature = Some(String::from("zz"));
    assert_eq!(w.failure(), "signature is not valid hex");
    assert!(w.log.is_empty());
}

#[test]
fn old_requests_are_refused() {
    let mut w = world();
    w.now = Ok(NOW + 301);
    assert_eq!(w.failure(), "timestamp outside replay window");
    let mut w = world();
    w.now = Ok(NOW - 301);
    assert_eq!(w.failure(), "timestamp outside replay window");
    let mut w = world();
    w.now = Ok(NOW + 300);
    assert_eq!(w.run().0, 200);
    let mut w = world();
    w.now = Err(String::from("the clock is off"));
    assert_eq!(w.failure(), "the clock is off");
}

#[test]
fn projects_have_to_be_configured() {
    let mut w = world();
    w.configured = false;
    assert_eq!(w.failure(), "Project p is not configured.");
    let mut w = world();
    w.failing = vec!["config"];
    assert_eq!(w.failure(), "no TOML");
    let mut w = world();
    w.secret = None;
    assert_eq!(w.failure(), "Secret for project p is not found.");
    let mut w = world();
    w.failing = vec!["secret"];
    assert_eq!(w.failure(), "no permission");
}

#[test]
fn bundles_have_to_be_in_order() {
    let mut w = world();
    w.failing = vec!["unpack"];
    assert_eq!(w.failure(), "hostile");
    let mut w = world();
    w.failing = vec!["manifest"];
    assert_eq!(w.failure(), "no manifest");
    let mut w = world();
    w.schema_version = 3;
    w.manifest_project = "q";
    assert_eq!(w.failure(), "unsupported manifest schema_version 3 (expected 1)");
    let mut w = world();
    w.manifest_project = "q";
    w.units = vec!["x.service"];
    assert_eq!(w.failure(), "manifest project mismatch");
    let mut w = world();
    w.units = vec!["a.service", "x.service", "y.service"];
    assert_eq!(
        w.failure(),
        "manifest unit x.service was not declared in the project"
    );
    assert_eq!(w.log, ["unpack"]);
}

#[test]
fn files_have_to_have_their_checksums() {
    let mut w = world();
    w.binary = b"";
    assert_eq!(
        w.failure(),
        format!(
            "checksum mismatch for /tmp/extracted/bin/tool: expected {BINARY_SHA}, got {EMPTY_SHA}"
        )
    );
    assert!(!w.log.iter().any(|line| line == "move"));
    let mut w = world();
    w.moved_binary = b"";
    assert_eq!(
        w.failure(),
        format!(
            "checksum mismatch for {RELEASE}/bin/tool: expected {BINARY_SHA}, got {EMPTY_SHA}"
        )
    );
    assert!(!w.log.iter().any(|line| line.starts_with("swap")));
    let mut w = world();
    w.failing = vec!["/tmp/extracted/systemd/b.service"];
    assert_eq!(w.failure(), "opening /tmp/extracted/systemd/b.service");
    let mut w = world();
    w.failing = vec!["mode /tmp/extracted/bin/tool 750"];
    assert_eq!(w.failure(), "mode /tmp/extracted/bin/tool 750 broke");
}

#[test]
fn what_fails_before_the_swap_ends_the_deploy() {
    let mut w = world();
    w.failing = vec!["prepare"];
    assert_eq!(w.failure(), "read-only");
    let mut w = world();
    w.exists = true;
    assert_eq!(w.failure(), format!("release dir {RELEASE} already exists"));
    let mut w = world();
    w.failing = vec!["move"];
    assert_eq!(w.failure(), "move broke");
    let mut w = world();
    w.failing = vec!["sync"];
    assert_eq!(w.failure(), "disk full");
    let mut w = world();
    w.failing = vec!["swap /srv/apps/p/releases/2026-09-09T14-03-00Z_0123456789ab"];
    assert_eq!(
        w.failure(),
        "swap /srv/apps/p/releases/2026-09-09T14-03-00Z_0123456789ab broke"
    );
}

#[test]
fn without_the_bus_the_previous_release_comes_back() {
    let mut w = world();
    w.failing = vec!["connect", "swap /srv/apps/p/releases/old"];
    assert_eq!(w.failure(), "connect broke");
    assert_eq!(w.log.last().unwrap(), "swap /srv/apps/p/releases/old");
    let mut w = world();
    w.failing = vec!["connect"];
    w.previous = None;
    assert_eq!(w.failure(), "connect broke");
    assert_eq!(w.log.last().unwrap(), "connect");
}

#[test]
fn a_unit_that_does_not_stop_is_rolled_back() {
    let mut w = world();
    w.failing = vec!["stop b.service"];
    assert_eq!(
        w.failure(),
        "unit 'b.service' failed to stop: stop b.service broke. Rollback successful."
    );
    assert!(w.log.ends_with(&[
        String::from("stop a.service"),
        String::from("stop b.service"),
        String::from("swap /srv/apps/p/releases/old"),
        String::from("restart a.service"),
        String::from("restart b.service"),
        String::from("restart c.service"),
    ]));
}

#[test]
fn a_reload_that_fails_is_rolled_back() {
    let mut w = world();
    w.failing = vec!["reload", "restart b.service"];
    assert_eq!(
        w.failure(),
        "daemon-reload failed: reload broke. ROLLBACK FAILED: restart b.service broke"
    );
    assert_eq!(w.log.last().unwrap(), "restart b.service");
}

#[test]
fn a_unit_that_does_not_start_is_rolled_back() {
    let mut w = world();
    w.failing = vec!["start a.service", "swap /srv/apps/p/releases/old"];
    assert_eq!(
        w.failure(),
        "unit 'a.service' failed to start: start a.service broke. \
         ROLLBACK FAILED: swap /srv/apps/p/releases/old broke"
    );
    let mut w = world();
    w.failing = vec!["start b.service"];
    w.previous = None;
    assert_eq!(
        w.failure(),
        "unit 'b.service' failed to start: start b.service broke. Rollback successful."
    );
    assert!(w.log.ends_with(&[
        String::from("start b.service"),
        String::from("restart a.service"),
        String::from("restart b.service"),
        String::from("restart c.service"),
    ]));
}

#[test]
fn events_out_of_turn_change_nothing() {
    let request = DeployRequest {
        project: String::from("p"),
        timestamp: 0,
        signature_hex: String::new(),
    };
    let deploy = Deploy::new(
        FsPath::from_text("/"),
        String::new(),
        request,
        Vec::new(),
    );
    let deploy = deploy.advance(Event::Done(Ok(())));
    assert!(matches!(deploy.step(), Step::ReadClock));
}

#[test]
fn manifests_that_cannot_name_a_release_are_refused() {
    let mut w = world();
    w.git_sha = "aéééééééé";
    assert_eq!(
        w.failure(),
        "manifest git_sha cannot be cut for the name of a release"
    );
    assert_eq!(w.log.last().unwrap(), "mode /tmp/extracted/bin/tool 750");
    let mut w = world();
    w.month = 13;
    w.git_sha = "aéééééééé";
    assert_eq!(w.failure(), "manifest built_at is out of range");
    let mut w = world();
    w.month = 13;
    w.units = vec!["x.service"];
    assert_eq!(
        w.failure(),
        "manifest unit x.service was not declared in the project"
    );
    let mut w = world();
    w.month = 13;
    w.failing = vec!["prepare"];
    assert_eq!(w.failure(), "read-only");
}

#[test]
fn a_wrong_checksum_is_told_before_a_name_that_cannot_be() {
    let mut w = world();
    w.git_sha = "aéééééééé";
    w.month = 13;
    w.binary = b"";
    assert_eq!(
        w.failure(),
        format!(
            "checksum mismatch for /tmp/extracted/bin/tool: expected {BINARY_SHA}, got {EMPTY_SHA}"
        )
    );
}

#[test]
fn modes_are_given_inside_the_bundle_only() {
    let mut w = world();
    w.binary_paths = vec!["/etc/hosts", "bin/tool", "bin/../x", "../../etc/hosts", "./y"];
    assert_eq!(w.run().0, 200);
    let modes: Vec<&String> = w.log.iter().filter(|line| line.starts_with("mode")).collect();
    assert_eq!(modes, ["mode /tmp/extracted/bin/tool 750", "mode /tmp/extracted/./y 750"]);
    let mut w = world();
    w.binary_paths = vec!["/etc/hosts"];
    assert_eq!(w.run().0, 200);
    assert!(!w.log.iter().any(|line| line.starts_with("mode")));
}

#[test]
fn a_rollback_goes_by_the_previous_release() {
    let mut w = world();
    let release = |previous: Option<&str>, manifest: Manifest| Release {
        config: ProjectConfig {
            install_dir: FsPath::from_text("/srv/apps/p"),
            allowed_units: vec![String::from("a.service")],
            retain_count: 4,
            health_check: None,
            secret_path: FsPath::from_text("/secrets/p.key"),
        },
        extract_dir: FsPath::from_text("/tmp/extracted"),
        manifest,
        previous: previous.map(FsPath::from_text),
    };
    let cause = || Cause::Reload { error: String::from("broken") };
    let manifest = w.manifest();
    assert!(matches!(
        rollback(release(Some("releases/old"), manifest), cause()),
        Phase::UndoSwap { .. }
    ));
    let manifest = w.manifest();
    assert!(matches!(
        rollback(release(None, manifest), cause()),
        Phase::UndoRestart { index: 0, .. }
    ));
    assert_eq!(w.run().0, 200);
}

#[test]
fn a_failure_is_answered() {
    let response = failure_response("missing required header: x-deploy-project");
    assert_eq!(response.status, 400);
    assert_eq!(
        response.body,
        "deploy failed: missing required header: x-deploy-project\n"
    );
    assert!(!response.restart);
}
