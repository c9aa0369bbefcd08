//! The policy that the machine holds for each project.

use vstd::prelude::*;

use crate::path::FsPath;

verus! {

/// What a deploy of a project may do, and where.
#[derive(Debug, Clone)]
pub struct ProjectConfig {
    /// The directory that holds the project's releases, such as
    /// /srv/apps/myproj.
    pub install_dir: FsPath,
    /// The systemd units that a deploy of this project may touch.
    pub allowed_units: Vec<String>,
    /// How many releases are kept.
    pub retain_count: usize,
    pub health_check: Option<HealthCheckConfig>,
    /// The file that holds the project's HMAC secret.
    pub secret_path: FsPath,
}

/// How to tell whether a project came up.
#[derive(Debug, Clone)]
pub struct HealthCheckConfig {
    pub url: String,
    pub timeout_secs: u64,
}

/// A project's policy file, where what has a default may be left out.
#[derive(Debug)]
pub struct ProjectFile {
    pub install_dir: FsPath,
    pub allowed_units: Option<Vec<String>>,
    pub retain_count: Option<usize>,
    pub health_check: Option<HealthCheckFile>,
    pub secret_path: FsPath,
}

/// The health check in a policy file.
#[derive(Debug)]
pub struct HealthCheckFile {
    pub url: String,
    pub timeout_secs: Option<u64>,
}

/// How many releases are kept where the policy does not say.
pub fn default_retain_count() -> (count: usize)
    ensures
        count == 5,
{
    5
}

/// How many seconds a health check may take where the policy does not say.
pub fn default_health_timeout() -> (seconds: u64)
    ensures
        seconds == 10,
{
    10
}

/// Whether `config` is the policy that a file states.
pub open spec fn is_policy(file: ProjectFile, config: ProjectConfig) -> bool {
    &&& config.install_dir == file.install_dir
    &&& config.secret_path == file.secret_path
    &&& match file.allowed_units {
        Some(units) => config.allowed_units == units,
        None => config.allowed_units@.len() == 0,
    }
    &&& config.retain_count == (match file.retain_count {
        Some(count) => count,
        None => 5,
    })
    &&& match file.health_check {
        Some(check) => {
            &&& config.health_check matches Some(c)
            &&& c.url == check.url
            &&& c.timeout_secs == (match check.timeout_secs {
                Some(seconds) => seconds,
                None => 10,
            })
        },
        None => config.health_check is None,
    }
}

/// What a policy file states is kept as it is, whatever it is. Where it leaves
/// something out, no unit may be touched, five releases are kept, and a health
/// check may take ten seconds.
pub proof fn lemma_policy_is_what_is_stated(file: ProjectFile, config: ProjectConfig)
    requires
        is_policy(file, config),
    ensures
        config.install_dir@ == file.install_dir@,
        config.secret_path@ == file.secret_path@,
        file.allowed_units is Some ==> config.allowed_units@ == file.allowed_units->0@,
        file.allowed_units is None ==> config.allowed_units@ == Seq::<String>::empty(),
        file.retain_count is Some ==> Some(config.retain_count) == file.retain_count,
        file.retain_count is None ==> config.retain_count == 5,
        config.health_check is Some <==> file.health_check is Some,
        file.health_check is Some ==> {
            let check = file.health_check->0;
            let kept = config.health_check->0;
            &&& kept.url@ == check.url@
            &&& check.timeout_secs is Some ==> Some(kept.timeout_secs) == check.timeout_secs
            &&& check.timeout_secs is None ==> kept.timeout_secs == 10
        },
{
}

impl ProjectConfig {
    /// The policy that a file states, with its defaults filled in.
    pub fn load(file: ProjectFile) -> (config: ProjectConfig)
        ensures
            is_policy(file, config),
    {
        let allowed_units: Vec<String> = match file.allowed_units {
            Some(units) => units,
            None => Vec::new(),
        };
        let retain_count: usize = match file.retain_count {
            Some(count) => count,
            None => default_retain_count(),
        };
        let health_check: Option<HealthCheckConfig> = match file.health_check {
            Some(check) => {
                let timeout_secs: u64 = match check.timeout_secs {
                    Some(seconds) => seconds,
                    None => default_health_timeout(),
                };
                Some(HealthCheckConfig { url: check.url, timeout_secs })
            },
            None => None,
        };
        ProjectConfig {
            install_dir: file.install_dir,
            allowed_units,
            retain_count,
            health_check,
            secret_path: file.secret_path,
        }
    }
}

} // verus!
