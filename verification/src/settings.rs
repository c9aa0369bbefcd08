//! What the programs take from their environment, and what they do without.

use vstd::prelude::*;
use vstd::string::*;
use vstd::utf8::*;

use crate::path::FsPath;

verus! {

/// Whether `root` is the directory with the projects' policies.
pub open spec fn is_config_root(
    given: Option<FsPath>,
    environment: Option<FsPath>,
    root: FsPath,
) -> bool {
    match (given, environment) {
        (Some(path), _) => root == path,
        (None, Some(path)) => root == path,
        (None, None) => root@ == encode_utf8("/etc/deploy-agent"@),
    }
}

/// Whether `name` is what is given in the environment, or `fallback`.
pub open spec fn is_name_or(
    environment: Option<String>,
    fallback: Seq<char>,
    name: String,
) -> bool {
    match environment {
        Some(given) => name == given,
        None => name@ == fallback,
    }
}

/// The command line comes before the environment, and the environment before
/// the default.
pub proof fn lemma_command_line_comes_first(
    given: Option<FsPath>,
    environment: Option<FsPath>,
    root: FsPath,
)
    requires
        is_config_root(given, environment, root),
    ensures
        given is Some ==> root@ == given->0@,
        given is None && environment is Some ==> root@ == environment->0@,
        given is None && environment is None ==> root@ == encode_utf8("/etc/deploy-agent"@),
{
}

/// The environment comes before a fallback, whatever it holds.
pub proof fn lemma_environment_comes_first(
    environment: Option<String>,
    fallback: Seq<char>,
    name: String,
)
    requires
        is_name_or(environment, fallback, name),
    ensures
        environment is Some ==> name@ == environment->0@,
        environment is None ==> name@ == fallback,
{
}

/// The directory with the projects' policies: as given on the command line, or
/// in the environment, or the default.
pub fn config_root(given: Option<FsPath>, environment: Option<FsPath>) -> (root: FsPath)
    ensures
        is_config_root(given, environment, root),
{
    match (given, environment) {
        (Some(path), _) => path,
        (None, Some(path)) => path,
        (None, None) => FsPath::from_text("/etc/deploy-agent"),
    }
}

/// The unit that the agent runs as.
pub fn own_unit_name(environment: Option<String>) -> (name: String)
    ensures
        is_name_or(environment, "deploy-agent.service"@, name),
{
    match environment {
        Some(given) => given,
        None => String::from_str("deploy-agent.service"),
    }
}

/// The project that the agent itself is deployed as.
pub fn own_project_name(environment: Option<String>) -> (name: String)
    ensures
        is_name_or(environment, "deploy-agent"@, name),
{
    match environment {
        Some(given) => given,
        None => String::from_str("deploy-agent"),
    }
}

} // verus!
