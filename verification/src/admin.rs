//! Onboarding a project: its policy, its secret and its directories.

use vstd::prelude::*;
use vstd::string::*;
use vstd::utf8::*;

use crate::deploy::{
    config_path, due, follows, project_config_path, Deploy, Event, Lookup, Phase, StepView,
};
use crate::external::{hex_encode, random_fill};
use crate::hexadecimal::{hex_bytes, hex_text, lemma_hex_reads_back};
use crate::path::{joined, FsPath};
use crate::project::{HealthCheckConfig, ProjectConfig};
use crate::release::{releases_path, ReleaseLayout};

verus! {

/// How many random bytes a secret is made of.
pub const SECRET_LEN: usize = 32;

/// The mode of the file that holds a secret.
pub const SECRET_MODE: u32 = 0o600;

/// What is to be done with the lines for the allow-list of polkit.
pub const POLKIT_HINT: &'static str = "\nAdd these units to the allowedUnits array in \
    /etc/polkit-1/rules.d/49-deploy-agent.rules (polkit picks up rule-file changes \
    automatically, no daemon-reload needed):\n\n";

/// What is asked for when a project is onboarded.
#[derive(Debug)]
pub struct OnboardRequest {
    pub project: String,
    /// The units that deploys of the project may touch.
    pub units: Vec<String>,
    pub install_dir: Option<FsPath>,
    pub retain_count: usize,
    pub health_check_url: Option<String>,
    pub health_check_timeout_secs: u64,
    /// The user and the group that the agent runs as.
    pub agent_user: String,
    pub agent_group: String,
}

/// What onboarding a project comes to.
#[derive(Debug)]
pub struct Onboarding {
    pub secrets_dir: FsPath,
    pub projects_dir: FsPath,
    /// The file for the secret.
    pub secret_path: FsPath,
    /// The file for the policy.
    pub project_toml_path: FsPath,
    pub config: ProjectConfig,
    pub releases_dir: FsPath,
    pub shared_dir: FsPath,
    /// Who is to own the directories and files.
    pub owner: String,
}

/// The directory that a project is installed in where none is given.
pub open spec fn default_install_dir(project: Seq<char>) -> Seq<u8> {
    encode_utf8("/srv/apps/"@ + project)
}

/// The path of the file for a project's secret.
pub open spec fn secret_file(config_root: Seq<u8>, project: Seq<char>) -> Seq<u8> {
    joined(joined(config_root, encode_utf8("secrets"@)), encode_utf8(project + ".key"@))
}

/// Whether `plan` is what onboarding a project comes to.
pub open spec fn is_onboarding(
    config_root: Seq<u8>,
    request: OnboardRequest,
    plan: Onboarding,
) -> bool {
    &&& plan.secrets_dir@ == joined(config_root, encode_utf8("secrets"@))
    &&& plan.projects_dir@ == joined(config_root, encode_utf8("projects"@))
    &&& plan.secret_path@ == secret_file(config_root, request.project@)
    &&& plan.project_toml_path@ == config_path(config_root, request.project@)
    &&& match request.install_dir {
        Some(dir) => plan.config.install_dir == dir,
        None => plan.config.install_dir@ == default_install_dir(request.project@),
    }
    &&& plan.config.allowed_units == request.units
    &&& plan.config.retain_count == request.retain_count
    &&& match request.health_check_url {
        Some(url) => plan.config.health_check == Some(
            HealthCheckConfig { url, timeout_secs: request.health_check_timeout_secs },
        ),
        None => plan.config.health_check is None,
    }
    &&& plan.config.secret_path@ == plan.secret_path@
    &&& plan.releases_dir@ == releases_path(plan.config.install_dir@)
    &&& plan.shared_dir@ == joined(plan.config.install_dir@, encode_utf8("shared"@))
    &&& plan.owner@ == request.agent_user@ + ":"@ + request.agent_group@
}

/// A project that was onboarded is found by its deploys: the policy is where
/// they load it from, the secret where they read it, and the directory of
/// releases where they make it, and they may touch the units that were given and
/// keep as many releases as were asked for.
pub proof fn lemma_onboarded_project_is_found(
    request: OnboardRequest,
    plan: Onboarding,
    before: Deploy,
    after: Deploy,
    placing: Deploy,
)
    requires
        is_onboarding(before.config_root@, request, plan),
        before.request.project@ == request.project@,
        before.phase is LoadConfig,
        follows(before, Event::Config(Lookup::Found(plan.config)), after),
        placing.phase is Prepare,
        placing.phase->Prepare_release.config == plan.config,
    ensures
        due(before) == StepView::LoadConfig(plan.project_toml_path@),
        due(after) == StepView::ReadSecret(plan.secret_path@),
        after.phase->ReadSecret_config.allowed_units == request.units,
        after.phase->ReadSecret_config.retain_count == request.retain_count,
        due(placing) is Prepare,
        due(placing)->releases_dir == plan.releases_dir@,
{
}

/// Policy and secret go by the name of the project, below the directory that is
/// given for policies. The project is installed where that was asked for, or by
/// its name below the directory for projects, and what it shares and its
/// releases are in there.
pub proof fn lemma_onboarding_goes_by_the_name(
    config_root: Seq<u8>,
    request: OnboardRequest,
    plan: Onboarding,
)
    requires
        is_onboarding(config_root, request, plan),
    ensures
        plan.secrets_dir@ == joined(config_root, encode_utf8("secrets"@)),
        plan.projects_dir@ == joined(config_root, encode_utf8("projects"@)),
        plan.secret_path@ == joined(plan.secrets_dir@, encode_utf8(request.project@ + ".key"@)),
        plan.project_toml_path@ == joined(
            plan.projects_dir@,
            encode_utf8(request.project@ + ".toml"@),
        ),
        plan.config.secret_path@ == plan.secret_path@,
        request.install_dir is Some ==> plan.config.install_dir@ == request.install_dir->0@,
        request.install_dir is None ==> plan.config.install_dir@ == encode_utf8(
            "/srv/apps/"@ + request.project@,
        ),
        plan.releases_dir@ == joined(plan.config.install_dir@, encode_utf8("releases"@)),
        plan.shared_dir@ == joined(plan.config.install_dir@, encode_utf8("shared"@)),
        request.health_check_url is None ==> plan.config.health_check is None,
        request.health_check_url is Some ==> {
            &&& plan.config.health_check is Some
            &&& plan.config.health_check->0.url@ == request.health_check_url->0@
            &&& plan.config.health_check->0.timeout_secs == request.health_check_timeout_secs
        },
        plan.owner@ == request.agent_user@ + ":"@ + request.agent_group@,
{
}

/// Works out what onboarding a project comes to, given the directory with the
/// projects' policies.
pub fn onboard(config_root: &FsPath, request: OnboardRequest) -> (plan: Onboarding)
    ensures
        is_onboarding(config_root@, request, plan),
{
    let project: &str = request.project.as_str();
    let secrets_dir: FsPath = config_root.join_text("secrets");
    let projects_dir: FsPath = config_root.join_text("projects");
    let secret_path: FsPath = secrets_dir.join_text(
        String::from_str(project).concat(".key").as_str(),
    );
    let project_toml_path: FsPath = project_config_path(config_root, project);
    let install_dir: FsPath = match request.install_dir {
        Some(dir) => dir,
        None => FsPath::from_text(String::from_str("/srv/apps/").concat(project).as_str()),
    };
    let health_check: Option<HealthCheckConfig> = match request.health_check_url {
        Some(url) => Some(
            HealthCheckConfig { url, timeout_secs: request.health_check_timeout_secs },
        ),
        None => None,
    };
    let layout: ReleaseLayout = ReleaseLayout::new(install_dir.duplicate());
    let owner: String = String::from_str(request.agent_user.as_str()).concat(":").concat(
        request.agent_group.as_str(),
    );
    Onboarding {
        secrets_dir,
        projects_dir,
        secret_path: secret_path.duplicate(),
        project_toml_path,
        config: ProjectConfig {
            install_dir,
            allowed_units: request.units,
            retain_count: request.retain_count,
            health_check,
            secret_path,
        },
        releases_dir: layout.releases_dir(),
        shared_dir: layout.shared_dir(),
        owner,
    }
}

/// Whether a secret is to be generated: one that is there is kept unless a new
/// one is asked for.
pub fn needs_secret(force: bool, exists: bool) -> (needed: bool)
    ensures
        needed == (force || !exists),
{
    force || !exists
}

/// The text of a secret made of `bytes`.
pub fn secret_text(bytes: &[u8]) -> (text: String)
    ensures
        text@ == hex_text(bytes@),
{
    hex_encode(bytes)
}

/// Whether `text` can be a secret.
pub open spec fn is_secret(text: Seq<char>) -> bool {
    exists|bytes: Seq<u8>| bytes.len() == 32 && text == #[trigger] hex_text(bytes)
}

/// A secret is sixty-four lower-case digits of hexadecimal, which read back as
/// the bytes that it was made of.
pub proof fn lemma_secret_is_hexadecimal(text: Seq<char>)
    requires
        is_secret(text),
    ensures
        text.len() == 64,
        forall|i: int|
            0 <= i < text.len() ==> '0' <= #[trigger] text[i] <= '9' || 'a' <= text[i] <= 'f',
        hex_bytes(text) is Some,
        hex_bytes(text)->0.len() == 32,
{
    let bytes = choose|bytes: Seq<u8>| bytes.len() == 32 && text == #[trigger] hex_text(bytes);
    lemma_hex_reads_back(bytes);
    assert forall|i: int| 0 <= i < text.len() implies '0' <= #[trigger] text[i] <= '9' || 'a'
        <= text[i] <= 'f' by {
        assert(0 <= bytes[i / 2] as int / 16 < 16);
    }
}

/// Generates a secret. Which one depends on chance.
pub fn generate_secret() -> (text: String)
    ensures
        is_secret(text@),
{
    let mut bytes: Vec<u8> = Vec::new();
    while bytes.len() < SECRET_LEN
        invariant
            bytes.len() <= SECRET_LEN,
        decreases SECRET_LEN - bytes.len(),
    {
        bytes.push(0);
    }
    random_fill(&mut bytes);
    secret_text(bytes.as_slice())
}

/// The lines for the allow-list of polkit, one for each unit.
pub open spec fn allow_list_lines(units: Seq<String>) -> Seq<char>
    decreases units.len(),
{
    if units.len() == 0 {
        ""@
    } else {
        allow_list_lines(units.drop_last()) + "    \""@ + units.last()@ + "\",\n"@
    }
}

/// What is shown about the allow-list of polkit, which is edited by hand.
pub open spec fn polkit_text(project: Seq<char>, units: Seq<String>) -> Seq<char> {
    if units.len() == 0 {
        "\nno units given — nothing to add to the polkit allow-list for '"@ + project + "'.\n"@
    } else {
        POLKIT_HINT@ + allow_list_lines(units)
    }
}

/// Every unit has a line for the allow-list, in the order of the units: a list
/// of one has its name in quotes, between four blanks and a comma, and the lines
/// of two lists together are those of the one and those of the other.
pub proof fn lemma_every_unit_has_a_line(units: Seq<String>, more: Seq<String>, unit: String)
    ensures
        allow_list_lines(seq![unit]) == "    \""@ + unit@ + "\",\n"@,
        allow_list_lines(units + more) == allow_list_lines(units) + allow_list_lines(more),
    decreases more.len(),
{
    reveal_strlit("");
    assert(seq![unit].drop_last() =~= Seq::<String>::empty());
    assert(""@ + "    \""@ =~= "    \""@);
    assert(allow_list_lines(Seq::<String>::empty()) =~= ""@);
    if more.len() == 0 {
        assert(units + more =~= units);
        assert(allow_list_lines(units) + ""@ =~= allow_list_lines(units));
    } else {
        lemma_every_unit_has_a_line(units, more.drop_last(), unit);
        assert((units + more).drop_last() =~= units + more.drop_last());
        assert((units + more).last() == more.last());
        let line = "    \""@ + more.last()@ + "\",\n"@;
        let first = allow_list_lines(units);
        let rest = allow_list_lines(more.drop_last());
        assert(allow_list_lines(units + more) =~= (first + rest) + line);
        assert(allow_list_lines(more) =~= rest + line);
        assert((first + rest) + line =~= first + (rest + line));
    }
}

/// What is shown is how to go about the lines, and then the lines, or that there
/// are none for the project.
pub proof fn lemma_lines_are_shown(project: Seq<char>, units: Seq<String>)
    ensures
        units.len() > 0 ==> polkit_text(project, units) == POLKIT_HINT@ + allow_list_lines(units),
        units.len() == 0 ==> polkit_text(project, units)
            == "\nno units given — nothing to add to the polkit allow-list for '"@ + project
            + "'.\n"@,
{
}

/// What is to be shown about the allow-list of polkit.
pub fn polkit_snippet(project: &str, units: &Vec<String>) -> (text: String)
    ensures
        text@ == polkit_text(project@, units@),
{
    if units.len() == 0 {
        return String::from_str(
            "\nno units given — nothing to add to the polkit allow-list for '",
        ).concat(project).concat("'.\n");
    }
    let mut lines: String = String::from_str("");
    let mut i: usize = 0;
    assert(lines@ == allow_list_lines(units@.take(0)));
    while i < units.len()
        invariant
            i <= units.len(),
            lines@ == allow_list_lines(units@.take(i as int)),
        decreases units.len() - i,
    {
        proof {
            assert(units@.take(i + 1).drop_last() =~= units@.take(i as int));
            assert(units@.take(i + 1).last() == units@[i as int]);
        }
        lines.append("    \"");
        lines.append(units[i].as_str());
        lines.append("\",\n");
        i = i + 1;
    }
    assert(units@.take(units@.len() as int) =~= units@);
    String::from_str(POLKIT_HINT).concat(lines.as_str())
}

} // verus!
