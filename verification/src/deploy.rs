//! A deploy, from the signed request to the answer: what is done next, and
//! what follows from how it went.

use vstd::prelude::*;
use vstd::string::*;
use vstd::utf8::*;

use crate::bundle::{
    file_matches, is_unsafe_path, leads_out, listed_count, listed_file, mismatch_text,
    read_manifest, schema_text, verify_listed,
};
use crate::external::{lossy_chars, lossy_text, sha256_digest, utf8_text};
use crate::hexadecimal::{hex_bytes, hex_text};
use crate::hmac::{is_signature, verify_signature, SignatureError};
use crate::manifest::{BinaryEntry, Manifest, UnitEntry};
use crate::path::{file_name, joined, FsPath};
use crate::project::ProjectConfig;
use crate::release::{can_cut_sha, release_path, releases_path, sha_can_be_cut, ReleaseLayout};
use crate::request::{check_timestamp, in_window, DeployRequest, RequestError};
use crate::text::{contains_name, has_name, text_equal};

verus! {

/// What became of looking for something that may not be there.
#[derive(Debug)]
pub enum Lookup<T> {
    Absent,
    Failed(String),
    Found(T),
}

/// A release on its way into place.
#[derive(Debug)]
pub struct Release {
    pub config: ProjectConfig,
    /// Where the bundle was unpacked.
    pub extract_dir: FsPath,
    pub manifest: Manifest,
    /// What the link to the current release held before, once it was read.
    pub previous: Option<FsPath>,
}

/// What made a deploy fail after the new release had become the current one.
#[derive(Debug)]
pub enum Cause {
    /// The unit at `index` in the manifest did not stop.
    Stop { index: usize, error: String },
    /// The unit files could not be reloaded.
    Reload { error: String },
    /// The unit at `index` in the manifest did not start.
    Start { index: usize, error: String },
}

/// How far a deploy has come.
#[derive(Debug)]
pub enum Phase {
    ReadClock,
    LoadConfig,
    ReadSecret { config: ProjectConfig },
    Unpack { config: ProjectConfig },
    ReadManifest { config: ProjectConfig, extract_dir: FsPath },
    CheckFile { release: Release, index: usize },
    SetMode { release: Release, index: usize },
    Prepare { release: Release },
    Probe { release: Release },
    Move { release: Release },
    Recheck { release: Release, index: usize },
    SyncUnits { release: Release },
    Swap { release: Release, changed: bool },
    Connect { release: Release, changed: bool },
    Stop { release: Release, changed: bool, index: usize },
    Reload { release: Release },
    Start { release: Release, index: usize },
    Prune { release: Release },
    /// The bus could not be reached, and the previous release is put back.
    UndoConnect { release: Release, error: String },
    /// The previous release is put back.
    UndoSwap { release: Release, cause: Cause },
    /// The unit at `index` among those that the project may touch is
    /// restarted.
    UndoRestart { release: Release, cause: Cause, index: usize },
    Deployed { release: Release },
    Failed(String),
}

/// A deploy that was asked for.
#[derive(Debug)]
pub struct Deploy {
    /// The directory with the projects' policies.
    pub config_root: FsPath,
    /// The unit that this program itself runs as.
    pub own_unit: String,
    pub request: DeployRequest,
    pub body: Vec<u8>,
    pub phase: Phase,
}

/// What is to be done next in a deploy.
#[derive(Debug)]
pub enum Step {
    /// Read the clock, in seconds since the Unix epoch.
    ReadClock,
    /// Load the project's policy.
    LoadConfig(FsPath),
    /// Read the project's secret.
    ReadSecret(FsPath),
    /// Unpack the body of the request into an empty directory.
    Unpack,
    /// Read the manifest.
    ReadManifest(FsPath),
    /// Read a file that the manifest lists.
    ReadFile(FsPath),
    /// Give a binary the mode that the manifest lists.
    SetMode { path: FsPath, mode: u32 },
    /// Make the directory of releases, and read the link to the current one.
    Prepare { releases_dir: FsPath, current_link: FsPath },
    /// Look whether the directory for the release is there already.
    Probe(FsPath),
    /// Move what was unpacked to the directory for the release.
    Move { from: FsPath, to: FsPath },
    /// Sync the unit files of the release.
    SyncUnits { release_dir: FsPath },
    /// Make a release the current one.
    Swap { app_root: FsPath, release_dir: FsPath },
    /// Connect to the system bus.
    Connect,
    StopUnit(String),
    /// Have the unit files reloaded.
    Reload,
    StartUnit(String),
    RestartUnit(String),
    /// Delete old releases.
    Prune { app_root: FsPath, retain_count: usize },
    /// Answer the request.
    Respond(Response),
}

/// The answer to a deploy request.
#[derive(Debug)]
pub struct Response {
    /// The status code of HTTP.
    pub status: u16,
    pub body: String,
    /// Whether the program is to exit, so that its new release is started.
    pub restart: bool,
}

/// How a step went.
#[derive(Debug)]
pub enum Event {
    Clock(Result<u64, String>),
    Config(Lookup<ProjectConfig>),
    Secret(Lookup<Vec<u8>>),
    /// The directory that the bundle was unpacked into.
    Unpacked(Result<FsPath, String>),
    Manifest(Result<Manifest, String>),
    File(Result<Vec<u8>, String>),
    /// What the link to the current release holds, if it is there.
    Prepared(Result<Option<FsPath>, String>),
    /// Whether the directory for the release is there already.
    Probed(bool),
    /// Whether a unit file was written.
    Synced(Result<bool, String>),
    Done(Result<(), String>),
}

/// What a [`Step`] stands for.
pub enum StepView {
    ReadClock,
    LoadConfig(Seq<u8>),
    ReadSecret(Seq<u8>),
    Unpack,
    ReadManifest(Seq<u8>),
    ReadFile(Seq<u8>),
    SetMode { path: Seq<u8>, mode: u32 },
    Prepare { releases_dir: Seq<u8>, current_link: Seq<u8> },
    Probe(Seq<u8>),
    Move { from: Seq<u8>, to: Seq<u8> },
    SyncUnits { release_dir: Seq<u8> },
    Swap { app_root: Seq<u8>, release_dir: Seq<u8> },
    Connect,
    StopUnit(Seq<char>),
    Reload,
    StartUnit(Seq<char>),
    RestartUnit(Seq<char>),
    Prune { app_root: Seq<u8>, retain_count: nat },
    Respond { status: u16, body: Seq<char>, restart: bool },
}

impl View for Step {
    type V = StepView;

    open spec fn view(&self) -> StepView {
        match self {
            Step::ReadClock => StepView::ReadClock,
            Step::LoadConfig(path) => StepView::LoadConfig(path@),
            Step::ReadSecret(path) => StepView::ReadSecret(path@),
            Step::Unpack => StepView::Unpack,
            Step::ReadManifest(path) => StepView::ReadManifest(path@),
            Step::ReadFile(path) => StepView::ReadFile(path@),
            Step::SetMode { path, mode } => StepView::SetMode { path: path@, mode: *mode },
            Step::Prepare { releases_dir, current_link } => StepView::Prepare {
                releases_dir: releases_dir@,
                current_link: current_link@,
            },
            Step::Probe(path) => StepView::Probe(path@),
            Step::Move { from, to } => StepView::Move { from: from@, to: to@ },
            Step::SyncUnits { release_dir } => StepView::SyncUnits { release_dir: release_dir@ },
            Step::Swap { app_root, release_dir } => StepView::Swap {
                app_root: app_root@,
                release_dir: release_dir@,
            },
            Step::Connect => StepView::Connect,
            Step::StopUnit(name) => StepView::StopUnit(name@),
            Step::Reload => StepView::Reload,
            Step::StartUnit(name) => StepView::StartUnit(name@),
            Step::RestartUnit(name) => StepView::RestartUnit(name@),
            Step::Prune { app_root, retain_count } => StepView::Prune {
                app_root: app_root@,
                retain_count: *retain_count as nat,
            },
            Step::Respond(response) => StepView::Respond {
                status: response.status,
                body: response.body@,
                restart: response.restart,
            },
        }
    }
}

/// What a deploy goes on with.
pub enum Reaction {
    Go(Phase),
    /// The deploy has failed, and this is told of it.
    Fail(Seq<char>),
}

/// Whether `phase` is what `reaction` says.
pub open spec fn is_reaction(phase: Phase, reaction: Reaction) -> bool {
    match reaction {
        Reaction::Go(p) => phase == p,
        Reaction::Fail(text) => phase is Failed && phase->Failed_0@ == text,
    }
}

/// Whether a unit is stopped and started in a deploy: not the one that this
/// program runs as, which is restarted when it exits.
pub open spec fn is_managed(unit: UnitEntry, own_unit: Seq<char>, allowed: Seq<String>) -> bool {
    unit.name@ != own_unit && has_name(allowed, unit.name@)
}

/// The first managed unit from `from` on, or the number of units.
pub open spec fn next_managed(
    units: Seq<UnitEntry>,
    own_unit: Seq<char>,
    allowed: Seq<String>,
    from: int,
) -> int
    decreases units.len() - from,
{
    if from >= units.len() {
        units.len() as int
    } else if is_managed(units[from], own_unit, allowed) {
        from
    } else {
        next_managed(units, own_unit, allowed, from + 1)
    }
}

/// The first unit from `from` on that a project may not touch, or the number
/// of units.
pub open spec fn first_undeclared(
    units: Seq<UnitEntry>,
    allowed: Seq<String>,
    from: int,
) -> int
    decreases units.len() - from,
{
    if from >= units.len() {
        units.len() as int
    } else if !has_name(allowed, units[from].name@) {
        from
    } else {
        first_undeclared(units, allowed, from + 1)
    }
}

/// Whether a unit is the one that this program runs as.
pub open spec fn has_own_unit(units: Seq<UnitEntry>, own_unit: Seq<char>) -> bool {
    exists|i: int| 0 <= i < units.len() && (#[trigger] units[i]).name@ == own_unit
}

/// Whether the path of a binary stays inside the bundle.
pub open spec fn has_inner_path(binary: BinaryEntry) -> bool {
    !is_unsafe_path(encode_utf8(binary.path@))
}

/// The first binary from `from` on whose path stays inside the bundle, or the
/// number of binaries.
pub open spec fn next_inner(binaries: Seq<BinaryEntry>, from: int) -> int
    decreases binaries.len() - from,
{
    if from >= binaries.len() {
        binaries.len() as int
    } else if has_inner_path(binaries[from]) {
        from
    } else {
        next_inner(binaries, from + 1)
    }
}

/// What is wrong with a manifest, told to whoever sent the bundle.
pub open spec fn manifest_fault(
    manifest: Manifest,
    config: ProjectConfig,
    project: Seq<char>,
) -> Option<Seq<char>> {
    let undeclared = first_undeclared(manifest.units@, config.allowed_units@, 0);
    if manifest.schema_version != 1 {
        Some(schema_text(manifest.schema_version))
    } else if manifest.project@ != project {
        Some("manifest project mismatch"@)
    } else if undeclared < manifest.units@.len() {
        Some(
            "manifest unit "@ + manifest.units@[undeclared].name@
                + " was not declared in the project"@,
        )
    } else if listed_count(manifest) > usize::MAX {
        Some("manifest lists too many files"@)
    } else {
        None
    }
}

/// Why no release can be named by a manifest, told to whoever sent the bundle.
pub open spec fn naming_fault(manifest: Manifest) -> Option<Seq<char>> {
    if !manifest.built_at.valid() {
        Some("manifest built_at is out of range"@)
    } else if !sha_can_be_cut(manifest.git_sha@) {
        Some("manifest git_sha cannot be cut for the name of a release"@)
    } else {
        None
    }
}

/// What is told of a failure before the rollback is.
pub open spec fn cause_text(release: Release, cause: Cause) -> Seq<char> {
    match cause {
        Cause::Stop { index, error } => "unit '"@ + release.manifest.units@[index as int].name@
            + "' failed to stop: "@ + error@,
        Cause::Reload { error } => "daemon-reload failed: "@ + error@,
        Cause::Start { index, error } => "unit '"@ + release.manifest.units@[index as int].name@
            + "' failed to start: "@ + error@,
    }
}

/// Going on with the files that the manifest lists, from `from` on.
pub open spec fn check_from(release: Release, from: int) -> Phase {
    if from < listed_count(release.manifest) {
        Phase::CheckFile { release, index: from as usize }
    } else {
        mode_from(release, 0)
    }
}

/// Going on with the modes of the binaries, from `from` on. A path that could
/// lead out of the bundle is passed over.
pub open spec fn mode_from(release: Release, from: int) -> Phase {
    let next = next_inner(release.manifest.binaries@, from);
    if next < release.manifest.binaries@.len() {
        Phase::SetMode { release, index: next as usize }
    } else {
        Phase::Prepare { release }
    }
}

/// Going on with checking the files where they have been moved to, from `from`
/// on.
pub open spec fn recheck_from(release: Release, from: int) -> Phase {
    if from < listed_count(release.manifest) {
        Phase::Recheck { release, index: from as usize }
    } else {
        Phase::SyncUnits { release }
    }
}

/// What is told of the `index`th file that a manifest lists, where it has
/// `content` below `dir`.
pub open spec fn file_fault(
    dir: Seq<u8>,
    manifest: Manifest,
    index: int,
    content: Seq<u8>,
) -> Seq<char> {
    let (path, expected) = listed_file(manifest, index);
    mismatch_text(joined(dir, encode_utf8(path)), expected, hex_text(sha256_digest(content)))
}

/// Going on with starting the managed units, from `from` on.
pub open spec fn start_from(release: Release, own_unit: Seq<char>, from: int) -> Phase {
    let units = release.manifest.units@;
    let next = next_managed(units, own_unit, release.config.allowed_units@, from);
    if next < units.len() {
        Phase::Start { release, index: next as usize }
    } else if has_own_unit(units, own_unit) {
        Phase::Deployed { release }
    } else {
        Phase::Prune { release }
    }
}

/// Going on with stopping the managed units, from `from` on.
pub open spec fn stop_from(
    release: Release,
    own_unit: Seq<char>,
    changed: bool,
    from: int,
) -> Phase {
    let units = release.manifest.units@;
    let next = next_managed(units, own_unit, release.config.allowed_units@, from);
    if next < units.len() {
        Phase::Stop { release, changed, index: next as usize }
    } else if changed {
        Phase::Reload { release }
    } else {
        start_from(release, own_unit, 0)
    }
}

/// Going on with restarting the units that the project may touch, from `from`
/// on.
pub open spec fn restart_from(release: Release, cause: Cause, from: int) -> Reaction {
    if from < release.config.allowed_units@.len() {
        Reaction::Go(Phase::UndoRestart { release, cause, index: from as usize })
    } else {
        Reaction::Fail(cause_text(release, cause) + ". Rollback successful."@)
    }
}

/// Rolling back to the previous release, if there was one.
pub open spec fn roll_back(release: Release, cause: Cause) -> Reaction {
    if release.previous is Some {
        Reaction::Go(Phase::UndoSwap { release, cause })
    } else {
        restart_from(release, cause, 0)
    }
}

/// What is told where the rollback failed too.
pub open spec fn rollback_failed(release: Release, cause: Cause, error: Seq<char>) -> Reaction {
    Reaction::Fail(cause_text(release, cause) + ". ROLLBACK FAILED: "@ + error)
}

/// The path of the directory that a release goes to.
pub open spec fn destination(release: Release) -> Seq<u8> {
    release_path(
        release.config.install_dir@,
        release.manifest.built_at,
        release.manifest.git_sha@,
    )
}

/// What a deploy goes on with, given how the step that was due went. An event
/// that does not belong to that step changes nothing.
pub open spec fn reaction(deploy: Deploy, event: Event) -> Reaction {
    let request = deploy.request;
    let own_unit = deploy.own_unit@;
    match (deploy.phase, event) {
        (Phase::ReadClock, Event::Clock(Ok(now))) => if in_window(
            request.timestamp as int,
            now as int,
        ) {
            Reaction::Go(Phase::LoadConfig)
        } else {
            Reaction::Fail(RequestError::OutsideWindow.text())
        },
        (Phase::ReadClock, Event::Clock(Err(error))) => Reaction::Fail(error@),
        (Phase::LoadConfig, Event::Config(Lookup::Absent)) => Reaction::Fail(
            "Project "@ + request.project@ + " is not configured."@,
        ),
        (Phase::LoadConfig, Event::Config(Lookup::Failed(error))) => Reaction::Fail(error@),
        (Phase::LoadConfig, Event::Config(Lookup::Found(config))) => Reaction::Go(
            Phase::ReadSecret { config },
        ),
        (Phase::ReadSecret { config }, Event::Secret(Lookup::Absent)) => Reaction::Fail(
            "Secret for project "@ + request.project@ + " is not found."@,
        ),
        (Phase::ReadSecret { config }, Event::Secret(Lookup::Failed(error))) => Reaction::Fail(
            error@,
        ),
        (Phase::ReadSecret { config }, Event::Secret(Lookup::Found(secret))) => if is_signature(
            secret@,
            request.timestamp as int,
            request.project@,
            deploy.body@,
            request.signature_hex@,
        ) {
            Reaction::Go(Phase::Unpack { config })
        } else if hex_bytes(request.signature_hex@) is None {
            Reaction::Fail(SignatureError::NotHex.text())
        } else {
            Reaction::Fail(SignatureError::Mismatch.text())
        },
        (Phase::Unpack { config }, Event::Unpacked(Ok(extract_dir))) => Reaction::Go(
            Phase::ReadManifest { config, extract_dir },
        ),
        (Phase::Unpack { config }, Event::Unpacked(Err(error))) => Reaction::Fail(error@),
        (Phase::ReadManifest { config, extract_dir }, Event::Manifest(Ok(manifest))) => {
            match manifest_fault(manifest, config, request.project@) {
                Some(fault) => Reaction::Fail(fault),
                None => Reaction::Go(
                    check_from(Release { config, extract_dir, manifest, previous: None }, 0),
                ),
            }
        },
        (Phase::ReadManifest { config, extract_dir }, Event::Manifest(Err(error))) => {
            Reaction::Fail(error@)
        },
        (Phase::CheckFile { release, index }, Event::File(Ok(content))) => if file_matches(
            release.manifest,
            index as int,
            content@,
        ) {
            Reaction::Go(check_from(release, index + 1))
        } else {
            Reaction::Fail(
                file_fault(release.extract_dir@, release.manifest, index as int, content@),
            )
        },
        (Phase::CheckFile { release, index }, Event::File(Err(error))) => Reaction::Fail(error@),
        (Phase::SetMode { release, index }, Event::Done(Ok(_))) => Reaction::Go(
            mode_from(release, index + 1),
        ),
        (Phase::SetMode { release, index }, Event::Done(Err(error))) => Reaction::Fail(error@),
        (Phase::Prepare { release }, Event::Prepared(Ok(previous))) => {
            match naming_fault(release.manifest) {
                Some(fault) => Reaction::Fail(fault),
                None => Reaction::Go(Phase::Probe { release: Release { previous, ..release } }),
            }
        },
        (Phase::Prepare { release }, Event::Prepared(Err(error))) => Reaction::Fail(error@),
        (Phase::Probe { release }, Event::Probed(found)) => if found {
            Reaction::Fail(
                "release dir "@ + lossy_chars(destination(release)) + " already exists"@,
            )
        } else {
            Reaction::Go(Phase::Move { release })
        },
        (Phase::Move { release }, Event::Done(Ok(_))) => Reaction::Go(recheck_from(release, 0)),
        (Phase::Move { release }, Event::Done(Err(error))) => Reaction::Fail(error@),
        (Phase::Recheck { release, index }, Event::File(Ok(content))) => if file_matches(
            release.manifest,
            index as int,
            content@,
        ) {
            Reaction::Go(recheck_from(release, index + 1))
        } else {
            Reaction::Fail(
                file_fault(destination(release), release.manifest, index as int, content@),
            )
        },
        (Phase::Recheck { release, index }, Event::File(Err(error))) => Reaction::Fail(error@),
        (Phase::SyncUnits { release }, Event::Synced(Ok(changed))) => Reaction::Go(
            Phase::Swap { release, changed },
        ),
        (Phase::SyncUnits { release }, Event::Synced(Err(error))) => Reaction::Fail(error@),
        (Phase::Swap { release, changed }, Event::Done(Ok(_))) => Reaction::Go(
            Phase::Connect { release, changed },
        ),
        (Phase::Swap { release, changed }, Event::Done(Err(error))) => Reaction::Fail(error@),
        (Phase::Connect { release, changed }, Event::Done(Ok(_))) => Reaction::Go(
            stop_from(release, own_unit, changed, 0),
        ),
        (Phase::Connect { release, changed }, Event::Done(Err(error))) => {
            if release.previous is Some {
                Reaction::Go(Phase::UndoConnect { release, error })
            } else {
                Reaction::Fail(error@)
            }
        },
        (Phase::Stop { release, changed, index }, Event::Done(Ok(_))) => Reaction::Go(
            stop_from(release, own_unit, changed, index + 1),
        ),
        (Phase::Stop { release, changed, index }, Event::Done(Err(error))) => roll_back(
            release,
            Cause::Stop { index, error },
        ),
        (Phase::Reload { release }, Event::Done(Ok(_))) => Reaction::Go(
            start_from(release, own_unit, 0),
        ),
        (Phase::Reload { release }, Event::Done(Err(error))) => roll_back(
            release,
            Cause::Reload { error },
        ),
        (Phase::Start { release, index }, Event::Done(Ok(_))) => Reaction::Go(
            start_from(release, own_unit, index + 1),
        ),
        (Phase::Start { release, index }, Event::Done(Err(error))) => roll_back(
            release,
            Cause::Start { index, error },
        ),
        (Phase::Prune { release }, Event::Done(_)) => Reaction::Go(Phase::Deployed { release }),
        (Phase::UndoConnect { release, error }, Event::Done(_)) => Reaction::Fail(error@),
        (Phase::UndoSwap { release, cause }, Event::Done(Ok(_))) => restart_from(
            release,
            cause,
            0,
        ),
        (Phase::UndoSwap { release, cause }, Event::Done(Err(error))) => rollback_failed(
            release,
            cause,
            error@,
        ),
        (Phase::UndoRestart { release, cause, index }, Event::Done(Ok(_))) => restart_from(
            release,
            cause,
            index + 1,
        ),
        (Phase::UndoRestart { release, cause, index }, Event::Done(Err(error))) => {
            rollback_failed(release, cause, error@)
        },
        (phase, _) => Reaction::Go(phase),
    }
}

/// Whether the manifest of a release has been found to be that of a bundle for
/// `project`, which touches only units that the project may touch.
pub open spec fn is_checked(release: Release, project: Seq<char>) -> bool {
    manifest_fault(release.manifest, release.config, project) is None
}

/// Whether a release has been checked and its directory can be named.
pub open spec fn is_placeable(release: Release, project: Seq<char>) -> bool {
    is_checked(release, project) && naming_fault(release.manifest) is None
}

/// Whether `index` is that of a binary of a release whose path stays inside the
/// bundle.
pub open spec fn is_inner_index(release: Release, index: int) -> bool {
    &&& 0 <= index < release.manifest.binaries@.len()
    &&& has_inner_path(release.manifest.binaries@[index])
}

/// Whether `index` is that of a managed unit of a release.
pub open spec fn is_managed_index(release: Release, own_unit: Seq<char>, index: int) -> bool {
    &&& 0 <= index < release.manifest.units@.len()
    &&& is_managed(release.manifest.units@[index], own_unit, release.config.allowed_units@)
}

/// Whether a cause speaks of a unit of the release.
pub open spec fn is_cause(release: Release, cause: Cause) -> bool {
    match cause {
        Cause::Stop { index, error } => index < release.manifest.units@.len(),
        Cause::Reload { error } => true,
        Cause::Start { index, error } => index < release.manifest.units@.len(),
    }
}

impl Deploy {
    /// What holds of a deploy at any time.
    pub open spec fn wf(&self) -> bool {
        let project = self.request.project@;
        let own_unit = self.own_unit@;
        match self.phase {
            Phase::ReadClock => true,
            Phase::LoadConfig => true,
            Phase::ReadSecret { config } => true,
            Phase::Unpack { config } => true,
            Phase::ReadManifest { config, extract_dir } => true,
            Phase::CheckFile { release, index } => {
                is_checked(release, project) && index < listed_count(release.manifest)
            },
            Phase::SetMode { release, index } => {
                is_checked(release, project) && is_inner_index(release, index as int)
            },
            Phase::Prepare { release } => is_checked(release, project),
            Phase::Probe { release } => is_placeable(release, project),
            Phase::Move { release } => is_placeable(release, project),
            Phase::Recheck { release, index } => {
                is_placeable(release, project) && index < listed_count(release.manifest)
            },
            Phase::SyncUnits { release } => is_placeable(release, project),
            Phase::Swap { release, changed } => is_placeable(release, project),
            Phase::Connect { release, changed } => is_placeable(release, project),
            Phase::Stop { release, changed, index } => {
                is_placeable(release, project) && is_managed_index(release, own_unit, index as int)
            },
            Phase::Reload { release } => is_placeable(release, project),
            Phase::Start { release, index } => {
                is_placeable(release, project) && is_managed_index(release, own_unit, index as int)
            },
            Phase::Prune { release } => is_placeable(release, project),
            Phase::UndoConnect { release, error } => {
                is_placeable(release, project) && release.previous is Some
            },
            Phase::UndoSwap { release, cause } => {
                &&& is_placeable(release, project)
                &&& release.previous is Some
                &&& is_cause(release, cause)
            },
            Phase::UndoRestart { release, cause, index } => {
                &&& is_placeable(release, project)
                &&& is_cause(release, cause)
                &&& index < release.config.allowed_units@.len()
            },
            Phase::Deployed { release } => is_placeable(release, project),
            Phase::Failed(message) => true,
        }
    }
}

/// Whether `deploy` is that of a request, of which nothing has been done.
pub open spec fn is_start(
    config_root: FsPath,
    own_unit: String,
    request: DeployRequest,
    body: Vec<u8>,
    deploy: Deploy,
) -> bool {
    deploy == (Deploy { config_root, own_unit, request, body, phase: Phase::ReadClock })
}

/// Whether `after` is what `before` becomes by `event`.
pub open spec fn follows(before: Deploy, event: Event, after: Deploy) -> bool {
    &&& after.config_root == before.config_root
    &&& after.own_unit == before.own_unit
    &&& after.request == before.request
    &&& after.body == before.body
    &&& is_reaction(after.phase, reaction(before, event))
}

/// The path of a project's policy.
pub open spec fn config_path(config_root: Seq<u8>, project: Seq<char>) -> Seq<u8> {
    joined(joined(config_root, encode_utf8("projects"@)), encode_utf8(project + ".toml"@))
}

/// The text by which a release is known: the name of its directory.
pub open spec fn release_id(release: Release) -> Seq<char> {
    match file_name(destination(release)) {
        Some(name) => if valid_utf8(name) {
            decode_utf8(name)
        } else {
            "unknown"@
        },
        None => "unknown"@,
    }
}

/// The answer to a deploy that has failed.
pub open spec fn failure_view(message: Seq<char>) -> StepView {
    StepView::Respond {
        status: 400,
        body: "deploy failed: "@ + message + "\n"@,
        restart: false,
    }
}

/// The answer to a deploy that has succeeded.
pub open spec fn success_view(release: Release, own_unit: Seq<char>) -> StepView {
    if has_own_unit(release.manifest.units@, own_unit) {
        StepView::Respond {
            status: 200,
            body: "deployed self-update release "@ + release_id(release)
                + "; agent restarting...\n"@,
            restart: true,
        }
    } else {
        StepView::Respond {
            status: 200,
            body: "deployed release "@ + release_id(release) + "\n"@,
            restart: false,
        }
    }
}

/// The step that is due.
pub open spec fn due(deploy: Deploy) -> StepView {
    match deploy.phase {
        Phase::ReadClock => StepView::ReadClock,
        Phase::LoadConfig => StepView::LoadConfig(
            config_path(deploy.config_root@, deploy.request.project@),
        ),
        Phase::ReadSecret { config } => StepView::ReadSecret(config.secret_path@),
        Phase::Unpack { config } => StepView::Unpack,
        Phase::ReadManifest { config, extract_dir } => StepView::ReadManifest(
            joined(extract_dir@, encode_utf8("manifest.toml"@)),
        ),
        Phase::CheckFile { release, index } => StepView::ReadFile(
            joined(
                release.extract_dir@,
                encode_utf8(listed_file(release.manifest, index as int).0),
            ),
        ),
        Phase::SetMode { release, index } => StepView::SetMode {
            path: joined(
                release.extract_dir@,
                encode_utf8(release.manifest.binaries@[index as int].path@),
            ),
            mode: release.manifest.binaries@[index as int].mode,
        },
        Phase::Prepare { release } => StepView::Prepare {
            releases_dir: releases_path(release.config.install_dir@),
            current_link: joined(release.config.install_dir@, encode_utf8("current"@)),
        },
        Phase::Probe { release } => StepView::Probe(destination(release)),
        Phase::Move { release } => StepView::Move {
            from: release.extract_dir@,
            to: destination(release),
        },
        Phase::Recheck { release, index } => StepView::ReadFile(
            joined(
                destination(release),
                encode_utf8(listed_file(release.manifest, index as int).0),
            ),
        ),
        Phase::SyncUnits { release } => StepView::SyncUnits { release_dir: destination(release) },
        Phase::Swap { release, changed } => StepView::Swap {
            app_root: release.config.install_dir@,
            release_dir: destination(release),
        },
        Phase::Connect { release, changed } => StepView::Connect,
        Phase::Stop { release, changed, index } => StepView::StopUnit(
            release.manifest.units@[index as int].name@,
        ),
        Phase::Reload { release } => StepView::Reload,
        Phase::Start { release, index } => StepView::StartUnit(
            release.manifest.units@[index as int].name@,
        ),
        Phase::Prune { release } => StepView::Prune {
            app_root: release.config.install_dir@,
            retain_count: release.config.retain_count as nat,
        },
        Phase::UndoConnect { release, error } => undo_view(release),
        Phase::UndoSwap { release, cause } => undo_view(release),
        Phase::UndoRestart { release, cause, index } => StepView::RestartUnit(
            release.config.allowed_units@[index as int]@,
        ),
        Phase::Deployed { release } => success_view(release, deploy.own_unit@),
        Phase::Failed(message) => failure_view(message@),
    }
}

/// The step that makes the previous release the current one again.
pub open spec fn undo_view(release: Release) -> StepView {
    StepView::Swap {
        app_root: release.config.install_dir@,
        release_dir: joined(release.config.install_dir@, release.previous->0@),
    }
}

/// The first managed unit is managed, and none before it is.
pub proof fn lemma_next_managed(
    units: Seq<UnitEntry>,
    own_unit: Seq<char>,
    allowed: Seq<String>,
    from: int,
)
    requires
        0 <= from <= units.len(),
    ensures
        from <= next_managed(units, own_unit, allowed, from) <= units.len(),
        next_managed(units, own_unit, allowed, from) < units.len() ==> is_managed(
            units[next_managed(units, own_unit, allowed, from)],
            own_unit,
            allowed,
        ),
        forall|k: int|
            from <= k < next_managed(units, own_unit, allowed, from) ==> !is_managed(
                #[trigger] units[k],
                own_unit,
                allowed,
            ),
    decreases units.len() - from,
{
    if from < units.len() && !is_managed(units[from], own_unit, allowed) {
        lemma_next_managed(units, own_unit, allowed, from + 1);
    }
}

/// The first binary whose path stays inside is such a one, and none before it
/// is.
pub proof fn lemma_next_inner(binaries: Seq<BinaryEntry>, from: int)
    requires
        0 <= from <= binaries.len(),
    ensures
        from <= next_inner(binaries, from) <= binaries.len(),
        next_inner(binaries, from) < binaries.len() ==> has_inner_path(
            binaries[next_inner(binaries, from)],
        ),
        forall|k: int|
            from <= k < next_inner(binaries, from) ==> !has_inner_path(#[trigger] binaries[k]),
    decreases binaries.len() - from,
{
    if from < binaries.len() && !has_inner_path(binaries[from]) {
        lemma_next_inner(binaries, from + 1);
    }
}

/// What holds of a deploy goes on to hold.
pub proof fn lemma_advance_keeps_wf(before: Deploy, event: Event, after: Deploy)
    requires
        before.wf(),
        follows(before, event, after),
    ensures
        after.wf(),
{
    let own_unit = before.own_unit@;
    match before.phase {
        Phase::CheckFile { release, index } => {
            lemma_next_inner(release.manifest.binaries@, 0);
        },
        Phase::SetMode { release, index } => {
            lemma_next_inner(release.manifest.binaries@, index + 1);
        },
        Phase::Connect { release, changed } => {
            lemma_next_managed(
                release.manifest.units@,
                own_unit,
                release.config.allowed_units@,
                0,
            );
        },
        Phase::Stop { release, changed, index } => {
            lemma_next_managed(
                release.manifest.units@,
                own_unit,
                release.config.allowed_units@,
                index + 1,
            );
            lemma_next_managed(
                release.manifest.units@,
                own_unit,
                release.config.allowed_units@,
                0,
            );
        },
        Phase::Reload { release } => {
            lemma_next_managed(
                release.manifest.units@,
                own_unit,
                release.config.allowed_units@,
                0,
            );
        },
        Phase::Start { release, index } => {
            lemma_next_managed(
                release.manifest.units@,
                own_unit,
                release.config.allowed_units@,
                index + 1,
            );
        },
        _ => {},
    }
}

/// The first managed unit from `from` on, or the number of units.
fn find_managed(release: &Release, own_unit: &str, from: usize) -> (index: usize)
    requires
        from <= release.manifest.units@.len(),
    ensures
        index == next_managed(
            release.manifest.units@,
            own_unit@,
            release.config.allowed_units@,
            from as int,
        ),
        index <= release.manifest.units@.len(),
        index < release.manifest.units@.len() ==> is_managed_index(
            *release,
            own_unit@,
            index as int,
        ),
{
    let mut index: usize = from;
    while index < release.manifest.units.len()
        invariant
            index <= release.manifest.units@.len(),
            next_managed(
                release.manifest.units@,
                own_unit@,
                release.config.allowed_units@,
                from as int,
            ) == next_managed(
                release.manifest.units@,
                own_unit@,
                release.config.allowed_units@,
                index as int,
            ),
        decreases release.manifest.units@.len() - index,
    {
        let unit: &UnitEntry = &release.manifest.units[index];
        if !text_equal(unit.name.as_str(), own_unit) && contains_name(
            &release.config.allowed_units,
            unit.name.as_str(),
        ) {
            return index;
        }
        index = index + 1;
    }
    index
}

/// Whether a release brings a new version of this program itself.
fn is_self_update(release: &Release, own_unit: &str) -> (found: bool)
    ensures
        found == has_own_unit(release.manifest.units@, own_unit@),
{
    let mut i: usize = 0;
    while i < release.manifest.units.len()
        invariant
            i <= release.manifest.units@.len(),
            forall|j: int|
                0 <= j < i ==> (#[trigger] release.manifest.units@[j]).name@ != own_unit@,
        decreases release.manifest.units@.len() - i,
    {
        if text_equal(release.manifest.units[i].name.as_str(), own_unit) {
            return true;
        }
        i = i + 1;
    }
    false
}

/// The first unit that the project may not touch, or the number of units.
fn find_undeclared(units: &Vec<UnitEntry>, allowed: &Vec<String>) -> (index: usize)
    ensures
        index == first_undeclared(units@, allowed@, 0),
        index <= units@.len(),
{
    let mut index: usize = 0;
    while index < units.len()
        invariant
            index <= units@.len(),
            first_undeclared(units@, allowed@, 0) == first_undeclared(
                units@,
                allowed@,
                index as int,
            ),
        decreases units@.len() - index,
    {
        if !contains_name(allowed, units[index].name.as_str()) {
            return index;
        }
        index = index + 1;
    }
    index
}

/// Goes on with the files that the manifest lists.
fn check_next(release: Release, from: usize) -> (phase: Phase)
    requires
        listed_count(release.manifest) <= usize::MAX,
    ensures
        phase == check_from(release, from as int),
{
    if from < release.manifest.binaries.len() + release.manifest.units.len() {
        Phase::CheckFile { release, index: from }
    } else {
        mode_next(release, 0)
    }
}

/// The first binary from `from` on whose path stays inside the bundle, or the
/// number of binaries.
fn find_inner(binaries: &Vec<BinaryEntry>, from: usize) -> (index: usize)
    requires
        from <= binaries@.len(),
    ensures
        index == next_inner(binaries@, from as int),
        index <= binaries@.len(),
{
    let mut index: usize = from;
    while index < binaries.len()
        invariant
            index <= binaries@.len(),
            next_inner(binaries@, from as int) == next_inner(binaries@, index as int),
        decreases binaries@.len() - index,
    {
        if !leads_out(&FsPath::from_text(binaries[index].path.as_str())) {
            return index;
        }
        index = index + 1;
    }
    index
}

/// Goes on with the modes of the binaries.
fn mode_next(release: Release, from: usize) -> (phase: Phase)
    requires
        from <= release.manifest.binaries@.len(),
    ensures
        phase == mode_from(release, from as int),
{
    let index: usize = find_inner(&release.manifest.binaries, from);
    if index < release.manifest.binaries.len() {
        Phase::SetMode { release, index }
    } else {
        Phase::Prepare { release }
    }
}

/// Goes on with checking the files where they have been moved to.
fn recheck_next(release: Release, from: usize) -> (phase: Phase)
    requires
        listed_count(release.manifest) <= usize::MAX,
    ensures
        phase == recheck_from(release, from as int),
{
    if from < release.manifest.binaries.len() + release.manifest.units.len() {
        Phase::Recheck { release, index: from }
    } else {
        Phase::SyncUnits { release }
    }
}

/// Goes on with starting the managed units.
fn start_next(release: Release, own_unit: &str, from: usize) -> (phase: Phase)
    requires
        from <= release.manifest.units@.len(),
    ensures
        phase == start_from(release, own_unit@, from as int),
{
    let index: usize = find_managed(&release, own_unit, from);
    if index < release.manifest.units.len() {
        Phase::Start { release, index }
    } else if is_self_update(&release, own_unit) {
        Phase::Deployed { release }
    } else {
        Phase::Prune { release }
    }
}

/// Goes on with stopping the managed units.
fn stop_next(release: Release, own_unit: &str, changed: bool, from: usize) -> (phase: Phase)
    requires
        from <= release.manifest.units@.len(),
    ensures
        phase == stop_from(release, own_unit@, changed, from as int),
{
    let index: usize = find_managed(&release, own_unit, from);
    if index < release.manifest.units.len() {
        Phase::Stop { release, changed, index }
    } else if changed {
        Phase::Reload { release }
    } else {
        start_next(release, own_unit, 0)
    }
}

/// Tells what made a deploy fail.
fn cause_message(release: &Release, cause: &Cause) -> (message: String)
    requires
        is_cause(*release, *cause),
    ensures
        message@ == cause_text(*release, *cause),
{
    match cause {
        Cause::Stop { index, error } => String::from_str("unit '").concat(
            release.manifest.units[*index].name.as_str(),
        ).concat("' failed to stop: ").concat(error.as_str()),
        Cause::Reload { error } => String::from_str("daemon-reload failed: ").concat(
            error.as_str(),
        ),
        Cause::Start { index, error } => String::from_str("unit '").concat(
            release.manifest.units[*index].name.as_str(),
        ).concat("' failed to start: ").concat(error.as_str()),
    }
}

/// Goes on with restarting the units that the project may touch.
fn restart_next(release: Release, cause: Cause, from: usize) -> (phase:
    Phase)
    requires
        is_cause(release, cause),
    ensures
        is_reaction(phase, restart_from(release, cause, from as int)),
{
    if from < release.config.allowed_units.len() {
        Phase::UndoRestart { release, cause, index: from }
    } else {
        Phase::Failed(cause_message(&release, &cause).concat(". Rollback successful."))
    }
}

/// Puts the previous release back, if there was one, by the link that leads to
/// it, and goes on with restarting units otherwise.
pub fn rollback(release: Release, cause: Cause) -> (phase: Phase)
    requires
        is_cause(release, cause),
    ensures
        is_reaction(phase, roll_back(release, cause)),
{
    if release.previous.is_some() {
        Phase::UndoSwap { release, cause }
    } else {
        restart_next(release, cause, 0)
    }
}

/// Gives up on a rollback.
fn give_up(release: &Release, cause: &Cause, error: &str) -> (phase:
    Phase)
    requires
        is_cause(*release, *cause),
    ensures
        is_reaction(phase, rollback_failed(*release, *cause, error@)),
{
    Phase::Failed(cause_message(release, cause).concat(". ROLLBACK FAILED: ").concat(error))
}

/// Checks the manifest of a bundle, and goes on with the files it lists.
fn manifest_read(config: ProjectConfig, extract_dir: FsPath, manifest: Manifest, project: &str) -> (
    phase: Phase)
    ensures
        match manifest_fault(manifest, config, project@) {
            Some(fault) => is_reaction(phase, Reaction::Fail(fault)),
            None => phase == check_from(
                Release { config, extract_dir, manifest, previous: None },
                0,
            ),
        },
{
    let manifest: Manifest = match read_manifest(manifest) {
        Ok(m) => m,
        Err(e) => {
            return Phase::Failed(e.message().unwrap());
        },
    };
    if !text_equal(manifest.project.as_str(), project) {
        return Phase::Failed(String::from_str("manifest project mismatch"));
    }
    let undeclared: usize = find_undeclared(&manifest.units, &config.allowed_units);
    if undeclared < manifest.units.len() {
        return Phase::Failed(
            String::from_str("manifest unit ").concat(
                manifest.units[undeclared].name.as_str(),
            ).concat(" was not declared in the project"),
        );
    }
    let count: u128 = manifest.binaries.len() as u128 + manifest.units.len() as u128;
    if count > usize::MAX as u128 {
        return Phase::Failed(String::from_str("manifest lists too many files"));
    }
    check_next(Release { config, extract_dir, manifest, previous: None }, 0)
}

/// Goes on with looking whether the directory for the release is there, where
/// it can be named.
fn probe_next(release: Release, previous: Option<FsPath>) -> (phase: Phase)
    ensures
        match naming_fault(release.manifest) {
            Some(fault) => is_reaction(phase, Reaction::Fail(fault)),
            None => phase == (Phase::Probe { release: Release { previous, ..release } }),
        },
{
    if !release.manifest.built_at.is_valid() {
        return Phase::Failed(String::from_str("manifest built_at is out of range"));
    }
    if !can_cut_sha(release.manifest.git_sha.as_str()) {
        return Phase::Failed(
            String::from_str("manifest git_sha cannot be cut for the name of a release"),
        );
    }
    Phase::Probe { release: Release { previous, ..release } }
}

/// The directory that a release goes to.
fn release_dir(release: &Release) -> (path: FsPath)
    requires
        release.manifest.built_at.valid(),
        sha_can_be_cut(release.manifest.git_sha@),
    ensures
        path@ == destination(*release),
{
    ReleaseLayout::new(release.config.install_dir.duplicate()).new_release_path(
        &release.manifest.built_at,
        release.manifest.git_sha.as_str(),
    )
}

impl Deploy {
    /// Starts a deploy.
    pub fn new(
        config_root: FsPath,
        own_unit: String,
        request: DeployRequest,
        body: Vec<u8>,
    ) -> (deploy: Deploy)
        ensures
            deploy.wf(),
            is_start(config_root, own_unit, request, body, deploy),
    {
        Deploy { config_root, own_unit, request, body, phase: Phase::ReadClock }
    }

    /// Goes on from how the step that was due went.
    pub fn advance(self, event: Event) -> (after: Deploy)
        requires
            self.wf(),
        ensures
            after.wf(),
            follows(self, event, after),
    {
        let Deploy { config_root, own_unit, request, body, phase } = self;
        let phase: Phase = match (phase, event) {
            (Phase::ReadClock, Event::Clock(Ok(now))) => match check_timestamp(
                request.timestamp,
                now,
            ) {
                Ok(_) => Phase::LoadConfig,
                Err(e) => Phase::Failed(e.message()),
            },
            (Phase::ReadClock, Event::Clock(Err(error))) => Phase::Failed(error),
            (Phase::LoadConfig, Event::Config(Lookup::Absent)) => Phase::Failed(
                String::from_str("Project ").concat(request.project.as_str()).concat(
                    " is not configured.",
                ),
            ),
            (Phase::LoadConfig, Event::Config(Lookup::Failed(error))) => Phase::Failed(error),
            (Phase::LoadConfig, Event::Config(Lookup::Found(config))) => Phase::ReadSecret {
                config,
            },
            (Phase::ReadSecret { config }, Event::Secret(Lookup::Absent)) => Phase::Failed(
                String::from_str("Secret for project ").concat(request.project.as_str()).concat(
                    " is not found.",
                ),
            ),
            (Phase::ReadSecret { config }, Event::Secret(Lookup::Failed(error))) => Phase::Failed(
                error,
            ),
            (Phase::ReadSecret { config }, Event::Secret(Lookup::Found(secret))) => {
                match verify_signature(
                    secret.as_slice(),
                    request.timestamp,
                    request.project.as_str(),
                    body.as_slice(),
                    request.signature_hex.as_str(),
                ) {
                    Ok(_) => Phase::Unpack { config },
                    Err(e) => Phase::Failed(e.message()),
                }
            },
            (Phase::Unpack { config }, Event::Unpacked(Ok(extract_dir))) => Phase::ReadManifest {
                config,
                extract_dir,
            },
            (Phase::Unpack { config }, Event::Unpacked(Err(error))) => Phase::Failed(error),
            (Phase::ReadManifest { config, extract_dir }, Event::Manifest(Ok(manifest))) => {
                manifest_read(config, extract_dir, manifest, request.project.as_str())
            },
            (Phase::ReadManifest { config, extract_dir }, Event::Manifest(Err(error))) => {
                Phase::Failed(error)
            },
            (Phase::CheckFile { release, index }, Event::File(Ok(content))) => {
                match verify_listed(
                    &release.extract_dir,
                    &release.manifest,
                    index,
                    content.as_slice(),
                ) {
                    Ok(_) => check_next(release, index + 1),
                    Err(e) => Phase::Failed(e.message().unwrap()),
                }
            },
            (Phase::CheckFile { release, index }, Event::File(Err(error))) => Phase::Failed(error),
            (Phase::SetMode { release, index }, Event::Done(Ok(_))) => mode_next(
                release,
                index + 1,
            ),
            (Phase::SetMode { release, index }, Event::Done(Err(error))) => Phase::Failed(error),
            (Phase::Prepare { release }, Event::Prepared(Ok(previous))) => probe_next(
                release,
                previous,
            ),
            (Phase::Prepare { release }, Event::Prepared(Err(error))) => Phase::Failed(error),
            (Phase::Probe { release }, Event::Probed(found)) => if found {
                let path: FsPath = release_dir(&release);
                Phase::Failed(
                    String::from_str("release dir ").concat(
                        lossy_text(path.bytes.as_slice()).as_str(),
                    ).concat(" already exists"),
                )
            } else {
                Phase::Move { release }
            },
            (Phase::Move { release }, Event::Done(Ok(_))) => recheck_next(release, 0),
            (Phase::Move { release }, Event::Done(Err(error))) => Phase::Failed(error),
            (Phase::Recheck { release, index }, Event::File(Ok(content))) => {
                match verify_listed(
                    &release_dir(&release),
                    &release.manifest,
                    index,
                    content.as_slice(),
                ) {
                    Ok(_) => recheck_next(release, index + 1),
                    Err(e) => Phase::Failed(e.message().unwrap()),
                }
            },
            (Phase::Recheck { release, index }, Event::File(Err(error))) => Phase::Failed(error),
            (Phase::SyncUnits { release }, Event::Synced(Ok(changed))) => Phase::Swap {
                release,
                changed,
            },
            (Phase::SyncUnits { release }, Event::Synced(Err(error))) => Phase::Failed(error),
            (Phase::Swap { release, changed }, Event::Done(Ok(_))) => Phase::Connect {
                release,
                changed,
            },
            (Phase::Swap { release, changed }, Event::Done(Err(error))) => Phase::Failed(error),
            (Phase::Connect { release, changed }, Event::Done(Ok(_))) => stop_next(
                release,
                own_unit.as_str(),
                changed,
                0,
            ),
            (Phase::Connect { release, changed }, Event::Done(Err(error))) => {
                if release.previous.is_some() {
                    Phase::UndoConnect { release, error }
                } else {
                    Phase::Failed(error)
                }
            },
            (Phase::Stop { release, changed, index }, Event::Done(Ok(_))) => stop_next(
                release,
                own_unit.as_str(),
                changed,
                index + 1,
            ),
            (Phase::Stop { release, changed, index }, Event::Done(Err(error))) => rollback(
                release,
                Cause::Stop { index, error },
            ),
            (Phase::Reload { release }, Event::Done(Ok(_))) => start_next(
                release,
                own_unit.as_str(),
                0,
            ),
            (Phase::Reload { release }, Event::Done(Err(error))) => rollback(
                release,
                Cause::Reload { error },
            ),
            (Phase::Start { release, index }, Event::Done(Ok(_))) => start_next(
                release,
                own_unit.as_str(),
                index + 1,
            ),
            (Phase::Start { release, index }, Event::Done(Err(error))) => rollback(
                release,
                Cause::Start { index, error },
            ),
            (Phase::Prune { release }, Event::Done(_)) => Phase::Deployed { release },
            (Phase::UndoConnect { release, error }, Event::Done(_)) => Phase::Failed(error),
            (Phase::UndoSwap { release, cause }, Event::Done(Ok(_))) => restart_next(
                release,
                cause,
                0,
            ),
            (Phase::UndoSwap { release, cause }, Event::Done(Err(error))) => give_up(
                &release,
                &cause,
                error.as_str(),
            ),
            (Phase::UndoRestart { release, cause, index }, Event::Done(Ok(_))) => {
                assert(index < release.config.allowed_units.len());
                restart_next(release, cause, index + 1)
            },
            (Phase::UndoRestart { release, cause, index }, Event::Done(Err(error))) => give_up(
                &release,
                &cause,
                error.as_str(),
            ),
            (phase, _) => phase,
        };
        let after: Deploy = Deploy { config_root, own_unit, request, body, phase };
        proof {
            lemma_advance_keeps_wf(self, event, after);
        }
        after
    }

    /// The step that is due.
    pub fn step(&self) -> (step: Step)
        requires
            self.wf(),
        ensures
            step@ == due(*self),
    {
        match &self.phase {
            Phase::ReadClock => Step::ReadClock,
            Phase::LoadConfig => Step::LoadConfig(
                project_config_path(&self.config_root, self.request.project.as_str()),
            ),
            Phase::ReadSecret { config } => Step::ReadSecret(config.secret_path.duplicate()),
            Phase::Unpack { .. } => Step::Unpack,
            Phase::ReadManifest { extract_dir, .. } => Step::ReadManifest(
                extract_dir.join_text("manifest.toml"),
            ),
            Phase::CheckFile { release, index } => Step::ReadFile(
                release.extract_dir.join_text(listed_path(&release.manifest, *index)),
            ),
            Phase::SetMode { release, index } => {
                let binary: &BinaryEntry = &release.manifest.binaries[*index];
                Step::SetMode {
                    path: release.extract_dir.join_text(binary.path.as_str()),
                    mode: binary.mode,
                }
            },
            Phase::Prepare { release } => {
                let layout: ReleaseLayout = ReleaseLayout::new(
                    release.config.install_dir.duplicate(),
                );
                Step::Prepare {
                    releases_dir: layout.releases_dir(),
                    current_link: layout.current_link(),
                }
            },
            Phase::Probe { release } => Step::Probe(release_dir(release)),
            Phase::Move { release } => Step::Move {
                from: release.extract_dir.duplicate(),
                to: release_dir(release),
            },
            Phase::Recheck { release, index } => Step::ReadFile(
                release_dir(release).join_text(listed_path(&release.manifest, *index)),
            ),
            Phase::SyncUnits { release } => Step::SyncUnits { release_dir: release_dir(release) },
            Phase::Swap { release, .. } => Step::Swap {
                app_root: release.config.install_dir.duplicate(),
                release_dir: release_dir(release),
            },
            Phase::Connect { .. } => Step::Connect,
            Phase::Stop { release, index, .. } => Step::StopUnit(
                release.manifest.units[*index].name.clone(),
            ),
            Phase::Reload { .. } => Step::Reload,
            Phase::Start { release, index } => Step::StartUnit(
                release.manifest.units[*index].name.clone(),
            ),
            Phase::Prune { release } => Step::Prune {
                app_root: release.config.install_dir.duplicate(),
                retain_count: release.config.retain_count,
            },
            Phase::UndoConnect { release, .. } => undo_step(release),
            Phase::UndoSwap { release, .. } => undo_step(release),
            Phase::UndoRestart { release, index, .. } => Step::RestartUnit(
                release.config.allowed_units[*index].clone(),
            ),
            Phase::Deployed { release } => Step::Respond(
                success_response(release, self.own_unit.as_str()),
            ),
            Phase::Failed(message) => Step::Respond(failure_response(message.as_str())),
        }
    }
}

/// The path of the `index`th file that a manifest lists.
fn listed_path(manifest: &Manifest, index: usize) -> (path: &str)
    requires
        index < listed_count(*manifest),
    ensures
        path@ == listed_file(*manifest, index as int).0,
{
    if index < manifest.binaries.len() {
        manifest.binaries[index].path.as_str()
    } else {
        manifest.units[index - manifest.binaries.len()].path.as_str()
    }
}

/// The path of a project's policy.
pub fn project_config_path(config_root: &FsPath, project: &str) -> (path: FsPath)
    ensures
        path@ == config_path(config_root@, project@),
{
    config_root.join_text("projects").join_text(
        String::from_str(project).concat(".toml").as_str(),
    )
}

/// The step that makes the previous release the current one again.
fn undo_step(release: &Release) -> (step: Step)
    requires
        release.previous is Some,
    ensures
        step@ == undo_view(*release),
{
    let link: &FsPath = release.previous.as_ref().unwrap();
    Step::Swap {
        app_root: release.config.install_dir.duplicate(),
        release_dir: release.config.install_dir.join(link),
    }
}

/// The answer to a deploy that has failed.
pub fn failure_response(message: &str) -> (response: Response)
    ensures
        Step::Respond(response)@ == failure_view(message@),
{
    Response {
        status: 400,
        body: String::from_str("deploy failed: ").concat(message).concat("\n"),
        restart: false,
    }
}

/// The text by which a release is known.
fn release_label(release: &Release) -> (label: String)
    requires
        release.manifest.built_at.valid(),
        sha_can_be_cut(release.manifest.git_sha@),
    ensures
        label@ == release_id(*release),
{
    match release_dir(release).file_name() {
        Some(name) => match utf8_text(name) {
            Some(text) => text,
            None => String::from_str("unknown"),
        },
        None => String::from_str("unknown"),
    }
}

/// The answer to a deploy that has succeeded.
fn success_response(release: &Release, own_unit: &str) -> (response: Response)
    requires
        release.manifest.built_at.valid(),
        sha_can_be_cut(release.manifest.git_sha@),
    ensures
        Step::Respond(response)@ == success_view(*release, own_unit@),
{
    let label: String = release_label(release);
    if is_self_update(release, own_unit) {
        Response {
            status: 200,
            body: String::from_str("deployed self-update release ").concat(label.as_str()).concat(
                "; agent restarting...\n",
            ),
            restart: true,
        }
    } else {
        Response {
            status: 200,
            body: String::from_str("deployed release ").concat(label.as_str()).concat("\n"),
            restart: false,
        }
    }
}

} // verus!
