//! The course of a deploy: what each step is, and what comes of how it went,
//! told over the request, the policy, the manifest and the event.

use vstd::prelude::*;
use vstd::utf8::*;

use crate::ci::{is_new_manifest, is_signed, lemma_sent_request_is_accepted, SignedHeaders};
use crate::deploy::{
    due, failure_view, first_undeclared, follows, is_managed, is_start, lemma_next_inner,
    lemma_next_managed, next_managed, Cause, Deploy, Event, Lookup, Phase, Release, Step, StepView,
};
use crate::external::{hmac_sha256, lossy_chars, sha256_digest};
use crate::hexadecimal::{hex_bytes, hex_text};
use crate::manifest::{
    days_in_month, is_collected, utc, BinaryEntry, BuildTime, Manifest, UnitEntry,
};
use crate::path::{is_plain_name, joined, parts, FsPath, Part};
use crate::release::{lemma_release_parts, release_name};
use crate::request::{is_request, DeployRequest, HeaderValue, RequestError};
use crate::run::{
    answers, is_fact, is_installing, is_run, is_step, lemma_checked_before_installing,
    lemma_rechecked_before_swap, lemma_run_establishes, lemma_success_is_complete, release_of, seen,
    succeeds, Fact,
};
use crate::text::signed_decimal;

verus! {

/// A failure is answered with the status of a bad request and what is told of
/// it, and nothing is restarted.
pub proof fn lemma_failure_is_answered(deploy: Deploy)
    requires
        deploy.phase is Failed,
    ensures
        due(deploy) == (StepView::Respond {
            status: 400,
            body: "deploy failed: "@ + deploy.phase->Failed_0@ + "\n"@,
            restart: false,
        }),
        forall|message: Seq<char>| #[trigger]
            failure_view(message) == (StepView::Respond {
                status: 400,
                body: "deploy failed: "@ + message + "\n"@,
                restart: false,
            }),
{
}

/// An event that does not belong to the step that is due changes nothing.
pub proof fn lemma_stray_event_changes_nothing(before: Deploy, event: Event, after: Deploy)
    requires
        follows(before, event, after),
        !answers(before, event),
    ensures
        after.phase == before.phase,
        after.config_root == before.config_root,
        after.own_unit == before.own_unit,
        after.request == before.request,
        after.body == before.body,
{
}

/// A deploy starts with the request and the body that it was given, and has done
/// nothing yet but is to read the clock.
pub proof fn lemma_deploy_starts_with_the_request(
    config_root: FsPath,
    own_unit: String,
    request: DeployRequest,
    body: Vec<u8>,
    deploy: Deploy,
)
    requires
        is_start(config_root, own_unit, request, body, deploy),
    ensures
        deploy.wf(),
        deploy.config_root@ == config_root@,
        deploy.own_unit@ == own_unit@,
        deploy.request.project@ == request.project@,
        deploy.request.timestamp == request.timestamp,
        deploy.request.signature_hex@ == request.signature_hex@,
        deploy.body@ == body@,
        due(deploy) is ReadClock,
{
}

/// First the clock is read. The deploy goes on where it is five minutes away
/// from the timestamp at most, in either direction.
pub proof fn lemma_clock_decides(before: Deploy, event: Event, after: Deploy)
    requires
        before.phase is ReadClock,
        event is Clock,
        follows(before, event, after),
    ensures
        due(before) is ReadClock,
        match event->Clock_0 {
            Ok(now) => {
                let away = now as int - before.request.timestamp as int;
                &&& -300 <= away <= 300 ==> after.phase is LoadConfig
                &&& away < -300 || 300 < away ==> due(after) == failure_view(
                    "timestamp outside replay window"@,
                )
            },
            Err(error) => due(after) == failure_view(error@),
        },
{
}

/// The policy is looked up by the name of the project, and the secret where the
/// policy says.
pub proof fn lemma_policy_is_looked_up(before: Deploy, event: Event, after: Deploy)
    requires
        before.phase is LoadConfig,
        event is Config,
        follows(before, event, after),
    ensures
        due(before) == StepView::LoadConfig(
            joined(
                joined(before.config_root@, encode_utf8("projects"@)),
                encode_utf8(before.request.project@ + ".toml"@),
            ),
        ),
        match event->Config_0 {
            Lookup::Absent => due(after) == failure_view(
                "Project "@ + before.request.project@ + " is not configured."@,
            ),
            Lookup::Failed(error) => due(after) == failure_view(error@),
            Lookup::Found(config) => {
                &&& after.phase == (Phase::ReadSecret { config })
                &&& due(after) == StepView::ReadSecret(config.secret_path@)
            },
        },
{
}

/// The deploy goes on to unpack the body exactly where the signature is the tag
/// of timestamp, project and digest of the body, a line each, under the secret.
pub proof fn lemma_signature_decides(before: Deploy, event: Event, after: Deploy)
    requires
        before.phase is ReadSecret,
        event is Secret,
        follows(before, event, after),
    ensures
        match event->Secret_0 {
            Lookup::Absent => due(after) == failure_view(
                "Secret for project "@ + before.request.project@ + " is not found."@,
            ),
            Lookup::Failed(error) => due(after) == failure_view(error@),
            Lookup::Found(secret) => {
                let given = hex_bytes(before.request.signature_hex@);
                let tag = hmac_sha256(
                    secret@,
                    encode_utf8(
                        signed_decimal(before.request.timestamp as int) + seq!['\n']
                            + before.request.project@ + seq!['\n'] + hex_text(
                            sha256_digest(before.body@),
                        ),
                    ),
                );
                &&& given == Some(tag) ==> after.phase == (Phase::Unpack {
                    config: before.phase->ReadSecret_config,
                })
                &&& given is None ==> due(after) == failure_view("signature is not valid hex"@)
                &&& given is Some && given != Some(tag) ==> due(after) == failure_view(
                    "signature verification failed"@,
                )
            },
        },
{
}

/// The manifest is read from the directory that the body was unpacked into.
pub proof fn lemma_manifest_is_read(before: Deploy, event: Event, after: Deploy)
    requires
        before.phase is Unpack,
        event is Unpacked,
        follows(before, event, after),
    ensures
        due(before) is Unpack,
        match event->Unpacked_0 {
            Ok(dir) => {
                &&& after.phase == (Phase::ReadManifest {
                    config: before.phase->Unpack_config,
                    extract_dir: dir,
                })
                &&& due(after) == StepView::ReadManifest(
                    joined(dir@, encode_utf8("manifest.toml"@)),
                )
            },
            Err(error) => due(after) == failure_view(error@),
        },
{
}

/// Whether the path of the binary at `at` has neither a root nor a parent
/// directory among its components.
pub open spec fn stays_inside(release: Release, at: int) -> bool {
    let path = encode_utf8(release.manifest.binaries@[at].path@);
    forall|i: int|
        0 <= i < parts(path).len() ==> !((#[trigger] parts(path)[i]) is Root || parts(path)[i] is Up)
}

/// Whether a deploy goes on with the mode of the first binary from `from` on
/// whose path stays inside, or with preparing where there is none.
pub open spec fn goes_on_with_modes(phase: Phase, release: Release, from: int) -> bool {
    let count = release.manifest.binaries@.len();
    match phase {
        Phase::SetMode { release: r, index } => {
            &&& r == release
            &&& from <= index < count
            &&& stays_inside(release, index as int)
            &&& forall|k: int| from <= k < index ==> !(#[trigger] stays_inside(release, k))
        },
        Phase::Prepare { release: r } => {
            &&& r == release
            &&& forall|k: int| from <= k < count ==> !(#[trigger] stays_inside(release, k))
        },
        _ => false,
    }
}

/// Whether a project may touch the unit at `at` of a release, and this program
/// does not run as that unit.
pub open spec fn is_restartable(release: Release, own_unit: Seq<char>, at: int) -> bool {
    &&& release.manifest.units@[at].name@ != own_unit
    &&& exists|j: int|
        0 <= j < release.config.allowed_units@.len() && (
        #[trigger] release.config.allowed_units@[j])@ == release.manifest.units@[at].name@
}

/// Whether a deploy goes on with the start of the first unit from `from` on
/// that is restartable; where there is none, it is over if a unit is the one
/// that this program runs as, and old releases are deleted otherwise.
pub open spec fn goes_on_with_starts(
    phase: Phase,
    release: Release,
    own_unit: Seq<char>,
    from: int,
) -> bool {
    let units = release.manifest.units@;
    match phase {
        Phase::Start { release: r, index } => {
            &&& r == release
            &&& from <= index < units.len()
            &&& is_restartable(release, own_unit, index as int)
            &&& forall|k: int|
                from <= k < index ==> !(#[trigger] is_restartable(release, own_unit, k))
        },
        Phase::Deployed { release: r } => {
            &&& r == release
            &&& exists|i: int| 0 <= i < units.len() && (#[trigger] units[i]).name@ == own_unit
            &&& forall|k: int|
                from <= k < units.len() ==> !(#[trigger] is_restartable(release, own_unit, k))
        },
        Phase::Prune { release: r } => {
            &&& r == release
            &&& forall|i: int| 0 <= i < units.len() ==> (#[trigger] units[i]).name@ != own_unit
            &&& forall|k: int|
                from <= k < units.len() ==> !(#[trigger] is_restartable(release, own_unit, k))
        },
        _ => false,
    }
}

/// Whether a deploy goes on with the stop of the first unit from `from` on that
/// is restartable; where there is none, with a reload if a unit file was
/// written, and with the starts otherwise.
pub open spec fn goes_on_with_stops(
    phase: Phase,
    release: Release,
    own_unit: Seq<char>,
    changed: bool,
    from: int,
) -> bool {
    let units = release.manifest.units@;
    match phase {
        Phase::Stop { release: r, changed: c, index } => {
            &&& r == release
            &&& c == changed
            &&& from <= index < units.len()
            &&& is_restartable(release, own_unit, index as int)
            &&& forall|k: int|
                from <= k < index ==> !(#[trigger] is_restartable(release, own_unit, k))
        },
        Phase::Reload { release: r } => {
            &&& r == release
            &&& changed
            &&& forall|k: int|
                from <= k < units.len() ==> !(#[trigger] is_restartable(release, own_unit, k))
        },
        _ => {
            &&& !changed
            &&& goes_on_with_starts(phase, release, own_unit, 0)
            &&& forall|k: int|
                from <= k < units.len() ==> !(#[trigger] is_restartable(release, own_unit, k))
        },
    }
}

/// The first unit that a project may not touch is such a one, and none before
/// it is.
proof fn lemma_first_undeclared(units: Seq<UnitEntry>, allowed: Seq<String>, from: int)
    requires
        0 <= from <= units.len(),
    ensures
        ({
            let first = first_undeclared(units, allowed, from);
            &&& from <= first <= units.len()
            &&& first < units.len() ==> forall|j: int|
                0 <= j < allowed.len() ==> (#[trigger] allowed[j])@ != units[first].name@
            &&& forall|i: int|
                from <= i < first ==> exists|j: int|
                    0 <= j < allowed.len() && (#[trigger] allowed[j])@ == (
                    #[trigger] units[i]).name@
        }),
    decreases units.len() - from,
{
    if from < units.len() {
        lemma_first_undeclared(units, allowed, from + 1);
    }
}

/// A manifest is accepted exactly where its shape is the one that is known, it
/// is for the project of the request, and each of its units is one that the
/// project may touch. The first unit that is not, at `at`, is told.
pub proof fn lemma_manifest_is_judged(before: Deploy, event: Event, after: Deploy, at: int)
    requires
        before.phase is ReadManifest,
        event is Manifest,
        follows(before, event, after),
    ensures
        match event->Manifest_0 {
            Err(error) => due(after) == failure_view(error@),
            Ok(manifest) => {
                let config = before.phase->ReadManifest_config;
                let allowed = config.allowed_units@;
                let units = manifest.units@;
                let count = manifest.binaries@.len() + units.len();
                let release = Release {
                    config,
                    extract_dir: before.phase->extract_dir,
                    manifest,
                    previous: None,
                };
                let in_shape = manifest.schema_version == 1;
                let in_project = manifest.project@ == before.request.project@;
                &&& !in_shape ==> due(after) == failure_view(
                    "unsupported manifest schema_version "@ + signed_decimal(
                        manifest.schema_version as int,
                    ) + " (expected "@ + signed_decimal(1) + ")"@,
                )
                &&& in_shape && !in_project ==> due(after) == failure_view(
                    "manifest project mismatch"@,
                )
                &&& in_shape && in_project && 0 <= at < units.len() && (forall|j: int|
                    0 <= j < allowed.len() ==> (#[trigger] allowed[j])@ != units[at].name@) && (
                forall|i: int|
                    0 <= i < at ==> exists|j: int|
                        0 <= j < allowed.len() && (#[trigger] allowed[j])@ == (
                        #[trigger] units[i]).name@) ==> due(after) == failure_view(
                    "manifest unit "@ + units[at].name@ + " was not declared in the project"@,
                )
                &&& in_shape && in_project && (forall|i: int|
                    0 <= i < units.len() ==> exists|j: int|
                        0 <= j < allowed.len() && (#[trigger] allowed[j])@ == (
                        #[trigger] units[i]).name@) ==> {
                    &&& count > usize::MAX ==> due(after) == failure_view(
                        "manifest lists too many files"@,
                    )
                    &&& 0 < count <= usize::MAX ==> after.phase == (Phase::CheckFile {
                        release,
                        index: 0,
                    })
                    &&& count == 0 ==> goes_on_with_modes(after.phase, release, 0)
                }
            },
        },
{
    if let Ok(manifest) = event->Manifest_0 {
        let allowed = before.phase->ReadManifest_config.allowed_units@;
        let units = manifest.units@;
        lemma_first_undeclared(units, allowed, 0);
        lemma_next_inner(manifest.binaries@, 0);
        let first = first_undeclared(units, allowed, 0);
        if 0 <= at < units.len() && (forall|j: int|
            0 <= j < allowed.len() ==> (#[trigger] allowed[j])@ != units[at].name@) && (
        forall|i: int|
            0 <= i < at ==> exists|j: int|
                0 <= j < allowed.len() && (#[trigger] allowed[j])@ == (#[trigger] units[i]).name@) {
            if first < at {
                assert(exists|j: int|
                    0 <= j < allowed.len() && (#[trigger] allowed[j])@ == units[first].name@);
            }
            if at < first {
                assert(exists|j: int|
                    0 <= j < allowed.len() && (#[trigger] allowed[j])@ == units[at].name@);
            }
        }
        if forall|i: int|
            0 <= i < units.len() ==> exists|j: int|
                0 <= j < allowed.len() && (#[trigger] allowed[j])@ == (#[trigger] units[i]).name@ {
            if first < units.len() {
                assert(exists|j: int|
                    0 <= j < allowed.len() && (#[trigger] allowed[j])@ == units[first].name@);
            }
        }
    }
}

/// The files that a manifest lists are checked one after the other, the
/// binaries first and the units behind them: for the `index`th binary the file
/// at its own path is read, and held against its own checksum, and likewise for
/// the units. Where one does not match, that is told, and the deploy ends.
pub proof fn lemma_files_are_checked(before: Deploy, event: Event, after: Deploy)
    requires
        before.wf(),
        before.phase is CheckFile,
        event is File,
        follows(before, event, after),
    ensures
        ({
            let release = before.phase->CheckFile_release;
            let index = before.phase->CheckFile_index as int;
            let binaries = release.manifest.binaries@;
            let units = release.manifest.units@;
            let in_units = index - binaries.len();
            let path = joined(
                release.extract_dir@,
                if index < binaries.len() {
                    encode_utf8(binaries[index].path@)
                } else {
                    encode_utf8(units[in_units].path@)
                },
            );
            let expected = if index < binaries.len() {
                binaries[index].sha256@
            } else {
                units[in_units].sha256@
            };
            &&& index < binaries.len() + units.len()
            &&& due(before) == StepView::ReadFile(path)
            &&& match event->File_0 {
                Err(error) => due(after) == failure_view(error@),
                Ok(content) => {
                    let digest = sha256_digest(content@);
                    &&& hex_bytes(expected) != Some(digest) ==> due(after) == failure_view(
                        "checksum mismatch for "@ + lossy_chars(path) + ": expected "@ + expected
                            + ", got "@ + hex_text(digest),
                    )
                    &&& hex_bytes(expected) == Some(digest) && index + 1 < binaries.len()
                        + units.len() ==> after.phase is CheckFile
                        && after.phase->CheckFile_release == release
                        && after.phase->CheckFile_index == index + 1
                    &&& hex_bytes(expected) == Some(digest) && index + 1 == binaries.len()
                        + units.len() ==> goes_on_with_modes(after.phase, release, 0)
                },
            }
        }),
{
    lemma_next_inner(before.phase->CheckFile_release.manifest.binaries@, 0);
}

/// Each binary whose path stays inside the bundle is given the mode that the
/// manifest lists for it, at its own path, one after the other.
pub proof fn lemma_modes_are_given(before: Deploy, event: Event, after: Deploy)
    requires
        before.wf(),
        before.phase is SetMode,
        event is Done,
        follows(before, event, after),
    ensures
        ({
            let release = before.phase->SetMode_release;
            let index = before.phase->SetMode_index as int;
            let binary = release.manifest.binaries@[index];
            &&& due(before) == (StepView::SetMode {
                path: joined(release.extract_dir@, encode_utf8(binary.path@)),
                mode: binary.mode,
            })
            &&& stays_inside(release, index)
            &&& match event->Done_0 {
                Ok(_) => goes_on_with_modes(after.phase, release, index + 1),
                Err(error) => due(after) == failure_view(error@),
            }
        }),
{
    lemma_next_inner(
        before.phase->SetMode_release.manifest.binaries@,
        before.phase->SetMode_index + 1,
    );
}

/// The release is named once the directory of releases is there: its time has
/// to be one of the calendar, with a year of four digits in UTC, and its commit
/// has to have a character that starts behind its first twelve bytes, where it
/// is longer. What the link to the current release holds is kept in mind.
pub proof fn lemma_release_is_named(before: Deploy, event: Event, after: Deploy)
    requires
        before.wf(),
        before.phase is Prepare,
        event is Prepared,
        follows(before, event, after),
    ensures
        ({
            let release = before.phase->Prepare_release;
            let t = release.manifest.built_at;
            let sha = encode_utf8(release.manifest.git_sha@);
            let in_range = {
                &&& -9999 <= t.year <= 9999
                &&& 1 <= t.month <= 12
                &&& 1 <= t.day <= days_in_month(t.year as int, t.month as int)
                &&& t.hour < 24
                &&& t.minute < 60
                &&& t.second < 60
                &&& -93599 <= t.offset_seconds <= 93599
                &&& -9999 <= utc(t).year <= 9999
            };
            let can_be_cut = sha.len() <= 12 || !is_continuation_byte(sha[12]);
            &&& due(before) == (StepView::Prepare {
                releases_dir: joined(release.config.install_dir@, encode_utf8("releases"@)),
                current_link: joined(release.config.install_dir@, encode_utf8("current"@)),
            })
            &&& match event->Prepared_0 {
                Err(error) => due(after) == failure_view(error@),
                Ok(link) => {
                    &&& !in_range ==> due(after) == failure_view(
                        "manifest built_at is out of range"@,
                    )
                    &&& in_range && !can_be_cut ==> due(after) == failure_view(
                        "manifest git_sha cannot be cut for the name of a release"@,
                    )
                    &&& in_range && can_be_cut ==> after.phase == (Phase::Probe {
                        release: Release { previous: link, ..release },
                    })
                },
            }
        }),
{
    let sha = encode_utf8(before.phase->Prepare_release.manifest.git_sha@);
    encode_utf8_valid_utf8(before.phase->Prepare_release.manifest.git_sha@);
    if sha.len() > 12 {
        is_char_boundary_iff_not_is_continuation_byte(sha, 12);
    } else {
        is_char_boundary_start_end_of_seq(sha);
    }
}

/// The path of the directory for a release: below the directory of releases, by
/// the name that time and commit make.
pub open spec fn place_for(release: Release) -> Seq<u8> {
    joined(
        joined(release.config.install_dir@, encode_utf8("releases"@)),
        encode_utf8(release_name(release.manifest.built_at, release.manifest.git_sha@)),
    )
}

/// A release goes only where nothing is yet, and goes there whole.
pub proof fn lemma_release_is_moved(before: Deploy, event: Event, after: Deploy)
    requires
        before.wf(),
        before.phase is Probe || before.phase is Move,
        answers(before, event),
        follows(before, event, after),
    ensures
        match before.phase {
            Phase::Probe { release } => {
                &&& due(before) == StepView::Probe(place_for(release))
                &&& event->Probed_0 ==> due(after) == failure_view(
                    "release dir "@ + lossy_chars(place_for(release)) + " already exists"@,
                )
                &&& !event->Probed_0 ==> after.phase == (Phase::Move { release })
            },
            Phase::Move { release } => {
                &&& due(before) == (StepView::Move {
                    from: release.extract_dir@,
                    to: place_for(release),
                })
                &&& match event->Done_0 {
                    Err(error) => due(after) == failure_view(error@),
                    Ok(_) => if release.manifest.binaries@.len() + release.manifest.units@.len()
                        > 0 {
                        after.phase == (Phase::Recheck { release, index: 0 })
                    } else {
                        after.phase == (Phase::SyncUnits { release })
                    },
                }
            },
            _ => false,
        },
{
}

/// The files are checked once more where they have been moved to, in the same
/// way: each at its own path below the directory for the release, against its
/// own checksum.
pub proof fn lemma_files_are_rechecked(before: Deploy, event: Event, after: Deploy)
    requires
        before.wf(),
        before.phase is Recheck,
        event is File,
        follows(before, event, after),
    ensures
        ({
            let release = before.phase->Recheck_release;
            let index = before.phase->Recheck_index as int;
            let binaries = release.manifest.binaries@;
            let units = release.manifest.units@;
            let in_units = index - binaries.len();
            let path = joined(
                place_for(release),
                if index < binaries.len() {
                    encode_utf8(binaries[index].path@)
                } else {
                    encode_utf8(units[in_units].path@)
                },
            );
            let expected = if index < binaries.len() {
                binaries[index].sha256@
            } else {
                units[in_units].sha256@
            };
            &&& index < binaries.len() + units.len()
            &&& due(before) == StepView::ReadFile(path)
            &&& match event->File_0 {
                Err(error) => due(after) == failure_view(error@),
                Ok(content) => {
                    let digest = sha256_digest(content@);
                    &&& hex_bytes(expected) != Some(digest) ==> due(after) == failure_view(
                        "checksum mismatch for "@ + lossy_chars(path) + ": expected "@ + expected
                            + ", got "@ + hex_text(digest),
                    )
                    &&& hex_bytes(expected) == Some(digest) && index + 1 < binaries.len()
                        + units.len() ==> after.phase is Recheck && after.phase->Recheck_release
                        == release && after.phase->Recheck_index == index + 1
                    &&& hex_bytes(expected) == Some(digest) && index + 1 == binaries.len()
                        + units.len() ==> after.phase == (Phase::SyncUnits { release })
                },
            }
        }),
{
}

/// Then the unit files are synced, the release becomes the current one, and the
/// bus is connected to. Where the bus cannot be reached, the previous release
/// is put back, if there was one, and the error is told in any case.
pub proof fn lemma_release_becomes_current(before: Deploy, event: Event, after: Deploy)
    requires
        before.wf(),
        before.phase is SyncUnits || before.phase is Swap || before.phase is Connect
            || before.phase is UndoConnect,
        answers(before, event),
        follows(before, event, after),
    ensures
        match before.phase {
            Phase::SyncUnits { release } => {
                &&& due(before) == (StepView::SyncUnits { release_dir: place_for(release) })
                &&& match event->Synced_0 {
                    Ok(changed) => after.phase == (Phase::Swap { release, changed }),
                    Err(error) => due(after) == failure_view(error@),
                }
            },
            Phase::Swap { release, changed } => {
                &&& due(before) == (StepView::Swap {
                    app_root: release.config.install_dir@,
                    release_dir: place_for(release),
                })
                &&& match event->Done_0 {
                    Ok(_) => after.phase == (Phase::Connect { release, changed }),
                    Err(error) => due(after) == failure_view(error@),
                }
            },
            Phase::Connect { release, changed } => {
                &&& due(before) is Connect
                &&& match event->Done_0 {
                    Ok(_) => goes_on_with_stops(
                        after.phase,
                        release,
                        before.own_unit@,
                        changed,
                        0,
                    ),
                    Err(error) => if release.previous is Some {
                        after.phase == (Phase::UndoConnect { release, error })
                    } else {
                        due(after) == failure_view(error@)
                    },
                }
            },
            Phase::UndoConnect { release, error } => {
                &&& due(before) == (StepView::Swap {
                    app_root: release.config.install_dir@,
                    release_dir: joined(release.config.install_dir@, release.previous->0@),
                })
                &&& due(after) == failure_view(error@)
            },
            _ => false,
        },
{
    if let Phase::Connect { release, changed } = before.phase {
        lemma_goes_on(release, before.own_unit@, 0);
    }
}

/// What is managed is restartable, and the first of these is found.
proof fn lemma_goes_on(release: Release, own_unit: Seq<char>, from: int)
    requires
        0 <= from <= release.manifest.units@.len(),
    ensures
        ({
            let units = release.manifest.units@;
            let allowed = release.config.allowed_units@;
            let next = next_managed(units, own_unit, allowed, from);
            let first = next_managed(units, own_unit, allowed, 0);
            &&& from <= next <= units.len()
            &&& next < units.len() ==> is_restartable(release, own_unit, next)
            &&& forall|k: int|
                from <= k < next ==> !(#[trigger] is_restartable(release, own_unit, k))
            &&& 0 <= first <= units.len()
            &&& first < units.len() ==> is_restartable(release, own_unit, first)
            &&& forall|k: int| 0 <= k < first ==> !(#[trigger] is_restartable(release, own_unit, k))
        }),
{
    let units = release.manifest.units@;
    let allowed = release.config.allowed_units@;
    lemma_next_managed(units, own_unit, allowed, from);
    lemma_next_managed(units, own_unit, allowed, 0);
    assert forall|k: int| 0 <= k < units.len() implies #[trigger] is_restartable(
        release,
        own_unit,
        k,
    ) == is_managed(units[k], own_unit, allowed) by {}
}

/// Each unit that the project may touch, but for the one that this program runs
/// as, is stopped by its own name, then the unit files are reloaded where one
/// was written, and then each is started by its own name.
pub proof fn lemma_units_are_restarted(before: Deploy, event: Event, after: Deploy)
    requires
        before.wf(),
        before.phase is Stop || before.phase is Reload || before.phase is Start,
        event is Done,
        event->Done_0 is Ok,
        follows(before, event, after),
    ensures
        match before.phase {
            Phase::Stop { release, changed, index } => {
                &&& is_restartable(release, before.own_unit@, index as int)
                &&& due(before) == StepView::StopUnit(release.manifest.units@[index as int].name@)
                &&& goes_on_with_stops(
                    after.phase,
                    release,
                    before.own_unit@,
                    changed,
                    index + 1,
                )
            },
            Phase::Reload { release } => {
                &&& due(before) is Reload
                &&& goes_on_with_starts(after.phase, release, before.own_unit@, 0)
            },
            Phase::Start { release, index } => {
                &&& is_restartable(release, before.own_unit@, index as int)
                &&& due(before) == StepView::StartUnit(release.manifest.units@[index as int].name@)
                &&& goes_on_with_starts(after.phase, release, before.own_unit@, index + 1)
            },
            _ => false,
        },
{
    match before.phase {
        Phase::Stop { release, changed, index } => {
            lemma_goes_on(release, before.own_unit@, index + 1);
        },
        Phase::Reload { release } => {
            lemma_goes_on(release, before.own_unit@, 0);
        },
        Phase::Start { release, index } => {
            lemma_goes_on(release, before.own_unit@, index + 1);
        },
        _ => {},
    }
}

/// A release whose manifest lists the unit that this program runs as, wherever
/// in the list, is a new version of the program: once no unit is left to be
/// stopped or started, the deploy is over at once, and the answer says to
/// restart. Any other release has old ones deleted first, and its answer does
/// not say so.
pub proof fn lemma_self_update_restarts(before: Deploy, event: Event, after: Deploy)
    requires
        before.wf(),
        before.phase is Connect || before.phase is Stop || before.phase is Reload
            || before.phase is Start || before.phase is Prune,
        event is Done,
        event->Done_0 is Ok,
        follows(before, event, after),
        !(after.phase is Stop || after.phase is Reload || after.phase is Start),
    ensures
        ({
            let release = release_of(before.phase)->0;
            let units = release.manifest.units@;
            &&& forall|i: int|
                0 <= i < units.len() && (#[trigger] units[i]).name@ == before.own_unit@
                    && !(before.phase is Prune) ==> {
                    &&& after.phase == (Phase::Deployed { release })
                    &&& due(after) is Respond
                    &&& due(after)->status == 200
                    &&& due(after)->restart
                }
            &&& (forall|i: int|
                0 <= i < units.len() ==> (#[trigger] units[i]).name@ != before.own_unit@) ==> {
                if before.phase is Prune {
                    &&& after.phase == (Phase::Deployed { release })
                    &&& due(after) is Respond
                    &&& due(after)->status == 200
                    &&& !due(after)->restart
                } else {
                    after.phase == (Phase::Prune { release })
                }
            }
        }),
{
    let release = release_of(before.phase)->0;
    match before.phase {
        Phase::Stop { release, changed, index } => {
            lemma_goes_on(release, before.own_unit@, index + 1);
        },
        Phase::Start { release, index } => {
            lemma_goes_on(release, before.own_unit@, index + 1);
        },
        _ => {
            lemma_goes_on(release, before.own_unit@, 0);
        },
    }
}

/// The answer to a deploy that has succeeded names the release by the name of
/// its directory, says to restart exactly where a unit of the release is the
/// one that this program runs as, and says so. Commits with a slash among their
/// first bytes are left out, which would name a directory within a directory.
pub proof fn lemma_success_is_answered(deploy: Deploy)
    requires
        deploy.wf(),
        deploy.phase is Deployed,
        is_plain_name(
            encode_utf8(
                release_name(
                    deploy.phase->Deployed_release.manifest.built_at,
                    deploy.phase->Deployed_release.manifest.git_sha@,
                ),
            ),
        ),
    ensures
        ({
            let manifest = deploy.phase->Deployed_release.manifest;
            let units = manifest.units@;
            let name = release_name(manifest.built_at, manifest.git_sha@);
            &&& forall|i: int|
                0 <= i < units.len() && (#[trigger] units[i]).name@ == deploy.own_unit@ ==> due(
                    deploy,
                ) == (StepView::Respond {
                    status: 200,
                    body: "deployed self-update release "@ + name + "; agent restarting...\n"@,
                    restart: true,
                })
            &&& (forall|i: int|
                0 <= i < units.len() ==> (#[trigger] units[i]).name@ != deploy.own_unit@) ==> due(
                deploy,
            ) == (StepView::Respond {
                status: 200,
                body: "deployed release "@ + name + "\n"@,
                restart: false,
            })
        }),
{
    let release = deploy.phase->Deployed_release;
    let name = release_name(release.manifest.built_at, release.manifest.git_sha@);
    lemma_release_parts(release.config.install_dir@, encode_utf8(name));
    encode_utf8_valid_utf8(name);
    encode_utf8_decode_utf8(name);
}

/// A release is told by the last component of its path, where that is a name and
/// a text, and as unknown otherwise, whatever its commit is.
pub proof fn lemma_release_is_told_by_its_path(deploy: Deploy, name: Seq<u8>)
    requires
        deploy.phase is Deployed,
    ensures
        ({
            let release = deploy.phase->Deployed_release;
            let list = parts(place_for(release));
            let units = release.manifest.units@;
            let is_told = list.len() > 0 && list[list.len() - 1] == Part::Name(name) && valid_utf8(
                name,
            );
            let is_unknown = list.len() == 0 || !(list[list.len() - 1] is Name);
            let label = if is_told {
                decode_utf8(name)
            } else {
                "unknown"@
            };
            &&& (is_told || is_unknown) && (forall|i: int|
                0 <= i < units.len() ==> (#[trigger] units[i]).name@ != deploy.own_unit@) ==> due(
                deploy,
            ) == (StepView::Respond {
                status: 200,
                body: "deployed release "@ + label + "\n"@,
                restart: false,
            })
            &&& is_told || is_unknown ==> forall|i: int|
                0 <= i < units.len() && (#[trigger] units[i]).name@ == deploy.own_unit@ ==> due(
                    deploy,
                ) == (StepView::Respond {
                    status: 200,
                    body: "deployed self-update release "@ + label + "; agent restarting...\n"@,
                    restart: true,
                })
        }),
{
}

/// Old releases are deleted in the directory of the project, down to the number
/// that the policy gives, and the deploy has succeeded whatever comes of that.
pub proof fn lemma_old_releases_are_pruned(before: Deploy, event: Event, after: Deploy)
    requires
        before.wf(),
        before.phase is Prune,
        event is Done,
        follows(before, event, after),
    ensures
        due(before) == (StepView::Prune {
            app_root: before.phase->Prune_release.config.install_dir@,
            retain_count: before.phase->Prune_release.config.retain_count as nat,
        }),
        after.phase == (Phase::Deployed { release: before.phase->Prune_release }),
{
}

/// What is told of the unit or the reload that made a deploy fail.
pub open spec fn told_of(release: Release, cause: Cause) -> Seq<char> {
    match cause {
        Cause::Stop { index, error } => "unit '"@ + release.manifest.units@[index as int].name@
            + "' failed to stop: "@ + error@,
        Cause::Reload { error } => "daemon-reload failed: "@ + error@,
        Cause::Start { index, error } => "unit '"@ + release.manifest.units@[index as int].name@
            + "' failed to start: "@ + error@,
    }
}

/// Whether a deploy goes on with restarting the units that the project may
/// touch, from `from` on, or tells that the rollback is done where there are no
/// more.
pub open spec fn goes_on_with_restarts(
    after: Deploy,
    release: Release,
    cause: Cause,
    from: int,
) -> bool {
    if from < release.config.allowed_units@.len() {
        &&& after.phase is UndoRestart
        &&& after.phase->UndoRestart_release == release
        &&& after.phase->UndoRestart_cause == cause
        &&& after.phase->UndoRestart_index == from
        &&& due(after) == StepView::RestartUnit(release.config.allowed_units@[from]@)
    } else {
        due(after) == failure_view(told_of(release, cause) + ". Rollback successful."@)
    }
}

/// A unit that does not stop or start, or a reload that fails, is answered by
/// putting the previous release back, where there was one, and restarting each
/// of the units that the project may touch, by its own name. The failure is
/// told with the name of the unit, and with how the rollback went.
pub proof fn lemma_failure_is_rolled_back(before: Deploy, event: Event, after: Deploy)
    requires
        before.wf(),
        before.phase is Stop || before.phase is Reload || before.phase is Start
            || before.phase is UndoSwap || before.phase is UndoRestart,
        event is Done,
        before.phase is Stop || before.phase is Reload || before.phase is Start
            ==> event->Done_0 is Err,
        follows(before, event, after),
    ensures
        match before.phase {
            Phase::UndoSwap { release, cause } => {
                &&& release.previous is Some
                &&& due(before) == (StepView::Swap {
                    app_root: release.config.install_dir@,
                    release_dir: joined(release.config.install_dir@, release.previous->0@),
                })
                &&& match event->Done_0 {
                    Ok(_) => goes_on_with_restarts(after, release, cause, 0),
                    Err(error) => due(after) == failure_view(
                        told_of(release, cause) + ". ROLLBACK FAILED: "@ + error@,
                    ),
                }
            },
            Phase::UndoRestart { release, cause, index } => {
                &&& due(before) == StepView::RestartUnit(
                    release.config.allowed_units@[index as int]@,
                )
                &&& match event->Done_0 {
                    Ok(_) => goes_on_with_restarts(after, release, cause, index + 1),
                    Err(error) => due(after) == failure_view(
                        told_of(release, cause) + ". ROLLBACK FAILED: "@ + error@,
                    ),
                }
            },
            _ => {
                let release = release_of(before.phase)->0;
                let error = event->Done_0->Err_0;
                let cause = match before.phase {
                    Phase::Stop { release, changed, index } => Cause::Stop { index, error },
                    Phase::Start { release, index } => Cause::Start { index, error },
                    _ => Cause::Reload { error },
                };
                if release.previous is Some {
                    after.phase == (Phase::UndoSwap { release, cause })
                } else {
                    goes_on_with_restarts(after, release, cause, 0)
                }
            },
        },
{
    if let Phase::UndoRestart { release, cause, index } = before.phase {
        assert(index < release.config.allowed_units.len());
    }
}

/// Whether two releases are the same but for what the link to the current one
/// held before.
pub open spec fn is_same_release(a: Release, b: Release) -> bool {
    a.config == b.config && a.extract_dir == b.extract_dir && a.manifest == b.manifest
}

/// A step is about the release that the one before it was about, unless the
/// deploy has failed.
#[verifier::rlimit(30)]
proof fn lemma_step_keeps_release(before: Deploy, event: Event, after: Deploy)
    requires
        follows(before, event, after),
        release_of(before.phase) is Some || before.phase is Failed,
    ensures
        after.phase is Failed || (release_of(before.phase) is Some && release_of(after.phase) is Some
            && is_same_release(release_of(before.phase)->0, release_of(after.phase)->0)),
{
    match before.phase {
        Phase::CheckFile { release, index } => {},
        Phase::SetMode { release, index } => {},
        Phase::Prepare { release } => {},
        Phase::Probe { release } => {},
        Phase::Move { release } => {},
        Phase::Recheck { release, index } => {},
        Phase::SyncUnits { release } => {},
        Phase::Swap { release, changed } => {},
        Phase::Connect { release, changed } => {},
        Phase::Stop { release, changed, index } => {},
        Phase::Reload { release } => {},
        Phase::Start { release, index } => {},
        Phase::Prune { release } => {},
        Phase::UndoConnect { release, error } => {},
        Phase::UndoSwap { release, cause } => {},
        Phase::UndoRestart { release, cause, index } => {},
        _ => {},
    }
}

/// From its manifest on, a deploy is about one release, until it is over.
pub proof fn lemma_release_is_kept(states: Seq<Deploy>, events: Seq<Event>, m: int, n: int)
    requires
        is_run(states, events),
        0 <= m <= n < states.len(),
        release_of(states[m].phase) is Some,
    ensures
        states[n].phase is Failed || (release_of(states[n].phase) is Some && is_same_release(
            release_of(states[m].phase)->0,
            release_of(states[n].phase)->0,
        )),
    decreases n,
{
    if m < n {
        lemma_release_is_kept(states, events, m, n - 1);
        assert(is_step(states, events, n - 1));
        lemma_step_keeps_release(states[n - 1], events[n - 1], states[n]);
    }
}

/// Whether a step was to read the file at `path` below `dir`, and what was read
/// has the SHA-256 that is written in `sha256`.
pub open spec fn was_found_right(
    state: Deploy,
    event: Event,
    dir: Seq<u8>,
    path: Seq<char>,
    sha256: Seq<char>,
) -> bool {
    &&& due(state) == StepView::ReadFile(joined(dir, encode_utf8(path)))
    &&& event is File
    &&& event->File_0 is Ok
    &&& hex_bytes(sha256) == Some(sha256_digest(event->File_0->Ok_0@))
}

/// A file that was checked was found right, below the directory that the bundle
/// was unpacked into, or below the directory for the release.
proof fn lemma_checked_was_found_right(state: Deploy, event: Event, manifest: Manifest, i: int)
    ensures
        0 <= i < manifest.binaries@.len() && is_fact(
            state,
            event,
            Fact::FileChecked(manifest, i),
        ) ==> was_found_right(
            state,
            event,
            release_of(state.phase)->0.extract_dir@,
            manifest.binaries@[i].path@,
            manifest.binaries@[i].sha256@,
        ) && release_of(state.phase) is Some,
        0 <= i < manifest.units@.len() && is_fact(
            state,
            event,
            Fact::FileChecked(manifest, manifest.binaries@.len() + i),
        ) ==> was_found_right(
            state,
            event,
            release_of(state.phase)->0.extract_dir@,
            manifest.units@[i].path@,
            manifest.units@[i].sha256@,
        ) && release_of(state.phase) is Some,
        0 <= i < manifest.binaries@.len() && is_fact(
            state,
            event,
            Fact::FileRechecked(manifest, i),
        ) ==> was_found_right(
            state,
            event,
            place_for(release_of(state.phase)->0),
            manifest.binaries@[i].path@,
            manifest.binaries@[i].sha256@,
        ) && release_of(state.phase) is Some,
        0 <= i < manifest.units@.len() && is_fact(
            state,
            event,
            Fact::FileRechecked(manifest, manifest.binaries@.len() + i),
        ) ==> was_found_right(
            state,
            event,
            place_for(release_of(state.phase)->0),
            manifest.units@[i].path@,
            manifest.units@[i].sha256@,
        ) && release_of(state.phase) is Some,
{
}

/// Before anything that is installed is touched, every file that the manifest
/// lists has been read at its own path, below the directory that the bundle was
/// unpacked into, and had its own checksum: the `i`th binary, and the `i`th
/// unit. The steps at which that was are given.
#[verifier::rlimit(30)]
pub proof fn lemma_every_file_was_checked(
    states: Seq<Deploy>,
    events: Seq<Event>,
    n: int,
    i: int,
) -> (at: (int, int))
    requires
        is_run(states, events),
        0 <= n < states.len(),
        is_installing(due(states[n])),
    ensures
        release_of(states[n].phase) is Some,
        ({
            let release = release_of(states[n].phase)->0;
            let binary = release.manifest.binaries@[i];
            let unit = release.manifest.units@[i];
            let dir = release.extract_dir@;
            &&& 0 <= i < release.manifest.binaries@.len() ==> 0 <= at.0 < n && was_found_right(
                states[at.0],
                events[at.0],
                dir,
                binary.path@,
                binary.sha256@,
            )
            &&& 0 <= i < release.manifest.units@.len() ==> 0 <= at.1 < n && was_found_right(
                states[at.1],
                events[at.1],
                dir,
                unit.path@,
                unit.sha256@,
            )
        }),
{
    lemma_checked_before_installing(states, events, n);
    let manifest = release_of(states[n].phase)->0.manifest;
    let count = manifest.binaries@.len();
    let a = choose|a: int|
        0 <= a < n && #[trigger] is_fact(states[a], events[a], Fact::FileChecked(manifest, i));
    let b = choose|b: int|
        0 <= b < n && #[trigger] is_fact(
            states[b],
            events[b],
            Fact::FileChecked(manifest, count + i),
        );
    if 0 <= i < count {
        assert(seen(states, events, n, Fact::FileChecked(manifest, i)));
        lemma_checked_was_found_right(states[a], events[a], manifest, i);
        lemma_release_is_kept(states, events, a, n);
    }
    if 0 <= i < manifest.units@.len() {
        assert(seen(states, events, n, Fact::FileChecked(manifest, count + i)));
        lemma_checked_was_found_right(states[b], events[b], manifest, i);
        lemma_release_is_kept(states, events, b, n);
    }
    (a, b)
}

/// Before a release becomes the current one, every file that its manifest lists
/// has been read again where it was moved to, at its own path below the
/// directory for the release, and had its own checksum.
#[verifier::rlimit(30)]
pub proof fn lemma_every_file_was_rechecked(
    states: Seq<Deploy>,
    events: Seq<Event>,
    n: int,
    i: int,
) -> (at: (int, int))
    requires
        is_run(states, events),
        0 <= n < states.len(),
        states[n].phase is Swap,
    ensures
        ({
            let release = states[n].phase->Swap_release;
            let binary = release.manifest.binaries@[i];
            let unit = release.manifest.units@[i];
            let dir = place_for(release);
            &&& 0 <= i < release.manifest.binaries@.len() ==> 0 <= at.0 < n && was_found_right(
                states[at.0],
                events[at.0],
                dir,
                binary.path@,
                binary.sha256@,
            )
            &&& 0 <= i < release.manifest.units@.len() ==> 0 <= at.1 < n && was_found_right(
                states[at.1],
                events[at.1],
                dir,
                unit.path@,
                unit.sha256@,
            )
        }),
{
    let manifest = states[n].phase->Swap_release.manifest;
    let count = manifest.binaries@.len() as int;
    let a = choose|a: int|
        0 <= a < n && #[trigger] is_fact(states[a], events[a], Fact::FileRechecked(manifest, i));
    let b = choose|b: int|
        0 <= b < n && #[trigger] is_fact(
            states[b],
            events[b],
            Fact::FileRechecked(manifest, count + i),
        );
    if 0 <= i < count {
        lemma_rechecked_before_swap(states, events, n, i);
        assert(seen(states, events, n, Fact::FileRechecked(manifest, i)));
        lemma_checked_was_found_right(states[a], events[a], manifest, i);
        lemma_release_is_kept(states, events, a, n);
    }
    if 0 <= i < manifest.units@.len() {
        lemma_rechecked_before_swap(states, events, n, count + i);
        assert(seen(states, events, n, Fact::FileRechecked(manifest, count + i)));
        lemma_checked_was_found_right(states[b], events[b], manifest, i);
        lemma_release_is_kept(states, events, b, n);
    }
    (a, b)
}

/// A deploy that has succeeded has had each unit of the release stopped and
/// then started by its own name, but for the one that this program runs as. The
/// steps at which that was are given.
#[verifier::rlimit(30)]
pub proof fn lemma_every_unit_was_restarted(
    states: Seq<Deploy>,
    events: Seq<Event>,
    n: int,
    i: int,
) -> (at: (int, int))
    requires
        is_run(states, events),
        0 <= n < states.len(),
        states[n].phase is Deployed,
        0 <= i < states[n].phase->Deployed_release.manifest.units@.len(),
        states[n].phase->Deployed_release.manifest.units@[i].name@ != states[0].own_unit@,
    ensures
        ({
            let name = states[n].phase->Deployed_release.manifest.units@[i].name@;
            &&& 0 <= at.0 < n
            &&& due(states[at.0]) == StepView::StopUnit(name)
            &&& succeeds(events[at.0])
            &&& 0 <= at.1 < n
            &&& due(states[at.1]) == StepView::StartUnit(name)
            &&& succeeds(events[at.1])
        }),
{
    let release = states[n].phase->Deployed_release;
    lemma_run_establishes(states, events, n);
    lemma_first_undeclared(release.manifest.units@, release.config.allowed_units@, 0);
    assert(exists|j: int|
        0 <= j < release.config.allowed_units@.len() && (
        #[trigger] release.config.allowed_units@[j])@ == release.manifest.units@[i].name@);
    lemma_success_is_complete(states, events, n, i);
    let a = choose|a: int|
        0 <= a < n && #[trigger] is_fact(states[a], events[a], Fact::Stopped(i));
    let b = choose|b: int|
        0 <= b < n && #[trigger] is_fact(states[b], events[b], Fact::Started(i));
    assert(seen(states, events, n, Fact::Stopped(i)));
    assert(seen(states, events, n, Fact::Started(i)));
    lemma_release_is_kept(states, events, a, n);
    lemma_release_is_kept(states, events, b, n);
    (a, b)
}

/// What is sent is deployed: the headers that a bundle was signed with are read
/// as a request for that project and of that time, and the deploy of it goes on
/// to unpack the bundle where it has the secret that it was signed with.
pub proof fn lemma_sent_request_is_deployed(
    secret: Vec<u8>,
    timestamp: i64,
    project: Seq<char>,
    headers: SignedHeaders,
    request: Result<DeployRequest, RequestError>,
    before: Deploy,
    after: Deploy,
)
    requires
        is_signed(secret@, timestamp, project, before.body@, headers),
        is_request(
            HeaderValue::Text(headers.project),
            HeaderValue::Text(headers.timestamp),
            HeaderValue::Text(headers.signature),
            request,
        ),
        request is Ok ==> before.request == request->Ok_0,
        before.phase is ReadSecret,
        follows(before, Event::Secret(Lookup::Found(secret)), after),
    ensures
        request is Ok,
        request->Ok_0.project@ == project,
        request->Ok_0.timestamp == timestamp,
        after.phase == (Phase::Unpack { config: before.phase->ReadSecret_config }),
{
    lemma_sent_request_is_accepted(headers, secret@, timestamp, before.body@);
}

/// What is built is deployed: a manifest that was made for a project is accepted
/// by a deploy for that project, where its policy allows each unit, and the
/// deploy goes on with the first of the files that were listed.
pub proof fn lemma_built_manifest_is_accepted(
    git_sha: Seq<char>,
    built_at: BuildTime,
    build_meta: Seq<(String, String)>,
    binaries: Vec<BinaryEntry>,
    units: Vec<UnitEntry>,
    manifest: Manifest,
    before: Deploy,
    after: Deploy,
)
    requires
        is_new_manifest(
            before.request.project@,
            git_sha,
            built_at,
            build_meta,
            binaries,
            units,
            manifest,
        ),
        0 < binaries@.len() + units@.len() <= usize::MAX,
        before.phase is ReadManifest,
        forall|i: int|
            0 <= i < units@.len() ==> exists|j: int|
                0 <= j < before.phase->ReadManifest_config.allowed_units@.len() && (
                #[trigger] before.phase->ReadManifest_config.allowed_units@[j])@ == (
                #[trigger] units@[i]).name@,
        follows(before, Event::Manifest(Ok(manifest)), after),
    ensures
        after.phase is CheckFile,
        after.phase->CheckFile_index == 0,
        ({
            let kept = after.phase->CheckFile_release.manifest;
            &&& kept.project@ == before.request.project@
            &&& kept.git_sha@ == git_sha
            &&& kept.built_at == built_at
            &&& is_collected(build_meta, kept.build_meta@)
            &&& kept.binaries == binaries
            &&& kept.units == units
        }),
{
    lemma_manifest_is_judged(before, Event::Manifest(Ok(manifest)), after, 0);
}

/// A step shows what it holds: its paths byte for byte, its names as they are,
/// and its numbers.
pub proof fn lemma_step_shows_what_it_holds(step: Step)
    ensures
        match step {
            Step::ReadClock => step@ is ReadClock,
            Step::LoadConfig(path) => step@ == StepView::LoadConfig(path.bytes@),
            Step::ReadSecret(path) => step@ == StepView::ReadSecret(path.bytes@),
            Step::Unpack => step@ is Unpack,
            Step::ReadManifest(path) => step@ == StepView::ReadManifest(path.bytes@),
            Step::ReadFile(path) => step@ == StepView::ReadFile(path.bytes@),
            Step::SetMode { path, mode } => step@ is SetMode && step@->path == path.bytes@
                && step@->mode == mode,
            Step::Prepare { releases_dir, current_link } => step@ is Prepare && step@->releases_dir
                == releases_dir.bytes@ && step@->current_link == current_link.bytes@,
            Step::Probe(path) => step@ == StepView::Probe(path.bytes@),
            Step::Move { from, to } => step@ is Move && step@->from == from.bytes@ && step@->to
                == to.bytes@,
            Step::SyncUnits { release_dir } => step@ is SyncUnits
                && step@->SyncUnits_release_dir == release_dir.bytes@,
            Step::Swap { app_root, release_dir } => step@ is Swap && step@->Swap_app_root
                == app_root.bytes@ && step@->Swap_release_dir == release_dir.bytes@,
            Step::Connect => step@ is Connect,
            Step::StopUnit(name) => step@ == StepView::StopUnit(name@),
            Step::Reload => step@ is Reload,
            Step::StartUnit(name) => step@ == StepView::StartUnit(name@),
            Step::RestartUnit(name) => step@ == StepView::RestartUnit(name@),
            Step::Prune { app_root, retain_count } => step@ is Prune && step@->Prune_app_root
                == app_root.bytes@ && step@->retain_count == retain_count,
            Step::Respond(response) => step@ is Respond && step@->status == response.status
                && step@->body == response.body@ && step@->restart == response.restart,
        },
{
}

} // verus!
