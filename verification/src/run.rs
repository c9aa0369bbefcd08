//! What holds of every run of a deploy, whatever the steps come to.

use vstd::prelude::*;
use vstd::utf8::*;

use crate::bundle::{file_matches, lemma_safe_path_stays_inside, listed_count};
use crate::deploy::{
    cause_text, due, failure_view, first_undeclared, follows, is_inner_index, is_managed_index,
    lemma_advance_keeps_wf, lemma_next_inner, lemma_next_managed, undo_view, Deploy, Event, Phase,
    Release, StepView,
};
use crate::hmac::is_signature;
use crate::manifest::Manifest;
use crate::path::{file_name, is_within, joined, parts, Part};
use crate::release::{
    current_path, is_current, lemma_swap_leads_back, link_target, linked_release, links_behind,
    releases_path, swap_steps, tmp_path,
};
use crate::request::in_window;
use crate::text::has_name;

verus! {

/// Something that has come to pass in a run.
pub enum Fact {
    /// The request's timestamp was found to be close enough to the clock.
    Recent,
    /// The signature of the request was found to be right.
    Signed,
    /// A file that the manifest lists was found to have its checksum.
    FileChecked(Manifest, int),
    /// The binary at this index in the manifest was given its mode.
    ModeSet(int),
    /// The release was moved to its directory.
    Moved,
    /// A file that the manifest lists was found to have its checksum in the
    /// directory of the release.
    FileRechecked(Manifest, int),
    /// A unit file was written.
    UnitsChanged,
    /// The release became the current one.
    Swapped,
    /// The unit at this index in the manifest was stopped.
    Stopped(int),
    /// The unit files were reloaded.
    Reloaded,
    /// The unit at this index in the manifest was started.
    Started(int),
    /// The previous release became the current one again.
    PutBack,
    /// The unit at this index among those that the project may touch was
    /// restarted.
    Restarted(int),
}

/// Whether a fact comes to pass by `event`.
pub open spec fn is_fact(before: Deploy, event: Event, fact: Fact) -> bool {
    let request = before.request;
    match fact {
        Fact::Recent => before.phase is ReadClock && event is Clock && event->Clock_0 is Ok
            && in_window(request.timestamp as int, event->Clock_0->Ok_0 as int),
        Fact::Signed => before.phase is ReadSecret && event is Secret && event->Secret_0 is Found
            && is_signature(
            event->Secret_0->Found_0@,
            request.timestamp as int,
            request.project@,
            before.body@,
            request.signature_hex@,
        ),
        Fact::FileChecked(manifest, at) => before.phase is CheckFile
            && before.phase->CheckFile_release.manifest == manifest && before.phase->CheckFile_index
            == at && event is File && event->File_0 is Ok && file_matches(
            manifest,
            at,
            event->File_0->Ok_0@,
        ),
        Fact::ModeSet(at) => before.phase is SetMode && before.phase->SetMode_index == at
            && succeeds(event),
        Fact::Moved => before.phase is Move && succeeds(event),
        Fact::FileRechecked(manifest, at) => before.phase is Recheck
            && before.phase->Recheck_release.manifest == manifest && before.phase->Recheck_index
            == at && event is File && event->File_0 is Ok && file_matches(
            manifest,
            at,
            event->File_0->Ok_0@,
        ),
        Fact::UnitsChanged => before.phase is SyncUnits && event is Synced && event->Synced_0
            == Ok::<bool, String>(true),
        Fact::Swapped => before.phase is Swap && succeeds(event),
        Fact::Stopped(at) => before.phase is Stop && before.phase->Stop_index == at && succeeds(
            event,
        ),
        Fact::Reloaded => before.phase is Reload && succeeds(event),
        Fact::Started(at) => before.phase is Start && before.phase->Start_index == at && succeeds(
            event,
        ),
        Fact::PutBack => before.phase is UndoSwap && succeeds(event),
        Fact::Restarted(at) => before.phase is UndoRestart && before.phase->UndoRestart_index == at
            && succeeds(event),
    }
}

/// Whether an event says that something was done.
pub open spec fn succeeds(event: Event) -> bool {
    event is Done && event->Done_0 is Ok
}

/// Whether `states` is a run that `events` lead through.
pub open spec fn is_run(states: Seq<Deploy>, events: Seq<Event>) -> bool {
    &&& states.len() == events.len() + 1
    &&& states[0].phase is ReadClock
    &&& forall|i: int| 0 <= i < events.len() ==> #[trigger] is_step(states, events, i)
}

/// Whether a run goes on from its `i`th state as its `i`th event says.
pub open spec fn is_step(states: Seq<Deploy>, events: Seq<Event>, i: int) -> bool {
    follows(states[i], events[i], states[i + 1])
}

/// Whether a fact has come to pass in the first `n` steps of a run.
pub open spec fn seen(states: Seq<Deploy>, events: Seq<Event>, n: int, fact: Fact) -> bool {
    exists|i: int| 0 <= i < n && #[trigger] is_fact(states[i], events[i], fact)
}

/// The release that a deploy has come to, once its manifest was accepted.
pub open spec fn release_of(phase: Phase) -> Option<Release> {
    match phase {
        Phase::ReadClock => None,
        Phase::LoadConfig => None,
        Phase::ReadSecret { config } => None,
        Phase::Unpack { config } => None,
        Phase::ReadManifest { config, extract_dir } => None,
        Phase::CheckFile { release, index } => Some(release),
        Phase::SetMode { release, index } => Some(release),
        Phase::Prepare { release } => Some(release),
        Phase::Probe { release } => Some(release),
        Phase::Move { release } => Some(release),
        Phase::Recheck { release, index } => Some(release),
        Phase::SyncUnits { release } => Some(release),
        Phase::Swap { release, changed } => Some(release),
        Phase::Connect { release, changed } => Some(release),
        Phase::Stop { release, changed, index } => Some(release),
        Phase::Reload { release } => Some(release),
        Phase::Start { release, index } => Some(release),
        Phase::Prune { release } => Some(release),
        Phase::UndoConnect { release, error } => Some(release),
        Phase::UndoSwap { release, cause } => Some(release),
        Phase::UndoRestart { release, cause, index } => Some(release),
        Phase::Deployed { release } => Some(release),
        Phase::Failed(message) => None,
    }
}

/// How many files of the release have been checked.
pub open spec fn checked_count(phase: Phase) -> int {
    match phase {
        Phase::CheckFile { release, index } => index as int,
        _ => match release_of(phase) {
            Some(release) => listed_count(release.manifest) as int,
            None => 0,
        },
    }
}

/// How many binaries of the release have been given their mode, of those whose
/// path stays inside the bundle.
pub open spec fn mode_count(phase: Phase) -> int {
    match phase {
        Phase::CheckFile { release, index } => 0,
        Phase::SetMode { release, index } => index as int,
        _ => match release_of(phase) {
            Some(release) => release.manifest.binaries@.len() as int,
            None => 0,
        },
    }
}

/// How many files have been checked where they have been moved to.
pub open spec fn rechecked_count(phase: Phase) -> int {
    match phase {
        Phase::Recheck { release, index } => index as int,
        _ => if is_past_recheck(phase) {
            listed_count(release_of(phase)->0.manifest) as int
        } else {
            0
        },
    }
}

/// Whether the signature has been checked.
pub open spec fn is_past_secret(phase: Phase) -> bool {
    phase is Unpack || phase is ReadManifest || release_of(phase) is Some
}

/// Whether the release has been moved to its directory.
pub open spec fn is_past_move(phase: Phase) -> bool {
    phase is Recheck || is_past_recheck(phase)
}

/// Whether every file has been checked where it has been moved to.
pub open spec fn is_past_recheck(phase: Phase) -> bool {
    phase is SyncUnits || phase is Swap || is_past_swap(phase)
}

/// Whether the release has become the current one.
pub open spec fn is_past_swap(phase: Phase) -> bool {
    phase is Connect || phase is Stop || phase is UndoConnect || phase is UndoSwap
        || phase is UndoRestart || is_past_stop(phase)
}

/// Whether every managed unit has been stopped.
pub open spec fn is_past_stop(phase: Phase) -> bool {
    phase is Reload || is_past_reload(phase)
}

/// Whether the unit files have been reloaded, where that was needed.
pub open spec fn is_past_reload(phase: Phase) -> bool {
    phase is Start || is_past_start(phase)
}

/// Whether every managed unit has been started.
pub open spec fn is_past_start(phase: Phase) -> bool {
    phase is Prune || phase is Deployed
}

/// How many units have been stopped, of those that are managed.
pub open spec fn stopped_count(phase: Phase) -> int {
    match phase {
        Phase::Stop { release, changed, index } => index as int,
        _ => if is_past_stop(phase) {
            release_of(phase)->0.manifest.units@.len() as int
        } else {
            0
        },
    }
}

/// How many units have been started, of those that are managed.
pub open spec fn started_count(phase: Phase) -> int {
    match phase {
        Phase::Start { release, index } => index as int,
        _ => if is_past_start(phase) {
            release_of(phase)->0.manifest.units@.len() as int
        } else {
            0
        },
    }
}

/// What has come to pass when a deploy is where it is.
pub open spec fn established(deploy: Deploy, known: spec_fn(Fact) -> bool) -> bool {
    let phase = deploy.phase;
    let release = release_of(phase)->0;
    &&& !(phase is ReadClock || phase is Failed) ==> known(Fact::Recent)
    &&& is_past_secret(phase) ==> known(Fact::Signed)
    &&& forall|k: int|
        0 <= k < checked_count(phase) ==> #[trigger] known(Fact::FileChecked(release.manifest, k))
    &&& forall|k: int|
        0 <= k < mode_count(phase) && is_inner_index(release, k) ==> #[trigger] known(
            Fact::ModeSet(k),
        )
    &&& is_past_move(phase) ==> known(Fact::Moved)
    &&& forall|k: int|
        0 <= k < rechecked_count(phase) ==> #[trigger] known(
            Fact::FileRechecked(release.manifest, k),
        )
    &&& is_past_swap(phase) ==> known(Fact::Swapped)
    &&& match phase {
        Phase::Swap { release, changed } => changed == known(Fact::UnitsChanged),
        Phase::Connect { release, changed } => changed == known(Fact::UnitsChanged),
        Phase::Stop { release, changed, index } => changed == known(Fact::UnitsChanged),
        Phase::Reload { release } => known(Fact::UnitsChanged),
        _ => !is_past_recheck(phase) || phase is SyncUnits ==> phase is Failed || !known(
            Fact::UnitsChanged,
        ),
    }
    &&& forall|k: int|
        0 <= k < stopped_count(phase) && is_managed_index(release, deploy.own_unit@, k)
            ==> #[trigger] known(Fact::Stopped(k))
    &&& is_past_reload(phase) && known(Fact::UnitsChanged) ==> known(Fact::Reloaded)
    &&& forall|k: int|
        0 <= k < started_count(phase) && is_managed_index(release, deploy.own_unit@, k)
            ==> #[trigger] known(Fact::Started(k))
    &&& phase is UndoRestart && release.previous is Some ==> known(Fact::PutBack)
    &&& phase matches Phase::UndoRestart { release, cause, index } ==> forall|k: int|
        0 <= k < index ==> #[trigger] known(Fact::Restarted(k))
}

/// The facts behind one more step.
pub open spec fn grown(
    before: Deploy,
    event: Event,
    known: spec_fn(Fact) -> bool,
) -> spec_fn(Fact) -> bool {
    |fact: Fact| known(fact) || is_fact(before, event, fact)
}

/// A step keeps what has been established, and adds what it does.
#[verifier::rlimit(40)]
proof fn lemma_step_establishes(
    before: Deploy,
    event: Event,
    after: Deploy,
    known: spec_fn(Fact) -> bool,
)
    requires
        before.wf(),
        follows(before, event, after),
        established(before, known),
    ensures
        established(after, grown(before, event, known)),
{
    let own_unit = before.own_unit@;
    let now = grown(before, event, known);
    assert forall|fact: Fact| known(fact) implies #[trigger] now(fact) by {}
    assert forall|fact: Fact| is_fact(before, event, fact) implies #[trigger] now(fact) by {}
    match before.phase {
        Phase::CheckFile { release, index } => {
            lemma_next_inner(release.manifest.binaries@, 0);
        },
        Phase::SetMode { release, index } => {
            lemma_next_inner(release.manifest.binaries@, index + 1);
        },
        Phase::Connect { release, changed } => {
            lemma_next_managed(release.manifest.units@, own_unit, release.config.allowed_units@, 0);
        },
        Phase::Stop { release, changed, index } => {
            lemma_next_managed(
                release.manifest.units@,
                own_unit,
                release.config.allowed_units@,
                index + 1,
            );
            lemma_next_managed(release.manifest.units@, own_unit, release.config.allowed_units@, 0);
        },
        Phase::Reload { release } => {
            lemma_next_managed(release.manifest.units@, own_unit, release.config.allowed_units@, 0);
        },
        Phase::Start { release, index } => {
            lemma_next_managed(
                release.manifest.units@,
                own_unit,
                release.config.allowed_units@,
                index + 1,
            );
        },
        _ => {},
    }
}

/// At every point of a run its state is well-formed, still speaks of the same
/// request, and what its phase stands for has come to pass.
pub proof fn lemma_run_establishes(states: Seq<Deploy>, events: Seq<Event>, n: int)
    requires
        is_run(states, events),
        0 <= n < states.len(),
    ensures
        states[n].wf(),
        states[n].config_root == states[0].config_root,
        states[n].own_unit == states[0].own_unit,
        states[n].request == states[0].request,
        states[n].body == states[0].body,
        established(states[n], |fact: Fact| seen(states, events, n, fact)),
    decreases n,
{
    let known = |fact: Fact| seen(states, events, n, fact);
    if n > 0 {
        lemma_run_establishes(states, events, n - 1);
        assert(is_step(states, events, n - 1));
        let earlier = |fact: Fact| seen(states, events, n - 1, fact);
        lemma_advance_keeps_wf(states[n - 1], events[n - 1], states[n]);
        lemma_step_establishes(states[n - 1], events[n - 1], states[n], earlier);
        let after = grown(states[n - 1], events[n - 1], earlier);
        assert forall|fact: Fact| #[trigger] known(fact) == after(fact) by {
            if seen(states, events, n - 1, fact) {
                let i = choose|i: int|
                    0 <= i < n - 1 && #[trigger] is_fact(states[i], events[i], fact);
                assert(0 <= i < n && is_fact(states[i], events[i], fact));
            }
            if seen(states, events, n, fact) {
                let i = choose|i: int| 0 <= i < n && #[trigger] is_fact(states[i], events[i], fact);
                if i < n - 1 {
                    assert(seen(states, events, n - 1, fact));
                }
            }
            if is_fact(states[n - 1], events[n - 1], fact) {
                assert(seen(states, events, n, fact));
            }
        }
        assert(known =~= after);
    }
}

/// Whether a step only reads, or answers that the deploy has failed.
pub open spec fn is_harmless(step: StepView) -> bool {
    match step {
        StepView::ReadClock => true,
        StepView::LoadConfig(path) => true,
        StepView::ReadSecret(path) => true,
        StepView::Respond { status, body, restart } => status == 400 && !restart,
        _ => false,
    }
}

/// Without the right signature nothing is unpacked, moved, or told to systemd:
/// until it has been seen, the steps are to read the clock, the policy and the
/// secret, or to answer with a failure.
pub proof fn lemma_unsigned_changes_nothing(states: Seq<Deploy>, events: Seq<Event>, n: int)
    requires
        is_run(states, events),
        0 <= n < states.len(),
        !seen(states, events, n, Fact::Signed) || !seen(states, events, n, Fact::Recent),
    ensures
        is_harmless(due(states[n])),
{
    lemma_run_establishes(states, events, n);
    let known = |fact: Fact| seen(states, events, n, fact);
    assert(known(Fact::Signed) == seen(states, events, n, Fact::Signed));
    assert(known(Fact::Recent) == seen(states, events, n, Fact::Recent));
}

/// Whether a step changes a file that was unpacked, or touches what the project
/// has installed.
pub open spec fn is_installing(step: StepView) -> bool {
    match step {
        StepView::SetMode { path, mode } => true,
        StepView::Prepare { releases_dir, current_link } => true,
        StepView::Probe(path) => true,
        StepView::Move { from, to } => true,
        StepView::SyncUnits { release_dir } => true,
        StepView::Swap { app_root, release_dir } => true,
        StepView::Connect => true,
        StepView::StopUnit(name) => true,
        StepView::Reload => true,
        StepView::StartUnit(name) => true,
        StepView::RestartUnit(name) => true,
        StepView::Prune { app_root, retain_count } => true,
        _ => false,
    }
}

/// No file is changed and nothing that is installed is touched before the
/// bundle has been found to be in order: its manifest is for the project of the
/// request, lists only units that the project may touch, and every file has its
/// checksum.
pub proof fn lemma_checked_before_installing(states: Seq<Deploy>, events: Seq<Event>, n: int)
    requires
        is_run(states, events),
        0 <= n < states.len(),
        is_installing(due(states[n])),
    ensures
        seen(states, events, n, Fact::Recent),
        seen(states, events, n, Fact::Signed),
        release_of(states[n].phase) is Some,
        ({
            let release = release_of(states[n].phase)->0;
            &&& release.manifest.project@ == states[0].request.project@
            &&& release.manifest.schema_version == 1
            &&& forall|i: int|
                0 <= i < release.manifest.units@.len() ==> has_name(
                    release.config.allowed_units@,
                    (#[trigger] release.manifest.units@[i]).name@,
                )
            &&& forall|k: int|
                0 <= k < listed_count(release.manifest) ==> #[trigger] seen(
                    states,
                    events,
                    n,
                    Fact::FileChecked(release.manifest, k),
                )
        }),
{
    lemma_run_establishes(states, events, n);
    let known = |fact: Fact| seen(states, events, n, fact);
    let release = release_of(states[n].phase)->0;
    assert(known(Fact::Signed) == seen(states, events, n, Fact::Signed));
    assert(known(Fact::Recent) == seen(states, events, n, Fact::Recent));
    assert forall|k: int| 0 <= k < listed_count(release.manifest) implies #[trigger] seen(
        states,
        events,
        n,
        Fact::FileChecked(release.manifest, k),
    ) by {
        assert(known(Fact::FileChecked(release.manifest, k)));
    }
    lemma_all_declared(release.manifest, release.config.allowed_units@, 0);
}

/// Where no unit is undeclared, all are declared.
proof fn lemma_all_declared(manifest: Manifest, allowed: Seq<String>, from: int)
    requires
        0 <= from <= manifest.units@.len(),
        first_undeclared(manifest.units@, allowed, from) >= manifest.units@.len(),
    ensures
        forall|i: int|
            from <= i < manifest.units@.len() ==> has_name(
                allowed,
                (#[trigger] manifest.units@[i]).name@,
            ),
    decreases manifest.units@.len() - from,
{
    if from < manifest.units@.len() {
        lemma_all_declared(manifest, allowed, from + 1);
    }
}

/// systemd is told only of units that the project may touch, and never to stop
/// or start the unit that this program runs as.
pub proof fn lemma_touches_only_allowed_units(deploy: Deploy, name: Seq<char>)
    requires
        deploy.wf(),
        due(deploy) == StepView::StopUnit(name) || due(deploy) == StepView::StartUnit(name) || due(
            deploy,
        ) == StepView::RestartUnit(name),
    ensures
        release_of(deploy.phase) is Some,
        has_name(release_of(deploy.phase)->0.config.allowed_units@, name),
        due(deploy) is StopUnit || due(deploy) is StartUnit ==> name != deploy.own_unit@,
{
    if let Phase::UndoRestart { release, cause, index } = deploy.phase {
        assert(release.config.allowed_units@[index as int]@ == name);
    }
}

/// A mode is given only to what is inside the directory that the bundle was
/// unpacked into: below it, only names are appended to its path.
pub proof fn lemma_modes_stay_inside(deploy: Deploy, path: Seq<u8>, mode: u32)
    requires
        deploy.wf(),
        due(deploy) == (StepView::SetMode { path, mode }),
        release_of(deploy.phase)->0.extract_dir@.len() > 0,
    ensures
        ({
            let dir = release_of(deploy.phase)->0.extract_dir@;
            &&& is_within(path, dir)
            &&& forall|i: int|
                parts(dir).len() <= i < parts(path).len() ==> (#[trigger] parts(path)[i]) is Name
        }),
{
    if let Phase::SetMode { release, index } = deploy.phase {
        lemma_safe_path_stays_inside(
            release.extract_dir@,
            encode_utf8(release.manifest.binaries@[index as int].path@),
        );
    }
}

/// Before a release becomes the current one, every file has had its checksum
/// twice, where it was unpacked and where it was moved to, and every binary whose
/// path stays inside the bundle has been given its mode.
pub proof fn lemma_rechecked_before_swap(states: Seq<Deploy>, events: Seq<Event>, n: int, at: int)
    requires
        is_run(states, events),
        0 <= n < states.len(),
        states[n].phase is Swap,
    ensures
        ({
            let manifest = states[n].phase->Swap_release.manifest;
            &&& 0 <= at < listed_count(manifest) ==> seen(
                states,
                events,
                n,
                Fact::FileChecked(manifest, at),
            ) && seen(states, events, n, Fact::FileRechecked(manifest, at))
            &&& is_inner_index(states[n].phase->Swap_release, at) ==> seen(
                states,
                events,
                n,
                Fact::ModeSet(at),
            )
        }),
{
    lemma_run_establishes(states, events, n);
    let known = |fact: Fact| seen(states, events, n, fact);
    let manifest = states[n].phase->Swap_release.manifest;
    if 0 <= at < listed_count(manifest) {
        assert(known(Fact::FileChecked(manifest, at)));
        assert(known(Fact::FileRechecked(manifest, at)));
    }
    if is_inner_index(states[n].phase->Swap_release, at) {
        assert(known(Fact::ModeSet(at)));
    }
}

/// No unit is started while one of the old release may still run: every
/// managed unit has been stopped before the first is started, and the unit
/// files have been reloaded in between where one was written.
pub proof fn lemma_stopped_before_started(states: Seq<Deploy>, events: Seq<Event>, n: int, at: int)
    requires
        is_run(states, events),
        0 <= n < states.len(),
        states[n].phase is Start,
        is_managed_index(states[n].phase->Start_release, states[0].own_unit@, at),
    ensures
        seen(states, events, n, Fact::Stopped(at)),
        seen(states, events, n, Fact::Swapped),
        seen(states, events, n, Fact::UnitsChanged) ==> seen(states, events, n, Fact::Reloaded),
{
    lemma_run_establishes(states, events, n);
    let known = |fact: Fact| seen(states, events, n, fact);
    assert(known(Fact::Stopped(at)) == seen(states, events, n, Fact::Stopped(at)));
    assert(known(Fact::Swapped) == seen(states, events, n, Fact::Swapped));
    assert(known(Fact::UnitsChanged) == seen(states, events, n, Fact::UnitsChanged));
    assert(known(Fact::Reloaded) == seen(states, events, n, Fact::Reloaded));
}

/// A deploy that is told to have succeeded did all of it: the request was
/// recent and signed, the release was moved into place and became the current
/// one, and every managed unit was stopped and started.
pub proof fn lemma_success_is_complete(states: Seq<Deploy>, events: Seq<Event>, n: int, at: int)
    requires
        is_run(states, events),
        0 <= n < states.len(),
        states[n].phase is Deployed,
    ensures
        seen(states, events, n, Fact::Recent),
        seen(states, events, n, Fact::Signed),
        seen(states, events, n, Fact::Moved),
        seen(states, events, n, Fact::Swapped),
        seen(states, events, n, Fact::UnitsChanged) ==> seen(states, events, n, Fact::Reloaded),
        is_managed_index(states[n].phase->Deployed_release, states[0].own_unit@, at) ==> seen(
            states,
            events,
            n,
            Fact::Stopped(at),
        ) && seen(states, events, n, Fact::Started(at)),
        0 <= at < listed_count(states[n].phase->Deployed_release.manifest) ==> seen(
            states,
            events,
            n,
            Fact::FileChecked(states[n].phase->Deployed_release.manifest, at),
        ),
{
    lemma_run_establishes(states, events, n);
    let known = |fact: Fact| seen(states, events, n, fact);
    let manifest = states[n].phase->Deployed_release.manifest;
    assert(known(Fact::Recent) == seen(states, events, n, Fact::Recent));
    assert(known(Fact::Signed) == seen(states, events, n, Fact::Signed));
    assert(known(Fact::Moved) == seen(states, events, n, Fact::Moved));
    assert(known(Fact::Swapped) == seen(states, events, n, Fact::Swapped));
    assert(known(Fact::UnitsChanged) == seen(states, events, n, Fact::UnitsChanged));
    assert(known(Fact::Reloaded) == seen(states, events, n, Fact::Reloaded));
    assert(known(Fact::Stopped(at)) == seen(states, events, n, Fact::Stopped(at)));
    assert(known(Fact::Started(at)) == seen(states, events, n, Fact::Started(at)));
    assert(known(Fact::FileChecked(manifest, at)) == seen(
        states,
        events,
        n,
        Fact::FileChecked(manifest, at),
    ));
}

/// A unit that does not stop or start, or a reload that fails, is answered by
/// putting the previous release back, where there was one.
pub proof fn lemma_failure_rolls_back(before: Deploy, event: Event, after: Deploy)
    requires
        before.wf(),
        follows(before, event, after),
        before.phase is Stop || before.phase is Reload || before.phase is Start,
        event is Done,
        event->Done_0 is Err,
        release_of(before.phase)->0.previous is Some,
    ensures
        after.phase is UndoSwap,
        after.phase->UndoSwap_release == release_of(before.phase)->0,
        due(after) == undo_view(release_of(before.phase)->0),
{
}

/// Rolling back leads back: once the step that puts the previous release back
/// is carried out, the link to the current release leads to the directory that
/// it led to before the deploy, where that was one of the releases.
pub proof fn lemma_rollback_leads_back(
    release: Release,
    name: Seq<u8>,
    links: Map<Seq<u8>, Seq<u8>>,
)
    requires
        release.previous is Some,
        parts(joined(release.config.install_dir@, release.previous->0@)) == parts(
            releases_path(release.config.install_dir@),
        ).push(Part::Name(name)),
    ensures
        ({
            let app_root = release.config.install_dir@;
            let dir = joined(app_root, release.previous->0@);
            let after = links_behind(
                links,
                swap_steps(
                    tmp_path(app_root),
                    link_target(file_name(dir)->0),
                    current_path(app_root),
                ),
            );
            &&& undo_view(release) == (StepView::Swap { app_root, release_dir: dir })
            &&& file_name(dir) is Some
            &&& after.contains_key(current_path(app_root))
            &&& is_current(dir, linked_release(app_root, Some(after[current_path(app_root)])))
        }),
{
    lemma_swap_leads_back(release.config.install_dir@, release.previous->0@, name, links);
}

/// Where there was no previous release, rolling back leaves the link to the
/// current one as it is: units are restarted, or the failure is told.
pub proof fn lemma_rollback_without_previous(before: Deploy, event: Event, after: Deploy)
    requires
        before.wf(),
        follows(before, event, after),
        before.phase is Stop || before.phase is Reload || before.phase is Start
            || before.phase is UndoRestart,
        event is Done,
        event->Done_0 is Err || before.phase is UndoRestart,
        release_of(before.phase)->0.previous is None,
    ensures
        after.phase is UndoRestart || after.phase is Failed,
        due(after) is RestartUnit || due(after) is Respond,
{
}

/// A rollback that fails is told as such, behind what made the deploy fail.
pub proof fn lemma_failed_rollback_is_told(before: Deploy, event: Event, after: Deploy)
    requires
        before.wf(),
        follows(before, event, after),
        before.phase is UndoSwap || before.phase is UndoRestart,
        event is Done,
        event->Done_0 is Err,
    ensures
        ({
            let cause = if before.phase is UndoSwap {
                before.phase->UndoSwap_cause
            } else {
                before.phase->UndoRestart_cause
            };
            due(after) == failure_view(
                cause_text(release_of(before.phase)->0, cause) + ". ROLLBACK FAILED: "@
                    + event->Done_0->Err_0@,
            )
        }),
{
}

/// Where the bus cannot be reached, the previous release is put back, where
/// there was one, and what kept the bus from being reached is told whether or
/// not that succeeds.
pub proof fn lemma_no_bus_puts_back(
    before: Deploy,
    event: Event,
    between: Deploy,
    undone: Event,
    after: Deploy,
)
    requires
        before.wf(),
        before.phase is Connect,
        event is Done,
        event->Done_0 is Err,
        before.phase->Connect_release.previous is Some,
        follows(before, event, between),
        undone is Done,
        follows(between, undone, after),
    ensures
        due(between) == undo_view(before.phase->Connect_release),
        due(after) == failure_view(event->Done_0->Err_0@),
{
}

/// A rollback that is told to have succeeded is complete: the previous release
/// is the current one again, where there was one, and every unit that the
/// project may touch has been restarted.
pub proof fn lemma_rollback_is_complete(states: Seq<Deploy>, events: Seq<Event>, n: int, at: int)
    requires
        is_run(states, events),
        0 <= n < events.len(),
        states[n].phase is UndoSwap || states[n].phase is UndoRestart,
        succeeds(events[n]),
        states[n + 1].phase is Failed,
    ensures
        ({
            let release = release_of(states[n].phase)->0;
            let cause = if states[n].phase is UndoSwap {
                states[n].phase->UndoSwap_cause
            } else {
                states[n].phase->UndoRestart_cause
            };
            &&& states[n + 1].phase->Failed_0@ == cause_text(release, cause)
                + ". Rollback successful."@
            &&& release.previous is Some ==> seen(states, events, n + 1, Fact::PutBack)
            &&& 0 <= at < release.config.allowed_units@.len() ==> seen(
                states,
                events,
                n + 1,
                Fact::Restarted(at),
            )
        }),
{
    lemma_run_establishes(states, events, n);
    assert(is_step(states, events, n));
    let known = |fact: Fact| seen(states, events, n, fact);
    let release = release_of(states[n].phase)->0;
    if states[n].phase is UndoSwap {
        assert(is_fact(states[n], events[n], Fact::PutBack));
        assert(seen(states, events, n + 1, Fact::PutBack));
    } else {
        if release.previous is Some {
            assert(known(Fact::PutBack));
            let i = choose|i: int|
                0 <= i < n && #[trigger] is_fact(states[i], events[i], Fact::PutBack);
            assert(0 <= i < n + 1 && is_fact(states[i], events[i], Fact::PutBack));
        }
        if 0 <= at < release.config.allowed_units@.len() {
            if at < states[n].phase->UndoRestart_index {
                assert(known(Fact::Restarted(at)));
                let i = choose|i: int|
                    0 <= i < n && #[trigger] is_fact(states[i], events[i], Fact::Restarted(at));
                assert(0 <= i < n + 1 && is_fact(states[i], events[i], Fact::Restarted(at)));
            } else {
                assert(is_fact(states[n], events[n], Fact::Restarted(at)));
            }
        }
    }
}

/// Whether an event belongs to the step that is due.
pub open spec fn answers(deploy: Deploy, event: Event) -> bool {
    match deploy.phase {
        Phase::ReadClock => event is Clock,
        Phase::LoadConfig => event is Config,
        Phase::ReadSecret { config } => event is Secret,
        Phase::Unpack { config } => event is Unpacked,
        Phase::ReadManifest { config, extract_dir } => event is Manifest,
        Phase::CheckFile { release, index } => event is File,
        Phase::Recheck { release, index } => event is File,
        Phase::Prepare { release } => event is Prepared,
        Phase::Probe { release } => event is Probed,
        Phase::SyncUnits { release } => event is Synced,
        Phase::Deployed { release } => false,
        Phase::Failed(message) => false,
        _ => event is Done,
    }
}

/// How many phases lie ahead at most.
pub open spec fn stage(phase: Phase) -> int {
    match phase {
        Phase::ReadClock => 19,
        Phase::LoadConfig => 18,
        Phase::ReadSecret { config } => 17,
        Phase::Unpack { config } => 16,
        Phase::ReadManifest { config, extract_dir } => 15,
        Phase::CheckFile { release, index } => 14,
        Phase::SetMode { release, index } => 13,
        Phase::Prepare { release } => 12,
        Phase::Probe { release } => 11,
        Phase::Move { release } => 10,
        Phase::Recheck { release, index } => 9,
        Phase::SyncUnits { release } => 8,
        Phase::Swap { release, changed } => 7,
        Phase::Connect { release, changed } => 6,
        Phase::Stop { release, changed, index } => 5,
        Phase::Reload { release } => 4,
        Phase::Start { release, index } => 3,
        Phase::Prune { release } => 2,
        Phase::UndoConnect { release, error } => 2,
        Phase::UndoSwap { release, cause } => 2,
        Phase::UndoRestart { release, cause, index } => 1,
        Phase::Deployed { release } => 0,
        Phase::Failed(message) => 0,
    }
}

/// How much of a phase lies ahead.
pub open spec fn left(phase: Phase) -> int {
    match phase {
        Phase::CheckFile { release, index } => listed_count(release.manifest) - index,
        Phase::SetMode { release, index } => release.manifest.binaries@.len() - index,
        Phase::Recheck { release, index } => listed_count(release.manifest) - index,
        Phase::Stop { release, changed, index } => release.manifest.units@.len() - index,
        Phase::Start { release, index } => release.manifest.units@.len() - index,
        Phase::UndoRestart { release, cause, index } => release.config.allowed_units@.len() - index,
        _ => 0,
    }
}

/// A deploy comes to an end: whatever a step comes to, the deploy enters a
/// later phase, or less is left of the one it is in.
pub proof fn lemma_deploy_ends(before: Deploy, event: Event, after: Deploy)
    requires
        before.wf(),
        follows(before, event, after),
        answers(before, event),
    ensures
        0 <= stage(after.phase) <= stage(before.phase),
        stage(after.phase) == stage(before.phase) ==> 0 <= left(after.phase) < left(before.phase),
{
    let own_unit = before.own_unit@;
    lemma_advance_keeps_wf(before, event, after);
    match before.phase {
        Phase::SetMode { release, index } => {
            lemma_next_inner(release.manifest.binaries@, index + 1);
        },
        Phase::Stop { release, changed, index } => {
            lemma_next_managed(
                release.manifest.units@,
                own_unit,
                release.config.allowed_units@,
                index + 1,
            );
        },
        Phase::Start { release, index } => {
            lemma_next_managed(
                release.manifest.units@,
                own_unit,
                release.config.allowed_units@,
                index + 1,
            );
        },
        Phase::UndoRestart { release, cause, index } => {
            assert(index < release.config.allowed_units.len());
        },
        _ => {},
    }
}

} // verus!
