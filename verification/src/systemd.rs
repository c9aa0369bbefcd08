//! Bringing systemd's units up to date: which unit files are written, and when
//! a job is over.

use vstd::prelude::*;
use vstd::string::*;
use vstd::utf8::*;

use crate::manifest::UnitEntry;
use crate::path::{joined, FsPath};
use crate::text::{bytes_equal, text_equal};

verus! {

/// The directory for the unit files of `project`.
pub open spec fn unit_dir_path(config_root: Seq<u8>, project: Seq<char>) -> Seq<u8> {
    joined(joined(config_root, encode_utf8("units"@)), encode_utf8(project))
}

/// The directory for the unit files of `project`.
pub fn unit_dir(config_root: &FsPath, project: &str) -> (path: FsPath)
    ensures
        path@ == unit_dir_path(config_root@, project@),
{
    config_root.join_text("units").join_text(project)
}

/// How far the unit files of a release have been synced.
#[derive(Debug)]
pub struct UnitSync {
    /// The unit that is being looked at.
    pub index: usize,
    /// Whether a unit file has been written.
    pub changed: bool,
    /// What is to be written for this unit.
    pub pending: Option<Vec<u8>>,
}

/// What a [`UnitSync`] stands for.
pub struct SyncState {
    pub index: int,
    pub changed: bool,
    pub pending: Option<Seq<u8>>,
}

impl View for UnitSync {
    type V = SyncState;

    open spec fn view(&self) -> SyncState {
        SyncState {
            index: self.index as int,
            changed: self.changed,
            pending: match self.pending {
                Some(content) => Some(content@),
                None => None,
            },
        }
    }
}

/// What is to be done next for the unit files of a release.
#[derive(Debug)]
pub enum SyncStep {
    /// Read the unit file of the release at `source`, and the one at `target`
    /// if it is there.
    Compare { source: FsPath, target: FsPath },
    /// Write what is pending to `target`.
    Write { target: FsPath },
    /// All units have been looked at.
    Done { changed: bool },
}

impl SyncState {
    /// Nothing has been looked at.
    pub open spec fn start() -> SyncState {
        SyncState { index: 0, changed: false, pending: None }
    }

    /// The unit file in the release has `content`, and the one in place is
    /// `existing`: it is written where the two differ.
    pub open spec fn compared(self, content: Seq<u8>, existing: Option<Seq<u8>>) -> SyncState {
        if existing == Some(content) {
            SyncState { index: self.index + 1, ..self }
        } else {
            SyncState { pending: Some(content), ..self }
        }
    }

    /// What was pending has been written.
    pub open spec fn written(self) -> SyncState {
        SyncState { index: self.index + 1, changed: true, pending: None }
    }
}

/// Whether `step` comes next for a release in `extracted_dir` that has `units`.
pub open spec fn is_sync_step(
    sync: UnitSync,
    config_root: Seq<u8>,
    project: Seq<char>,
    extracted_dir: Seq<u8>,
    units: Seq<UnitEntry>,
    step: SyncStep,
) -> bool {
    let index = sync.index as int;
    match step {
        SyncStep::Compare { source, target } => {
            &&& index < units.len()
            &&& sync.pending is None
            &&& source@ == joined(extracted_dir, encode_utf8(units[index].path@))
            &&& target@ == joined(
                unit_dir_path(config_root, project),
                encode_utf8(units[index].name@),
            )
        },
        SyncStep::Write { target } => {
            &&& index < units.len()
            &&& sync.pending is Some
            &&& target@ == joined(
                unit_dir_path(config_root, project),
                encode_utf8(units[index].name@),
            )
        },
        SyncStep::Done { changed } => {
            &&& index >= units.len()
            &&& changed == sync.changed
        },
    }
}

impl UnitSync {
    /// Starts to sync the unit files of a release.
    pub fn start() -> (sync: UnitSync)
        ensures
            sync@ == SyncState::start(),
    {
        UnitSync { index: 0, changed: false, pending: None }
    }

    /// What is to be done next, where the release is in `extracted_dir` and
    /// has `units`.
    pub fn sync_unit_files(
        &self,
        config_root: &FsPath,
        project: &str,
        extracted_dir: &FsPath,
        units: &Vec<UnitEntry>,
    ) -> (step: SyncStep)
        ensures
            is_sync_step(*self, config_root@, project@, extracted_dir@, units@, step),
    {
        if self.index >= units.len() {
            return SyncStep::Done { changed: self.changed };
        }
        let unit: &UnitEntry = &units[self.index];
        let target: FsPath = unit_dir(config_root, project).join_text(unit.name.as_str());
        match &self.pending {
            Some(_) => SyncStep::Write { target },
            None => SyncStep::Compare {
                source: extracted_dir.join_text(unit.path.as_str()),
                target,
            },
        }
    }

    /// Takes in what the unit file in the release holds, and the one in place
    /// if it is there.
    pub fn compared(self, content: Vec<u8>, existing: Option<Vec<u8>>) -> (sync: UnitSync)
        requires
            self.index < usize::MAX,
        ensures
            sync@ == self@.compared(
                content@,
                match existing {
                    Some(e) => Some(e@),
                    None => None,
                },
            ),
    {
        let same: bool = match &existing {
            Some(e) => bytes_equal(e.as_slice(), content.as_slice()),
            None => false,
        };
        if same {
            UnitSync { index: self.index + 1, changed: self.changed, pending: self.pending }
        } else {
            UnitSync { index: self.index, changed: self.changed, pending: Some(content) }
        }
    }

    /// Takes in that the pending unit file has been written.
    pub fn written(self) -> (sync: UnitSync)
        requires
            self.index < usize::MAX,
        ensures
            sync@ == self@.written(),
    {
        UnitSync { index: self.index + 1, changed: true, pending: None }
    }
}

/// Every unit has its turn, at its own paths: the file at its path in the
/// release is compared with the one of its name in the directory for the
/// project's units, and what is written goes there. When all have had theirs,
/// it is told whether one was written.
pub proof fn lemma_units_have_their_turn(
    sync: UnitSync,
    config_root: Seq<u8>,
    project: Seq<char>,
    extracted_dir: Seq<u8>,
    units: Seq<UnitEntry>,
    step: SyncStep,
)
    requires
        is_sync_step(sync, config_root, project, extracted_dir, units, step),
    ensures
        sync.index >= units.len() ==> step == (SyncStep::Done { changed: sync.changed }),
        sync.index < units.len() ==> {
            let unit = units[sync.index as int];
            let place = joined(
                joined(joined(config_root, encode_utf8("units"@)), encode_utf8(project)),
                encode_utf8(unit.name@),
            );
            match sync.pending {
                None => {
                    &&& step is Compare
                    &&& step->source@ == joined(extracted_dir, encode_utf8(unit.path@))
                    &&& step->Compare_target@ == place
                },
                Some(_) => step is Write && step->Write_target@ == place,
            }
        },
{
}

/// A unit file is written exactly where there is none in place with the same
/// contents: it is passed over where there is, and what the release holds is
/// pending otherwise. Once it is written, the next unit has its turn, and the
/// change is kept in mind from then on.
pub proof fn lemma_unit_is_written_where_it_differs(
    sync: UnitSync,
    state: SyncState,
    content: Seq<u8>,
    existing: Option<Seq<u8>>,
)
    ensures
        sync@.index == sync.index,
        sync@.changed == sync.changed,
        sync@.pending is Some <==> sync.pending is Some,
        sync.pending is Some ==> sync@.pending->0 == sync.pending->0@,
        SyncState::start().index == 0,
        !SyncState::start().changed,
        SyncState::start().pending is None,
        existing is Some && existing->0 == content ==> {
            let after = state.compared(content, existing);
            &&& after.index == state.index + 1
            &&& after.changed == state.changed
            &&& after.pending == state.pending
        },
        existing is None || existing->0 != content ==> {
            let after = state.compared(content, existing);
            &&& after.index == state.index
            &&& after.changed == state.changed
            &&& after.pending == Some(content)
        },
        state.written().index == state.index + 1,
        state.written().changed,
        state.written().pending is None,
{
}

/// The files after all `units` have been written, each the contents for a path.
pub open spec fn write_all(
    files: Map<Seq<u8>, Seq<u8>>,
    units: Seq<(Seq<u8>, Seq<u8>)>,
) -> Map<Seq<u8>, Seq<u8>>
    decreases units.len(),
{
    if units.len() == 0 {
        files
    } else {
        write_all(files, units.drop_last()).insert(units.last().0, units.last().1)
    }
}

/// The files and the state after the first `count` of `units` have been
/// synced: each is compared with what is in place, and written where that is
/// what comes next.
pub open spec fn sync_first(
    files: Map<Seq<u8>, Seq<u8>>,
    units: Seq<(Seq<u8>, Seq<u8>)>,
    count: int,
) -> (SyncState, Map<Seq<u8>, Seq<u8>>)
    decreases count,
{
    if count <= 0 {
        (SyncState::start(), files)
    } else {
        let (before, so_far) = sync_first(files, units, count - 1);
        let (target, content) = units[count - 1];
        let existing = if so_far.contains_key(target) {
            Some(so_far[target])
        } else {
            None
        };
        let after = before.compared(content, existing);
        if after.pending is Some {
            (after.written(), so_far.insert(target, after.pending->0))
        } else {
            (after, so_far)
        }
    }
}

/// Syncing leaves the files as if every unit had been written, and says that
/// nothing changed only where nothing did.
pub proof fn lemma_sync_writes_all(
    files: Map<Seq<u8>, Seq<u8>>,
    units: Seq<(Seq<u8>, Seq<u8>)>,
    count: int,
)
    requires
        0 <= count <= units.len(),
    ensures
        ({
            let (state, after) = sync_first(files, units, count);
            &&& state.index == count
            &&& state.pending is None
            &&& after == write_all(files, units.take(count))
            &&& !state.changed ==> after == files
        }),
    decreases count,
{
    if count == 0 {
        assert(units.take(0) =~= Seq::<(Seq<u8>, Seq<u8>)>::empty());
        assert(write_all(files, units.take(0)) == files);
    } else {
        lemma_sync_writes_all(files, units, count - 1);
        let (before, so_far) = sync_first(files, units, count - 1);
        let (state, after) = sync_first(files, units, count);
        assert(units.take(count).drop_last() =~= units.take(count - 1));
        assert(units.take(count).last() == units[count - 1]);
        let (target, content) = units[count - 1];
        assert(so_far.insert(target, content) =~= after);
    }
}

/// A path that no unit is written to keeps its file.
proof fn lemma_write_all_elsewhere(
    files: Map<Seq<u8>, Seq<u8>>,
    units: Seq<(Seq<u8>, Seq<u8>)>,
    path: Seq<u8>,
)
    requires
        forall|i: int| 0 <= i < units.len() ==> (#[trigger] units[i]).0 != path,
    ensures
        write_all(files, units).contains_key(path) == files.contains_key(path),
        files.contains_key(path) ==> write_all(files, units)[path] == files[path],
    decreases units.len(),
{
    if units.len() > 0 {
        assert(units[units.len() - 1].0 != path);
        assert forall|i: int| 0 <= i < units.drop_last().len() implies (
        #[trigger] units.drop_last()[i]).0 != path by {
            assert(units[i].0 != path);
        }
        lemma_write_all_elsewhere(files, units.drop_last(), path);
    }
}

/// Whether two states of the files differ at `path`.
spec fn differ_at(
    a: Map<Seq<u8>, Seq<u8>>,
    b: Map<Seq<u8>, Seq<u8>>,
    path: Seq<u8>,
) -> bool {
    a.contains_key(path) != b.contains_key(path) || (b.contains_key(path) && a[path] != b[path])
}

/// Two different states of the files differ somewhere.
proof fn lemma_difference(a: Map<Seq<u8>, Seq<u8>>, b: Map<Seq<u8>, Seq<u8>>) -> (path: Seq<u8>)
    requires
        a != b,
    ensures
        differ_at(a, b, path),
{
    if forall|path: Seq<u8>| !#[trigger] differ_at(a, b, path) {
        assert forall|path: Seq<u8>| #[trigger]
            a.contains_key(path) == b.contains_key(path) && (b.contains_key(path) ==> a[path]
                == b[path]) by {
            assert(!differ_at(a, b, path));
        }
        assert(a =~= b);
    }
    choose|path: Seq<u8>| #[trigger] differ_at(a, b, path)
}

/// Where no two units have the same file, syncing says that something changed
/// exactly where the files are not what they were.
pub proof fn lemma_sync_reports_change(
    files: Map<Seq<u8>, Seq<u8>>,
    units: Seq<(Seq<u8>, Seq<u8>)>,
    count: int,
)
    requires
        0 <= count <= units.len(),
        forall|i: int, j: int|
            0 <= i < j < units.len() ==> (#[trigger] units[i]).0 != (#[trigger] units[j]).0,
    ensures
        sync_first(files, units, count).0.changed == (sync_first(files, units, count).1 != files),
    decreases count,
{
    lemma_sync_writes_all(files, units, count);
    if count > 0 {
        lemma_sync_reports_change(files, units, count - 1);
        lemma_sync_writes_all(files, units, count - 1);
        let (before, so_far) = sync_first(files, units, count - 1);
        let (state, after) = sync_first(files, units, count);
        let (target, content) = units[count - 1];
        let earlier = units.take(count - 1);
        assert forall|i: int| 0 <= i < earlier.len() implies (#[trigger] earlier[i]).0
            != target by {
            assert(units[i].0 != units[count - 1].0);
        }
        lemma_write_all_elsewhere(files, earlier, target);
        if state.changed {
            if before.changed {
                let path = lemma_difference(so_far, files);
                if path == target {
                    assert(!differ_at(so_far, files, path));
                }
                assert(after.contains_key(path) == so_far.contains_key(path));
                assert(after != files);
            } else {
                assert(after.contains_key(target) && after[target] == content);
                assert(after != files);
            }
        }
    }
}

/// What the end of a job means for a unit that is waited for.
#[derive(Debug)]
pub enum JobVerdict {
    /// It was another job.
    Wait,
    /// The unit's job is done.
    Done,
    /// The unit's job did not succeed, with what is to be told of it.
    Failed(String),
}

/// What is told of a unit whose job ended with `result`.
pub open spec fn job_failure_text(unit: Seq<char>, result: Seq<char>) -> Seq<char> {
    "job for unit '"@ + unit + "' failed with result status: '"@ + result + "'"@
}

/// Whether `verdict` is the decision on the end of `removed_job` with `result`.
pub open spec fn is_job_verdict(
    unit_name: Seq<char>,
    job_path: Seq<char>,
    removed_job: Seq<char>,
    result: Seq<char>,
    verdict: JobVerdict,
) -> bool {
    match verdict {
        JobVerdict::Wait => removed_job != job_path,
        JobVerdict::Done => removed_job == job_path && result == "done"@,
        JobVerdict::Failed(message) => {
            &&& removed_job == job_path
            &&& result != "done"@
            &&& message@ == job_failure_text(unit_name, result)
        },
    }
}

/// A unit waits for its own job and no other, and has succeeded exactly where
/// that ended as done. Otherwise the unit and how its job ended are told.
pub proof fn lemma_unit_waits_for_its_job(
    unit_name: Seq<char>,
    job_path: Seq<char>,
    removed_job: Seq<char>,
    result: Seq<char>,
    verdict: JobVerdict,
)
    requires
        is_job_verdict(unit_name, job_path, removed_job, result, verdict),
    ensures
        verdict is Wait <==> removed_job != job_path,
        verdict is Done <==> removed_job == job_path && result == "done"@,
        removed_job == job_path && result != "done"@ ==> verdict is Failed && verdict->Failed_0@
            == "job for unit '"@ + unit_name + "' failed with result status: '"@ + result + "'"@,
{
}

/// Decides on the end of a job: `job_path` is the job that `unit_name` waits
/// for, and `removed_job` the one that ended with `result`.
pub fn job_removed(unit_name: &str, job_path: &str, removed_job: &str, result: &str) -> (verdict:
    JobVerdict)
    ensures
        is_job_verdict(unit_name@, job_path@, removed_job@, result@, verdict),
{
    if !text_equal(removed_job, job_path) {
        JobVerdict::Wait
    } else if text_equal(result, "done") {
        JobVerdict::Done
    } else {
        JobVerdict::Failed(
            String::from_str("job for unit '").concat(unit_name).concat(
                "' failed with result status: '",
            ).concat(result).concat("'"),
        )
    }
}

/// The name of the error by which polkit refuses a call.
pub const NOT_AUTHORIZED: &'static str = "org.freedesktop.PolicyKit1.Error.NotAuthorized";

/// What may be behind a refusal by polkit.
pub const DENIAL_HINT: &'static str = "' — unit missing from /etc/polkit-1/rules.d allow-list, \
    or project config and polkit rule have drifted out of sync";

/// What is told where polkit refuses `call` for a unit.
pub open spec fn denial_text(call: Seq<char>, unit: Seq<char>) -> Seq<char> {
    "polkit denied "@ + call + " for '"@ + unit + DENIAL_HINT@
}

/// Whether `message` is what is told of a call that was answered by an error of
/// this name, as far as polkit is behind it.
pub open spec fn is_denial(
    call: Seq<char>,
    unit_name: Seq<char>,
    error_name: Option<Seq<char>>,
    message: Option<String>,
) -> bool {
    match message {
        Some(m) => {
            &&& error_name is Some
            &&& error_name->0 == NOT_AUTHORIZED@
            &&& m@ == denial_text(call, unit_name)
        },
        None => error_name is None || error_name->0 != NOT_AUTHORIZED@,
    }
}

/// Exactly the error by which polkit refuses a call is told as a refusal, with
/// the call and the unit.
pub proof fn lemma_denial_is_told(
    call: Seq<char>,
    unit_name: Seq<char>,
    error_name: Option<Seq<char>>,
    message: Option<String>,
)
    requires
        is_denial(call, unit_name, error_name, message),
    ensures
        message is Some <==> error_name == Some(
            "org.freedesktop.PolicyKit1.Error.NotAuthorized"@,
        ),
        message is Some ==> message->0@ == "polkit denied "@ + call + " for '"@ + unit_name
            + DENIAL_HINT@,
{
}

/// Decides on a call for a unit that was answered by the error `error_name`, if
/// the answer has a name: where polkit refused it, that is told as such.
pub fn denial(call: &str, unit_name: &str, error_name: Option<&str>) -> (message: Option<String>)
    ensures
        is_denial(
            call@,
            unit_name@,
            match error_name {
                Some(name) => Some(name@),
                None => None,
            },
            message,
        ),
{
    match error_name {
        Some(name) => if text_equal(name, NOT_AUTHORIZED) {
            Some(
                String::from_str("polkit denied ").concat(call).concat(" for '").concat(
                    unit_name,
                ).concat(DENIAL_HINT),
            )
        } else {
            None
        },
        None => None,
    }
}

/// What is told of a unit that is waited for in vain.
pub open spec fn stream_end_text(unit: Seq<char>) -> Seq<char> {
    "JobRemoved signal stream ended prematurely for '"@ + unit + "'"@
}

/// A unit that is waited for in vain is told by its name.
pub proof fn lemma_stream_end_is_told(unit: Seq<char>)
    ensures
        stream_end_text(unit) == "JobRemoved signal stream ended prematurely for '"@ + unit + "'"@,
{
}

/// What is told where no more jobs end while `unit_name` is waited for.
pub fn stream_ended(unit_name: &str) -> (message: String)
    ensures
        message@ == stream_end_text(unit_name@),
{
    String::from_str("JobRemoved signal stream ended prematurely for '").concat(unit_name).concat(
        "'",
    )
}

} // verus!
