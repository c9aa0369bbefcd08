use deploy_common::manifest::UnitEntry;
use deploy_common::path::FsPath;
use deploy_common::systemd::{
    denial, job_removed, stream_ended, unit_dir, JobVerdict, SyncStep, UnitSync,
};

fn unit(name: &str) -> UnitEntry {
    UnitEntry {
        name: String::from(name),
        path: format!("systemd/{name}"),
        sha256: String::new(),
    }
}

// Syncs units of the given names and contents with files in memory, and says
// whether something changed.
fn sync(files: &mut Vec<(Vec<u8>, Vec<u8>)>, wanted: &[(&str, &[u8])]) -> bool {
    let root = FsPath::from_text("/etc/deploy-agent");
    let dir = FsPath::from_text("/r");
    let units: Vec<UnitEntry> = wanted.iter().map(|(name, _)| unit(name)).collect();
    let mut state = UnitSync::start();
    loop {
        match state.sync_unit_files(&root, "p", &dir, &units) {
            SyncStep::Compare { source, target } => {
                let (name, content) = wanted[state.index];
                assert_eq!(source.bytes, format!("/r/systemd/{name}").into_bytes());
                let existing = files
                    .iter()
                    .find(|(path, _)| *path == target.bytes)
                    .map(|(_, content)| content.clone());
                state = state.compared(content.to_vec(), existing);
            }
            SyncStep::Write { target } => {
                let content = state.pending.clone().unwrap();
                files.retain(|(path, _)| *path != target.bytes);
                files.push((target.bytes, content));
                state = state.written();
            }
            SyncStep::Done { changed } => return changed,
        }
    }
}

#[test]
fn unit_files_are_written_where_they_differ() {
    let mut files = Vec::new();
    assert!(sync(&mut files, &[("a.service", b"one"), ("b.service", b"two")]));
    assert_eq!(
        files,
        vec![
            (b"/etc/deploy-agent/units/p/a.service".to_vec(), b"one".to_vec()),
            (b"/etc/deploy-agent/units/p/b.service".to_vec(), b"two".to_vec()),
        ]
    );
    let before = files.clone();
    assert!(!sync(&mut files, &[("a.service", b"one"), ("b.service", b"two")]));
    assert_eq!(files, before);
    assert!(sync(&mut files, &[("a.service", b"one"), ("b.service", b"three")]));
    assert_eq!(files[1].1, b"three");
    assert!(!sync(&mut files, &[]));
}

#[test]
fn of_two_units_with_one_name_the_last_stays() {
    let mut files = Vec::new();
    assert!(sync(&mut files, &[("a.service", b"one"), ("a.service", b"two")]));
    assert_eq!(files.len(), 1);
    assert_eq!(files[0].1, b"two");
}

#[test]
fn units_of_a_project_have_a_directory() {
    let root = FsPath::from_text("/etc/deploy-agent");
    assert_eq!(unit_dir(&root, "myproj").bytes, b"/etc/deploy-agent/units/myproj");
}

#[test]
fn the_end_of_a_job_is_judged() {
    assert!(matches!(job_removed("a.service", "/job/1", "/job/2", "done"), JobVerdict::Wait));
    assert!(matches!(job_removed("a.service", "/job/1", "/job/1", "done"), JobVerdict::Done));
    match job_removed("a.service", "/job/1", "/job/1", "timeout") {
        JobVerdict::Failed(message) => assert_eq!(
            message,
            "job for unit 'a.service' failed with result status: 'timeout'"
        ),
        _ => panic!("the job did not succeed"),
    }
    assert_eq!(
        stream_ended("a.service"),
        "JobRemoved signal stream ended prematurely for 'a.service'"
    );
}

#[test]
fn a_denial_by_polkit_is_told_as_such() {
    let refused = Some("org.freedesktop.PolicyKit1.Error.NotAuthorized");
    assert_eq!(
        denial("RestartUnit", "a.service", refused).unwrap(),
        "polkit denied RestartUnit for 'a.service' — unit missing from \
         /etc/polkit-1/rules.d allow-list, or project config and polkit \
         rule have drifted out of sync"
    );
    let other = Some("org.freedesktop.DBus.Error.AccessDenied");
    assert!(denial("RestartUnit", "a.service", other).is_none());
    assert!(denial("RestartUnit", "a.service", None).is_none());
}
