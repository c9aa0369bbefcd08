use deploy_common::bundle::{
    check_inside, judge_digest, judge_entry, leads_out, plan_extraction, read_manifest, verify_checksums,
    verify_listed, verify_one, ArchiveEntry, BundleError, ExtractStep,
};
use deploy_common::manifest::{BinaryEntry, BuildTime, Manifest, UnitEntry};
use deploy_common::path::FsPath;

const ABC: &str = "ba7816bf8f01cfea414140de5dae2223b00361a396177a9cb410ff61f20015ad";
const EMPTY: &str = "e3b0c44298fc1c149afbf4c8996fb92427ae41e4649b934ca495991b7852b855";

fn manifest(schema_version: u32) -> Manifest {
    Manifest {
        schema_version,
        project: String::from("myproj"),
        git_sha: String::from("abc1234def567890"),
        built_at: BuildTime {
            year: 2026,
            month: 9,
            day: 9,
            hour: 14,
            minute: 3,
            second: 0,
            nanosecond: 0,
            offset_seconds: 0,
        },
        build_meta: Vec::new(),
        binaries: vec![BinaryEntry {
            path: String::from("bin/api"),
            sha256: String::from(ABC),
            mode: 0o755,
        }],
        units: vec![UnitEntry {
            name: String::from("api.service"),
            path: String::from("systemd/api.service"),
            sha256: String::from(EMPTY),
        }],
    }
}

fn entry(path: &[u8], is_symlink: bool, is_hard_link: bool) -> ArchiveEntry {
    ArchiveEntry {
        path: path.to_vec(),
        is_symlink,
        is_hard_link,
    }
}

#[test]
fn checksum_is_read_in_either_case() {
    let path = FsPath::from_text("/x");
    assert!(verify_one(path, b"abc", ABC).is_ok());
    let path = FsPath::from_text("/x");
    assert!(verify_one(path, b"abc", &ABC.to_uppercase()).is_ok());
    let path = FsPath::from_text("/x");
    assert!(verify_one(path, b"", EMPTY).is_ok());
}

#[test]
fn wrong_checksum_is_told() {
    match verify_one(FsPath::from_text("/r/bin/api"), b"abc", "Kaputt") {
        Err(e) => assert_eq!(
            e.message().unwrap(),
            format!("checksum mismatch for /r/bin/api: expected Kaputt, got {ABC}")
        ),
        Ok(_) => panic!("the checksum is wrong"),
    }
    assert!(verify_one(FsPath::from_text("/x"), b"abd", ABC).is_err());
    assert!(verify_one(FsPath::from_text("/x"), b"abc", &ABC[..62]).is_err());
    assert!(verify_one(FsPath::from_text("/x"), b"abc", "").is_err());
}

#[test]
fn a_digest_is_held_against_what_is_told() {
    let path = || FsPath::from_text("/r/bin/api");
    assert!(judge_digest(path(), &[0xab, 0x01], "ab01").is_ok());
    assert!(judge_digest(path(), &[0xab, 0x01], "AB01").is_ok());
    assert!(judge_digest(path(), &[], "").is_ok());
    assert!(judge_digest(path(), &[0xab], "ab01").is_err());
    match judge_digest(path(), &[0xab, 0x01], "ab0") {
        Err(e) => assert_eq!(
            e.message().unwrap(),
            "checksum mismatch for /r/bin/api: expected ab0, got ab01"
        ),
        Ok(_) => panic!("a digit is missing"),
    }
}

#[test]
fn checksums_are_checked_binaries_first() {
    let dir = FsPath::from_text("/tmp/extracted");
    let m = manifest(1);
    assert!(verify_checksums(&dir, &m, &vec![b"abc".to_vec(), Vec::new()]).is_ok());
    match verify_checksums(&dir, &m, &vec![b"abc".to_vec(), b"x".to_vec()]) {
        Err(BundleError::ChecksumMismatch { path, expected, got }) => {
            assert_eq!(path.bytes, b"/tmp/extracted/systemd/api.service");
            assert_eq!(expected, EMPTY);
            assert_eq!(
                got,
                "2d711642b726b04401627ca9fbac32f5c8530fb1903cc4db02258717921a4881"
            );
        }
        _ => panic!("the unit does not match"),
    }
    match verify_checksums(&dir, &m, &vec![b"y".to_vec(), b"x".to_vec()]) {
        Err(BundleError::ChecksumMismatch { path, .. }) => {
            assert_eq!(path.bytes, b"/tmp/extracted/bin/api")
        }
        _ => panic!("the binary does not match"),
    }
    assert!(verify_listed(&dir, &m, 1, b"").is_ok());
    assert!(verify_listed(&dir, &m, 0, b"").is_err());
}

#[test]
fn only_the_known_schema_is_read() {
    match read_manifest(manifest(1)) {
        Ok(m) => assert_eq!(m.project, "myproj"),
        Err(_) => panic!("the version is known"),
    }
    match read_manifest(manifest(2)) {
        Err(e) => assert_eq!(
            e.message().unwrap(),
            "unsupported manifest schema_version 2 (expected 1)"
        ),
        Ok(_) => panic!("the version is not known"),
    }
    assert!(matches!(
        read_manifest(manifest(0)),
        Err(BundleError::UnsupportedSchema(0))
    ));
}

#[test]
fn entries_are_judged_by_path_and_kind() {
    assert!(matches!(judge_entry(&entry(b".", false, false)), Ok(ExtractStep::Skip)));
    assert!(matches!(judge_entry(&entry(b".", true, false)), Err(BundleError::Link(_))));
    assert!(matches!(
        judge_entry(&entry(b"./", false, true)),
        Err(BundleError::Link(path)) if path.bytes == b"./"
    ));
    assert!(matches!(judge_entry(&entry(b"./", false, false)), Ok(ExtractStep::Skip)));
    assert!(matches!(
        judge_entry(&entry(b"./bin//tool", false, false)),
        Ok(ExtractStep::Unpack(path)) if path.bytes == b"./bin//tool"
    ));
    assert!(matches!(
        judge_entry(&entry(b"", false, false)),
        Ok(ExtractStep::Unpack(path)) if path.bytes.is_empty()
    ));
    assert!(matches!(
        judge_entry(&entry(b"a/..", true, false)),
        Err(BundleError::UnsafePath(_))
    ));
    assert!(matches!(judge_entry(&entry(b"a", true, false)), Err(BundleError::Link(_))));
    assert!(matches!(judge_entry(&entry(b"a", false, true)), Err(BundleError::Link(_))));
    assert!(matches!(
        judge_entry(&entry(b"...", false, false)),
        Ok(ExtractStep::Unpack(_))
    ));
}

#[test]
fn a_path_leads_out_by_a_root_or_a_parent() {
    for path in ["/", "/etc/hosts", "..", "bin/..", "bin/../tool"] {
        assert!(leads_out(&FsPath::from_text(path)), "{path}");
    }
    for path in ["", ".", "./bin/tool", "bin//tool/", "...", "..a/b.."] {
        assert!(!leads_out(&FsPath::from_text(path)), "{path}");
    }
}

#[test]
fn a_plan_ends_where_the_archive_does() {
    let (steps, refusal) = plan_extraction(
        vec![entry(b"a", false, false), entry(b"b", false, false)],
        None,
    );
    assert_eq!(steps.len(), 2);
    assert!(refusal.is_none());
    let broken = std::io::Error::new(std::io::ErrorKind::UnexpectedEof, "cut off");
    let (steps, refusal) = plan_extraction(vec![entry(b"a", false, false)], Some(broken));
    assert_eq!(steps.len(), 1);
    assert!(matches!(refusal, Some(BundleError::Archive(e)) if e.to_string() == "cut off"));
    let broken = std::io::Error::new(std::io::ErrorKind::UnexpectedEof, "cut off");
    let (steps, refusal) = plan_extraction(vec![entry(b"a", true, false)], Some(broken));
    assert_eq!(steps.len(), 0);
    assert!(matches!(refusal, Some(BundleError::Link(_))));
}

#[test]
fn a_parent_has_to_be_inside() {
    let dest = FsPath::from_text("/tmp/x");
    let inside = check_inside(&FsPath::from_text("/tmp/x/bin"), &dest, FsPath::from_text("bin/a"));
    assert!(inside.is_ok());
    assert!(check_inside(&dest, &dest, FsPath::from_text("a")).is_ok());
    match check_inside(&FsPath::from_text("/tmp/xy"), &dest, FsPath::from_text("a")) {
        Err(BundleError::Escapes(path)) => assert_eq!(path.bytes, b"a"),
        _ => panic!("a longer name is another directory"),
    }
}
