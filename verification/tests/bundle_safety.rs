use deploy_common::archive::{check_sizes, read_records_size};
use deploy_common::bundle::{
    build_bundle, extract_bundle, BundleError, ExtractStep, Refusal,
};

// Archives are put together by hand here, so that they hold what no bundle
// builder would write.

#[test]
fn rejects_parent_traversal() {
    let bad = make_bundle_with_entry("../../etc/passwd", b"pwned");
    let result = extract_bundle(&bad);
    assert!(result.is_err());
    assert!(matches!(
        refusal(&bad).reason,
        BundleError::UnsafePath(path) if path.bytes == b"../../etc/passwd"
    ));
}

#[test]
fn rejects_absolute_path() {
    let bad = make_bundle_with_entry("/etc/passwd", b"pwned");
    let result = extract_bundle(&bad);
    assert!(result.is_err());
    assert!(matches!(
        refusal(&bad).reason,
        BundleError::UnsafePath(path) if path.bytes == b"/etc/passwd"
    ));
}

#[test]
fn rejects_symlink_entries() {
    let bad = make_bundle_with_symlink("innocuous", "/etc/passwd");
    let result = extract_bundle(&bad);
    assert!(result.is_err());
    assert!(matches!(
        refusal(&bad).reason,
        BundleError::Link(path) if path.bytes == b"innocuous"
    ));
}

#[test]
fn rejects_hard_link_entries() {
    let mut buf = Vec::new();
    let mut builder = tar::Builder::new(&mut buf);
    let mut header = tar::Header::new_gnu();
    header.set_entry_type(tar::EntryType::Link);
    header.set_size(0);
    header.set_mode(0o644);
    builder.append_link(&mut header, "alias", "bin/tool").unwrap();
    builder.finish().unwrap();
    drop(builder);
    let bad = zstd::stream::encode_all(buf.as_slice(), 3).unwrap();
    assert!(matches!(
        refusal(&bad).reason,
        BundleError::Link(path) if path.bytes == b"alias"
    ));
}

#[test]
fn rejects_a_link_at_the_root() {
    for kind in [tar::EntryType::Symlink, tar::EntryType::Link] {
        let mut header = tar::Header::new_gnu();
        {
            let gnu = header.as_gnu_mut().unwrap();
            gnu.name[..1].copy_from_slice(b".");
            gnu.linkname[..4].copy_from_slice(b"/etc");
        }
        header.set_entry_type(kind);
        header.set_size(0);
        header.set_mode(0o777);
        header.set_cksum();
        let mut buf = Vec::new();
        let mut builder = tar::Builder::new(&mut buf);
        builder.append(&header, [].as_slice()).unwrap();
        builder.finish().unwrap();
        drop(builder);
        let bad = zstd::stream::encode_all(buf.as_slice(), 3).unwrap();
        let refused = refusal(&bad);
        assert!(refused.first.unwrap().steps.is_empty());
        assert!(matches!(
            refused.reason,
            BundleError::Link(path) if path.bytes == b"."
        ));
    }
}

// The header of a sparse file whose blocks go on behind it.
fn sparse_header(size: u64) -> tar::Header {
    let mut header = tar::Header::new_gnu();
    header.set_entry_type(tar::EntryType::GNUSparse);
    header.set_size(size);
    header.set_mode(0o644);
    {
        let gnu = header.as_gnu_mut().unwrap();
        gnu.name[..6].copy_from_slice(b"sparse");
        gnu.set_is_extended(true);
        gnu.set_real_size(0);
    }
    header.set_cksum();
    header
}

#[test]
fn rejects_impossible_sizes() {
    for size in [u64::MAX - 1023, u64::MAX, 1 << 62] {
        let mut data = sparse_header(size).as_bytes().to_vec();
        data.extend_from_slice(&[0u8; 512]);
        assert!(!check_sizes(&data));
        let bad = zstd::stream::encode_all(data.as_slice(), 3).unwrap();
        let refused = refusal(&bad);
        assert!(refused.first.is_none());
        assert_eq!(
            refused.reason.message().unwrap(),
            "bundle entry claims an impossible size"
        );
        assert!(matches!(refused.reason, BundleError::HugeEntry));
    }
}

#[test]
fn rejects_impossible_sizes_in_records() {
    for value in ["18446744073709550592", "+0018446744073709550592"] {
        let mut data = extended("size", value);
        data.extend_from_slice(sparse_header(0).as_bytes());
        data.extend_from_slice(&[0u8; 512]);
        assert!(!check_sizes(&data));
        let bad = zstd::stream::encode_all(data.as_slice(), 3).unwrap();
        assert!(matches!(refusal(&bad).reason, BundleError::HugeEntry));
    }
}

#[test]
fn possible_sizes_are_read() {
    let mut data = sparse_header(0).as_bytes().to_vec();
    data.extend_from_slice(&[0u8; 512]);
    assert!(check_sizes(&data));
    let bundle = zstd::stream::encode_all(data.as_slice(), 3).unwrap();
    match extract_bundle(&bundle) {
        Ok(plan) => assert_eq!(plan.steps.len(), 1),
        Err(_) => panic!("a sparse file is a file"),
    }
    assert!(check_sizes(sparse_header((1 << 62) - 1).as_bytes()));
    assert!(check_sizes(b"size=9999999999999999999"));
    assert!(check_sizes(&extended("size", "999999999999999999")));
    assert!(check_sizes(b""));
    let mut data = sparse_header(0).as_bytes().to_vec();
    data.extend_from_slice(&[0u8; 512]);
    data.extend_from_slice(b"size=18446744073709550592");
    assert!(check_sizes(&data));
}

// What a plain file may hold: blocks that would be headers elsewhere.
fn look_alikes() -> Vec<u8> {
    let mut contents = sparse_header(1 << 62).as_bytes().to_vec();
    contents.extend_from_slice(&extended("size", "18446744073709550592"));
    contents.extend_from_slice(sparse_header(0).as_bytes());
    contents
}

#[test]
fn contents_are_not_taken_for_headers() {
    let mut lone = [0u8; 512];
    lone[124] = 128;
    lone[128] = 64;
    lone[156] = b'S';
    lone[257..265].copy_from_slice(b"ustar  \0");
    lone[482] = 1;
    for contents in [lone.to_vec(), look_alikes()] {
        let mut buf = Vec::new();
        let mut builder = tar::Builder::new(&mut buf);
        append_file(&mut builder, "share/data.tar", &contents);
        append_file(&mut builder, "bin/tool", b"tool");
        builder.finish().unwrap();
        drop(builder);
        let bundle = match build_bundle(&buf) {
            Ok(bundle) => bundle,
            Err(_) => panic!("the archive is small"),
        };
        match extract_bundle(&bundle) {
            Ok(plan) => assert_eq!(plan.steps.len(), 2),
            Err(_) => panic!("what a file holds does not matter"),
        }
    }
}

#[test]
fn what_follows_the_end_is_not_read() {
    let mut buf = Vec::new();
    let mut builder = tar::Builder::new(&mut buf);
    append_file(&mut builder, "bin/tool", b"tool");
    builder.finish().unwrap();
    drop(builder);
    buf.extend_from_slice(sparse_header(u64::MAX - 1023).as_bytes());
    buf.extend_from_slice(&[0u8; 512]);
    assert!(check_sizes(&buf));
    let bundle = zstd::stream::encode_all(buf.as_slice(), 3).unwrap();
    match extract_bundle(&bundle) {
        Ok(plan) => assert_eq!(plan.steps.len(), 1),
        Err(_) => panic!("the archive has ended"),
    }
}

#[test]
fn headers_are_found_behind_what_files_hold() {
    let mut buf = Vec::new();
    let mut builder = tar::Builder::new(&mut buf);
    append_file(&mut builder, "share/data.tar", &look_alikes());
    builder.append(&sparse_header(0), [].as_slice()).unwrap();
    drop(builder);
    buf.truncate(512 + look_alikes().len() + 512);
    assert!(check_sizes(&buf));
    let end = buf.len() - 512;
    buf.splice(end.., sparse_header(1 << 62).as_bytes().iter().copied());
    assert!(!check_sizes(&buf));
}

// A header for a plain file, with this size field.
fn file_header(size: &[u8]) -> tar::Header {
    let mut header = tar::Header::new_gnu();
    {
        let gnu = header.as_gnu_mut().unwrap();
        gnu.name[..4].copy_from_slice(b"file");
        gnu.size = [0; 12];
        gnu.size[..size.len()].copy_from_slice(size);
    }
    header.set_mode(0o644);
    header.set_cksum();
    header
}

#[test]
fn sizes_are_read_as_they_are_written() {
    let fields: [&[u8]; 6] = [
        b"00000001000",
        b"000000001000",
        b" +1000 \0junk",
        b"\x0b1000\xe2\x80\x80",
        b" \xc2\x85\xc2\xa01000",
        &[128, 0, 0, 0, 0, 0, 0, 0, 0, 0, 2, 0],
    ];
    for field in fields {
        let mut data = file_header(field).as_bytes().to_vec();
        data.extend_from_slice(sparse_header(1 << 62).as_bytes());
        assert!(check_sizes(&data));
        let bundle = zstd::stream::encode_all(data.as_slice(), 3).unwrap();
        match extract_bundle(&bundle) {
            Ok(plan) => assert_eq!(plan.steps.len(), 1),
            Err(_) => panic!("the size is that of a block"),
        }
        data.extend_from_slice(sparse_header(1 << 62).as_bytes());
        assert!(!check_sizes(&data));
    }
}

#[test]
fn nothing_is_read_behind_a_broken_header() {
    let mut broken = file_header(b"00000000000").as_bytes().to_vec();
    broken[0] = b'F';
    let no_size = file_header(b"8").as_bytes().to_vec();
    let no_text = file_header(b" \xff").as_bytes().to_vec();
    let mut old = sparse_header(0);
    old.as_mut_bytes()[257] = 0;
    old.set_cksum();
    for first in [broken, no_size, no_text, old.as_bytes().to_vec()] {
        let mut data = first;
        data.extend_from_slice(sparse_header(1 << 62).as_bytes());
        data.extend_from_slice(&[0u8; 512]);
        assert!(check_sizes(&data));
        let bundle = zstd::stream::encode_all(data.as_slice(), 3).unwrap();
        assert!(matches!(refusal(&bundle).reason, BundleError::Archive(_)));
    }
}

#[test]
fn records_are_for_the_entry_that_follows() {
    let huge = extended("size", "18446744073709550592");
    let mut sparse = sparse_header(0).as_bytes().to_vec();
    sparse.extend_from_slice(&[0u8; 512]);
    let mut long_name = tar::Header::new_gnu();
    long_name.set_entry_type(tar::EntryType::GNULongName);
    long_name.set_size(2);
    long_name.set_cksum();
    let mut name = long_name.as_bytes().to_vec();
    name.extend_from_slice(b"n\0");
    name.extend_from_slice(&[0u8; 510]);
    assert!(!check_sizes(&[huge.clone(), name.clone(), sparse.clone()].concat()));
    assert!(!check_sizes(&[name, huge.clone(), sparse.clone()].concat()));
    let mut global = tar::Header::new_ustar();
    global.set_entry_type(tar::EntryType::XGlobalHeader);
    global.set_size(0);
    global.set_cksum();
    let data = [huge.clone(), global.as_bytes().to_vec(), sparse.clone()].concat();
    assert!(check_sizes(&data));
    let bundle = zstd::stream::encode_all(data.as_slice(), 3).unwrap();
    match extract_bundle(&bundle) {
        Ok(plan) => assert_eq!(plan.steps.len(), 2),
        Err(_) => panic!("the records were for the entry before"),
    }
    assert!(check_sizes(&[extended("path", "size=18446744073709550592"), sparse].concat()));
}

#[test]
fn the_first_size_among_records_counts() {
    assert_eq!(read_records_size(b"12 size=123\n"), Some(123));
    assert_eq!(read_records_size(b"12 size=123"), Some(123));
    assert_eq!(read_records_size(b"10 path=a\n10 size=7\n10 size=8\n"), Some(7));
    assert_eq!(read_records_size(b"+12 size=+12\n"), None);
    assert_eq!(read_records_size(b"+13 size=+12\n"), Some(12));
    assert_eq!(read_records_size(b"13 size=123\n"), None);
    assert_eq!(read_records_size(b"10 size=x\n10 size=7\n"), None);
    assert_eq!(read_records_size(b"junk\n10 size=7\n"), None);
    assert_eq!(read_records_size(b"\n10 size=7\n"), None);
    assert_eq!(read_records_size(b"10 Size=7\n"), None);
    assert_eq!(read_records_size(b"29 size=18446744073709551615\n"), Some(u64::MAX));
    assert_eq!(read_records_size(b"29 size=18446744073709551616\n"), None);
    assert_eq!(read_records_size(b""), None);
}

// An archive that starts with a record for the entry that follows.
fn extended(key: &str, value: &str) -> Vec<u8> {
    let mut record = format!("{} {key}={value}\n", key.len() + value.len() + 5);
    assert_eq!(record.len(), key.len() + value.len() + 5);
    let mut header = tar::Header::new_ustar();
    header.set_entry_type(tar::EntryType::XHeader);
    header.set_size(record.len() as u64);
    header.set_mode(0o644);
    header.set_cksum();
    let mut data = header.as_bytes().to_vec();
    record.push_str(&"\0".repeat(512 - record.len()));
    data.extend_from_slice(record.as_bytes());
    data
}

#[test]
fn parent_in_the_middle_is_unsafe() {
    let bad = make_bundle_with_entry("bin/../../x", b"x");
    assert!(matches!(refusal(&bad).reason, BundleError::UnsafePath(_)));
}

#[test]
fn rejects_what_is_not_compressed() {
    let refused = refusal(b"certainly no zstd frame");
    assert!(refused.first.is_none());
    assert!(matches!(refused.reason, BundleError::Decompress(_)));
}

#[test]
fn rejects_what_is_no_archive() {
    let bundle = zstd::stream::encode_all([7u8; 600].as_slice(), 3).unwrap();
    let refused = refusal(&bundle);
    let first = refused.first.unwrap();
    assert!(first.steps.is_empty());
    assert_eq!(first.tar_data, [7u8; 600]);
    assert!(matches!(refused.reason, BundleError::Archive(_)));
}

#[test]
fn entries_before_a_refused_one_are_planned() {
    let mut buf = Vec::new();
    let mut builder = tar::Builder::new(&mut buf);
    append_file(&mut builder, "bin/tool", b"tool");
    append_raw(&mut builder, "../evil", b"evil");
    append_file(&mut builder, "bin/other", b"other");
    builder.finish().unwrap();
    drop(builder);
    let bundle = zstd::stream::encode_all(buf.as_slice(), 3).unwrap();
    let refused = refusal(&bundle);
    let steps = refused.first.unwrap().steps;
    assert_eq!(steps.len(), 1);
    assert!(matches!(&steps[0], ExtractStep::Unpack(path) if path.bytes == b"bin/tool"));
    assert!(matches!(
        refused.reason,
        BundleError::UnsafePath(path) if path.bytes == b"../evil"
    ));
}

#[test]
fn a_built_bundle_opens_to_its_archive() {
    let mut buf = Vec::new();
    let mut builder = tar::Builder::new(&mut buf);
    append_raw_directory(&mut builder, "./");
    append_file(&mut builder, "bin/tool", b"tool");
    append_file(&mut builder, "manifest.toml", b"schema_version = 1\n");
    builder.finish().unwrap();
    drop(builder);
    let bundle = match build_bundle(&buf) {
        Ok(bundle) => bundle,
        Err(_) => panic!("the archive is small"),
    };
    assert_ne!(bundle, buf);
    let plan = match extract_bundle(&bundle) {
        Ok(plan) => plan,
        Err(_) => panic!("nothing in the archive is refused"),
    };
    assert_eq!(plan.tar_data, buf);
    assert_eq!(plan.steps.len(), 3);
    assert!(matches!(&plan.steps[0], ExtractStep::Skip));
    assert!(matches!(&plan.steps[1], ExtractStep::Unpack(path) if path.bytes == b"bin/tool"));
    assert!(matches!(&plan.steps[2], ExtractStep::Unpack(path) if path.bytes == b"manifest.toml"));
}

fn refusal(bundle: &[u8]) -> Refusal {
    match extract_bundle(bundle) {
        Ok(_) => panic!("the bundle is refused"),
        Err(refusal) => refusal,
    }
}

fn append_file(builder: &mut tar::Builder<&mut Vec<u8>>, path: &str, contents: &[u8]) {
    let mut header = tar::Header::new_gnu();
    header.set_size(contents.len() as u64);
    header.set_mode(0o644);
    header.set_cksum();
    builder.append_data(&mut header, path, contents).unwrap();
}

// Writes the name field directly, which `append_data` would refuse.
fn append_raw(builder: &mut tar::Builder<&mut Vec<u8>>, path: &str, contents: &[u8]) {
    let mut header = tar::Header::new_gnu();
    {
        let gnu = header.as_gnu_mut().unwrap();
        let name_bytes = path.as_bytes();
        gnu.name[..name_bytes.len()].copy_from_slice(name_bytes);
    }
    header.set_size(contents.len() as u64);
    header.set_mode(0o644);
    header.set_cksum();
    builder.append(&header, contents).unwrap();
}

fn append_raw_directory(builder: &mut tar::Builder<&mut Vec<u8>>, path: &str) {
    let mut header = tar::Header::new_gnu();
    {
        let gnu = header.as_gnu_mut().unwrap();
        gnu.name[..path.len()].copy_from_slice(path.as_bytes());
    }
    header.set_entry_type(tar::EntryType::Directory);
    header.set_size(0);
    header.set_mode(0o755);
    header.set_cksum();
    builder.append(&header, [].as_slice()).unwrap();
}

fn make_bundle_with_entry(path: &str, contents: &[u8]) -> Vec<u8> {
    let mut buf = Vec::new();
    let mut builder = tar::Builder::new(&mut buf);
    append_raw(&mut builder, path, contents);
    builder.finish().unwrap();
    drop(builder);
    zstd::stream::encode_all(buf.as_slice(), 3).unwrap()
}

fn make_bundle_with_symlink(path: &str, target: &str) -> Vec<u8> {
    let mut buf = Vec::new();
    let mut builder = tar::Builder::new(&mut buf);
    let mut header = tar::Header::new_gnu();
    header.set_entry_type(tar::EntryType::Symlink);
    header.set_size(0);
    header.set_mode(0o777);
    header.set_cksum();
    builder.append_link(&mut header, path, target).unwrap();
    builder.finish().unwrap();
    drop(builder);
    zstd::stream::encode_all(buf.as_slice(), 3).unwrap()
}
