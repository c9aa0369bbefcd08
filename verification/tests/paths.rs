use std::path::Path;

use deploy_common::path::{same_component, Component, FsPath};

fn path(text: &str) -> FsPath {
    FsPath::from_text(text)
}

fn shown(text: &str) -> Vec<String> {
    path(text)
        .components()
        .iter()
        .map(|component| match component {
            Component::RootDir => String::from("/"),
            Component::CurDir => String::from("."),
            Component::ParentDir => String::from(".."),
            Component::Normal(name) => String::from_utf8(name.clone()).unwrap(),
        })
        .collect()
}

const SAMPLES: [&str; 20] = [
    "", "/", "//", ".", "..", "./", "./a", "a", "a/", "a//b", "a/./b", "a/../b", "/a", "/./a",
    "/../a", "...", ".a", "a/.", "a/..", "/a/b/c//",
];

#[test]
fn components_are_those_of_std() {
    for sample in SAMPLES {
        let expected: Vec<String> = Path::new(sample)
            .components()
            .map(|c| String::from(c.as_os_str().to_str().unwrap()))
            .collect();
        assert_eq!(shown(sample), expected, "{sample}");
    }
}

#[test]
fn joining_is_that_of_std() {
    for base in SAMPLES {
        for rel in SAMPLES {
            let expected = Path::new(base).join(rel);
            assert_eq!(
                path(base).join_text(rel).bytes,
                expected.to_str().unwrap().as_bytes(),
                "{base} {rel}"
            );
            assert_eq!(path(base).join(&path(rel)).bytes, path(base).join_text(rel).bytes);
        }
    }
}

#[test]
fn file_names_are_those_of_std() {
    for sample in SAMPLES {
        let expected = Path::new(sample)
            .file_name()
            .map(|name| name.to_str().unwrap().as_bytes().to_vec());
        assert_eq!(path(sample).file_name(), expected, "{sample}");
    }
}

#[test]
fn comparison_is_that_of_std() {
    for a in SAMPLES {
        for b in SAMPLES {
            assert_eq!(
                path(a).starts_with(&path(b)),
                Path::new(a).starts_with(b),
                "{a} {b}"
            );
            let same = path(a).starts_with(&path(b)) && path(b).starts_with(&path(a));
            assert_eq!(same, Path::new(a) == Path::new(b), "{a} {b}");
        }
    }
}

#[test]
fn components_are_compared_by_name() {
    let a = Component::Normal(b"a".to_vec());
    let b = Component::Normal(b"b".to_vec());
    assert!(same_component(&a, &a));
    assert!(!same_component(&a, &b));
    assert!(!same_component(&a, &Component::CurDir));
    assert!(same_component(&Component::RootDir, &Component::RootDir));
    assert_eq!(path("x/y").duplicate().bytes, b"x/y");
}

#[test]
fn a_place_is_what_a_path_leads_to() {
    for (a, b) in [
        ("/srv/p/releases/../releases/a", "/srv/p/releases/a"),
        ("/srv/../srv/./p//a/", "/srv/p/a"),
        ("/../../srv", "/srv"),
        ("./a", "a"),
        ("a/b/../..", "."),
        ("../a/../b", "../b"),
    ] {
        assert!(path(a).encloses(&path(b)), "{a} {b}");
        assert!(path(b).encloses(&path(a)), "{a} {b}");
    }
    assert!(path("/srv/a").encloses(&path("/srv/a/b/c")));
    assert!(path("/srv/a").encloses(&path("/srv/x/../a/b")));
    assert!(!path("/srv/a/b").encloses(&path("/srv/a")));
    assert!(!path("/srv/a").encloses(&path("/srv/ab")));
    assert!(!path("/srv/a").encloses(&path("/srv/a/../b")));
    assert!(!path("a").encloses(&path("../a")));
}
