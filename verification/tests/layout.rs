use deploy_common::manifest::BuildTime;
use deploy_common::path::FsPath;
use deploy_common::release::{can_cut_sha, DirEntry, ReleaseLayout, SwapError, SwapStep};

const SHA: &str = "abc1234def5678900000000000000000000000";

fn at(year: i32, month: u8, day: u8, hour: u8, minute: u8, second: u8) -> BuildTime {
    BuildTime {
        year,
        month,
        day,
        hour,
        minute,
        second,
        nanosecond: 999,
        offset_seconds: 0,
    }
}

fn off(seconds: i32, time: BuildTime) -> BuildTime {
    BuildTime {
        offset_seconds: seconds,
        ..time
    }
}

fn stamp(time: BuildTime) -> String {
    assert!(time.is_valid());
    ReleaseLayout::new_release_dir_name(&time, "")
}

fn layout() -> ReleaseLayout {
    ReleaseLayout::new(FsPath::from_text("/srv/apps/myproj"))
}

fn dirs(names: &[&str]) -> Vec<DirEntry> {
    names
        .iter()
        .map(|name| DirEntry {
            name: name.as_bytes().to_vec(),
            is_dir: true,
            place: None,
        })
        .collect()
}

fn texts(paths: &[FsPath]) -> Vec<String> {
    paths
        .iter()
        .map(|path| String::from_utf8(path.bytes.clone()).unwrap())
        .collect()
}

#[test]
fn directories_are_below_the_root() {
    let l = layout();
    assert_eq!(l.app_root.bytes, b"/srv/apps/myproj");
    assert_eq!(l.releases_dir().bytes, b"/srv/apps/myproj/releases");
    assert_eq!(l.current_link().bytes, b"/srv/apps/myproj/current");
    assert_eq!(l.shared_dir().bytes, b"/srv/apps/myproj/shared");
    let l = ReleaseLayout::new(FsPath::from_text("/srv/"));
    assert_eq!(l.releases_dir().bytes, b"/srv/releases");
}

#[test]
fn release_name_holds_time_and_commit() {
    assert_eq!(
        ReleaseLayout::new_release_dir_name(&at(2026, 9, 9, 14, 3, 0), SHA),
        "2026-09-09T14-03-00Z_abc1234def56"
    );
    assert_eq!(
        ReleaseLayout::new_release_dir_name(&at(2024, 2, 29, 0, 0, 59), "abc"),
        "2024-02-29T00-00-59Z_abc"
    );
    assert_eq!(
        ReleaseLayout::new_release_dir_name(&at(7, 12, 31, 23, 59, 9), ""),
        "0007-12-31T23-59-09Z_"
    );
    assert_eq!(
        ReleaseLayout::new_release_dir_name(&at(-12, 1, 2, 3, 4, 5), "0123456789abc"),
        "-0012-01-02T03-04-05Z_0123456789ab"
    );
    assert_eq!(
        layout().new_release_path(&at(2026, 9, 9, 14, 3, 0), SHA).bytes,
        b"/srv/apps/myproj/releases/2026-09-09T14-03-00Z_abc1234def56"
    );
}

#[test]
fn release_name_holds_the_time_in_utc() {
    assert_eq!(
        ReleaseLayout::new_release_dir_name(&off(7200, at(2026, 9, 9, 16, 3, 0)), SHA),
        "2026-09-09T14-03-00Z_abc1234def56"
    );
    assert_eq!(stamp(off(-7200, at(2026, 9, 9, 16, 3, 0))), "2026-09-09T18-03-00Z_");
    assert_eq!(stamp(off(3600, at(2026, 3, 1, 0, 30, 0))), "2026-02-28T23-30-00Z_");
    assert_eq!(stamp(off(3600, at(2024, 3, 1, 0, 30, 0))), "2024-02-29T23-30-00Z_");
    assert_eq!(stamp(off(19_800, at(2026, 1, 1, 5, 29, 59))), "2025-12-31T23-59-59Z_");
    assert_eq!(stamp(off(-1, at(2025, 12, 31, 23, 59, 59))), "2026-01-01T00-00-00Z_");
    assert_eq!(stamp(off(-3600, at(2026, 4, 30, 23, 0, 0))), "2026-05-01T00-00-00Z_");
    assert_eq!(stamp(off(93_599, at(2026, 3, 1, 0, 0, 0))), "2026-02-27T22-00-01Z_");
    assert_eq!(stamp(off(-93_599, at(2026, 12, 30, 23, 59, 59))), "2027-01-01T01-59-58Z_");
    assert_eq!(stamp(off(1, at(0, 1, 1, 0, 0, 0))), "-0001-12-31T23-59-59Z_");
    assert_eq!(
        off(7200, at(2026, 9, 9, 16, 3, 0)).to_utc(),
        at(2026, 9, 9, 14, 3, 0)
    );
}

#[test]
fn names_sort_across_clocks() {
    let first = off(7200, at(2026, 9, 9, 16, 3, 0));
    let second = off(-3600, at(2026, 9, 9, 13, 3, 1));
    assert!(stamp(first) < stamp(second));
}

#[test]
fn offsets_have_bounds() {
    assert!(off(93_599, at(2026, 1, 1, 0, 0, 0)).is_valid());
    assert!(!off(93_600, at(2026, 1, 1, 0, 0, 0)).is_valid());
    assert!(off(-93_599, at(2026, 1, 1, 0, 0, 0)).is_valid());
    assert!(!off(-93_600, at(2026, 1, 1, 0, 0, 0)).is_valid());
    assert!(!off(i32::MIN, at(2026, 1, 1, 0, 0, 0)).is_valid());
    assert!(off(1, at(9999, 12, 31, 23, 59, 59)).is_valid());
    assert!(!off(-1, at(9999, 12, 31, 23, 59, 59)).is_valid());
    assert!(off(-1, at(-9999, 1, 1, 0, 0, 0)).is_valid());
    assert!(!off(1, at(-9999, 1, 1, 0, 0, 0)).is_valid());
}

#[test]
fn a_commit_is_cut_between_characters() {
    assert!(can_cut_sha(SHA));
    assert!(can_cut_sha(""));
    assert!(can_cut_sha("éééééé"));
    assert_eq!(
        ReleaseLayout::new_release_dir_name(&at(2026, 9, 9, 14, 3, 0), "éééééééé"),
        "2026-09-09T14-03-00Z_éééééé"
    );
    assert!(!can_cut_sha("aéééééééé"));
}

#[test]
fn only_times_that_exist_are_valid() {
    assert!(at(2024, 2, 29, 23, 59, 59).is_valid());
    assert!(at(2000, 2, 29, 0, 0, 0).is_valid());
    assert!(at(-4, 2, 29, 0, 0, 0).is_valid());
    assert!(!at(2023, 2, 29, 0, 0, 0).is_valid());
    assert!(!at(1900, 2, 29, 0, 0, 0).is_valid());
    assert!(!at(2026, 4, 31, 0, 0, 0).is_valid());
    assert!(!at(2026, 13, 1, 0, 0, 0).is_valid());
    assert!(!at(2026, 0, 1, 0, 0, 0).is_valid());
    assert!(!at(2026, 1, 0, 0, 0, 0).is_valid());
    assert!(!at(2026, 1, 1, 24, 0, 0).is_valid());
    assert!(!at(2026, 1, 1, 0, 60, 0).is_valid());
    assert!(!at(2026, 1, 1, 0, 0, 60).is_valid());
    assert!(!at(10_000, 1, 1, 0, 0, 0).is_valid());
    assert!(!at(i32::MIN, 1, 1, 0, 0, 0).is_valid());
}

#[test]
fn names_sort_by_the_time_of_the_build() {
    let times = [
        at(999, 12, 31, 23, 59, 59),
        at(2025, 1, 1, 0, 0, 0),
        at(2025, 1, 1, 0, 0, 1),
        at(2025, 1, 1, 0, 1, 0),
        at(2025, 1, 1, 10, 0, 0),
        at(2025, 1, 2, 9, 0, 0),
        at(2025, 10, 1, 0, 0, 0),
        at(2026, 2, 1, 0, 0, 0),
    ];
    let names: Vec<String> = times
        .iter()
        .enumerate()
        .map(|(i, t)| ReleaseLayout::new_release_dir_name(t, &format!("{}", 9 - i)))
        .collect();
    for pair in names.windows(2) {
        assert!(pair[0].as_bytes() < pair[1].as_bytes());
    }
    let mut shuffled: Vec<&str> = names.iter().map(|n| n.as_str()).collect();
    shuffled.reverse();
    let listed = layout().list_releases(&dirs(&shuffled));
    let expected: Vec<String> = names
        .iter()
        .map(|n| format!("/srv/apps/myproj/releases/{n}"))
        .collect();
    assert_eq!(texts(&listed), expected);
}

#[test]
fn only_directories_are_listed() {
    let entries = vec![
        DirEntry { name: b"b".to_vec(), is_dir: true, place: None },
        DirEntry { name: b"file".to_vec(), is_dir: false, place: None },
        DirEntry { name: b"a".to_vec(), is_dir: true, place: None },
    ];
    assert_eq!(
        texts(&layout().list_releases(&entries)),
        ["/srv/apps/myproj/releases/a", "/srv/apps/myproj/releases/b"]
    );
    assert!(layout().list_releases(&Vec::new()).is_empty());
}

#[test]
fn a_swap_links_relative_to_the_root() {
    let l = layout();
    let release = l.new_release_path(&at(2026, 9, 9, 14, 3, 0), SHA);
    let plan = match l.swap_current(&release) {
        Ok(plan) => plan,
        Err(_) => panic!("the release has a name"),
    };
    assert_eq!(plan.tmp_link.bytes, b"/srv/apps/myproj/.current.tmp");
    assert_eq!(
        plan.relative_target.bytes,
        b"releases/2026-09-09T14-03-00Z_abc1234def56"
    );
    assert_eq!(plan.current_link.bytes, b"/srv/apps/myproj/current");
    let target = l.current_target(Some(&plan.relative_target)).unwrap();
    assert!(target.encloses(&release) && release.encloses(&target));
    assert!(l.current_target(None).is_none());
    let absolute = l.current_target(Some(&FsPath::from_text("/elsewhere"))).unwrap();
    assert_eq!(absolute.bytes, b"/elsewhere");
}

#[test]
fn a_swap_needs_a_name() {
    match layout().swap_current(&FsPath::from_text("/srv/..")) {
        Err(SwapError::NoFileName { tmp_link }) => {
            assert_eq!(tmp_link.bytes, b"/srv/apps/myproj/.current.tmp")
        }
        Ok(_) => panic!("the path does not end in a name"),
    }
    assert!(layout().swap_current(&FsPath::from_text("/")).is_err());
}

#[test]
fn prune_removes_the_oldest() {
    let entries = dirs(&["c", "a", "e", "b", "d"]);
    let link = FsPath::from_text("releases/e");
    assert_eq!(
        texts(&layout().prune(&entries, Some(&link), None, 3)),
        ["/srv/apps/myproj/releases/a", "/srv/apps/myproj/releases/b"]
    );
    assert!(layout().prune(&entries, Some(&link), None, 5).is_empty());
    assert!(layout().prune(&entries, Some(&link), None, 6).is_empty());
    assert!(layout().prune(&entries, None, None, usize::MAX).is_empty());
    assert_eq!(layout().prune(&entries, None, None, 0).len(), 5);
}

#[test]
fn prune_never_removes_the_current_release() {
    let entries = dirs(&["a", "b", "c"]);
    let link = FsPath::from_text("releases/a");
    assert_eq!(
        texts(&layout().prune(&entries, Some(&link), None, 0)),
        ["/srv/apps/myproj/releases/b", "/srv/apps/myproj/releases/c"]
    );
    assert_eq!(
        texts(&layout().prune(&entries, Some(&link), None, 1)),
        ["/srv/apps/myproj/releases/b"]
    );
    let plan = match layout().swap_current(&FsPath::from_text("/srv/apps/myproj/releases/a")) {
        Ok(plan) => plan,
        Err(_) => panic!("the release has a name"),
    };
    let swapped = texts(&layout().prune(&entries, Some(&plan.relative_target), None, 0));
    assert!(!swapped.contains(&String::from("/srv/apps/myproj/releases/a")));
    let crooked = FsPath::from_text("./releases//a/");
    assert_eq!(
        texts(&layout().prune(&entries, Some(&crooked), None, 1)),
        ["/srv/apps/myproj/releases/b"]
    );
    let gone = FsPath::from_text("releases/z");
    assert_eq!(layout().prune(&entries, Some(&gone), None, 1).len(), 2);
}

#[test]
fn prune_sees_through_crooked_links() {
    let entries = dirs(&["A", "B"]);
    for link in [
        "releases/../releases/A",
        "../myproj/releases/A",
        "/srv/apps/myproj/shared/../releases/A/.",
        "releases/A/bin",
    ] {
        let link = FsPath::from_text(link);
        assert!(layout().prune(&entries, Some(&link), None, 1).is_empty());
    }
    let elsewhere = FsPath::from_text("releases/A/../B");
    assert_eq!(
        texts(&layout().prune(&entries, Some(&elsewhere), None, 1)),
        ["/srv/apps/myproj/releases/A"]
    );
}

#[test]
fn prune_spares_where_the_link_ends() {
    let mut entries = dirs(&["A", "B"]);
    let link = FsPath::from_text("stable");
    assert_eq!(layout().prune(&entries, Some(&link), None, 1).len(), 1);
    entries[0].place = Some(FsPath::from_text("/data/releases/A"));
    entries[1].place = Some(FsPath::from_text("/data/releases/B"));
    assert_eq!(layout().prune(&entries, Some(&link), None, 1).len(), 1);
    for end in ["/data/releases/A", "/data/releases/A/bin"] {
        let end = FsPath::from_text(end);
        assert!(layout().prune(&entries, Some(&link), Some(&end), 1).is_empty());
        assert_eq!(
            texts(&layout().prune(&entries, Some(&link), Some(&end), 0)),
            ["/srv/apps/myproj/releases/B"]
        );
    }
    let end = FsPath::from_text("/data/releases/AB");
    assert_eq!(layout().prune(&entries, Some(&link), Some(&end), 1).len(), 1);
}

#[test]
fn a_second_prune_deletes_nothing() {
    for link in ["releases/a", "releases/e", "releases/gone"] {
        let link = FsPath::from_text(link);
        for retain_count in 0..6 {
            let mut names = vec!["a", "b", "c", "d", "e"];
            let removed = texts(&layout().prune(&dirs(&names), Some(&link), None, retain_count));
            names.retain(|n| !removed.contains(&format!("/srv/apps/myproj/releases/{n}")));
            assert!(layout().prune(&dirs(&names), Some(&link), None, retain_count).is_empty());
        }
    }
}

#[test]
fn current_is_old_or_new_at_any_time() {
    let l = layout();
    let plan = match l.swap_current(&FsPath::from_text("/srv/apps/myproj/releases/new")) {
        Ok(plan) => plan,
        Err(_) => panic!("the release has a name"),
    };
    let tmp = b"/srv/apps/myproj/.current.tmp".to_vec();
    let current = b"/srv/apps/myproj/current".to_vec();
    let mut links = vec![
        (current.clone(), b"releases/old".to_vec()),
        (tmp.clone(), b"left behind".to_vec()),
    ];
    let mut held = Vec::new();
    for step in plan.steps() {
        match step {
            SwapStep::Remove(path) => links.retain(|link| link.0 != path.bytes),
            SwapStep::Link { target, at } => {
                assert!(!links.iter().any(|link| link.0 == at.bytes));
                links.push((at.bytes, target.bytes));
            }
            SwapStep::Rename { from, to } => {
                links.retain(|link| link.0 != to.bytes);
                for link in links.iter_mut().filter(|link| link.0 == from.bytes) {
                    link.0 = to.bytes.clone();
                }
            }
        }
        let now = links.iter().find(|link| link.0 == current).unwrap();
        held.push(String::from_utf8(now.1.clone()).unwrap());
    }
    assert_eq!(held, ["releases/old", "releases/old", "releases/new"]);
    assert!(!links.iter().any(|link| link.0 == tmp));
    let previous = l.current_target(Some(&FsPath::from_text("releases/old"))).unwrap();
    let back = match l.swap_current(&previous) {
        Ok(plan) => plan,
        Err(_) => panic!("the previous release has a name"),
    };
    assert_eq!(back.relative_target.bytes, b"releases/old");
}
