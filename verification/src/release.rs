//! The directories that a project's releases are kept in, and the link that
//! says which of them runs.

use vstd::multiset::*;
use vstd::prelude::*;
use vstd::seq_lib::*;
use vstd::slice::*;
use vstd::string::*;
use vstd::utf8::*;

use crate::external::format_calendar;
use crate::manifest::{
    calendar_text, earlier, fields_text, lemma_calendar_text_ascii, lemma_calendar_text_no_slash,
    lemma_calendar_text_sorts, lemma_utc_is_same_instant, utc, BuildTime, TIMESTAMP_FORMAT,
};
use crate::order::{
    byte_views, lemma_first_difference_decides, lemma_lex_irreflexive, lemma_lex_total,
    lemma_sorted_list_is_unique, lex_less, lex_sorted, sort_bytes,
};
use crate::path::{
    file_name, head_parts, is_absolute, is_enclosed, is_plain_name, is_same_place, is_within, joined,
    lemma_parts_of_joined, lemma_plain_name_parts, lemma_resolved_name, lemma_tail_parts_names,
    parts, resolved, tail_parts, FsPath, Part, SEPARATOR,
};
use crate::text::{bytes_equal, lemma_encode_utf8_concat, lemma_encode_utf8_without_slash};

verus! {

/// How many bytes of the commit go into the name of a release.
pub const SHA_PREFIX_LEN: usize = 12;

/// Where a project's releases live.
#[derive(Debug)]
pub struct ReleaseLayout {
    /// The directory of the project, such as /srv/apps/myproj.
    pub app_root: FsPath,
}

/// What a swap of the current release consists of: a link to
/// `relative_target` is made at `tmp_link`, in place of what is there, and
/// renamed to `current_link`. [`SwapPlan::steps`] are these steps.
#[derive(Debug)]
pub struct SwapPlan {
    pub tmp_link: FsPath,
    pub relative_target: FsPath,
    pub current_link: FsPath,
}

/// A step of a swap.
#[derive(Debug)]
pub enum SwapStep {
    /// What is at this path is deleted, if there is anything.
    Remove(FsPath),
    /// A link to `target` is made at `at`.
    Link { target: FsPath, at: FsPath },
    /// What is at `from` takes the place of what is at `to`, at once.
    Rename { from: FsPath, to: FsPath },
}

/// What a [`SwapStep`] stands for.
pub enum SwapStepView {
    Remove(Seq<u8>),
    Link { target: Seq<u8>, at: Seq<u8> },
    Rename { from: Seq<u8>, to: Seq<u8> },
}

impl View for SwapStep {
    type V = SwapStepView;

    open spec fn view(&self) -> SwapStepView {
        match self {
            SwapStep::Remove(path) => SwapStepView::Remove(path@),
            SwapStep::Link { target, at } => SwapStepView::Link { target: target@, at: at@ },
            SwapStep::Rename { from, to } => SwapStepView::Rename { from: from@, to: to@ },
        }
    }
}

/// Why a release cannot become the current one.
#[derive(Debug)]
pub enum SwapError {
    /// The path of the release does not end in a name. What is at `tmp_link`
    /// goes all the same.
    NoFileName { tmp_link: FsPath },
}

/// An entry of the directory of releases.
#[derive(Debug)]
pub struct DirEntry {
    pub name: Vec<u8>,
    /// Whether the entry is a directory, or a link to one.
    pub is_dir: bool,
    /// The path of the entry with its links resolved, where that was possible.
    pub place: Option<FsPath>,
}

/// What the steps of `list` stand for.
pub open spec fn swap_step_views(list: Seq<SwapStep>) -> Seq<SwapStepView> {
    Seq::new(list.len(), |i: int| list[i]@)
}

/// The path of the link to the current release.
pub open spec fn current_path(app_root: Seq<u8>) -> Seq<u8> {
    joined(app_root, encode_utf8("current"@))
}

/// The path that the link to a new release is made at.
pub open spec fn tmp_path(app_root: Seq<u8>) -> Seq<u8> {
    joined(app_root, encode_utf8(".current.tmp"@))
}

/// The steps by which the link at `current` comes to hold `target`.
pub open spec fn swap_steps(tmp: Seq<u8>, target: Seq<u8>, current: Seq<u8>) -> Seq<SwapStepView> {
    seq![
        SwapStepView::Remove(tmp),
        SwapStepView::Link { target, at: tmp },
        SwapStepView::Rename { from: tmp, to: current },
    ]
}

/// The links of a file system, by their paths, behind one step.
pub open spec fn links_after(links: Map<Seq<u8>, Seq<u8>>, step: SwapStepView) -> Map<
    Seq<u8>,
    Seq<u8>,
> {
    match step {
        SwapStepView::Remove(path) => links.remove(path),
        SwapStepView::Link { target, at } => links.insert(at, target),
        SwapStepView::Rename { from, to } => links.remove(from).insert(to, links[from]),
    }
}

/// The links of a file system behind `steps`.
pub open spec fn links_behind(links: Map<Seq<u8>, Seq<u8>>, steps: Seq<SwapStepView>) -> Map<
    Seq<u8>,
    Seq<u8>,
>
    decreases steps.len(),
{
    if steps.len() == 0 {
        links
    } else {
        links_after(links_behind(links, steps.drop_last()), steps.last())
    }
}

/// The path of the directory of releases.
pub open spec fn releases_path(app_root: Seq<u8>) -> Seq<u8> {
    joined(app_root, encode_utf8("releases"@))
}

/// How many bytes of `git_sha` go into the name of a release.
pub open spec fn sha_prefix_len(git_sha: Seq<char>) -> int {
    if encode_utf8(git_sha).len() < 12 {
        encode_utf8(git_sha).len() as int
    } else {
        12
    }
}

/// Whether `git_sha` can be cut behind its first bytes, or is short enough not
/// to be.
pub open spec fn sha_can_be_cut(git_sha: Seq<char>) -> bool {
    is_char_boundary(encode_utf8(git_sha), sha_prefix_len(git_sha))
}

/// The first bytes of `git_sha`.
pub open spec fn sha_prefix(git_sha: Seq<char>) -> Seq<char> {
    decode_utf8(encode_utf8(git_sha).take(sha_prefix_len(git_sha)))
}

/// The name of the directory for a release: the time of its build in UTC, and
/// the first bytes of the commit.
pub open spec fn release_name(built_at: BuildTime, git_sha: Seq<char>) -> Seq<char> {
    calendar_text(built_at) + seq!['_'] + sha_prefix(git_sha)
}

/// The path of the directory for a release.
pub open spec fn release_path(
    app_root: Seq<u8>,
    built_at: BuildTime,
    git_sha: Seq<char>,
) -> Seq<u8> {
    joined(releases_path(app_root), encode_utf8(release_name(built_at, git_sha)))
}

/// What the link to the current release holds where that is `name`.
pub open spec fn link_target(name: Seq<u8>) -> Seq<u8> {
    joined(encode_utf8("releases"@), name)
}

/// The names of the directories among `entries`, as they come.
pub open spec fn dir_names(entries: Seq<DirEntry>) -> Seq<Seq<u8>>
    decreases entries.len(),
{
    if entries.len() == 0 {
        seq![]
    } else if entries.last().is_dir {
        dir_names(entries.drop_last()).push(entries.last().name@)
    } else {
        dir_names(entries.drop_last())
    }
}

/// Whether `names` are the names of the directories among `entries`, oldest
/// first.
pub open spec fn in_order(names: Seq<Seq<u8>>, entries: Seq<DirEntry>) -> bool {
    &&& lex_sorted(names)
    &&& names.to_multiset() == dir_names(entries).to_multiset()
}

/// The paths of the entries `names` of the directory `dir`.
pub open spec fn paths_in(dir: Seq<u8>, names: Seq<Seq<u8>>) -> Seq<Seq<u8>> {
    Seq::new(names.len(), |i: int| joined(dir, names[i]))
}

/// The paths that `list` holds.
pub open spec fn path_views(list: Seq<FsPath>) -> Seq<Seq<u8>> {
    Seq::new(list.len(), |i: int| list[i]@)
}

/// Whether `path` is the current release.
pub open spec fn is_current(path: Seq<u8>, current: Option<Seq<u8>>) -> bool {
    current is Some && is_same_place(path, current->0)
}

/// Whether the current release is at `path`, or below it.
pub open spec fn holds_current(path: Seq<u8>, current: Option<Seq<u8>>) -> bool {
    current is Some && is_enclosed(current->0, path)
}

/// Whether an entry is where following the link to the current release ended,
/// or holds that place.
pub open spec fn is_end(entry: DirEntry, end: Option<Seq<u8>>) -> bool {
    &&& end is Some
    &&& entry.place is Some
    &&& is_within(end->0, entry.place->0@)
}

/// Whether following the link to the current release ended at or below an entry
/// with this name.
pub open spec fn is_followed(
    entries: Seq<DirEntry>,
    end: Option<Seq<u8>>,
    name: Seq<u8>,
) -> bool {
    exists|i: int|
        0 <= i < entries.len() && is_end(#[trigger] entries[i], end) && entries[i].name@ == name
}

/// Which names of releases are spared by a prune: the one at or below which the
/// path in the link leads, and the one at or below which following the link
/// ended.
pub open spec fn spares(
    entries: Seq<DirEntry>,
    app_root: Seq<u8>,
    link: Option<Seq<u8>>,
    end: Option<Seq<u8>>,
) -> spec_fn(Seq<u8>) -> bool {
    |name: Seq<u8>|
        holds_current(joined(releases_path(app_root), name), linked_release(app_root, link))
            || is_followed(entries, end, name)
}

/// The names in `list` that are not spared.
pub open spec fn without_spared(list: Seq<Seq<u8>>, spared: spec_fn(Seq<u8>) -> bool) -> Seq<
    Seq<u8>,
>
    decreases list.len(),
{
    if list.len() == 0 {
        seq![]
    } else if spared(list.last()) {
        without_spared(list.drop_last(), spared)
    } else {
        without_spared(list.drop_last(), spared).push(list.last())
    }
}

/// The names in `list` that are spared.
pub open spec fn only_spared(list: Seq<Seq<u8>>, spared: spec_fn(Seq<u8>) -> bool) -> Seq<Seq<u8>>
    decreases list.len(),
{
    if list.len() == 0 {
        seq![]
    } else if spared(list.last()) {
        only_spared(list.drop_last(), spared).push(list.last())
    } else {
        only_spared(list.drop_last(), spared)
    }
}

/// The names that a prune deletes, out of `names`, oldest first.
pub open spec fn pruned(
    names: Seq<Seq<u8>>,
    spared: spec_fn(Seq<u8>) -> bool,
    retain_count: nat,
) -> Seq<Seq<u8>> {
    without_spared(names.take(excess(names.len(), retain_count)), spared)
}

/// How many of `count` releases are more than `retain_count`.
pub open spec fn excess(count: nat, retain_count: nat) -> int {
    if count <= retain_count {
        0
    } else {
        count - retain_count
    }
}

/// The release that the link `link` in `app_root` leads to.
pub open spec fn linked_release(app_root: Seq<u8>, link: Option<Seq<u8>>) -> Option<Seq<u8>> {
    match link {
        Some(target) => Some(joined(app_root, target)),
        None => None,
    }
}

/// What the link to the current release holds, if it is there.
pub open spec fn link_view(link: Option<&FsPath>) -> Option<Seq<u8>> {
    match link {
        Some(l) => Some(l@),
        None => None,
    }
}

/// Whether `target` is the release that a link leads to.
pub open spec fn is_target(
    app_root: Seq<u8>,
    link: Option<&FsPath>,
    target: Option<FsPath>,
) -> bool {
    match target {
        Some(t) => linked_release(app_root, link_view(link)) == Some(t@),
        None => linked_release(app_root, link_view(link)) is None,
    }
}

/// Whether `list` is the releases among `entries`, oldest first.
pub open spec fn is_listing(
    app_root: Seq<u8>,
    entries: Seq<DirEntry>,
    list: Seq<FsPath>,
) -> bool {
    exists|names: Seq<Seq<u8>>| #[trigger]
        in_order(names, entries) && path_views(list) == paths_in(releases_path(app_root), names)
}

/// Whether `removed` is what a prune of the releases among `entries` deletes.
pub open spec fn is_pruning(
    app_root: Seq<u8>,
    entries: Seq<DirEntry>,
    link: Option<&FsPath>,
    end: Option<&FsPath>,
    retain_count: nat,
    removed: Seq<FsPath>,
) -> bool {
    exists|names: Seq<Seq<u8>>| #[trigger]
        in_order(names, entries) && path_views(removed) == paths_in(
            releases_path(app_root),
            pruned(
                names,
                spares(entries, app_root, link_view(link), link_view(end)),
                retain_count,
            ),
        )
}

/// Whether `steps` are those of a swap.
pub open spec fn are_steps_of(plan: SwapPlan, steps: Seq<SwapStep>) -> bool {
    swap_step_views(steps) == swap_steps(
        plan.tmp_link@,
        plan.relative_target@,
        plan.current_link@,
    )
}

/// Whether `plan` is how `current` comes to point at `release_dir`.
pub open spec fn is_swap(
    app_root: Seq<u8>,
    release_dir: Seq<u8>,
    plan: Result<SwapPlan, SwapError>,
) -> bool {
    match plan {
        Ok(p) => {
            &&& file_name(release_dir) is Some
            &&& p.tmp_link@ == tmp_path(app_root)
            &&& p.relative_target@ == link_target(file_name(release_dir)->0)
            &&& p.current_link@ == current_path(app_root)
        },
        Err(SwapError::NoFileName { tmp_link }) => {
            &&& file_name(release_dir) is None
            &&& tmp_link@ == tmp_path(app_root)
        },
    }
}

/// Whether a commit can be cut for the name of a release.
pub fn can_cut_sha(git_sha: &str) -> (can: bool)
    ensures
        can == sha_can_be_cut(git_sha@),
{
    let len: usize = git_sha.as_bytes().len();
    let cut: usize = if len < SHA_PREFIX_LEN {
        len
    } else {
        SHA_PREFIX_LEN
    };
    git_sha.is_char_boundary(cut)
}

impl ReleaseLayout {
    /// The layout below `app_root`.
    pub fn new(app_root: FsPath) -> (layout: ReleaseLayout)
        ensures
            layout.app_root == app_root,
    {
        ReleaseLayout { app_root }
    }

    /// The directory of releases.
    pub fn releases_dir(&self) -> (path: FsPath)
        ensures
            path@ == releases_path(self.app_root@),
    {
        self.app_root.join_text("releases")
    }

    /// The link to the current release.
    pub fn current_link(&self) -> (path: FsPath)
        ensures
            path@ == current_path(self.app_root@),
    {
        self.app_root.join_text("current")
    }

    /// The directory that all releases share.
    pub fn shared_dir(&self) -> (path: FsPath)
        ensures
            path@ == joined(self.app_root@, encode_utf8("shared"@)),
    {
        self.app_root.join_text("shared")
    }

    /// The name of the directory for a release, such as
    /// 2026-09-09T14-03-00Z_abc1234def56. The time is in UTC, there are no colons
    /// in it, and names sort by the time of the build.
    pub fn new_release_dir_name(built_at: &BuildTime, git_sha: &str) -> (name: String)
        requires
            built_at.valid(),
            sha_can_be_cut(git_sha@),
        ensures
            name@ == release_name(*built_at, git_sha@),
    {
        proof {
            lemma_utc_is_same_instant(*built_at);
        }
        let mut name: String = format_calendar(&built_at.to_utc(), TIMESTAMP_FORMAT);
        let len: usize = git_sha.as_bytes().len();
        let cut: usize = if len < SHA_PREFIX_LEN {
            len
        } else {
            SHA_PREFIX_LEN
        };
        let (prefix, _) = git_sha.split_at(cut);
        proof {
            let bytes = encode_utf8(git_sha@);
            assert(bytes.subrange(0, cut as int) =~= bytes.take(cut as int));
            encode_utf8_decode_utf8(prefix@);
            reveal_strlit("_");
            assert("_"@ =~= seq!['_']);
        }
        name.append("_");
        name.append(prefix);
        name
    }

    /// The path of the directory for a release.
    pub fn new_release_path(&self, built_at: &BuildTime, git_sha: &str) -> (path: FsPath)
        requires
            built_at.valid(),
            sha_can_be_cut(git_sha@),
        ensures
            path@ == release_path(self.app_root@, *built_at, git_sha@),
    {
        self.releases_dir().join_text(
            ReleaseLayout::new_release_dir_name(built_at, git_sha).as_str(),
        )
    }

    /// Plans how `current` comes to point at `release_dir`, through a link at
    /// another name that is renamed, so that `current` is there at any time.
    /// The link is relative, so that the project can be moved.
    pub fn swap_current(&self, release_dir: &FsPath) -> (plan: Result<SwapPlan, SwapError>)
        ensures
            is_swap(self.app_root@, release_dir@, plan),
    {
        let tmp_link: FsPath = self.app_root.join_text(".current.tmp");
        match release_dir.file_name() {
            Some(name) => {
                let relative_target: FsPath = FsPath::from_text("releases").join(
                    &FsPath { bytes: name },
                );
                Ok(SwapPlan { tmp_link, relative_target, current_link: self.current_link() })
            },
            None => Err(SwapError::NoFileName { tmp_link }),
        }
    }

    /// The release that `current` points at, given what the link holds, if it
    /// is there.
    pub fn current_target(&self, link: Option<&FsPath>) -> (target: Option<FsPath>)
        ensures
            is_target(self.app_root@, link, target),
    {
        match link {
            Some(l) => Some(self.app_root.join(l)),
            None => None,
        }
    }

    /// The releases, oldest first, given the entries of their directory. Their
    /// names start with the time of the build, so that is the order by name.
    pub fn list_releases(&self, entries: &Vec<DirEntry>) -> (list: Vec<FsPath>)
        ensures
            is_listing(self.app_root@, entries@, list@),
    {
        let sorted: Vec<Vec<u8>> = sorted_names(entries);
        let ghost ordered = byte_views(sorted@);
        let dir: FsPath = self.releases_dir();
        let mut list: Vec<FsPath> = Vec::new();
        while list.len() < sorted.len()
            invariant
                list.len() <= sorted.len(),
                ordered == byte_views(sorted@),
                dir@ == releases_path(self.app_root@),
                path_views(list@) == paths_in(dir@, ordered).take(list@.len() as int),
            decreases sorted.len() - list.len(),
        {
            let ghost before = list@;
            let name: FsPath = FsPath { bytes: slice_to_vec(sorted[list.len()].as_slice()) };
            let path: FsPath = dir.join(&name);
            assert(path@ == paths_in(dir@, ordered)[before.len() as int]);
            list.push(path);
            proof {
                assert(path_views(list@) =~= path_views(before).push(path@));
                assert(path_views(list@) =~= paths_in(dir@, ordered).take(list@.len() as int));
            }
        }
        assert(path_views(list@) =~= paths_in(dir@, ordered));
        list
    }

    /// The releases to delete, in this order, so that about `retain_count` are
    /// left: the oldest of those that are too many, but never the one that
    /// `current` points at or into, be it by the path in the link or by
    /// following it, which ended at `end` where it could be followed.
    pub fn prune(
        &self,
        entries: &Vec<DirEntry>,
        link: Option<&FsPath>,
        end: Option<&FsPath>,
        retain_count: usize,
    ) -> (removed: Vec<FsPath>)
        ensures
            is_pruning(self.app_root@, entries@, link, end, retain_count as nat, removed@),
    {
        let sorted: Vec<Vec<u8>> = sorted_names(entries);
        let ghost names = byte_views(sorted@);
        let ghost spared = spares(entries@, self.app_root@, link_view(link), link_view(end));
        let ghost target = linked_release(self.app_root@, link_view(link));
        let dir: FsPath = self.releases_dir();
        let current: Option<FsPath> = self.current_target(link);
        let mut removed: Vec<FsPath> = Vec::new();
        assert(names.len() == sorted@.len());
        let count: usize = if sorted.len() <= retain_count {
            0
        } else {
            sorted.len() - retain_count
        };
        let mut i: usize = 0;
        assert(path_views(removed@) =~= paths_in(dir@, without_spared(names.take(0), spared)));
        while i < count
            invariant
                i <= count <= sorted.len(),
                names == byte_views(sorted@),
                spared == spares(entries@, self.app_root@, link_view(link), link_view(end)),
                target == linked_release(self.app_root@, link_view(link)),
                dir@ == releases_path(self.app_root@),
                current is Some == target is Some,
                current is Some ==> current->0@ == target->0,
                path_views(removed@) == paths_in(
                    dir@,
                    without_spared(names.take(i as int), spared),
                ),
            decreases count - i,
        {
            let ghost before = removed@;
            let ghost kept = without_spared(names.take(i as int), spared);
            proof {
                assert(names.take(i + 1).drop_last() =~= names.take(i as int));
                assert(names.take(i + 1).last() == sorted@[i as int]@);
            }
            let path: FsPath = dir.join(&FsPath { bytes: slice_to_vec(sorted[i].as_slice()) });
            let linked: bool = match &current {
                Some(c) => path.encloses(c),
                None => false,
            };
            let keep: bool = linked || ends_at(entries, end, sorted[i].as_slice());
            assert(keep == spared(sorted@[i as int]@));
            if !keep {
                removed.push(path);
                proof {
                    assert(path_views(removed@) =~= path_views(before).push(path@));
                    assert(paths_in(dir@, kept.push(sorted@[i as int]@)) =~= paths_in(
                        dir@,
                        kept,
                    ).push(path@));
                }
            }
            i = i + 1;
        }
        removed
    }
}

impl SwapPlan {
    /// The steps of the swap, to be taken in this order up to the first that
    /// fails.
    pub fn steps(self) -> (steps: Vec<SwapStep>)
        ensures
            are_steps_of(self, steps@),
    {
        let mut steps: Vec<SwapStep> = Vec::new();
        steps.push(SwapStep::Remove(self.tmp_link.duplicate()));
        steps.push(
            SwapStep::Link { target: self.relative_target, at: self.tmp_link.duplicate() },
        );
        steps.push(SwapStep::Rename { from: self.tmp_link, to: self.current_link });
        assert(swap_step_views(steps@) =~= swap_steps(
            self.tmp_link@,
            self.relative_target@,
            self.current_link@,
        ));
        steps
    }
}

/// The names of the directories among `entries`, oldest first.
fn sorted_names(entries: &Vec<DirEntry>) -> (sorted: Vec<Vec<u8>>)
    ensures
        in_order(byte_views(sorted@), entries@),
{
    let mut names: Vec<Vec<u8>> = Vec::new();
    let mut i: usize = 0;
    assert(byte_views(names@) =~= dir_names(entries@.take(0)));
    while i < entries.len()
        invariant
            i <= entries.len(),
            byte_views(names@) == dir_names(entries@.take(i as int)),
        decreases entries.len() - i,
    {
        let ghost before = names@;
        proof {
            assert(entries@.take(i + 1).drop_last() =~= entries@.take(i as int));
            assert(entries@.take(i + 1).last() == entries@[i as int]);
        }
        if entries[i].is_dir {
            names.push(slice_to_vec(entries[i].name.as_slice()));
            assert(byte_views(names@) =~= byte_views(before).push(entries@[i as int].name@));
        }
        i = i + 1;
    }
    assert(entries@.take(entries@.len() as int) =~= entries@);
    sort_bytes(names)
}

/// Whether following the link to the current release ended at or below an entry
/// with this name.
fn ends_at(entries: &Vec<DirEntry>, end: Option<&FsPath>, name: &[u8]) -> (found: bool)
    ensures
        found == is_followed(entries@, link_view(end), name@),
{
    let followed: &FsPath = match end {
        Some(e) => e,
        None => {
            return false;
        },
    };
    let mut i: usize = 0;
    while i < entries.len()
        invariant
            i <= entries.len(),
            link_view(end) == Some(followed@),
            forall|j: int|
                0 <= j < i ==> !(is_end(#[trigger] entries@[j], Some(followed@)) && entries@[j].name@
                    == name@),
        decreases entries.len() - i,
    {
        let here: bool = match &entries[i].place {
            Some(place) => followed.starts_with(place),
            None => false,
        };
        assert(here == is_end(entries@[i as int], Some(followed@)));
        if here && bytes_equal(entries[i].name.as_slice(), name) {
            assert(is_end(entries@[i as int], Some(followed@)) && entries@[i as int].name@ == name@);
            return true;
        }
        i = i + 1;
    }
    false
}

/// It does not matter in which order three texts are put together.
proof fn lemma_concat_associates(a: Seq<char>, b: Seq<char>, c: Seq<char>)
    ensures
        a + b + c == a + (b + c),
{
    assert(a + b + c =~= a + (b + c));
}

/// Names of releases sort by the time of the build: the build of an earlier
/// second comes first, whatever the commits are and whatever clocks the times
/// were read from. Years below 0 are left out.
pub proof fn lemma_release_names_sort(
    a: BuildTime,
    sha_a: Seq<char>,
    b: BuildTime,
    sha_b: Seq<char>,
)
    requires
        a.valid(),
        b.valid(),
        utc(a).year >= 0,
        utc(b).year >= 0,
        earlier(a, b),
    ensures
        lex_less(encode_utf8(release_name(a, sha_a)), encode_utf8(release_name(b, sha_b))),
{
    lemma_calendar_text_sorts(a, b, seq!['_'] + sha_prefix(sha_a), seq!['_'] + sha_prefix(sha_b));
    lemma_concat_associates(calendar_text(a), seq!['_'], sha_prefix(sha_a));
    lemma_concat_associates(calendar_text(b), seq!['_'], sha_prefix(sha_b));
}

/// The directories among `entries` have one order.
pub proof fn lemma_one_order(a: Seq<Seq<u8>>, b: Seq<Seq<u8>>, entries: Seq<DirEntry>)
    requires
        in_order(a, entries),
        in_order(b, entries),
    ensures
        a == b,
{
    lemma_sorted_list_is_unique(a, b);
}

/// As many directories among `entries` have a name as it comes in `dir_names`.
proof fn lemma_dir_name_count(entries: Seq<DirEntry>, name: Seq<u8>)
    ensures
        ({
            let named = Set::new(
                |i: int| 0 <= i < entries.len() && entries[i].is_dir && entries[i].name@ == name,
            );
            &&& named.finite()
            &&& named.len() == dir_names(entries).to_multiset().count(name)
        }),
    decreases entries.len(),
{
    broadcast use group_to_multiset_ensures;

    let named = Set::new(
        |i: int| 0 <= i < entries.len() && entries[i].is_dir && entries[i].name@ == name,
    );
    if entries.len() == 0 {
        assert(named =~= Set::<int>::empty());
    } else {
        let before = entries.drop_last();
        let last = entries.len() - 1;
        lemma_dir_name_count(before, name);
        let earlier = Set::new(
            |i: int| 0 <= i < before.len() && before[i].is_dir && before[i].name@ == name,
        );
        if entries[last].is_dir && entries[last].name@ == name {
            assert(named =~= earlier.insert(last));
        } else {
            assert(named =~= earlier);
        }
    }
}

/// The listing holds every directory and nothing else: a name comes as often as
/// directories among the entries have it. The names ascend, byte by byte, a
/// name before what starts with it, and what is listed is the paths of these
/// names, which are given, below the directory of releases.
pub proof fn lemma_listing_is_complete(
    app_root: Seq<u8>,
    entries: Seq<DirEntry>,
    list: Seq<FsPath>,
    name: Seq<u8>,
) -> (names: Seq<Seq<u8>>)
    requires
        is_listing(app_root, entries, list),
    ensures
        in_order(names, entries),
        names.to_multiset().count(name) == Set::new(
            |i: int| 0 <= i < entries.len() && entries[i].is_dir && entries[i].name@ == name,
        ).len(),
        names.contains(name) <==> exists|i: int|
            0 <= i < entries.len() && (#[trigger] entries[i]).is_dir && entries[i].name@ == name,
        forall|k: int, l: int|
            0 <= k < l < names.len() ==> #[trigger] names[k] == #[trigger] names[l] || exists|n: int|
                {
                    &&& 0 <= n <= names[k].len()
                    &&& n < names[l].len()
                    &&& #[trigger] names[k].take(n) == names[l].take(n)
                    &&& n < names[k].len() ==> names[k][n] < names[l][n]
                },
        list.len() == names.len(),
        forall|k: int|
            0 <= k < list.len() ==> (#[trigger] list[k])@ == joined(
                joined(app_root, encode_utf8("releases"@)),
                names[k],
            ),
{
    broadcast use group_to_multiset_ensures;

    let names = choose|names: Seq<Seq<u8>>| #[trigger]
        in_order(names, entries) && path_views(list) == paths_in(releases_path(app_root), names);
    let named = Set::new(
        |i: int| 0 <= i < entries.len() && entries[i].is_dir && entries[i].name@ == name,
    );
    lemma_dir_name_count(entries, name);
    if names.contains(name) {
        assert(names.to_multiset().count(name) > 0);
        let i = named.choose();
        assert(named.contains(i));
        assert(entries[i].is_dir && entries[i].name@ == name);
    }
    if exists|i: int|
        0 <= i < entries.len() && (#[trigger] entries[i]).is_dir && entries[i].name@ == name {
        let i = choose|i: int|
            0 <= i < entries.len() && (#[trigger] entries[i]).is_dir && entries[i].name@ == name;
        assert(named.contains(i));
        assert(names.to_multiset().count(name) > 0);
    }
    assert forall|k: int, l: int| 0 <= k < l < names.len() implies #[trigger] names[k]
        == #[trigger] names[l] || exists|n: int|
        {
            &&& 0 <= n <= names[k].len()
            &&& n < names[l].len()
            &&& #[trigger] names[k].take(n) == names[l].take(n)
            &&& n < names[k].len() ==> names[k][n] < names[l][n]
        } by {
        lemma_lex_total(names[k], names[l]);
        lemma_first_difference_decides(names[k], names[l]);
    }
    assert(path_views(list).len() == list.len());
    assert forall|k: int| 0 <= k < list.len() implies (#[trigger] list[k])@ == joined(
        joined(app_root, encode_utf8("releases"@)),
        names[k],
    ) by {
        assert(path_views(list)[k] == list[k]@);
    }
    names
}

/// The indices of the names in `list` that are not spared, and these names.
proof fn lemma_without_spared_picks(
    list: Seq<Seq<u8>>,
    spared: spec_fn(Seq<u8>) -> bool,
) -> (at: Seq<int>)
    ensures
        at.len() == without_spared(list, spared).len(),
        forall|k: int, l: int| 0 <= k < l < at.len() ==> #[trigger] at[k] < #[trigger] at[l],
        forall|k: int|
            0 <= k < at.len() ==> 0 <= #[trigger] at[k] < list.len() && !spared(list[at[k]])
                && without_spared(list, spared)[k] == list[at[k]],
        forall|i: int|
            0 <= i < list.len() && !spared(#[trigger] list[i]) ==> exists|k: int|
                0 <= k < at.len() && #[trigger] at[k] == i,
    decreases list.len(),
{
    if list.len() == 0 {
        Seq::empty()
    } else {
        let before = list.drop_last();
        let last = list.len() - 1;
        let earlier = lemma_without_spared_picks(before, spared);
        let at = if spared(list.last()) {
            earlier
        } else {
            earlier.push(last)
        };
        assert forall|k: int| 0 <= k < at.len() implies 0 <= #[trigger] at[k] < list.len()
            && !spared(list[at[k]]) && without_spared(list, spared)[k] == list[at[k]] by {
            if k < earlier.len() {
                assert(at[k] == earlier[k]);
                assert(before[earlier[k]] == list[earlier[k]]);
            }
        }
        assert forall|i: int| 0 <= i < list.len() && !spared(#[trigger] list[i]) implies exists|
            k: int,
        |
            0 <= k < at.len() && #[trigger] at[k] == i by {
            if i < last {
                assert(before[i] == list[i]);
                let k = choose|k: int| 0 <= k < earlier.len() && #[trigger] earlier[k] == i;
                assert(at[k] == i);
            } else {
                assert(at[at.len() - 1] == i);
            }
        }
        assert forall|k: int, l: int| 0 <= k < l < at.len() implies #[trigger] at[k]
            < #[trigger] at[l] by {
            assert(at[k] == earlier[k]);
            if l < earlier.len() {
                assert(at[l] == earlier[l]);
            }
        }
        at
    }
}

/// A prune deletes the oldest of the releases that are too many, and of these
/// all but two kinds: those at or above the place that the path in the link
/// leads to, and those at or above the place where following the link ended.
/// The names of the releases are given, and the indices of what is deleted among
/// them, which ascend.
pub proof fn lemma_prune_is_exact(
    app_root: Seq<u8>,
    entries: Seq<DirEntry>,
    link: Option<&FsPath>,
    end: Option<&FsPath>,
    retain_count: nat,
    listed: Seq<FsPath>,
    removed: Seq<FsPath>,
    i: int,
) -> (given: (Seq<Seq<u8>>, Seq<int>))
    requires
        is_listing(app_root, entries, listed),
        is_pruning(app_root, entries, link, end, retain_count, removed),
    ensures
        listed.len() == given.0.len(),
        forall|k: int|
            0 <= k < listed.len() ==> (#[trigger] listed[k])@ == joined(
                joined(app_root, encode_utf8("releases"@)),
                given.0[k],
            ),
        given.1.len() == removed.len(),
        forall|k: int, l: int|
            0 <= k < l < given.1.len() ==> #[trigger] given.1[k] < #[trigger] given.1[l],
        forall|k: int|
            0 <= k < given.1.len() ==> 0 <= #[trigger] given.1[k] < listed.len() - retain_count
                && removed[k]@ == listed[given.1[k]]@,
        forall|k: int|
            0 <= k < given.1.len() && link is Some ==> !resolved(
                parts(listed[#[trigger] given.1[k]]@),
            ).is_prefix_of(resolved(parts(joined(app_root, link->0@)))),
        forall|k: int, j: int|
            0 <= k < given.1.len() && 0 <= j < entries.len() && end is Some
                && (#[trigger] entries[j]).place is Some && entries[j].name@
                == given.0[#[trigger] given.1[k]] ==> !parts(entries[j].place->0@).is_prefix_of(
                parts(end->0@),
            ),
        0 <= i < listed.len() - retain_count ==> {
            ||| exists|k: int| 0 <= k < given.1.len() && #[trigger] given.1[k] == i
            ||| link is Some && resolved(parts(listed[i]@)).is_prefix_of(
                resolved(parts(joined(app_root, link->0@))),
            )
            ||| exists|j: int|
                0 <= j < entries.len() && end is Some && (#[trigger] entries[j]).place is Some
                    && entries[j].name@ == given.0[i] && parts(
                    entries[j].place->0@,
                ).is_prefix_of(parts(end->0@))
        },
{
    let names = lemma_listing_is_complete(app_root, entries, listed, Seq::empty());
    let others = choose|others: Seq<Seq<u8>>| #[trigger]
        in_order(others, entries) && path_views(removed) == paths_in(
            releases_path(app_root),
            pruned(
                others,
                spares(entries, app_root, link_view(link), link_view(end)),
                retain_count,
            ),
        );
    lemma_one_order(names, others, entries);
    let spared = spares(entries, app_root, link_view(link), link_view(end));
    let oldest = names.take(excess(names.len(), retain_count));
    let at = lemma_without_spared_picks(oldest, spared);
    let deleted = pruned(names, spared, retain_count);
    assert(path_views(removed).len() == removed.len());
    assert forall|k: int| 0 <= k < at.len() implies 0 <= #[trigger] at[k] < names.len()
        - retain_count && removed[k]@ == joined(
        joined(app_root, encode_utf8("releases"@)),
        names[at[k]],
    ) && !spared(names[at[k]]) by {
        assert(path_views(removed)[k] == removed[k]@);
        assert(deleted[k] == oldest[at[k]]);
    }
    assert forall|k: int| 0 <= k < at.len() implies removed[k]@ == listed[#[trigger] at[k]]@ by {
        assert(0 <= at[k] < listed.len());
    }
    assert forall|k: int, j: int|
        0 <= k < at.len() && 0 <= j < entries.len() && end is Some
            && (#[trigger] entries[j]).place is Some && entries[j].name@
            == names[#[trigger] at[k]] implies !parts(entries[j].place->0@).is_prefix_of(
        parts(end->0@),
    ) by {
        assert(!spared(names[at[k]]));
        assert(!is_end(entries[j], link_view(end)));
    }
    if 0 <= i < names.len() - retain_count {
        assert(oldest[i] == names[i]);
        assert(listed[i]@ == joined(joined(app_root, encode_utf8("releases"@)), names[i]));
        if !spared(oldest[i]) {
            assert(exists|k: int| 0 <= k < at.len() && #[trigger] at[k] == i);
        } else if is_followed(entries, link_view(end), names[i]) {
            let j = choose|j: int|
                0 <= j < entries.len() && is_end(#[trigger] entries[j], link_view(end))
                    && entries[j].name@ == names[i];
            assert(0 <= j < entries.len() && end is Some && entries[j].place is Some
                && entries[j].name@ == names[i] && parts(entries[j].place->0@).is_prefix_of(
                parts(end->0@),
            ));
            assert(exists|j: int|
                0 <= j < entries.len() && end is Some && (#[trigger] entries[j]).place is Some
                    && entries[j].name@ == names[i] && parts(entries[j].place->0@).is_prefix_of(
                    parts(end->0@),
                ));
        } else {
            assert(link is Some && resolved(parts(listed[i]@)).is_prefix_of(
                resolved(parts(joined(app_root, link->0@))),
            ));
        }
    }
    let given = (names, at);
    assert(given.0 == names && given.1 == at);
    given
}

/// Releases are listed by the time of their build: of two, the one that was
/// built in an earlier second comes first. Years below 0 are left out.
pub proof fn lemma_listing_is_chronological(
    names: Seq<Seq<u8>>,
    entries: Seq<DirEntry>,
    i: int,
    a: BuildTime,
    sha_a: Seq<char>,
    j: int,
    b: BuildTime,
    sha_b: Seq<char>,
)
    requires
        in_order(names, entries),
        0 <= i < names.len(),
        0 <= j < names.len(),
        names[i] == encode_utf8(release_name(a, sha_a)),
        names[j] == encode_utf8(release_name(b, sha_b)),
        a.valid(),
        b.valid(),
        utc(a).year >= 0,
        utc(b).year >= 0,
        earlier(a, b),
    ensures
        i < j,
{
    lemma_release_names_sort(a, sha_a, b, sha_b);
    lemma_lex_irreflexive(names[i]);
}

/// A commit in ASCII, such as a hexadecimal one, goes into the name with its
/// first twelve characters, or whole where it is shorter.
pub proof fn lemma_ascii_sha_prefix(git_sha: Seq<char>)
    requires
        is_ascii_chars(git_sha),
    ensures
        sha_can_be_cut(git_sha),
        sha_prefix(git_sha) == git_sha.take(
            if git_sha.len() < 12 {
                git_sha.len() as int
            } else {
                12
            },
        ),
{
    let bytes = encode_utf8(git_sha);
    let cut = sha_prefix_len(git_sha);
    is_ascii_chars_encode_utf8(git_sha);
    encode_utf8_valid_utf8(git_sha);
    if cut < bytes.len() {
        is_char_boundary_iff_is_leading_byte(bytes, cut);
        assert(bytes[cut] == git_sha[cut] as u8);
        assert(is_leading_byte_width_1(bytes[cut])) by {
            utf8_byte_ranges_bitwise(bytes[cut]);
        }
    } else {
        is_char_boundary_start_end_of_seq(bytes);
    }
    let prefix = git_sha.take(cut);
    assert(is_ascii_chars(prefix));
    is_ascii_chars_encode_utf8(prefix);
    assert(encode_utf8(prefix) =~= bytes.take(cut));
    encode_utf8_decode_utf8(prefix);
}

/// The directory of releases has a plain name.
proof fn lemma_releases_is_plain()
    ensures
        is_plain_name(encode_utf8("releases"@)),
{
    reveal_strlit("releases");
    let bytes = encode_utf8("releases"@);
    is_ascii_chars_encode_utf8("releases"@);
    assert forall|i: int| 0 <= i < bytes.len() implies bytes[i] != SEPARATOR by {
        assert(bytes[i] == "releases"@[i] as u8);
    }
}

/// The components of a directory in the directory of releases.
pub proof fn lemma_release_parts(app_root: Seq<u8>, name: Seq<u8>)
    requires
        is_plain_name(name),
    ensures
        parts(joined(releases_path(app_root), name)) == parts(releases_path(app_root)).push(
            Part::Name(name),
        ),
        file_name(joined(releases_path(app_root), name)) == Some(name),
{
    lemma_releases_is_plain();
    lemma_plain_name_parts(name);
    lemma_plain_name_parts(encode_utf8("releases"@));
    lemma_parts_of_joined(releases_path(app_root), name);
    assert(parts(releases_path(app_root)) + seq![Part::Name(name)] =~= parts(
        releases_path(app_root),
    ).push(Part::Name(name)));
}

/// After a swap, `current` points at the release: following the link that the
/// swap makes, which is relative, leads to the directory it was made for.
pub proof fn lemma_swap_points_at_release(app_root: Seq<u8>, release_dir: Seq<u8>, name: Seq<u8>)
    requires
        parts(release_dir) == parts(releases_path(app_root)).push(Part::Name(name)),
    ensures
        file_name(release_dir) == Some(name),
        !is_absolute(link_target(name)),
        is_current(release_dir, linked_release(app_root, Some(link_target(name)))),
{
    let releases = encode_utf8("releases"@);
    lemma_releases_is_plain();
    lemma_plain_name_parts(releases);
    assert(parts(release_dir).last() == Part::Name(name));
    let count = head_parts(release_dir).len();
    assert(parts(releases_path(app_root)).len() > 0) by {
        if app_root.len() > 0 {
            lemma_parts_of_joined(app_root, releases);
        } else {
            assert(releases_path(app_root) =~= releases);
        }
    }
    assert(parts(release_dir)[parts(release_dir).len() - 1] == tail_parts(release_dir)[parts(
        release_dir,
    ).len() - 1 - count]);
    lemma_tail_parts_names(release_dir);
    lemma_plain_name_parts(name);
    let target = link_target(name);
    lemma_parts_of_joined(releases, name);
    assert(!is_absolute(target));
    assert(parts(target)[0] == Part::Name(releases));
    if head_parts(target).len() > 0 {
        assert(parts(target)[0] == head_parts(target)[0]);
    }
    assert(parts(target) =~= tail_parts(target));
    assert(tail_parts(target) =~= seq![Part::Name(releases), Part::Name(name)]);
    if app_root.len() > 0 {
        lemma_parts_of_joined(app_root, target);
        lemma_parts_of_joined(app_root, releases);
        assert(parts(joined(app_root, target)) =~= parts(release_dir));
    } else {
        assert(releases_path(app_root) =~= releases);
        assert(joined(app_root, target) =~= target);
        assert(parts(target) =~= parts(release_dir));
    }
}

/// The name of a release is a plain one, unless the part of the commit that
/// goes into it holds a slash.
pub proof fn lemma_release_name_is_plain(built_at: BuildTime, git_sha: Seq<char>)
    requires
        built_at.valid(),
        forall|i: int| 0 <= i < sha_prefix(git_sha).len() ==> sha_prefix(git_sha)[i] != '/',
    ensures
        is_plain_name(encode_utf8(release_name(built_at, git_sha))),
{
    let time = calendar_text(built_at);
    let rest = seq!['_'] + sha_prefix(git_sha);
    lemma_calendar_text_ascii(built_at);
    lemma_calendar_text_no_slash(built_at);
    lemma_concat_associates(time, seq!['_'], sha_prefix(git_sha));
    lemma_encode_utf8_concat(time, rest);
    lemma_encode_utf8_without_slash(time);
    lemma_encode_utf8_without_slash(rest);
    is_ascii_chars_encode_utf8(time);
    let bytes = encode_utf8(time) + encode_utf8(rest);
    assert forall|i: int| 0 <= i < bytes.len() implies bytes[i] != SEPARATOR by {
        if i < encode_utf8(time).len() {
            assert(bytes[i] == encode_utf8(time)[i]);
        } else {
            assert(bytes[i] == encode_utf8(rest)[i - encode_utf8(time).len()]);
        }
    }
    assert(bytes.len() > 2);
}

/// A new release becomes the current one: its directory has the name that it
/// was given, and the link that a swap to it makes leads there. Commits with a
/// slash among their first bytes are left out, which would name a directory
/// within a directory.
pub proof fn lemma_new_release_becomes_current(
    app_root: Seq<u8>,
    built_at: BuildTime,
    git_sha: Seq<char>,
)
    requires
        built_at.valid(),
        forall|i: int| 0 <= i < sha_prefix(git_sha).len() ==> sha_prefix(git_sha)[i] != '/',
    ensures
        ({
            let path = release_path(app_root, built_at, git_sha);
            let name = encode_utf8(release_name(built_at, git_sha));
            &&& file_name(path) == Some(name)
            &&& is_current(path, linked_release(app_root, Some(link_target(name))))
        }),
{
    let name = encode_utf8(release_name(built_at, git_sha));
    lemma_release_name_is_plain(built_at, git_sha);
    lemma_release_parts(app_root, name);
    lemma_swap_points_at_release(app_root, release_path(app_root, built_at, git_sha), name);
}

/// What is deleted is among the listed, and is not spared.
pub proof fn lemma_pruned_is_not_spared(
    list: Seq<Seq<u8>>,
    spared: spec_fn(Seq<u8>) -> bool,
    at: int,
)
    requires
        0 <= at < without_spared(list, spared).len(),
    ensures
        !spared(without_spared(list, spared)[at]),
        list.contains(without_spared(list, spared)[at]),
    decreases list.len(),
{
    if list.len() > 0 {
        let shorter = without_spared(list.drop_last(), spared);
        if at < shorter.len() {
            lemma_pruned_is_not_spared(list.drop_last(), spared, at);
            let i = choose|i: int|
                0 <= i < list.drop_last().len() && list.drop_last()[i] == shorter[at];
            assert(list[i] == shorter[at]);
        } else {
            assert(list[list.len() - 1] == list.last());
        }
    }
}

/// The current release is never deleted: what is deleted is neither the release
/// that the path in the link leads to, nor one that holds where that path leads,
/// nor one at or below which following the link ended.
pub proof fn lemma_prune_spares_current(
    app_root: Seq<u8>,
    entries: Seq<DirEntry>,
    link: Option<Seq<u8>>,
    end: Option<Seq<u8>>,
    names: Seq<Seq<u8>>,
    retain_count: nat,
    at: int,
)
    requires
        in_order(names, entries),
        0 <= at < pruned(names, spares(entries, app_root, link, end), retain_count).len(),
    ensures
        ({
            let name = pruned(names, spares(entries, app_root, link, end), retain_count)[at];
            let path = joined(releases_path(app_root), name);
            &&& names.contains(name)
            &&& !is_current(path, linked_release(app_root, link))
            &&& !holds_current(path, linked_release(app_root, link))
            &&& !is_followed(entries, end, name)
        }),
{
    let spared = spares(entries, app_root, link, end);
    let oldest = names.take(excess(names.len(), retain_count));
    lemma_pruned_is_not_spared(oldest, spared, at);
    let name = without_spared(oldest, spared)[at];
    let i = choose|i: int| 0 <= i < oldest.len() && oldest[i] == name;
    assert(names[i] == oldest[i]);
    let path = joined(releases_path(app_root), name);
    if is_current(path, linked_release(app_root, link)) {
        let place = resolved(parts(path));
        assert(place.is_prefix_of(place));
    }
}

/// A release survives any prune that follows the swap to it, whatever number is
/// to be retained.
pub proof fn lemma_prune_keeps_what_was_swapped_to(
    app_root: Seq<u8>,
    entries: Seq<DirEntry>,
    end: Option<Seq<u8>>,
    name: Seq<u8>,
    names: Seq<Seq<u8>>,
    retain_count: nat,
)
    requires
        is_plain_name(name),
        in_order(names, entries),
    ensures
        !pruned(
            names,
            spares(entries, app_root, Some(link_target(name)), end),
            retain_count,
        ).contains(name),
{
    let link = Some(link_target(name));
    let deleted = pruned(names, spares(entries, app_root, link, end), retain_count);
    lemma_release_parts(app_root, name);
    lemma_swap_points_at_release(app_root, joined(releases_path(app_root), name), name);
    if deleted.contains(name) {
        let at = choose|at: int| 0 <= at < deleted.len() && deleted[at] == name;
        lemma_prune_spares_current(app_root, entries, link, end, names, retain_count, at);
    }
}

/// Whatever is too old and is not spared is deleted.
pub proof fn lemma_prune_takes_the_rest(
    list: Seq<Seq<u8>>,
    spared: spec_fn(Seq<u8>) -> bool,
    at: int,
)
    requires
        0 <= at < list.len(),
        !spared(list[at]),
    ensures
        without_spared(list, spared).contains(list[at]),
    decreases list.len(),
{
    let result = without_spared(list, spared);
    if at == list.len() - 1 {
        assert(result[result.len() - 1] == list[at]);
    } else {
        let shorter = without_spared(list.drop_last(), spared);
        lemma_prune_takes_the_rest(list.drop_last(), spared, at);
        let i = choose|i: int| 0 <= i < shorter.len() && shorter[i] == list[at];
        assert(result[i] == shorter[i]);
    }
}

/// The oldest is deleted first: what is deleted keeps the order of the list.
pub proof fn lemma_prune_oldest_first(
    list: Seq<Seq<u8>>,
    spared: spec_fn(Seq<u8>) -> bool,
    first: int,
    second: int,
)
    requires
        0 <= first < second < without_spared(list, spared).len(),
    ensures
        exists|i: int, j: int|
            0 <= i < j < list.len() && #[trigger] list[i] == without_spared(list, spared)[first]
                && #[trigger] list[j] == without_spared(list, spared)[second],
    decreases list.len(),
{
    if list.len() > 0 {
        let before = list.drop_last();
        let shorter = without_spared(before, spared);
        if second < shorter.len() {
            lemma_prune_oldest_first(before, spared, first, second);
            let (i, j) = choose|i: int, j: int|
                0 <= i < j < before.len() && #[trigger] before[i] == shorter[first]
                    && #[trigger] before[j] == shorter[second];
            assert(list[i] == shorter[first] && list[j] == shorter[second]);
        } else {
            lemma_pruned_is_not_spared(before, spared, first);
            let i = choose|i: int| 0 <= i < before.len() && before[i] == shorter[first];
            assert(list[i] == shorter[first]);
            assert(list[list.len() - 1] == list.last());
        }
    }
}

/// A list is made up of what is spared and what is not, and what is spared
/// keeps its order.
proof fn lemma_spared_and_rest(list: Seq<Seq<u8>>, spared: spec_fn(Seq<u8>) -> bool)
    ensures
        only_spared(list, spared).len() + without_spared(list, spared).len() == list.len(),
        only_spared(list, spared).to_multiset().add(without_spared(list, spared).to_multiset())
            == list.to_multiset(),
        forall|i: int|
            0 <= i < only_spared(list, spared).len() ==> spared(
                #[trigger] only_spared(list, spared)[i],
            ) && list.contains(only_spared(list, spared)[i]),
        lex_sorted(list) ==> lex_sorted(only_spared(list, spared)),
    decreases list.len(),
{
    broadcast use group_to_multiset_ensures;

    if list.len() > 0 {
        let before = list.drop_last();
        let last = list.last();
        lemma_spared_and_rest(before, spared);
        assert(list =~= before.push(last));
        assert(list.to_multiset() =~= before.to_multiset().insert(last));
        let kept = only_spared(list, spared);
        assert forall|i: int| 0 <= i < kept.len() implies spared(#[trigger] kept[i])
            && list.contains(kept[i]) by {
            if i < only_spared(before, spared).len() {
                assert(kept[i] == only_spared(before, spared)[i]);
                let j = choose|j: int| 0 <= j < before.len() && before[j] == kept[i];
                assert(list[j] == kept[i]);
            } else {
                assert(list[list.len() - 1] == kept[i]);
            }
        }
        if lex_sorted(list) {
            assert(lex_sorted(before)) by {
                assert forall|i: int, j: int| 0 <= i < j < before.len() implies !lex_less(
                    #[trigger] before[j],
                    #[trigger] before[i],
                ) by {
                    assert(before[i] == list[i] && before[j] == list[j]);
                }
            }
            if spared(last) {
                let shorter = only_spared(before, spared);
                assert forall|i: int, j: int| 0 <= i < j < kept.len() implies !lex_less(
                    #[trigger] kept[j],
                    #[trigger] kept[i],
                ) by {
                    assert(kept[i] == shorter[i]);
                    if j < shorter.len() {
                        assert(kept[j] == shorter[j]);
                    } else {
                        let k = choose|k: int| 0 <= k < before.len() && before[k] == shorter[i];
                        assert(list[k] == kept[i]);
                        assert(list[list.len() - 1] == kept[j]);
                    }
                }
            }
        }
        assert(only_spared(list, spared).to_multiset().add(
            without_spared(list, spared).to_multiset(),
        ) =~= list.to_multiset());
    } else {
        assert(list =~= Seq::<Seq<u8>>::empty());
        assert(only_spared(list, spared).to_multiset().add(
            without_spared(list, spared).to_multiset(),
        ) =~= list.to_multiset());
    }
}

/// Of different names, the path in the link leads to one at most.
proof fn lemma_one_linked(
    app_root: Seq<u8>,
    link: Option<Seq<u8>>,
    a: Seq<u8>,
    b: Seq<u8>,
)
    requires
        is_plain_name(a),
        is_plain_name(b),
        holds_current(joined(releases_path(app_root), a), linked_release(app_root, link)),
        holds_current(joined(releases_path(app_root), b), linked_release(app_root, link)),
    ensures
        a == b,
{
    let dir = parts(releases_path(app_root));
    lemma_release_parts(app_root, a);
    lemma_release_parts(app_root, b);
    lemma_resolved_name(dir, a);
    lemma_resolved_name(dir, b);
    let place = resolved(parts(linked_release(app_root, link)->0));
    let n = resolved(dir).len() as int;
    assert(place.take(n + 1)[n] == Part::Name(a));
    assert(place.take(n + 1)[n] == Part::Name(b));
}

/// Of different names of which one at most is spared, `only_spared` holds one
/// at most.
proof fn lemma_one_spared(list: Seq<Seq<u8>>, spared: spec_fn(Seq<u8>) -> bool)
    requires
        forall|i: int, j: int|
            0 <= i < j < list.len() ==> !(spared(#[trigger] list[i]) && spared(#[trigger] list[j])),
    ensures
        only_spared(list, spared).len() <= 1,
    decreases list.len(),
{
    if list.len() > 0 {
        let before = list.drop_last();
        lemma_one_spared(before, spared);
        if spared(list.last()) && only_spared(before, spared).len() > 0 {
            lemma_spared_and_rest(before, spared);
            let first = only_spared(before, spared)[0];
            let i = choose|i: int| 0 <= i < before.len() && before[i] == first;
            assert(spared(list[i]) && spared(list[list.len() - 1]));
        }
    }
}

/// Of a directory with the different names `names`, a prune leaves as many as
/// are to be retained, or all if there are fewer, and beyond them only what is
/// spared among the oldest. That is one at most where following the link ends
/// where the path in it leads to.
pub proof fn lemma_prune_retains(
    app_root: Seq<u8>,
    entries: Seq<DirEntry>,
    link: Option<Seq<u8>>,
    end: Option<Seq<u8>>,
    names: Seq<Seq<u8>>,
    retain_count: nat,
)
    requires
        in_order(names, entries),
        forall|i: int| 0 <= i < names.len() ==> is_plain_name(#[trigger] names[i]),
        forall|i: int, j: int|
            0 <= i < j < names.len() ==> #[trigger] names[i] != #[trigger] names[j],
    ensures
        ({
            let spared = spares(entries, app_root, link, end);
            let oldest = names.take(excess(names.len(), retain_count));
            let left = names.len() - pruned(names, spared, retain_count).len();
            &&& names.len() <= retain_count ==> left == names.len()
            &&& names.len() > retain_count ==> left == retain_count + only_spared(
                oldest,
                spared,
            ).len()
            &&& (forall|name: Seq<u8>| #[trigger]
                is_followed(entries, end, name) ==> holds_current(
                    joined(releases_path(app_root), name),
                    linked_release(app_root, link),
                )) ==> only_spared(oldest, spared).len() <= 1
        }),
{
    let spared = spares(entries, app_root, link, end);
    let oldest = names.take(excess(names.len(), retain_count));
    lemma_spared_and_rest(oldest, spared);
    if forall|name: Seq<u8>| #[trigger]
        is_followed(entries, end, name) ==> holds_current(
            joined(releases_path(app_root), name),
            linked_release(app_root, link),
        ) {
        assert forall|i: int, j: int| 0 <= i < j < oldest.len() implies !(spared(
            #[trigger] oldest[i],
        ) && spared(#[trigger] oldest[j])) by {
            assert(oldest[i] == names[i] && oldest[j] == names[j]);
            if spared(oldest[i]) && spared(oldest[j]) {
                lemma_one_linked(app_root, link, names[i], names[j]);
            }
        }
        lemma_one_spared(oldest, spared);
    }
}

/// What a prune leaves is what is spared among the oldest, and the newest.
proof fn lemma_left_by_prune(
    names: Seq<Seq<u8>>,
    spared: spec_fn(Seq<u8>) -> bool,
    retain_count: nat,
    left: Seq<Seq<u8>>,
)
    requires
        lex_sorted(names),
        lex_sorted(left),
        left.to_multiset().add(pruned(names, spared, retain_count).to_multiset())
            == names.to_multiset(),
    ensures
        left == only_spared(names.take(excess(names.len(), retain_count)), spared) + names.skip(
            excess(names.len(), retain_count),
        ),
{
    broadcast use group_to_multiset_ensures;

    let count = excess(names.len(), retain_count);
    let oldest = names.take(count);
    let newest = names.skip(count);
    assert(lex_sorted(oldest)) by {
        assert forall|i: int, j: int| 0 <= i < j < oldest.len() implies !lex_less(
            #[trigger] oldest[j],
            #[trigger] oldest[i],
        ) by {
            assert(oldest[i] == names[i] && oldest[j] == names[j]);
        }
    }
    lemma_spared_and_rest(oldest, spared);
    let kept = only_spared(oldest, spared);
    let expected = kept + newest;
    assert(lex_sorted(expected)) by {
        assert forall|i: int, j: int| 0 <= i < j < expected.len() implies !lex_less(
            #[trigger] expected[j],
            #[trigger] expected[i],
        ) by {
            if j < kept.len() {
                assert(expected[i] == kept[i] && expected[j] == kept[j]);
            } else {
                let q = count + j - kept.len();
                assert(expected[j] == names[q]);
                if i < kept.len() {
                    assert(expected[i] == kept[i]);
                    let p = choose|p: int| 0 <= p < oldest.len() && oldest[p] == kept[i];
                    assert(names[p] == expected[i]);
                } else {
                    assert(expected[i] == names[count + i - kept.len()]);
                }
            }
        }
    }
    assert(names =~= oldest + newest);
    lemma_multiset_commutative(oldest, newest);
    lemma_multiset_commutative(kept, newest);
    assert(expected.to_multiset() =~= left.to_multiset()) by {
        assert forall|name: Seq<u8>| expected.to_multiset().count(name)
            == left.to_multiset().count(name) by {
            assert(names.to_multiset().count(name) == oldest.to_multiset().count(name)
                + newest.to_multiset().count(name));
            assert(expected.to_multiset().count(name) == kept.to_multiset().count(name)
                + newest.to_multiset().count(name));
        }
    }
    lemma_sorted_list_is_unique(left, expected);
}

/// A second prune deletes nothing: once a prune to `retain_count` is done, and
/// neither the directory nor the link to the current release has changed since,
/// there is nothing left for another one, whether or not an old release was
/// spared.
pub proof fn lemma_second_prune_deletes_nothing(
    app_root: Seq<u8>,
    link: Option<Seq<u8>>,
    end: Option<Seq<u8>>,
    retain_count: nat,
    entries: Seq<DirEntry>,
    names: Seq<Seq<u8>>,
    entries_left: Seq<DirEntry>,
    names_left: Seq<Seq<u8>>,
)
    requires
        in_order(names, entries),
        in_order(names_left, entries_left),
        dir_names(entries_left).to_multiset().add(
            pruned(names, spares(entries, app_root, link, end), retain_count).to_multiset(),
        ) == dir_names(entries).to_multiset(),
        forall|name: Seq<u8>|
            names_left.contains(name) ==> #[trigger] is_followed(entries_left, end, name)
                == is_followed(entries, end, name),
    ensures
        pruned(names_left, spares(entries_left, app_root, link, end), retain_count) == Seq::<
            Seq<u8>,
        >::empty(),
{
    let spared = spares(entries, app_root, link, end);
    let spared_now = spares(entries_left, app_root, link, end);
    let oldest = names.take(excess(names.len(), retain_count));
    lemma_left_by_prune(names, spared, retain_count, names_left);
    lemma_spared_and_rest(oldest, spared);
    let kept = only_spared(oldest, spared);
    let count = excess(names_left.len(), retain_count);
    assert(count == kept.len());
    let again = names_left.take(count);
    assert(again =~= kept);
    assert forall|i: int| 0 <= i < again.len() implies spared_now(#[trigger] again[i]) by {
        assert(spared(kept[i]));
        assert(names_left[i] == again[i]);
        assert(names_left.contains(again[i]));
        assert(is_followed(entries_left, end, again[i]) == is_followed(entries, end, again[i]));
    }
    lemma_all_spared(again, spared_now);
}

/// Where all are spared, none is left over.
proof fn lemma_all_spared(list: Seq<Seq<u8>>, spared: spec_fn(Seq<u8>) -> bool)
    requires
        forall|i: int| 0 <= i < list.len() ==> spared(#[trigger] list[i]),
    ensures
        without_spared(list, spared) == Seq::<Seq<u8>>::empty(),
    decreases list.len(),
{
    if list.len() > 0 {
        assert(spared(list[list.len() - 1]));
        assert forall|i: int| 0 <= i < list.drop_last().len() implies spared(
            #[trigger] list.drop_last()[i],
        ) by {
            assert(list.drop_last()[i] == list[i]);
        }
        lemma_all_spared(list.drop_last(), spared);
    }
}

/// The link to the current release holds the old or the new target at any time:
/// behind each of the first steps of a swap it is as it was, be it there or
/// not, and behind the last it holds the new target. So a swap that fails on
/// the way leaves it as it was. No other link is touched, but for the one that
/// the swap is made through.
pub proof fn lemma_current_is_old_or_new(
    app_root: Seq<u8>,
    target: Seq<u8>,
    links: Map<Seq<u8>, Seq<u8>>,
    taken: int,
)
    requires
        0 <= taken <= 3,
    ensures
        ({
            let current = current_path(app_root);
            let steps = swap_steps(tmp_path(app_root), target, current);
            let after = links_behind(links, steps.take(taken));
            &&& steps.len() == 3
            &&& taken < 3 ==> after.contains_key(current) == links.contains_key(current)
            &&& taken < 3 && links.contains_key(current) ==> after[current] == links[current]
            &&& taken == 3 ==> after.contains_key(current) && after[current] == target
            &&& forall|path: Seq<u8>|
                path != current && path != tmp_path(app_root) ==> (#[trigger] after.contains_key(
                    path,
                ) == links.contains_key(path)) && (links.contains_key(path) ==> after[path]
                    == links[path])
        }),
{
    let current = current_path(app_root);
    let tmp = tmp_path(app_root);
    let steps = swap_steps(tmp, target, current);
    reveal_strlit("current");
    reveal_strlit(".current.tmp");
    is_ascii_chars_encode_utf8("current"@);
    is_ascii_chars_encode_utf8(".current.tmp"@);
    assert(encode_utf8("current"@)[0] == "current"@[0] as u8);
    assert(encode_utf8(".current.tmp"@)[0] == ".current.tmp"@[0] as u8);
    assert(tmp.len() != current.len());
    assert(steps.take(0) =~= Seq::<SwapStepView>::empty());
    assert(steps.take(1).drop_last() =~= steps.take(0));
    assert(steps.take(2).drop_last() =~= steps.take(1));
    assert(steps.take(3).drop_last() =~= steps.take(2));
    reveal_with_fuel(links_behind, 4);
}

/// A link leads to the path that it holds, taken from the project's directory,
/// whatever path that is, and where there is no link there is no release.
pub proof fn lemma_link_leads_to_what_it_holds(
    app_root: Seq<u8>,
    link: Option<&FsPath>,
    target: Option<FsPath>,
)
    requires
        is_target(app_root, link, target),
    ensures
        link is None <==> target is None,
        link is Some ==> target->0@ == joined(app_root, link->0@),
{
}

/// A swap goes by the last name in the path of the release, and fails exactly
/// where that does not end in a name: what is left at the other name is deleted,
/// a link to the release is made there, by the way from the project's directory,
/// and takes the place of `current`.
pub proof fn lemma_swap_is_three_steps(
    app_root: Seq<u8>,
    release_dir: Seq<u8>,
    name: Seq<u8>,
    plan: Result<SwapPlan, SwapError>,
    steps: Seq<SwapStep>,
)
    requires
        is_swap(app_root, release_dir, plan),
        plan is Ok ==> are_steps_of(plan->Ok_0, steps),
    ensures
        ({
            let list = parts(release_dir);
            let tmp = joined(app_root, encode_utf8(".current.tmp"@));
            let current = joined(app_root, encode_utf8("current"@));
            &&& plan is Ok <==> list.len() > 0 && list[list.len() - 1] is Name
            &&& plan is Err ==> plan->Err_0->tmp_link@ == tmp
            &&& plan is Ok && list[list.len() - 1] == Part::Name(name) ==> {
                &&& steps.len() == 3
                &&& steps[0] is Remove
                &&& steps[0]->Remove_0@ == tmp
                &&& steps[1] is Link
                &&& steps[1]->at@ == tmp
                &&& steps[1]->target@ == joined(encode_utf8("releases"@), name)
                &&& steps[2] is Rename
                &&& steps[2]->from@ == tmp
                &&& steps[2]->to@ == current
            }
        }),
{
    if plan is Ok {
        let views = swap_step_views(steps);
        assert(views.len() == steps.len());
        assert(views[0] == steps[0]@);
        assert(views[1] == steps[1]@);
        assert(views[2] == steps[2]@);
    }
}

/// The name of a release is the time of its build, an underscore, and the first
/// twelve bytes of the commit, or all of them where there are fewer. It can be
/// made exactly where a character of the commit starts behind these bytes, or
/// none does because they are all. Its directory is below that of releases.
pub proof fn lemma_release_name_is_time_and_commit(
    app_root: Seq<u8>,
    built_at: BuildTime,
    git_sha: Seq<char>,
)
    ensures
        ({
            let sha = encode_utf8(git_sha);
            let cut = if sha.len() < 12 {
                sha.len() as int
            } else {
                12
            };
            let name = release_name(built_at, git_sha);
            &&& sha_can_be_cut(git_sha) <==> sha.len() <= 12 || !is_continuation_byte(sha[12])
            &&& sha_can_be_cut(git_sha) ==> encode_utf8(name) == encode_utf8(
                fields_text(utc(built_at)) + seq!['_'],
            ) + sha.take(cut)
            &&& release_path(app_root, built_at, git_sha) == joined(
                joined(app_root, encode_utf8("releases"@)),
                encode_utf8(name),
            )
        }),
{
    let sha = encode_utf8(git_sha);
    encode_utf8_valid_utf8(git_sha);
    if sha.len() > 12 {
        is_char_boundary_iff_not_is_continuation_byte(sha, 12);
    } else {
        is_char_boundary_start_end_of_seq(sha);
    }
    if sha_can_be_cut(git_sha) {
        let cut = sha_prefix_len(git_sha);
        let head = fields_text(utc(built_at)) + seq!['_'];
        valid_utf8_split(sha, cut);
        assert(sha.subrange(0, cut) =~= sha.take(cut));
        decode_utf8_encode_utf8(sha.take(cut));
        lemma_encode_utf8_concat(head, sha_prefix(git_sha));
    }
}

/// Putting a release back leads back to it: once a swap to the directory that
/// the link led to before is done, the link leads there again.
pub proof fn lemma_swap_leads_back(
    app_root: Seq<u8>,
    previous: Seq<u8>,
    name: Seq<u8>,
    links: Map<Seq<u8>, Seq<u8>>,
)
    requires
        parts(joined(app_root, previous)) == parts(releases_path(app_root)).push(Part::Name(name)),
    ensures
        ({
            let dir = joined(app_root, previous);
            let after = links_behind(
                links,
                swap_steps(tmp_path(app_root), link_target(name), current_path(app_root)),
            );
            &&& file_name(dir) == Some(name)
            &&& after.contains_key(current_path(app_root))
            &&& is_current(dir, linked_release(app_root, Some(after[current_path(app_root)])))
        }),
{
    lemma_swap_points_at_release(app_root, joined(app_root, previous), name);
    lemma_current_is_old_or_new(app_root, link_target(name), links, 3);
    let steps = swap_steps(tmp_path(app_root), link_target(name), current_path(app_root));
    assert(steps.take(3) =~= steps);
}

} // verus!
