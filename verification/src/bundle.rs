//! Bundles: compressed archives of a release, which are treated as hostile
//! until every entry has been looked at.

use vstd::prelude::*;
use vstd::slice::*;
use vstd::string::*;
use vstd::utf8::*;

use crate::archive::{
    check_sizes, has_sane_sizes, header_starts, is_extended_sparse, lemma_contents_do_not_matter,
    MAX_LEN,
};
use crate::external::{
    hex_decode, hex_encode, lossy_chars, lossy_text, sha256, sha256_digest, tar_list, tar_listing,
    zstd_decode, zstd_decoded, zstd_encode, zstd_encoded,
};
use crate::hexadecimal::{hex_bytes, hex_text};
use crate::manifest::{BinaryEntry, Manifest, UnitEntry, CURRENT_SCHEMA_VERSION};
use crate::path::{
    head_parts, is_absolute, is_within, joined, lemma_parts_of_joined, lemma_tail_parts_kinds,
    part_views, parts, tail_parts, Component, FsPath, Part,
};
use crate::text::{bytes_equal, i64_text, signed_decimal};

verus! {

/// The zstd level that bundles are compressed at.
pub const COMPRESSION_LEVEL: i32 = 19;

/// An entry of an archive, as far as its safety depends on it.
#[derive(Debug)]
pub struct ArchiveEntry {
    pub path: Vec<u8>,
    pub is_symlink: bool,
    pub is_hard_link: bool,
}

impl View for ArchiveEntry {
    type V = (Seq<u8>, bool, bool);

    open spec fn view(&self) -> (Seq<u8>, bool, bool) {
        (self.path@, self.is_symlink, self.is_hard_link)
    }
}

/// The entries of `list`.
pub open spec fn entry_views(list: Seq<ArchiveEntry>) -> Seq<(Seq<u8>, bool, bool)> {
    Seq::new(list.len(), |i: int| list[i]@)
}

/// What is done with an entry of an archive.
#[derive(Debug)]
pub enum ExtractStep {
    /// The entry is the root of the archive, and no link. It is there already.
    Skip,
    /// The entry is unpacked at this path below the destination.
    Unpack(FsPath),
}

impl View for ExtractStep {
    type V = Option<Seq<u8>>;

    open spec fn view(&self) -> Option<Seq<u8>> {
        match self {
            ExtractStep::Skip => None,
            ExtractStep::Unpack(path) => Some(path@),
        }
    }
}

/// An archive and what to do with its entries, in their order.
#[derive(Debug)]
pub struct ExtractPlan {
    pub tar_data: Vec<u8>,
    pub steps: Vec<ExtractStep>,
}

/// Why a bundle is not accepted, with the steps that come before the entry
/// that is refused, where the archive could be read at all.
#[derive(Debug)]
pub struct Refusal {
    pub first: Option<ExtractPlan>,
    pub reason: BundleError,
}

/// What can be wrong with a bundle.
#[derive(Debug)]
pub enum BundleError {
    /// The archive could not be compressed.
    Compress(std::io::Error),
    /// The bundle is not compressed as it should be.
    Decompress(std::io::Error),
    /// The archive cannot be read on.
    Archive(std::io::Error),
    /// An entry of the archive claims a size that no archive can have.
    HugeEntry,
    /// An entry has a path with a root or a parent directory in it.
    UnsafePath(FsPath),
    /// An entry is a link.
    Link(FsPath),
    /// The directory of an entry is outside the destination.
    Escapes(FsPath),
    /// The manifest has a shape of another version.
    UnsupportedSchema(u32),
    /// A file does not have the contents that the manifest gives.
    ChecksumMismatch { path: FsPath, expected: String, got: String },
}

/// What is told of a manifest with the shape of version `found`.
pub open spec fn schema_text(found: u32) -> Seq<char> {
    "unsupported manifest schema_version "@ + signed_decimal(found as int) + " (expected "@
        + signed_decimal(1) + ")"@
}

/// What is told of a file that does not have the checksum `expected`.
pub open spec fn mismatch_text(path: Seq<u8>, expected: Seq<char>, got: Seq<char>) -> Seq<char> {
    "checksum mismatch for "@ + lossy_chars(path) + ": expected "@ + expected + ", got "@ + got
}

impl BundleError {
    /// What is told of a size, a manifest or a checksum that is not accepted.
    pub open spec fn text(&self) -> Option<Seq<char>> {
        match self {
            BundleError::HugeEntry => Some("bundle entry claims an impossible size"@),
            BundleError::UnsupportedSchema(found) => Some(schema_text(*found)),
            BundleError::ChecksumMismatch { path, expected, got } => Some(
                mismatch_text(path@, expected@, got@),
            ),
            _ => None,
        }
    }

    /// Tells why a size, a manifest or a checksum is not accepted. The other
    /// errors hold what another crate tells, or a path to be shown.
    pub fn message(&self) -> (message: Option<String>)
        ensures
            match message {
                Some(m) => self.text() == Some(m@),
                None => self.text() is None,
            },
    {
        match self {
            BundleError::HugeEntry => Some(
                String::from_str("bundle entry claims an impossible size"),
            ),
            BundleError::UnsupportedSchema(found) => Some(
                String::from_str("unsupported manifest schema_version ").concat(
                    i64_text(*found as i64).as_str(),
                ).concat(" (expected ").concat(
                    i64_text(CURRENT_SCHEMA_VERSION as i64).as_str(),
                ).concat(")"),
            ),
            BundleError::ChecksumMismatch { path, expected, got } => Some(
                String::from_str("checksum mismatch for ").concat(
                    lossy_text(path.bytes.as_slice()).as_str(),
                ).concat(": expected ").concat(expected.as_str()).concat(", got ").concat(
                    got.as_str(),
                ),
            ),
            _ => None,
        }
    }
}

/// Whether a path names the root of the archive.
pub open spec fn is_archive_root(path: Seq<u8>) -> bool {
    parts(path) == seq![Part::Here]
}

/// Whether a path has a root or a parent directory in it.
pub open spec fn is_unsafe_path(path: Seq<u8>) -> bool {
    exists|i: int|
        0 <= i < parts(path).len() && ((#[trigger] parts(path)[i]) is Root || parts(path)[i] is Up)
}

/// Whether an entry is refused: for its path, or for being a link, be it at the
/// root of the archive.
pub open spec fn is_refused(entry: (Seq<u8>, bool, bool)) -> bool {
    is_unsafe_path(entry.0) || entry.1 || entry.2
}

/// What is done with an entry that is not refused.
pub open spec fn step_for(entry: (Seq<u8>, bool, bool)) -> Option<Seq<u8>> {
    if is_archive_root(entry.0) {
        None
    } else {
        Some(entry.0)
    }
}

/// Whether `steps` are what is done with the first of `entries`, none of them
/// refused.
pub open spec fn steps_follow(
    steps: Seq<ExtractStep>,
    entries: Seq<(Seq<u8>, bool, bool)>,
) -> bool {
    &&& steps.len() <= entries.len()
    &&& forall|i: int|
        0 <= i < steps.len() ==> !is_refused(#[trigger] entries[i]) && steps[i]@ == step_for(
            entries[i],
        )
}

/// Whether `reason` is why `entry` is refused.
pub open spec fn refusal_of(reason: BundleError, entry: (Seq<u8>, bool, bool)) -> bool {
    &&& is_refused(entry)
    &&& match reason {
        BundleError::UnsafePath(path) => is_unsafe_path(entry.0) && path@ == entry.0,
        BundleError::Link(path) => !is_unsafe_path(entry.0) && path@ == entry.0,
        _ => false,
    }
}

/// Whether `steps` and `refusal` are what comes of an archive with `entries`,
/// which ends there where it is `complete` and cannot be read on otherwise:
/// one step for each entry up to the first that is refused.
pub open spec fn is_extraction(
    entries: Seq<(Seq<u8>, bool, bool)>,
    complete: bool,
    steps: Seq<ExtractStep>,
    refusal: Option<BundleError>,
) -> bool {
    &&& steps_follow(steps, entries)
    &&& if steps.len() < entries.len() {
        refusal is Some && refusal_of(refusal->0, entries[steps.len() as int])
    } else if complete {
        refusal is None
    } else {
        refusal is Some && refusal->0 is Archive
    }
}

/// Whether `bundle` is the bundle of an archive: its frame at the level of
/// bundles, which decompresses to the archive.
pub open spec fn is_bundle_of(bundle: Seq<u8>, tar_data: Seq<u8>) -> bool {
    bundle == zstd_encoded(tar_data, 19) && zstd_decoded(bundle) == Some(tar_data)
}

/// Compresses an archive into a bundle. Extracting the bundle gives the
/// archive back.
pub fn build_bundle(tar_data: &[u8]) -> (bundle: Result<Vec<u8>, BundleError>)
    ensures
        bundle is Ok,
        is_bundle_of(bundle->Ok_0@, tar_data@),
{
    match zstd_encode(tar_data, COMPRESSION_LEVEL) {
        Ok(bundle) => Ok(bundle),
        Err(e) => Err(BundleError::Compress(e)),
    }
}

/// Whether a path has a root or a parent directory in it.
pub fn leads_out(path: &FsPath) -> (unsafe_path: bool)
    ensures
        unsafe_path == is_unsafe_path(path@),
{
    let list: Vec<Component> = path.components();
    assert(part_views(list@).len() == list@.len());
    let mut i: usize = 0;
    while i < list.len()
        invariant
            i <= list.len(),
            part_views(list@) == parts(path@),
            forall|j: int|
                0 <= j < i ==> !((#[trigger] parts(path@)[j]) is Root || parts(path@)[j] is Up),
        decreases list.len() - i,
    {
        assert(part_views(list@)[i as int] == list@[i as int]@);
        match &list[i] {
            Component::Normal(_) => {},
            Component::CurDir => {},
            _ => {
                assert(parts(path@)[i as int] is Root || parts(path@)[i as int] is Up);
                return true;
            },
        }
        i = i + 1;
    }
    assert(part_views(list@).len() == list@.len());
    false
}

/// Whether `step` is the decision on `entry`.
pub open spec fn is_decision(
    entry: (Seq<u8>, bool, bool),
    step: Result<ExtractStep, BundleError>,
) -> bool {
    match step {
        Ok(s) => !is_refused(entry) && s@ == step_for(entry),
        Err(e) => refusal_of(e, entry),
    }
}

/// Decides on one entry of an archive.
pub fn judge_entry(entry: &ArchiveEntry) -> (step: Result<ExtractStep, BundleError>)
    ensures
        is_decision(entry@, step),
{
    let path: FsPath = FsPath { bytes: slice_to_vec(entry.path.as_slice()) };
    if leads_out(&path) {
        return Err(BundleError::UnsafePath(path));
    }
    if entry.is_symlink || entry.is_hard_link {
        return Err(BundleError::Link(path));
    }
    let list: Vec<Component> = path.components();
    let root: bool = list.len() == 1 && matches!(&list[0], Component::CurDir);
    assert(root == is_archive_root(path@)) by {
        assert(part_views(list@).len() == list@.len());
        if list@.len() == 1 {
            assert(part_views(list@)[0] == list@[0]@);
            if list@[0]@ is Here {
                assert(parts(path@) =~= seq![Part::Here]);
            }
        }
    }
    if root {
        Ok(ExtractStep::Skip)
    } else {
        Ok(ExtractStep::Unpack(path))
    }
}

/// Plans the extraction of an archive with these entries, where `failure`
/// stands for what kept the archive from being read to its end.
pub fn plan_extraction(entries: Vec<ArchiveEntry>, failure: Option<std::io::Error>) -> (plan: (
    Vec<ExtractStep>,
    Option<BundleError>,
))
    ensures
        is_extraction(entry_views(entries@), failure is None, plan.0@, plan.1),
        plan.0@.len() == entries@.len() && failure is Some ==> plan.1 == Some(
            BundleError::Archive(failure->0),
        ),
{
    let ghost views = entry_views(entries@);
    let mut steps: Vec<ExtractStep> = Vec::new();
    while steps.len() < entries.len()
        invariant
            views == entry_views(entries@),
            steps_follow(steps@, views),
        decreases entries.len() - steps.len(),
    {
        let entry: &ArchiveEntry = &entries[steps.len()];
        assert(entry@ == views[steps@.len() as int]);
        match judge_entry(entry) {
            Ok(step) => {
                steps.push(step);
            },
            Err(reason) => {
                return (steps, Some(reason));
            },
        }
    }
    match failure {
        Some(e) => (steps, Some(BundleError::Archive(e))),
        None => (steps, None),
    }
}

/// Whether `plan` is what comes of opening the bundle `compressed`.
pub open spec fn opens_to(compressed: Seq<u8>, plan: Result<ExtractPlan, Refusal>) -> bool {
    match plan {
        Ok(p) => {
            &&& zstd_decoded(compressed) == Some(p.tar_data@)
            &&& has_sane_sizes(p.tar_data@)
            &&& is_extraction(
                tar_listing(p.tar_data@).0,
                tar_listing(p.tar_data@).1,
                p.steps@,
                None,
            )
        },
        Err(r) => match zstd_decoded(compressed) {
            None => r.first is None && r.reason is Decompress,
            Some(tar_data) => if !has_sane_sizes(tar_data) {
                r.first is None && r.reason is HugeEntry
            } else {
                &&& r.first is Some
                &&& r.first->0.tar_data@ == tar_data
                &&& is_extraction(
                    tar_listing(tar_data).0,
                    tar_listing(tar_data).1,
                    r.first->0.steps@,
                    Some(r.reason),
                )
            },
        },
    }
}

/// Opens a bundle and plans its extraction. A link anywhere in it, or a path
/// that could lead out of the destination, is refused, and so is an archive
/// with an impossible size in it, of which nothing is read.
pub fn extract_bundle(compressed: &[u8]) -> (plan: Result<ExtractPlan, Refusal>)
    ensures
        opens_to(compressed@, plan),
{
    let tar_data: Vec<u8> = match zstd_decode(compressed) {
        Ok(data) => data,
        Err(e) => {
            return Err(Refusal { first: None, reason: BundleError::Decompress(e) });
        },
    };
    if !check_sizes(tar_data.as_slice()) {
        return Err(Refusal { first: None, reason: BundleError::HugeEntry });
    }
    let (entries, failure) = tar_list(tar_data.as_slice());
    let (steps, refusal) = plan_extraction(entries, failure);
    let plan: ExtractPlan = ExtractPlan { tar_data, steps };
    match refusal {
        Some(reason) => Err(Refusal { first: Some(plan), reason }),
        None => Ok(plan),
    }
}

/// Whether `verdict` is that on an entry whose directory is `parent`.
pub open spec fn is_inside_verdict(
    parent: Seq<u8>,
    dest: Seq<u8>,
    entry: FsPath,
    verdict: Result<(), BundleError>,
) -> bool {
    match verdict {
        Ok(_) => is_within(parent, dest),
        Err(e) => !is_within(parent, dest) && e == BundleError::Escapes(entry),
    }
}

/// An entry is let in exactly where its directory is the destination or one
/// below it: the components of the destination come first among its own.
/// Otherwise its path is told.
pub proof fn lemma_entry_is_let_in_below(
    parent: Seq<u8>,
    dest: Seq<u8>,
    entry: FsPath,
    verdict: Result<(), BundleError>,
)
    requires
        is_inside_verdict(parent, dest, entry, verdict),
    ensures
        verdict is Ok <==> parts(dest).len() <= parts(parent).len() && forall|i: int|
            0 <= i < parts(dest).len() ==> parts(dest)[i] == #[trigger] parts(parent)[i],
        verdict is Err ==> verdict->Err_0 is Escapes && verdict->Err_0->Escapes_0@ == entry@,
{
    if parts(dest).len() <= parts(parent).len() && forall|i: int|
        0 <= i < parts(dest).len() ==> parts(dest)[i] == #[trigger] parts(parent)[i] {
        assert(parts(parent).take(parts(dest).len() as int) =~= parts(dest));
    }
    if is_within(parent, dest) {
        assert forall|i: int| 0 <= i < parts(dest).len() implies parts(dest)[i]
            == #[trigger] parts(parent)[i] by {
            assert(parts(parent).take(parts(dest).len() as int)[i] == parts(parent)[i]);
        }
    }
}

/// Confirms that the directory of an entry, with its links resolved, is
/// inside the destination, which has its links resolved too.
pub fn check_inside(parent: &FsPath, dest: &FsPath, entry: FsPath) -> (verdict: Result<
    (),
    BundleError,
>)
    ensures
        is_inside_verdict(parent@, dest@, entry, verdict),
{
    if parent.starts_with(dest) {
        Ok(())
    } else {
        Err(BundleError::Escapes(entry))
    }
}

/// A path without a root or a parent directory stays inside: below the
/// directory it is taken from, only names are appended.
pub proof fn lemma_safe_path_stays_inside(dest: Seq<u8>, path: Seq<u8>)
    requires
        dest.len() > 0,
        !is_unsafe_path(path),
    ensures
        is_within(joined(dest, path), dest),
        parts(joined(dest, path)) == parts(dest) + tail_parts(path),
        forall|i: int|
            parts(dest).len() <= i < parts(joined(dest, path)).len() ==> (#[trigger] parts(
                joined(dest, path),
            )[i]) is Name,
{
    if is_absolute(path) {
        assert(parts(path)[0] is Root);
    }
    lemma_parts_of_joined(dest, path);
    lemma_tail_parts_kinds(path);
    let whole = parts(joined(dest, path));
    assert forall|i: int| parts(dest).len() <= i < whole.len() implies (
    #[trigger] whole[i]) is Name by {
        let j = i - parts(dest).len();
        assert(whole[i] == tail_parts(path)[j]);
        assert(parts(path)[j + head_parts(path).len()] == tail_parts(path)[j]);
    }
    assert(whole.take(parts(dest).len() as int) =~= parts(dest));
}

/// What is unpacked stays inside: below the destination, only names are
/// appended to its path, and it is no link.
pub proof fn lemma_unpacked_stays_inside(dest: Seq<u8>, entry: (Seq<u8>, bool, bool))
    requires
        dest.len() > 0,
        !is_refused(entry),
        step_for(entry) is Some,
    ensures
        is_within(joined(dest, entry.0), dest),
        parts(joined(dest, entry.0)) == parts(dest) + tail_parts(entry.0),
        forall|i: int|
            parts(dest).len() <= i < parts(joined(dest, entry.0)).len() ==> (#[trigger] parts(
                joined(dest, entry.0),
            )[i]) is Name,
        !entry.1,
        !entry.2,
{
    lemma_safe_path_stays_inside(dest, entry.0);
}

/// A bundle of an archive with sane sizes and without refused entries opens, to
/// that archive and with a step for each of its entries.
pub proof fn lemma_sane_bundle_opens(
    tar_data: Seq<u8>,
    bundle: Seq<u8>,
    plan: Result<ExtractPlan, Refusal>,
)
    requires
        zstd_decoded(bundle) == Some(tar_data),
        has_sane_sizes(tar_data),
        tar_listing(tar_data).1,
        forall|i: int|
            0 <= i < tar_listing(tar_data).0.len() ==> !is_refused(
                #[trigger] tar_listing(tar_data).0[i],
            ),
        opens_to(bundle, plan),
    ensures
        plan is Ok,
        plan->Ok_0.tar_data@ == tar_data,
        plan->Ok_0.steps@.len() == tar_listing(tar_data).0.len(),
        steps_follow(plan->Ok_0.steps@, tar_listing(tar_data).0),
{
}

/// A bundle that was built from an archive without refused entries opens, to
/// that archive and with a step for each of its entries, whatever the files in
/// it hold: only headers of sparse files whose blocks go on behind them can be
/// in the way, of those that a reader comes to.
pub proof fn lemma_built_bundle_opens(
    tar_data: Seq<u8>,
    bundle: Seq<u8>,
    plan: Result<ExtractPlan, Refusal>,
)
    requires
        zstd_decoded(bundle) == Some(tar_data),
        tar_data.len() < MAX_LEN,
        forall|at: int| #[trigger]
            header_starts(tar_data, at) ==> !is_extended_sparse(tar_data, at),
        tar_listing(tar_data).1,
        forall|i: int|
            0 <= i < tar_listing(tar_data).0.len() ==> !is_refused(
                #[trigger] tar_listing(tar_data).0[i],
            ),
        opens_to(bundle, plan),
    ensures
        plan is Ok,
        plan->Ok_0.tar_data@ == tar_data,
        plan->Ok_0.steps@.len() == tar_listing(tar_data).0.len(),
        steps_follow(plan->Ok_0.steps@, tar_listing(tar_data).0),
{
    lemma_contents_do_not_matter(tar_data);
    lemma_sane_bundle_opens(tar_data, bundle, plan);
}

/// An archive has one bundle, which decompresses to it: different archives have
/// different bundles, and the frame is that of the level of bundles.
pub proof fn lemma_bundle_is_of_one_archive(
    bundle: Seq<u8>,
    tar_data: Seq<u8>,
    other: Seq<u8>,
    other_data: Seq<u8>,
)
    requires
        is_bundle_of(bundle, tar_data),
        is_bundle_of(other, other_data),
    ensures
        bundle == other <==> tar_data == other_data,
        zstd_decoded(bundle) == Some(tar_data),
        bundle == zstd_encoded(tar_data, 19),
{
}

/// Each error that this library itself makes is told in words: of a manifest the
/// version that was found, and of a file its path and both checksums.
pub proof fn lemma_errors_are_told(error: BundleError)
    ensures
        match error {
            BundleError::HugeEntry => error.text() == Some(
                "bundle entry claims an impossible size"@,
            ),
            BundleError::UnsupportedSchema(found) => error.text() == Some(
                "unsupported manifest schema_version "@ + signed_decimal(found as int)
                    + " (expected "@ + signed_decimal(1) + ")"@,
            ),
            BundleError::ChecksumMismatch { path, expected, got } => error.text() == Some(
                "checksum mismatch for "@ + lossy_chars(path@) + ": expected "@ + expected@
                    + ", got "@ + got@,
            ),
            _ => error.text() is None,
        },
{
}

/// A bundle with an entry that is refused does not open, and neither that
/// entry nor one behind it is unpacked.
pub proof fn lemma_refused_entry_stops(
    tar_data: Seq<u8>,
    bundle: Seq<u8>,
    at: int,
    plan: Result<ExtractPlan, Refusal>,
)
    requires
        zstd_decoded(bundle) == Some(tar_data),
        0 <= at < tar_listing(tar_data).0.len(),
        is_refused(tar_listing(tar_data).0[at]),
        opens_to(bundle, plan),
    ensures
        plan is Err,
        plan->Err_0.first is Some ==> plan->Err_0.first->0.steps@.len() <= at,
{
}

/// An entry is refused exactly where its path has a root or a parent directory
/// among its components, which comes first, or it is a link. Any other is
/// skipped where a leading dot is all there is to its path, and is unpacked at
/// its own path otherwise, so that a path with a name in it never is skipped.
pub proof fn lemma_entry_is_judged(
    entry: ArchiveEntry,
    step: Result<ExtractStep, BundleError>,
    at: int,
)
    requires
        is_decision(entry@, step),
    ensures
        ({
            let list = parts(entry.path@);
            let leads_out = 0 <= at < list.len() && (list[at] is Root || list[at] is Up);
            let stays = forall|i: int|
                0 <= i < list.len() ==> !((#[trigger] list[i]) is Root || list[i] is Up);
            let is_link = entry.is_symlink || entry.is_hard_link;
            &&& leads_out ==> step is Err && step->Err_0 is UnsafePath
                && step->Err_0->UnsafePath_0@ == entry.path@
            &&& stays && is_link ==> step is Err && step->Err_0 is Link && step->Err_0->Link_0@
                == entry.path@
            &&& stays && !is_link ==> step is Ok
            &&& stays && !is_link && list == seq![Part::Here] ==> step->Ok_0 is Skip
            &&& stays && !is_link && list != seq![Part::Here] ==> step->Ok_0 is Unpack
                && step->Ok_0->Unpack_0@ == entry.path@
            &&& stays && !is_link && 0 <= at < list.len() && list[at] is Name ==> step->Ok_0
                is Unpack && step->Ok_0->Unpack_0@ == entry.path@
        }),
{
    let list = parts(entry.path@);
    if 0 <= at < list.len() && (list[at] is Root || list[at] is Up) {
        assert(is_unsafe_path(entry.path@));
    }
    if 0 <= at < list.len() && list[at] is Name && list == seq![Part::Here] {
        assert(list[0] is Here);
    }
}

/// The steps of a bundle go by its entries, one for each and in their order,
/// up to the first entry that is refused: at `at`, an entry before that one has
/// neither a root nor a parent directory in its path and is no link; it is
/// skipped where its path is a leading dot, and unpacked at that very path
/// otherwise.
pub proof fn lemma_steps_go_by_entries(
    tar_data: Seq<u8>,
    bundle: Seq<u8>,
    plan: Result<ExtractPlan, Refusal>,
    at: int,
)
    requires
        zstd_decoded(bundle) == Some(tar_data),
        opens_to(bundle, plan),
        plan is Ok || plan->Err_0.first is Some,
    ensures
        ({
            let (entries, complete) = tar_listing(tar_data);
            let opened = match plan {
                Ok(p) => p,
                Err(r) => r.first->0,
            };
            let steps = opened.steps@;
            let path = entries[at].0;
            let list = parts(path);
            &&& opened.tar_data@ == tar_data
            &&& steps.len() <= entries.len()
            &&& plan is Ok ==> complete && steps.len() == entries.len()
            &&& 0 <= at < steps.len() ==> {
                &&& !entries[at].1
                &&& !entries[at].2
                &&& forall|i: int|
                    0 <= i < list.len() ==> !((#[trigger] list[i]) is Root || list[i] is Up)
                &&& steps[at] is Skip <==> list == seq![Part::Here]
                &&& steps[at] is Unpack ==> steps[at]->Unpack_0@ == path
                &&& (exists|i: int| 0 <= i < list.len() && (#[trigger] list[i]) is Name)
                    ==> steps[at] is Unpack
            }
            &&& plan is Err && steps.len() < entries.len() && at == steps.len() ==> {
                ||| entries[at].1
                ||| entries[at].2
                ||| exists|i: int|
                    0 <= i < list.len() && ((#[trigger] list[i]) is Root || list[i] is Up)
            }
            &&& plan is Err && steps.len() < entries.len() && at == steps.len()
                && plan->Err_0.reason is UnsafePath ==> plan->Err_0.reason->UnsafePath_0@ == path
            &&& plan is Err && steps.len() < entries.len() && at == steps.len()
                && !(plan->Err_0.reason is UnsafePath) ==> plan->Err_0.reason is Link
                && plan->Err_0.reason->Link_0@ == path
            &&& plan is Err && steps.len() == entries.len() ==> !complete
                && plan->Err_0.reason is Archive
        }),
{
    let (entries, complete) = tar_listing(tar_data);
    let steps = match plan {
        Ok(p) => p.steps@,
        Err(r) => r.first->0.steps@,
    };
    if 0 <= at < steps.len() {
        let list = parts(entries[at].0);
        assert(!is_refused(entries[at]));
        assert forall|i: int| 0 <= i < list.len() implies !((#[trigger] list[i]) is Root
            || list[i] is Up) by {
            assert(!is_unsafe_path(entries[at].0));
        }
        assert(steps[at]@ == step_for(entries[at]));
        if list == seq![Part::Here] {
            assert(list[0] is Here);
        }
    }
    if plan is Err && steps.len() < entries.len() && at == steps.len() {
        assert(is_refused(entries[at]));
    }
}

/// A bundle opens exactly where it is compressed as it should be, no sparse file
/// in its archive claims a huge size, the archive can be read to its end, and
/// every entry has neither a root nor a parent directory in its path and is no
/// link. Of one that is not compressed so, or claims such a size, nothing is
/// unpacked.
pub proof fn lemma_bundle_opens_exactly(
    bundle: Seq<u8>,
    tar_data: Seq<u8>,
    plan: Result<ExtractPlan, Refusal>,
)
    requires
        opens_to(bundle, plan),
    ensures
        zstd_decoded(bundle) is None ==> plan is Err && plan->Err_0.first is None
            && plan->Err_0.reason is Decompress,
        zstd_decoded(bundle) == Some(tar_data) && !has_sane_sizes(tar_data) ==> plan is Err
            && plan->Err_0.first is None && plan->Err_0.reason is HugeEntry,
        zstd_decoded(bundle) == Some(tar_data) && has_sane_sizes(tar_data) ==> (plan is Ok <==> {
            &&& tar_listing(tar_data).1
            &&& forall|k: int|
                0 <= k < tar_listing(tar_data).0.len() ==> {
                    let entry = #[trigger] tar_listing(tar_data).0[k];
                    !entry.1 && !entry.2 && forall|i: int|
                        0 <= i < parts(entry.0).len() ==> !((#[trigger] parts(entry.0)[i]) is Root
                            || parts(entry.0)[i] is Up)
                }
        }),
{
    if zstd_decoded(bundle) == Some(tar_data) && has_sane_sizes(tar_data) {
        let entries = tar_listing(tar_data).0;
        if plan is Ok {
            assert forall|k: int| 0 <= k < entries.len() implies {
                let entry = #[trigger] entries[k];
                !entry.1 && !entry.2 && !is_unsafe_path(entry.0)
            } by {
                assert(!is_refused(entries[k]));
            }
        } else {
            let k = plan->Err_0.first->0.steps@.len() as int;
            if k < entries.len() {
                assert(is_refused(entries[k]));
            }
        }
    }
}

/// Checks that a manifest has the shape that this library knows.
pub fn read_manifest(manifest: Manifest) -> (checked: Result<Manifest, BundleError>)
    ensures
        match checked {
            Ok(m) => m == manifest && manifest.schema_version == 1,
            Err(e) => manifest.schema_version != 1 && e == BundleError::UnsupportedSchema(
                manifest.schema_version,
            ),
        },
{
    if manifest.schema_version != CURRENT_SCHEMA_VERSION {
        return Err(BundleError::UnsupportedSchema(manifest.schema_version));
    }
    Ok(manifest)
}

/// Whether `content` has the SHA-256 that is written in `expected_hex`, in
/// digits of either case.
pub open spec fn has_checksum(content: Seq<u8>, expected_hex: Seq<char>) -> bool {
    hex_bytes(expected_hex) == Some(sha256_digest(content))
}

/// Whether `e` says that the file at `path` has `content` in place of what
/// `expected_hex` tells.
pub open spec fn is_mismatch(
    e: BundleError,
    path: Seq<u8>,
    content: Seq<u8>,
    expected_hex: Seq<char>,
) -> bool {
    &&& e is ChecksumMismatch
    &&& e->ChecksumMismatch_path@ == path
    &&& e->expected@ == expected_hex
    &&& e->got@ == hex_text(sha256_digest(content))
}

/// Decides on the SHA-256 of the file at `path`.
pub fn judge_digest(path: FsPath, digest: &[u8], expected_hex: &str) -> (verdict: Result<
    (),
    BundleError,
>)
    ensures
        match verdict {
            Ok(_) => hex_bytes(expected_hex@) == Some(digest@),
            Err(e) => {
                &&& hex_bytes(expected_hex@) != Some(digest@)
                &&& e is ChecksumMismatch
                &&& e->ChecksumMismatch_path == path
                &&& e->expected@ == expected_hex@
                &&& e->got@ == hex_text(digest@)
            },
        },
{
    let same: bool = match hex_decode(expected_hex) {
        Ok(expected) => bytes_equal(expected.as_slice(), digest),
        Err(_) => false,
    };
    if same {
        return Ok(());
    }
    Err(
        BundleError::ChecksumMismatch {
            path,
            expected: String::from_str(expected_hex),
            got: hex_encode(digest),
        },
    )
}

/// Checks the contents of the file at `path` against a checksum.
pub fn verify_one(path: FsPath, content: &[u8], expected_hex: &str) -> (verdict: Result<
    (),
    BundleError,
>)
    ensures
        match verdict {
            Ok(_) => has_checksum(content@, expected_hex@),
            Err(e) => {
                &&& !has_checksum(content@, expected_hex@)
                &&& is_mismatch(e, path@, content@, expected_hex@)
            },
        },
{
    judge_digest(path, sha256(content).as_slice(), expected_hex)
}

/// The path and the checksum that a manifest gives for its `i`th file, the
/// binaries first and the units behind them.
pub open spec fn listed_file(manifest: Manifest, i: int) -> (Seq<char>, Seq<char>) {
    let n = manifest.binaries@.len() as int;
    if i < n {
        (manifest.binaries@[i].path@, manifest.binaries@[i].sha256@)
    } else {
        (manifest.units@[i - n].path@, manifest.units@[i - n].sha256@)
    }
}

/// How many files a manifest lists.
pub open spec fn listed_count(manifest: Manifest) -> nat {
    manifest.binaries@.len() + manifest.units@.len()
}

/// Whether the `i`th file that a manifest lists may have these contents.
pub open spec fn file_matches(manifest: Manifest, i: int, content: Seq<u8>) -> bool {
    has_checksum(content, listed_file(manifest, i).1)
}

/// Whether `verdict` is what comes of checking `content` for the `index`th file
/// that a manifest lists.
pub open spec fn is_listed_verdict(
    release_dir: Seq<u8>,
    manifest: Manifest,
    index: int,
    content: Seq<u8>,
    verdict: Result<(), BundleError>,
) -> bool {
    match verdict {
        Ok(_) => file_matches(manifest, index, content),
        Err(e) => {
            let (path, sha256) = listed_file(manifest, index);
            &&& !file_matches(manifest, index, content)
            &&& is_mismatch(e, joined(release_dir, encode_utf8(path)), content, sha256)
        },
    }
}

/// Checks the `index`th file that a manifest lists, which was found below
/// `release_dir` with these contents.
pub fn verify_listed(
    release_dir: &FsPath,
    manifest: &Manifest,
    index: usize,
    content: &[u8],
) -> (verdict: Result<(), BundleError>)
    requires
        index < listed_count(*manifest),
    ensures
        is_listed_verdict(release_dir@, *manifest, index as int, content@, verdict),
{
    if index < manifest.binaries.len() {
        let binary: &BinaryEntry = &manifest.binaries[index];
        verify_one(release_dir.join_text(binary.path.as_str()), content, binary.sha256.as_str())
    } else {
        let unit: &UnitEntry = &manifest.units[index - manifest.binaries.len()];
        verify_one(release_dir.join_text(unit.path.as_str()), content, unit.sha256.as_str())
    }
}

/// The contents that `list` holds.
pub open spec fn content_views(list: Seq<Vec<u8>>) -> Seq<Seq<u8>> {
    Seq::new(list.len(), |i: int| list[i]@)
}

/// Whether `verdict` is what comes of checking `contents` for the files that a
/// manifest lists: the first that does not match is reported.
pub open spec fn is_checksum_verdict(
    release_dir: Seq<u8>,
    manifest: Manifest,
    contents: Seq<Seq<u8>>,
    verdict: Result<(), BundleError>,
) -> bool {
    match verdict {
        Ok(_) => forall|i: int|
            0 <= i < listed_count(manifest) ==> file_matches(manifest, i, #[trigger] contents[i]),
        Err(e) => exists|i: int|
            {
                &&& 0 <= i < contents.len()
                &&& !file_matches(manifest, i, #[trigger] contents[i])
                &&& forall|j: int|
                    0 <= j < i ==> file_matches(manifest, j, #[trigger] contents[j])
                &&& is_mismatch(
                    e,
                    joined(release_dir, encode_utf8(listed_file(manifest, i).0)),
                    contents[i],
                    listed_file(manifest, i).1,
                )
            },
    }
}

/// Checks every file that a manifest lists, which were found below
/// `release_dir` with these contents, the binaries first and the units behind
/// them. The first file that does not match is reported.
pub fn verify_checksums(
    release_dir: &FsPath,
    manifest: &Manifest,
    contents: &Vec<Vec<u8>>,
) -> (verdict: Result<(), BundleError>)
    requires
        contents@.len() == listed_count(*manifest),
    ensures
        is_checksum_verdict(release_dir@, *manifest, content_views(contents@), verdict),
{
    let ghost views = content_views(contents@);
    let mut i: usize = 0;
    while i < contents.len()
        invariant
            i <= contents.len() == listed_count(*manifest),
            views == content_views(contents@),
            forall|j: int| 0 <= j < i ==> file_matches(*manifest, j, #[trigger] views[j]),
        decreases contents.len() - i,
    {
        assert(views[i as int] == contents@[i as int]@);
        match verify_listed(release_dir, manifest, i, contents[i].as_slice()) {
            Ok(_) => {},
            Err(e) => {
                assert(!file_matches(*manifest, i as int, views[i as int]));
                return Err(e);
            },
        }
        i = i + 1;
    }
    Ok(())
}

/// A file is held against the checksum that the manifest lists for that very
/// file, the `i`th binary or the `i`th unit, and where it does not match, its own
/// path is told.
pub proof fn lemma_listed_file_is_verified(
    release_dir: Seq<u8>,
    manifest: Manifest,
    i: int,
    content: Seq<u8>,
    verdict: Result<(), BundleError>,
)
    ensures
        0 <= i < manifest.binaries@.len() && is_listed_verdict(
            release_dir,
            manifest,
            i,
            content,
            verdict,
        ) ==> {
            let binary = manifest.binaries@[i];
            &&& verdict is Ok <==> hex_bytes(binary.sha256@) == Some(sha256_digest(content))
            &&& verdict is Err ==> {
                &&& verdict->Err_0 is ChecksumMismatch
                &&& verdict->Err_0->ChecksumMismatch_path@ == joined(
                    release_dir,
                    encode_utf8(binary.path@),
                )
                &&& verdict->Err_0->expected@ == binary.sha256@
                &&& verdict->Err_0->got@ == hex_text(sha256_digest(content))
            }
        },
        0 <= i < manifest.units@.len() && is_listed_verdict(
            release_dir,
            manifest,
            manifest.binaries@.len() + i,
            content,
            verdict,
        ) ==> {
            let unit = manifest.units@[i];
            &&& verdict is Ok <==> hex_bytes(unit.sha256@) == Some(sha256_digest(content))
            &&& verdict is Err ==> {
                &&& verdict->Err_0 is ChecksumMismatch
                &&& verdict->Err_0->ChecksumMismatch_path@ == joined(
                    release_dir,
                    encode_utf8(unit.path@),
                )
                &&& verdict->Err_0->expected@ == unit.sha256@
                &&& verdict->Err_0->got@ == hex_text(sha256_digest(content))
            }
        },
{
}

/// All files are accepted exactly where each of them, every binary and every
/// unit, has its own checksum. Otherwise the path and the checksum of one are
/// told that does not, and of which none before it fails: the binaries come
/// first.
pub proof fn lemma_all_files_are_verified(
    release_dir: Seq<u8>,
    manifest: Manifest,
    contents: Seq<Vec<u8>>,
    verdict: Result<(), BundleError>,
) -> (at: int)
    requires
        contents.len() == manifest.binaries@.len() + manifest.units@.len(),
        is_checksum_verdict(release_dir, manifest, content_views(contents), verdict),
    ensures
        ({
            let binaries = manifest.binaries@;
            let units = manifest.units@;
            let n = binaries.len();
            &&& verdict is Ok ==> {
                &&& forall|i: int|
                    0 <= i < n ==> hex_bytes((#[trigger] binaries[i]).sha256@) == Some(
                        sha256_digest(contents[i]@),
                    )
                &&& forall|i: int|
                    0 <= i < units.len() ==> hex_bytes((#[trigger] units[i]).sha256@) == Some(
                        sha256_digest(contents[n + i]@),
                    )
            }
            &&& verdict is Err ==> {
                let e = verdict->Err_0;
                &&& 0 <= at < contents.len()
                &&& e is ChecksumMismatch
                &&& e->got@ == hex_text(sha256_digest(contents[at]@))
                &&& at < n ==> {
                    &&& hex_bytes(binaries[at].sha256@) != Some(sha256_digest(contents[at]@))
                    &&& e->expected@ == binaries[at].sha256@
                    &&& e->ChecksumMismatch_path@ == joined(
                        release_dir,
                        encode_utf8(binaries[at].path@),
                    )
                }
                &&& n <= at ==> {
                    &&& hex_bytes(units[at - n].sha256@) != Some(sha256_digest(contents[at]@))
                    &&& e->expected@ == units[at - n].sha256@
                    &&& e->ChecksumMismatch_path@ == joined(
                        release_dir,
                        encode_utf8(units[at - n].path@),
                    )
                }
                &&& forall|i: int|
                    0 <= i < at && i < n ==> hex_bytes((#[trigger] binaries[i]).sha256@) == Some(
                        sha256_digest(contents[i]@),
                    )
                &&& forall|i: int|
                    0 <= i && n + i < at ==> hex_bytes((#[trigger] units[i]).sha256@) == Some(
                        sha256_digest(contents[n + i]@),
                    )
            }
        }),
{
    let views = content_views(contents);
    let binaries = manifest.binaries@;
    let units = manifest.units@;
    let n = binaries.len();
    let at = choose|at: int|
        {
            &&& 0 <= at < views.len()
            &&& !file_matches(manifest, at, #[trigger] views[at])
            &&& forall|j: int| 0 <= j < at ==> file_matches(manifest, j, #[trigger] views[j])
            &&& is_mismatch(
                verdict->Err_0,
                joined(release_dir, encode_utf8(listed_file(manifest, at).0)),
                views[at],
                listed_file(manifest, at).1,
            )
        };
    let end = if verdict is Ok {
        contents.len() as int
    } else {
        at
    };
    assert forall|i: int| 0 <= i < end && i < n implies hex_bytes((#[trigger] binaries[i]).sha256@)
        == Some(sha256_digest(contents[i]@)) by {
        assert(file_matches(manifest, i, views[i]));
    }
    assert forall|i: int| 0 <= i && n + i < end implies hex_bytes((#[trigger] units[i]).sha256@)
        == Some(sha256_digest(contents[n + i]@)) by {
        assert(file_matches(manifest, n + i, views[n + i]));
    }
    at
}

} // verus!
