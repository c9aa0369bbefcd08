//! Building the manifest of a bundle, and signing the bundle for sending.

use vstd::prelude::*;
use vstd::slice::*;
use vstd::string::*;
use vstd::utf8::*;

use crate::bundle::{file_matches, listed_count};
use crate::external::{
    hex_encode, item_views, lossy_chars, lossy_text, pem_items, pem_listing, quoted, quoted_chars,
    sha256, sha256_digest, utf8_text,
};
use crate::hexadecimal::{hex_text, lemma_hex_reads_back};
use crate::hmac::{compute_signature, is_signature, request_tag, SignatureError};
use crate::manifest::{
    collect_meta, is_collected, BinaryEntry, BuildTime, Manifest, UnitEntry, CURRENT_SCHEMA_VERSION,
};
use crate::path::{
    file_name, is_plain_name, joined, lemma_parts_of_joined, lemma_plain_name_parts, parts, FsPath,
    Part, SEPARATOR,
};
use crate::request::{lemma_signed_request_is_read, request_fault, HeaderValue};
use crate::text::{
    i64_text, lemma_encode_utf8_concat, lemma_split_at_first, parsed_i64, signed_decimal,
    split_at_first, split_text_once, without_prefix,
};

verus! {

/// Whether `pair` is what comes of metadata given as `key=value`.
pub open spec fn is_key_val(s: Seq<char>, pair: Result<(String, String), String>) -> bool {
    match pair {
        Ok(p) => split_at_first(s, '=') == Some((p.0@, p.1@)),
        Err(message) => {
            &&& split_at_first(s, '=') is None
            &&& message@ == "expected key=value, got "@ + quoted_chars(s)
        },
    }
}

/// Key and value make up what was given, with an equals sign in between and none
/// in the key, whatever the value holds. What has no equals sign is shown in the
/// error.
pub proof fn lemma_key_and_value_are_given(s: Seq<char>, pair: Result<(String, String), String>)
    requires
        is_key_val(s, pair),
    ensures
        pair is Ok ==> s == pair->Ok_0.0@ + seq!['='] + pair->Ok_0.1@ && forall|i: int|
            0 <= i < pair->Ok_0.0@.len() ==> pair->Ok_0.0@[i] != '=',
        pair is Err ==> pair->Err_0@ == "expected key=value, got "@ + quoted_chars(s) && forall|
            i: int,
        |
            0 <= i < s.len() ==> s[i] != '=',
{
    lemma_split_at_first(s, '=');
}

/// Reads metadata given as `key=value`. The value may hold more equals signs.
pub fn parse_key_val(s: &str) -> (pair: Result<(String, String), String>)
    ensures
        is_key_val(s@, pair),
{
    match split_text_once(s, '=') {
        Some((key, value)) => Ok((String::from_str(key), String::from_str(value))),
        None => Err(String::from_str("expected key=value, got ").concat(quoted(s).as_str())),
    }
}

/// The permission bits of a file's mode.
pub fn file_mode(mode: u32) -> (bits: u32)
    ensures
        bits == mode % 0o1000,
{
    assert(mode & 0o777 == mode % 0o1000) by (bit_vector);
    mode & 0o777
}

/// An entry of a directory that goes into the bundle.
#[derive(Debug)]
pub enum StagedEntry {
    /// A regular file, with its mode.
    File { name: Vec<u8>, content: Vec<u8>, mode: u32 },
    /// Anything else.
    Other,
}

/// Whether the name of an entry can go into the manifest, where it has to.
pub open spec fn is_listable(entry: StagedEntry) -> bool {
    entry is File ==> valid_utf8(entry->name@)
}

/// What goes into the manifest for a file: its path from the root of the
/// bundle, its checksum and its permission bits.
pub open spec fn listing_of(entry: StagedEntry, root_prefix: Seq<char>) -> (
    Seq<char>,
    Seq<char>,
    u32,
) {
    (
        root_prefix + "/"@ + decode_utf8(entry->name@),
        hex_text(sha256_digest(entry->content@)),
        (entry->mode % 0o1000) as u32,
    )
}

/// What goes into the manifest for the files among `entries`.
pub open spec fn listings_of(entries: Seq<StagedEntry>, root_prefix: Seq<char>) -> Seq<
    (Seq<char>, Seq<char>, u32),
>
    decreases entries.len(),
{
    if entries.len() == 0 {
        seq![]
    } else if entries.last() is File {
        listings_of(entries.drop_last(), root_prefix).push(listing_of(entries.last(), root_prefix))
    } else {
        listings_of(entries.drop_last(), root_prefix)
    }
}

/// What the hashed files of `list` are.
pub open spec fn hashed_views(list: Seq<(String, String, u32)>) -> Seq<
    (Seq<char>, Seq<char>, u32),
> {
    Seq::new(list.len(), |i: int| (list[i].0@, list[i].1@, list[i].2))
}

/// Whether `hashed` is what comes of hashing the files among `entries`.
pub open spec fn hashes_to(
    dir: Seq<u8>,
    entries: Seq<StagedEntry>,
    root_prefix: Seq<char>,
    hashed: Result<Vec<(String, String, u32)>, String>,
) -> bool {
    match hashed {
        Ok(list) => {
            &&& forall|i: int| 0 <= i < entries.len() ==> is_listable(#[trigger] entries[i])
            &&& hashed_views(list@) == listings_of(entries, root_prefix)
        },
        Err(message) => {
            &&& exists|i: int| 0 <= i < entries.len() && !is_listable(#[trigger] entries[i])
            &&& message@ == "non-utf8 file name in "@ + lossy_chars(dir)
        },
    }
}

/// Hashes the regular files of the directory `dir`, which is `root_prefix` in
/// the bundle. A name that is not in UTF-8 is an error.
pub fn hash_entries(dir: &FsPath, entries: &Vec<StagedEntry>, root_prefix: &str) -> (hashed: Result<
    Vec<(String, String, u32)>,
    String,
>)
    ensures
        hashes_to(dir@, entries@, root_prefix@, hashed),
{
    let mut list: Vec<(String, String, u32)> = Vec::new();
    let mut i: usize = 0;
    assert(hashed_views(list@) =~= listings_of(entries@.take(0), root_prefix@));
    while i < entries.len()
        invariant
            i <= entries.len(),
            forall|j: int| 0 <= j < i ==> is_listable(#[trigger] entries@[j]),
            hashed_views(list@) == listings_of(entries@.take(i as int), root_prefix@),
        decreases entries.len() - i,
    {
        let ghost before = list@;
        proof {
            assert(entries@.take(i + 1).drop_last() =~= entries@.take(i as int));
            assert(entries@.take(i + 1).last() == entries@[i as int]);
        }
        match &entries[i] {
            StagedEntry::File { name, content, mode } => {
                let hash: String = hex_encode(sha256(content.as_slice()).as_slice());
                match utf8_text(slice_to_vec(name.as_slice())) {
                    Some(text) => {
                        let path: String = String::from_str(root_prefix).concat("/").concat(
                            text.as_str(),
                        );
                        list.push((path, hash, file_mode(*mode)));
                        assert(hashed_views(list@) =~= hashed_views(before).push(
                            listing_of(entries@[i as int], root_prefix@),
                        ));
                    },
                    None => {
                        assert(!is_listable(entries@[i as int]));
                        return Err(
                            String::from_str("non-utf8 file name in ").concat(
                                lossy_text(dir.bytes.as_slice()).as_str(),
                            ),
                        );
                    },
                }
            },
            StagedEntry::Other => {},
        }
        i = i + 1;
    }
    assert(entries@.take(entries@.len() as int) =~= entries@);
    Ok(list)
}

/// Whether `binaries` list the hashed files.
pub open spec fn lists_binaries(
    binaries: Seq<BinaryEntry>,
    hashed: Seq<(String, String, u32)>,
) -> bool {
    &&& binaries.len() == hashed.len()
    &&& forall|i: int|
        0 <= i < binaries.len() ==> (#[trigger] binaries[i]).path@ == hashed[i].0@
            && binaries[i].sha256@ == hashed[i].1@ && binaries[i].mode == hashed[i].2
}

/// Whether `units` list the hashed files, under the names of the files.
pub open spec fn lists_units(units: Seq<UnitEntry>, hashed: Seq<(String, String, u32)>) -> bool {
    &&& units.len() == hashed.len()
    &&& forall|i: int|
        0 <= i < units.len() ==> (#[trigger] units[i]).name@ == unit_name_of(hashed[i].0@)
            && units[i].path@ == hashed[i].0@ && units[i].sha256@ == hashed[i].1@
}

/// Whether `binaries` is what comes of listing the hashed files, of which there
/// has to be one at least.
pub open spec fn binaries_from(
    staging_dir: Seq<u8>,
    hashed: Seq<(String, String, u32)>,
    binaries: Result<Vec<BinaryEntry>, String>,
) -> bool {
    match binaries {
        Ok(list) => hashed.len() > 0 && lists_binaries(list@, hashed),
        Err(message) => {
            &&& hashed.len() == 0
            &&& message@ == "no files found under "@ + lossy_chars(staging_dir) + "/bin"@
        },
    }
}

/// The binaries of a manifest, of which there has to be one at least.
pub fn binary_entries(staging_dir: &FsPath, hashed: &Vec<(String, String, u32)>) -> (binaries:
    Result<Vec<BinaryEntry>, String>)
    ensures
        binaries_from(staging_dir@, hashed@, binaries),
{
    if hashed.len() == 0 {
        return Err(
            String::from_str("no files found under ").concat(
                lossy_text(staging_dir.bytes.as_slice()).as_str(),
            ).concat("/bin"),
        );
    }
    let mut list: Vec<BinaryEntry> = Vec::new();
    while list.len() < hashed.len()
        invariant
            list.len() <= hashed.len(),
            forall|i: int|
                0 <= i < list@.len() ==> (#[trigger] list@[i]).path@ == hashed@[i].0@
                    && list@[i].sha256@ == hashed@[i].1@ && list@[i].mode == hashed@[i].2,
        decreases hashed.len() - list.len(),
    {
        let entry: &(String, String, u32) = &hashed[list.len()];
        list.push(BinaryEntry { path: entry.0.clone(), sha256: entry.1.clone(), mode: entry.2 });
    }
    Ok(list)
}

/// The name of the unit at `path`: the last component, or the whole where that
/// is no text.
pub open spec fn unit_name_of(path: Seq<char>) -> Seq<char> {
    match file_name(encode_utf8(path)) {
        Some(name) => if valid_utf8(name) {
            decode_utf8(name)
        } else {
            path
        },
        None => path,
    }
}

/// The units of a manifest.
pub fn unit_entries(hashed: &Vec<(String, String, u32)>) -> (units: Vec<UnitEntry>)
    ensures
        lists_units(units@, hashed@),
{
    let mut units: Vec<UnitEntry> = Vec::new();
    while units.len() < hashed.len()
        invariant
            units.len() <= hashed.len(),
            forall|i: int|
                0 <= i < units@.len() ==> (#[trigger] units@[i]).name@ == unit_name_of(
                    hashed@[i].0@,
                ) && units@[i].path@ == hashed@[i].0@ && units@[i].sha256@ == hashed@[i].1@,
        decreases hashed.len() - units.len(),
    {
        let entry: &(String, String, u32) = &hashed[units.len()];
        let name: String = match FsPath::from_text(entry.0.as_str()).file_name() {
            Some(bytes) => match utf8_text(bytes) {
                Some(text) => text,
                None => entry.0.clone(),
            },
            None => entry.0.clone(),
        };
        units.push(UnitEntry { name, path: entry.0.clone(), sha256: entry.1.clone() });
    }
    units
}

/// Whether `manifest` is that of a bundle that is being built.
pub open spec fn is_new_manifest(
    project: Seq<char>,
    git_sha: Seq<char>,
    built_at: BuildTime,
    build_meta: Seq<(String, String)>,
    binaries: Vec<BinaryEntry>,
    units: Vec<UnitEntry>,
    manifest: Manifest,
) -> bool {
    &&& manifest.schema_version == 1
    &&& manifest.project@ == project
    &&& manifest.git_sha@ == git_sha
    &&& manifest.built_at == built_at
    &&& is_collected(build_meta, manifest.build_meta@)
    &&& manifest.binaries == binaries
    &&& manifest.units == units
}

/// The manifest of a bundle that is being built.
pub fn new_manifest(
    project: &str,
    git_sha: &str,
    built_at: BuildTime,
    build_meta: &Vec<(String, String)>,
    binaries: Vec<BinaryEntry>,
    units: Vec<UnitEntry>,
) -> (manifest: Manifest)
    ensures
        is_new_manifest(project@, git_sha@, built_at, build_meta@, binaries, units, manifest),
{
    Manifest {
        schema_version: CURRENT_SCHEMA_VERSION,
        project: String::from_str(project),
        git_sha: String::from_str(git_sha),
        built_at,
        build_meta: collect_meta(build_meta),
        binaries,
        units,
    }
}

/// The headers of a request.
#[derive(Debug)]
pub struct SignedHeaders {
    pub project: String,
    pub timestamp: String,
    pub signature: String,
}

/// Whether `headers` are those that a bundle is sent with.
pub open spec fn is_signed(
    secret: Seq<u8>,
    timestamp: i64,
    project: Seq<char>,
    body: Seq<u8>,
    headers: SignedHeaders,
) -> bool {
    &&& headers.project@ == project
    &&& headers.timestamp@ == signed_decimal(timestamp as int)
    &&& headers.signature@ == "sha256="@ + hex_text(
        request_tag(secret, timestamp as int, project, body),
    )
}

/// The headers that a bundle is sent with: the project, the time in seconds
/// since the Unix epoch, and the signature behind the name of its algorithm.
pub fn sign_request(secret: &[u8], timestamp: i64, project: &str, body: &[u8]) -> (headers: Result<
    SignedHeaders,
    SignatureError,
>)
    ensures
        headers is Ok,
        is_signed(secret@, timestamp, project@, body@, headers->Ok_0),
{
    match compute_signature(secret, timestamp, project, body) {
        Ok(signature) => Ok(
            SignedHeaders {
                project: String::from_str(project),
                timestamp: i64_text(timestamp),
                signature: String::from_str("sha256=").concat(signature.as_str()),
            },
        ),
        Err(e) => Err(e),
    }
}

/// Whether a status says that the deploy was accepted.
pub open spec fn says_accepted(status: u16) -> bool {
    200 <= status < 300
}

/// Exactly the statuses of the second hundred say that a deploy was accepted.
pub proof fn lemma_accepted_is_second_hundred(status: u16)
    ensures
        says_accepted(status) <==> status / 100 == 2,
{
}

/// Whether an answer says that the deploy was accepted.
pub fn is_accepted(status: u16) -> (accepted: bool)
    ensures
        accepted == says_accepted(status),
{
    status >= 200 && status < 300
}

/// What is told of an answer with this status and this body, which may not have
/// been readable.
pub open spec fn rejection_text(status_text: Seq<char>, body: Option<Seq<char>>) -> Seq<char> {
    "deploy rejected: HTTP "@ + status_text + ": "@ + (match body {
        Some(text) => text,
        None => "<failed to read response body>"@,
    })
}

/// An answer is told with its status and all of its body, or that there was none
/// to be read.
pub proof fn lemma_rejection_is_told(status_text: Seq<char>, body: Seq<char>)
    ensures
        rejection_text(status_text, Some(body)) == "deploy rejected: HTTP "@ + status_text + ": "@
            + body,
        rejection_text(status_text, None) == "deploy rejected: HTTP "@ + status_text + ": "@
            + "<failed to read response body>"@,
{
}

/// What is told of an answer that does not say that the deploy was accepted.
/// The body may not have been readable.
pub fn rejection(status_text: &str, body: Option<&str>) -> (message: String)
    ensures
        message@ == rejection_text(
            status_text@,
            match body {
                Some(text) => Some(text@),
                None => None,
            },
        ),
{
    let body: &str = match body {
        Some(text) => text,
        None => "<failed to read response body>",
    };
    String::from_str("deploy rejected: HTTP ").concat(status_text).concat(": ").concat(body)
}

/// The certificates among the items of a PEM text.
pub open spec fn certificates_in(items: Seq<Option<Seq<u8>>>) -> Seq<Seq<u8>>
    decreases items.len(),
{
    if items.len() == 0 {
        seq![]
    } else if items.last() is Some {
        certificates_in(items.drop_last()).push(items.last()->0)
    } else {
        certificates_in(items.drop_last())
    }
}

/// The certificates that `list` holds.
pub open spec fn der_views(list: Seq<Vec<u8>>) -> Seq<Seq<u8>> {
    Seq::new(list.len(), |i: int| list[i]@)
}

/// Whether `certificates` are those to trust, out of the items of a PEM text that
/// was read from `path`.
pub open spec fn is_trust(
    path: Seq<u8>,
    items: Seq<Option<Seq<u8>>>,
    certificates: Result<Vec<Vec<u8>>, String>,
) -> bool {
    match certificates {
        Ok(list) => {
            &&& list@.len() > 0
            &&& der_views(list@) == certificates_in(items)
        },
        Err(message) => {
            &&& certificates_in(items).len() == 0
            &&& message@ == "no certificates found in "@ + lossy_chars(path) + " (expected PEM)"@
        },
    }
}

/// The certificates to trust, out of the items of a PEM text that was read
/// from `path`. There has to be one at least.
pub fn pick_certificates(path: &FsPath, items: &Vec<Option<Vec<u8>>>) -> (certificates: Result<
    Vec<Vec<u8>>,
    String,
>)
    ensures
        is_trust(path@, item_views(items@), certificates),
{
    let ghost views = item_views(items@);
    let mut list: Vec<Vec<u8>> = Vec::new();
    let mut i: usize = 0;
    assert(der_views(list@) =~= certificates_in(views.take(0)));
    while i < items.len()
        invariant
            i <= items.len(),
            views == item_views(items@),
            der_views(list@) == certificates_in(views.take(i as int)),
        decreases items.len() - i,
    {
        let ghost before = list@;
        proof {
            assert(views.take(i + 1).drop_last() =~= views.take(i as int));
            assert(views.take(i + 1).last() == views[i as int]);
        }
        match &items[i] {
            Some(der) => {
                list.push(slice_to_vec(der.as_slice()));
                assert(der_views(list@) =~= der_views(before).push(der@));
            },
            None => {},
        }
        i = i + 1;
    }
    assert(views.take(views.len() as int) =~= views);
    assert(der_views(list@).len() == list@.len());
    if list.len() == 0 {
        return Err(
            String::from_str("no certificates found in ").concat(
                lossy_text(path.bytes.as_slice()).as_str(),
            ).concat(" (expected PEM)"),
        );
    }
    Ok(list)
}

/// The certificates to trust, in the PEM text that was read from `path`.
pub fn root_certificates(path: &FsPath, pem_data: &[u8]) -> (certificates: Result<
    Vec<Vec<u8>>,
    String,
>)
    ensures
        is_trust(path@, pem_listing(pem_data@), certificates),
{
    pick_certificates(path, &pem_items(pem_data))
}

/// The contents of the files among `entries`.
pub open spec fn contents_of(entries: Seq<StagedEntry>) -> Seq<Seq<u8>>
    decreases entries.len(),
{
    if entries.len() == 0 {
        seq![]
    } else if entries.last() is File {
        contents_of(entries.drop_last()).push(entries.last()->content@)
    } else {
        contents_of(entries.drop_last())
    }
}

/// Every file that goes into a manifest is listed with the checksum of its
/// contents.
proof fn lemma_listings_have_checksums(entries: Seq<StagedEntry>, root_prefix: Seq<char>)
    ensures
        contents_of(entries).len() == listings_of(entries, root_prefix).len(),
        forall|at: int|
            0 <= at < contents_of(entries).len() ==> (#[trigger] listings_of(
                entries,
                root_prefix,
            )[at]).1 == hex_text(sha256_digest(contents_of(entries)[at])),
    decreases entries.len(),
{
    if entries.len() > 0 {
        lemma_listings_have_checksums(entries.drop_last(), root_prefix);
    }
}

/// A manifest that was made from files is accepted with them: where they arrive
/// unchanged, every checksum is right. A file that has changed is refused,
/// unless it has the digest of what was there before.
pub proof fn lemma_built_manifest_verifies(
    bin: Seq<StagedEntry>,
    bin_prefix: Seq<char>,
    bin_hashed: Seq<(String, String, u32)>,
    systemd: Seq<StagedEntry>,
    systemd_prefix: Seq<char>,
    systemd_hashed: Seq<(String, String, u32)>,
    manifest: Manifest,
)
    requires
        hashed_views(bin_hashed) == listings_of(bin, bin_prefix),
        hashed_views(systemd_hashed) == listings_of(systemd, systemd_prefix),
        lists_binaries(manifest.binaries@, bin_hashed),
        lists_units(manifest.units@, systemd_hashed),
    ensures
        ({
            let contents = contents_of(bin) + contents_of(systemd);
            &&& contents.len() == listed_count(manifest)
            &&& forall|at: int|
                0 <= at < contents.len() ==> file_matches(manifest, at, #[trigger] contents[at])
            &&& forall|at: int, other: Seq<u8>|
                0 <= at < contents.len() ==> (#[trigger] file_matches(manifest, at, other) == (
                sha256_digest(other) == sha256_digest(contents[at])))
        }),
{
    let contents = contents_of(bin) + contents_of(systemd);
    lemma_listings_have_checksums(bin, bin_prefix);
    lemma_listings_have_checksums(systemd, systemd_prefix);
    assert(hashed_views(bin_hashed).len() == bin_hashed.len());
    assert(hashed_views(systemd_hashed).len() == systemd_hashed.len());
    let n = manifest.binaries@.len();
    assert forall|at: int, other: Seq<u8>| 0 <= at < contents.len() implies #[trigger] file_matches(
        manifest,
        at,
        other,
    ) == (sha256_digest(other) == sha256_digest(contents[at])) by {
        let digest = sha256_digest(contents[at]);
        if at < n {
            assert(hashed_views(bin_hashed)[at] == listings_of(bin, bin_prefix)[at]);
            assert(manifest.binaries@[at].sha256@ == hex_text(digest));
        } else {
            let k = at - n;
            assert(contents[at] == contents_of(systemd)[k]);
            assert(hashed_views(systemd_hashed)[k] == listings_of(systemd, systemd_prefix)[k]);
            assert(manifest.units@[k].sha256@ == hex_text(digest));
        }
        lemma_hex_reads_back(digest);
    }
}

/// A unit is listed under the name of its file.
pub proof fn lemma_unit_has_file_name(prefix: Seq<char>, name: Seq<char>)
    requires
        is_plain_name(encode_utf8(prefix)),
        is_plain_name(encode_utf8(name)),
    ensures
        unit_name_of(prefix + "/"@ + name) == name,
{
    let path = prefix + "/"@ + name;
    reveal_strlit("/");
    lemma_encode_utf8_concat(prefix + "/"@, name);
    lemma_encode_utf8_concat(prefix, "/"@);
    is_ascii_chars_encode_utf8("/"@);
    assert(encode_utf8("/"@) =~= seq![SEPARATOR]);
    let base = encode_utf8(prefix);
    let last = encode_utf8(name);
    assert(base.last() == base[base.len() - 1]);
    assert(encode_utf8(path) =~= joined(base, last));
    lemma_plain_name_parts(base);
    lemma_plain_name_parts(last);
    lemma_parts_of_joined(base, last);
    assert(parts(encode_utf8(path)).last() == Part::Name(last));
    encode_utf8_valid_utf8(name);
    encode_utf8_decode_utf8(name);
}

/// The indices of the files among `entries`, and what is listed for them.
proof fn lemma_listings_pick_files(entries: Seq<StagedEntry>, root_prefix: Seq<char>) -> (at: Seq<
    int,
>)
    ensures
        at.len() == listings_of(entries, root_prefix).len(),
        forall|k: int, l: int| 0 <= k < l < at.len() ==> #[trigger] at[k] < #[trigger] at[l],
        forall|k: int|
            0 <= k < at.len() ==> 0 <= #[trigger] at[k] < entries.len() && entries[at[k]] is File
                && listings_of(entries, root_prefix)[k] == listing_of(entries[at[k]], root_prefix),
        forall|j: int|
            0 <= j < entries.len() && (#[trigger] entries[j]) is File ==> exists|k: int|
                0 <= k < at.len() && #[trigger] at[k] == j,
    decreases entries.len(),
{
    if entries.len() == 0 {
        Seq::empty()
    } else {
        let before = entries.drop_last();
        let last = entries.len() - 1;
        let earlier = lemma_listings_pick_files(before, root_prefix);
        let at = if entries.last() is File {
            earlier.push(last)
        } else {
            earlier
        };
        assert forall|k: int| 0 <= k < at.len() implies 0 <= #[trigger] at[k] < entries.len()
            && entries[at[k]] is File && listings_of(entries, root_prefix)[k] == listing_of(
            entries[at[k]],
            root_prefix,
        ) by {
            if k < earlier.len() {
                assert(at[k] == earlier[k]);
                assert(before[earlier[k]] == entries[earlier[k]]);
            }
        }
        assert forall|j: int| 0 <= j < entries.len() && (#[trigger] entries[j]) is File implies
            exists|k: int| 0 <= k < at.len() && #[trigger] at[k] == j by {
            if j < last {
                assert(before[j] == entries[j]);
                let k = choose|k: int| 0 <= k < earlier.len() && #[trigger] earlier[k] == j;
                assert(at[k] == j);
            } else {
                assert(at[at.len() - 1] == j);
            }
        }
        assert forall|k: int, l: int| 0 <= k < l < at.len() implies #[trigger] at[k]
            < #[trigger] at[l] by {
            assert(at[k] == earlier[k]);
            if l < earlier.len() {
                assert(at[l] == earlier[l]);
            }
        }
        at
    }
}

/// The regular files among the staged entries are hashed, each of them and in
/// their order: its path is made of the prefix and its own name, its checksum is
/// that of its own contents, and its mode is its own, down to the permission
/// bits. Which entry each comes from is given.
pub proof fn lemma_every_file_is_hashed(
    dir: Seq<u8>,
    entries: Seq<StagedEntry>,
    root_prefix: Seq<char>,
    hashed: Result<Vec<(String, String, u32)>, String>,
) -> (at: Seq<int>)
    requires
        hashes_to(dir, entries, root_prefix, hashed),
    ensures
        hashed is Ok <==> forall|j: int|
            0 <= j < entries.len() && (#[trigger] entries[j]) is File ==> valid_utf8(
                entries[j]->name@,
            ),
        hashed is Err ==> hashed->Err_0@ == "non-utf8 file name in "@ + lossy_chars(dir),
        hashed is Ok ==> {
            let list = hashed->Ok_0@;
            &&& at.len() == list.len()
            &&& forall|k: int, l: int| 0 <= k < l < at.len() ==> #[trigger] at[k] < #[trigger] at[l]
            &&& forall|k: int|
                0 <= k < at.len() ==> {
                    let entry = entries[#[trigger] at[k]];
                    &&& 0 <= at[k] < entries.len()
                    &&& entry is File
                    &&& list[k].0@ == root_prefix + "/"@ + decode_utf8(entry->name@)
                    &&& list[k].1@ == hex_text(sha256_digest(entry->content@))
                    &&& list[k].2 == entry->mode % 0o1000
                }
            &&& forall|j: int|
                0 <= j < entries.len() && (#[trigger] entries[j]) is File ==> exists|k: int|
                    0 <= k < at.len() && #[trigger] at[k] == j
        },
{
    let at = lemma_listings_pick_files(entries, root_prefix);
    if hashed is Ok {
        let list = hashed->Ok_0@;
        assert(hashed_views(list).len() == list.len());
        assert forall|k: int| 0 <= k < at.len() implies {
            let entry = entries[#[trigger] at[k]];
            &&& 0 <= at[k] < entries.len()
            &&& entry is File
            &&& list[k].0@ == root_prefix + "/"@ + decode_utf8(entry->name@)
            &&& list[k].1@ == hex_text(sha256_digest(entry->content@))
            &&& list[k].2 == entry->mode % 0o1000
        } by {
            assert(hashed_views(list)[k] == listings_of(entries, root_prefix)[k]);
        }
        assert forall|j: int| 0 <= j < entries.len() && (#[trigger] entries[j]) is File implies
            valid_utf8(entries[j]->name@) by {
            assert(is_listable(entries[j]));
        }
    } else {
        let i = choose|i: int| 0 <= i < entries.len() && !is_listable(#[trigger] entries[i]);
        assert(entries[i] is File && !valid_utf8(entries[i]->name@));
    }
    at
}

/// The manifest lists a binary for every regular file that was staged, and none
/// else: for the file at `j`, one at the prefix and the name of that very file,
/// with the checksum of that file's contents and its permission bits. Paths,
/// checksums and modes go together, index by index, in the order of the files.
/// Without a file there is no manifest.
pub proof fn lemma_every_binary_is_listed(
    dir: Seq<u8>,
    staging_dir: Seq<u8>,
    entries: Seq<StagedEntry>,
    root_prefix: Seq<char>,
    hashed: Vec<(String, String, u32)>,
    binaries: Result<Vec<BinaryEntry>, String>,
    j: int,
) -> (at: Seq<int>)
    requires
        hashes_to(dir, entries, root_prefix, Ok(hashed)),
        binaries_from(staging_dir, hashed@, binaries),
    ensures
        binaries is Err <==> forall|i: int|
            0 <= i < entries.len() ==> !((#[trigger] entries[i]) is File),
        binaries is Err ==> binaries->Err_0@ == "no files found under "@ + lossy_chars(staging_dir)
            + "/bin"@,
        binaries is Ok ==> {
            let list = binaries->Ok_0@;
            &&& at.len() == list.len()
            &&& forall|k: int, l: int| 0 <= k < l < at.len() ==> #[trigger] at[k] < #[trigger] at[l]
            &&& forall|k: int|
                0 <= k < list.len() ==> {
                    let entry = entries[at[k]];
                    &&& 0 <= at[k] < entries.len()
                    &&& entry is File
                    &&& (#[trigger] list[k]).path@ == root_prefix + "/"@ + decode_utf8(entry->name@)
                    &&& list[k].sha256@ == hex_text(sha256_digest(entry->content@))
                    &&& list[k].mode == entry->mode % 0o1000
                }
            &&& 0 <= j < entries.len() && entries[j] is File ==> exists|k: int|
                {
                    &&& 0 <= k < list.len()
                    &&& at[k] == j
                    &&& (#[trigger] list[k]).path@ == root_prefix + "/"@ + decode_utf8(
                        entries[j]->name@,
                    )
                    &&& list[k].sha256@ == hex_text(sha256_digest(entries[j]->content@))
                    &&& list[k].mode == entries[j]->mode % 0o1000
                }
        },
{
    let at = lemma_every_file_is_hashed(
        dir,
        entries,
        root_prefix,
        Ok::<Vec<(String, String, u32)>, String>(hashed),
    );
    if binaries is Ok {
        let list = binaries->Ok_0@;
        assert(0 <= at[0] < entries.len() && entries[at[0]] is File);
        assert forall|k: int| 0 <= k < list.len() implies {
            let entry = entries[at[k]];
            &&& 0 <= at[k] < entries.len()
            &&& entry is File
            &&& (#[trigger] list[k]).path@ == root_prefix + "/"@ + decode_utf8(entry->name@)
            &&& list[k].sha256@ == hex_text(sha256_digest(entry->content@))
            &&& list[k].mode == entry->mode % 0o1000
        } by {
            assert(0 <= at[k] < entries.len());
        }
        if 0 <= j < entries.len() && entries[j] is File {
            let k = choose|k: int| 0 <= k < at.len() && #[trigger] at[k] == j;
            assert(list[k].path@ == root_prefix + "/"@ + decode_utf8(entries[j]->name@));
        }
    } else {
        assert forall|i: int| 0 <= i < entries.len() implies !((#[trigger] entries[i]) is File) by {
            if entries[i] is File {
                let k = choose|k: int| 0 <= k < at.len() && #[trigger] at[k] == i;
                assert(false);
            }
        }
    }
    at
}

/// The manifest lists a unit for every unit file that was staged, and none
/// else: for the file at `j`, one at the prefix and the name of that very file,
/// with the checksum of that file's contents, under the name of the file where
/// prefix and name are plain.
pub proof fn lemma_every_unit_is_listed(
    dir: Seq<u8>,
    entries: Seq<StagedEntry>,
    root_prefix: Seq<char>,
    hashed: Vec<(String, String, u32)>,
    units: Seq<UnitEntry>,
    j: int,
) -> (at: Seq<int>)
    requires
        hashes_to(dir, entries, root_prefix, Ok(hashed)),
        lists_units(units, hashed@),
    ensures
        at.len() == units.len(),
        forall|k: int, l: int| 0 <= k < l < at.len() ==> #[trigger] at[k] < #[trigger] at[l],
        forall|k: int|
            0 <= k < units.len() ==> {
                let entry = entries[at[k]];
                &&& 0 <= at[k] < entries.len()
                &&& entry is File
                &&& (#[trigger] units[k]).path@ == root_prefix + "/"@ + decode_utf8(entry->name@)
                &&& units[k].sha256@ == hex_text(sha256_digest(entry->content@))
                &&& is_plain_name(encode_utf8(root_prefix)) && is_plain_name(entry->name@)
                    ==> units[k].name@ == decode_utf8(entry->name@)
            },
        0 <= j < entries.len() && entries[j] is File ==> exists|k: int|
            {
                &&& 0 <= k < units.len()
                &&& at[k] == j
                &&& (#[trigger] units[k]).path@ == root_prefix + "/"@ + decode_utf8(
                    entries[j]->name@,
                )
                &&& units[k].sha256@ == hex_text(sha256_digest(entries[j]->content@))
            },
{
    let at = lemma_every_file_is_hashed(
        dir,
        entries,
        root_prefix,
        Ok::<Vec<(String, String, u32)>, String>(hashed),
    );
    assert forall|k: int| 0 <= k < units.len() implies {
        let entry = entries[at[k]];
        &&& 0 <= at[k] < entries.len()
        &&& entry is File
        &&& (#[trigger] units[k]).path@ == root_prefix + "/"@ + decode_utf8(entry->name@)
        &&& units[k].sha256@ == hex_text(sha256_digest(entry->content@))
        &&& is_plain_name(encode_utf8(root_prefix)) && is_plain_name(entry->name@)
            ==> units[k].name@ == decode_utf8(entry->name@)
    } by {
        assert(0 <= at[k] < entries.len());
        let entry = entries[at[k]];
        assert(entry is File && valid_utf8(entry->name@));
        if is_plain_name(encode_utf8(root_prefix)) && is_plain_name(entry->name@) {
            decode_utf8_encode_utf8(entry->name@);
            lemma_unit_has_file_name(root_prefix, decode_utf8(entry->name@));
        }
    }
    if 0 <= j < entries.len() && entries[j] is File {
        let k = choose|k: int| 0 <= k < at.len() && #[trigger] at[k] == j;
        assert(units[k].path@ == root_prefix + "/"@ + decode_utf8(entries[j]->name@));
    }
    at
}

/// A unit is listed under the last component of its path, where that is a name
/// and a text, and under its whole path otherwise.
pub proof fn lemma_unit_is_named_by_its_path(
    units: Seq<UnitEntry>,
    hashed: Seq<(String, String, u32)>,
    k: int,
    name: Seq<u8>,
)
    requires
        lists_units(units, hashed),
        0 <= k < units.len(),
    ensures
        units.len() == hashed.len(),
        units[k].path@ == hashed[k].0@,
        units[k].sha256@ == hashed[k].1@,
        ({
            let list = parts(encode_utf8(units[k].path@));
            let is_named = list.len() > 0 && list[list.len() - 1] == Part::Name(name);
            &&& is_named && valid_utf8(name) ==> units[k].name@ == decode_utf8(name)
            &&& is_named && !valid_utf8(name) ==> units[k].name@ == units[k].path@
            &&& list.len() == 0 || !(list[list.len() - 1] is Name) ==> units[k].name@
                == units[k].path@
        }),
{
}

/// The indices of the certificates among the items.
proof fn lemma_certificates_picked(items: Seq<Option<Seq<u8>>>) -> (at: Seq<int>)
    ensures
        at.len() == certificates_in(items).len(),
        forall|k: int, l: int| 0 <= k < l < at.len() ==> #[trigger] at[k] < #[trigger] at[l],
        forall|k: int|
            0 <= k < at.len() ==> 0 <= #[trigger] at[k] < items.len() && items[at[k]] == Some(
                certificates_in(items)[k],
            ),
        forall|j: int|
            0 <= j < items.len() && (#[trigger] items[j]) is Some ==> exists|k: int|
                0 <= k < at.len() && #[trigger] at[k] == j,
    decreases items.len(),
{
    if items.len() == 0 {
        Seq::empty()
    } else {
        let before = items.drop_last();
        let last = items.len() - 1;
        let earlier = lemma_certificates_picked(before);
        let at = if items.last() is Some {
            earlier.push(last)
        } else {
            earlier
        };
        assert forall|k: int| 0 <= k < at.len() implies 0 <= #[trigger] at[k] < items.len()
            && items[at[k]] == Some(certificates_in(items)[k]) by {
            if k < earlier.len() {
                assert(at[k] == earlier[k]);
                assert(before[earlier[k]] == items[earlier[k]]);
            }
        }
        assert forall|j: int| 0 <= j < items.len() && (#[trigger] items[j]) is Some implies
            exists|k: int| 0 <= k < at.len() && #[trigger] at[k] == j by {
            if j < last {
                assert(before[j] == items[j]);
                let k = choose|k: int| 0 <= k < earlier.len() && #[trigger] earlier[k] == j;
                assert(at[k] == j);
            } else {
                assert(at[at.len() - 1] == j);
            }
        }
        assert forall|k: int, l: int| 0 <= k < l < at.len() implies #[trigger] at[k]
            < #[trigger] at[l] by {
            assert(at[k] == earlier[k]);
            if l < earlier.len() {
                assert(at[l] == earlier[l]);
            }
        }
        at
    }
}

/// The certificates to trust are those among the items, each of them and in
/// their order, and it is an error where there is none. Which item each comes
/// from is given.
pub proof fn lemma_every_certificate_is_trusted(
    path: Seq<u8>,
    items: Seq<Option<Seq<u8>>>,
    certificates: Result<Vec<Vec<u8>>, String>,
) -> (at: Seq<int>)
    requires
        is_trust(path, items, certificates),
    ensures
        certificates is Err <==> forall|j: int|
            0 <= j < items.len() ==> (#[trigger] items[j]) is None,
        certificates is Err ==> certificates->Err_0@ == "no certificates found in "@ + lossy_chars(
            path,
        ) + " (expected PEM)"@,
        certificates is Ok ==> {
            let list = certificates->Ok_0@;
            &&& at.len() == list.len()
            &&& forall|k: int, l: int| 0 <= k < l < at.len() ==> #[trigger] at[k] < #[trigger] at[l]
            &&& forall|k: int|
                0 <= k < at.len() ==> 0 <= #[trigger] at[k] < items.len() && items[at[k]] == Some(
                    list[k]@,
                )
            &&& forall|j: int|
                0 <= j < items.len() && (#[trigger] items[j]) is Some ==> exists|k: int|
                    0 <= k < at.len() && #[trigger] at[k] == j
        },
{
    let at = lemma_certificates_picked(items);
    if certificates is Ok {
        let list = certificates->Ok_0@;
        assert(der_views(list).len() == list.len());
        assert forall|k: int| 0 <= k < at.len() implies 0 <= #[trigger] at[k] < items.len()
            && items[at[k]] == Some(list[k]@) by {
            assert(der_views(list)[k] == list[k]@);
        }
        assert(items[at[0]] is Some);
    } else {
        assert forall|j: int| 0 <= j < items.len() implies (#[trigger] items[j]) is None by {
            if items[j] is Some {
                let k = choose|k: int| 0 <= k < at.len() && #[trigger] at[k] == j;
                assert(false);
            }
        }
    }
    at
}

/// What is sent is accepted where it arrives: the headers that a request is
/// signed with are read as project and timestamp, and their signature is that
/// of the request.
pub proof fn lemma_sent_request_is_accepted(
    headers: SignedHeaders,
    secret: Seq<u8>,
    timestamp: i64,
    body: Seq<u8>,
)
    requires
        headers.timestamp@ == signed_decimal(timestamp as int),
        headers.signature@ == "sha256="@ + hex_text(
            request_tag(secret, timestamp as int, headers.project@, body),
        ),
    ensures
        request_fault(
            HeaderValue::Text(headers.project),
            HeaderValue::Text(headers.timestamp),
            HeaderValue::Text(headers.signature),
        ) is None,
        parsed_i64(headers.timestamp@) == Some(timestamp as int),
        without_prefix(headers.signature@, "sha256="@) is Some,
        is_signature(
            secret,
            timestamp as int,
            headers.project@,
            body,
            without_prefix(headers.signature@, "sha256="@)->0,
        ),
{
    lemma_signed_request_is_read(
        HeaderValue::Text(headers.project),
        HeaderValue::Text(headers.timestamp),
        HeaderValue::Text(headers.signature),
        secret,
        timestamp,
        body,
    );
}

} // verus!
