//! The calls into other crates that the deploy logic rests on.

use hmac::{KeyInit, Mac};
use sha2::Digest;
use vstd::prelude::*;
use vstd::utf8::*;

use crate::archive::has_sane_sizes;
use crate::bundle::{entry_views, ArchiveEntry};
use crate::hexadecimal::{hex_bytes, hex_text};
use crate::manifest::{fields_text, BuildTime, TIMESTAMP_FORMAT};

verus! {

/// The error of `hex::decode`.
#[verifier::external_type_specification]
#[verifier::external_body]
pub struct ExFromHexError(hex::FromHexError);

/// The error of `hmac::KeyInit::new_from_slice`.
#[verifier::external_type_specification]
#[verifier::external_body]
pub struct ExInvalidLength(hmac::digest::InvalidLength);

/// The error of the compression and archive readers.
#[verifier::external_type_specification]
#[verifier::external_body]
pub struct ExIoError(std::io::Error);

/// The SHA-256 digest of `data`.
pub uninterp spec fn sha256_digest(data: Seq<u8>) -> Seq<u8>;

/// The HMAC-SHA256 tag of `message` under `key`.
pub uninterp spec fn hmac_sha256(key: Seq<u8>, message: Seq<u8>) -> Seq<u8>;

/// The zstd frame that `data` is compressed to at `level`.
pub uninterp spec fn zstd_encoded(data: Seq<u8>, level: int) -> Seq<u8>;

/// What the zstd frames in `data` decompress to: `None` where `data` is not
/// in the zstd frame format.
pub uninterp spec fn zstd_decoded(data: Seq<u8>) -> Option<Seq<u8>>;

/// The entries of the tar archive in `data`, each as its path and whether it
/// is a symbolic link and a hard link, up to the first that cannot be read;
/// and whether all of them could be.
pub uninterp spec fn tar_listing(data: Seq<u8>) -> (Seq<(Seq<u8>, bool, bool)>, bool);

/// The text shown for `bytes`, whether or not they are valid UTF-8.
pub uninterp spec fn lossy_chars(bytes: Seq<u8>) -> Seq<char>;

/// `sha2::Sha256::digest`. The digest is a function of the data alone, named
/// [`sha256_digest`], and is 32 bytes long.
#[verifier::external_body]
pub(crate) fn sha256(data: &[u8]) -> (digest: Vec<u8>)
    ensures
        digest@ == sha256_digest(data@),
        digest@.len() == 32,
{
    sha2::Sha256::digest(data).to_vec()
}

/// `hmac::Mac` over SHA-256: key, one update, finalize. A key of any length is
/// accepted, so the call succeeds; the tag is a function of key and message,
/// named [`hmac_sha256`], and is 32 bytes long.
#[verifier::external_body]
pub(crate) fn hmac_tag(key: &[u8], message: &[u8]) -> (tag: Result<
    Vec<u8>,
    hmac::digest::InvalidLength,
>)
    ensures
        tag is Ok,
        tag->Ok_0@ == hmac_sha256(key@, message@),
        tag->Ok_0@.len() == 32,
{
    let mut mac = hmac::Hmac::<sha2::Sha256>::new_from_slice(key)?;
    mac.update(message);
    Ok(mac.finalize().into_bytes().to_vec())
}

/// `hmac::Mac::verify_slice` over SHA-256: key, one update, comparison in
/// constant time. A key of any length is accepted; the answer says whether
/// `tag` is the whole tag of the message under the key.
#[verifier::external_body]
pub(crate) fn hmac_matches(key: &[u8], message: &[u8], tag: &[u8]) -> (answer: Result<
    bool,
    hmac::digest::InvalidLength,
>)
    ensures
        answer is Ok,
        answer->Ok_0 == (tag@ == hmac_sha256(key@, message@)),
{
    let mut mac = hmac::Hmac::<sha2::Sha256>::new_from_slice(key)?;
    mac.update(message);
    Ok(mac.verify_slice(tag).is_ok())
}

/// `hex::encode`: two lower-case digits for each byte.
#[verifier::external_body]
pub(crate) fn hex_encode(data: &[u8]) -> (text: String)
    ensures
        text@ == hex_text(data@),
{
    hex::encode(data)
}

/// `hex::decode`: reads digits of either case, and fails where the length is
/// odd or a character is no digit.
#[verifier::external_body]
pub(crate) fn hex_decode(text: &str) -> (data: Result<Vec<u8>, hex::FromHexError>)
    ensures
        match data {
            Ok(d) => hex_bytes(text@) == Some(d@),
            Err(_) => hex_bytes(text@) is None,
        },
{
    hex::decode(text)
}

/// `zstd::stream::encode_all` into memory, which fails for want of memory only.
/// The frame is a function of data and level, named [`zstd_encoded`], and
/// decompresses to the data.
#[verifier::external_body]
pub(crate) fn zstd_encode(data: &[u8], level: i32) -> (frame: Result<Vec<u8>, std::io::Error>)
    requires
        1 <= level <= 19,
    ensures
        frame is Ok,
        frame->Ok_0@ == zstd_encoded(data@, level as int),
        zstd_decoded(frame->Ok_0@) == Some(data@),
{
    zstd::stream::encode_all(data, level)
}

/// `zstd::stream::decode_all`. The outcome is a function of the data, named
/// [`zstd_decoded`]; it is an error where the data is not in the frame format.
#[verifier::external_body]
pub(crate) fn zstd_decode(data: &[u8]) -> (content: Result<Vec<u8>, std::io::Error>)
    ensures
        match content {
            Ok(c) => zstd_decoded(data@) == Some(c@),
            Err(_) => zstd_decoded(data@) is None,
        },
{
    zstd::stream::decode_all(data)
}

/// `tar::Archive::entries`, read to its end or to its first error. What is
/// read is a function of the archive's bytes, named [`tar_listing`]. Left out
/// are archives in which the reader comes to the header of a sparse file with an
/// impossible size, whose further blocks it counts without looking whether the
/// count runs over.
#[verifier::external_body]
pub(crate) fn tar_list(data: &[u8]) -> (listing: (Vec<ArchiveEntry>, Option<std::io::Error>))
    requires
        has_sane_sizes(data@),
    ensures
        tar_listing(data@) == (entry_views(listing.0@), listing.1 is None),
{
    let mut entries: Vec<ArchiveEntry> = Vec::new();
    let mut archive = tar::Archive::new(data);
    let items = match archive.entries() {
        Ok(items) => items,
        Err(e) => return (entries, Some(e)),
    };
    for item in items {
        let entry = match item {
            Ok(entry) => entry,
            Err(e) => return (entries, Some(e)),
        };
        let (path, kind) = (entry.path_bytes().to_vec(), entry.header().entry_type());
        entries.push(ArchiveEntry { path, is_symlink: kind.is_symlink(), is_hard_link: kind.is_hard_link() });
    }
    (entries, None)
}

/// `time::OffsetDateTime::format` with the description [`TIMESTAMP_FORMAT`], of
/// a time in UTC: the calendar fields, each with leading zeros, and a minus
/// sign in front of a negative year.
#[verifier::external_body]
pub(crate) fn format_calendar(t: &BuildTime, description: &str) -> (text: String)
    requires
        t.on_calendar(),
        t.offset_seconds == 0,
        description@ == TIMESTAMP_FORMAT@,
    ensures
        text@ == fields_text(*t),
{
    let month = time::Month::try_from(t.month).expect("the month exists");
    let date = time::Date::from_calendar_date(t.year, month, t.day).expect("the date exists");
    let clock = time::Time::from_hms(t.hour, t.minute, t.second).expect("the time exists");
    let format = time::format_description::parse_borrowed::<3>(description).expect("valid format");
    let built_at = time::PrimitiveDateTime::new(date, clock).assume_utc();
    built_at.format(&format).expect("every field is present")
}

/// `rand::fill`: overwrites the buffer with random bytes. Nothing is said of
/// the bytes.
#[verifier::external_body]
pub(crate) fn random_fill(buffer: &mut Vec<u8>)
    ensures
        final(buffer)@.len() == old(buffer)@.len(),
{
    rand::fill(buffer.as_mut_slice());
}

/// `String::from_utf8_lossy`. The text is a function of the bytes, named
/// [`lossy_chars`], and is what they encode where they are valid UTF-8.
#[verifier::external_body]
pub(crate) fn lossy_text(bytes: &[u8]) -> (text: String)
    ensures
        text@ == lossy_chars(bytes@),
        valid_utf8(bytes@) ==> text@ == decode_utf8(bytes@),
{
    String::from_utf8_lossy(bytes).into_owned()
}

/// `String::from_utf8`: the text that the bytes encode, where they are valid
/// UTF-8.
#[verifier::external_body]
pub(crate) fn utf8_text(bytes: Vec<u8>) -> (text: Option<String>)
    ensures
        match text {
            Some(t) => valid_utf8(bytes@) && t@ == decode_utf8(bytes@),
            None => !valid_utf8(bytes@),
        },
{
    String::from_utf8(bytes).ok()
}

/// The items of the PEM text in `data`: the DER bytes of a certificate, or
/// `None` where an item is a private key or cannot be read.
pub uninterp spec fn pem_listing(data: Seq<u8>) -> Seq<Option<Seq<u8>>>;

/// `text` in quotes, with the characters escaped that cannot be shown.
pub uninterp spec fn quoted_chars(text: Seq<char>) -> Seq<char>;

/// The items of `list`.
pub open spec fn item_views(list: Seq<Option<Vec<u8>>>) -> Seq<Option<Seq<u8>>> {
    Seq::new(
        list.len(),
        |i: int|
            match list[i] {
                Some(der) => Some(der@),
                None => None,
            },
    )
}

/// `ureq::tls::parse_pem`, read to its end. What is read is a function of the
/// text, named [`pem_listing`].
#[verifier::external_body]
pub(crate) fn pem_items(data: &[u8]) -> (items: Vec<Option<Vec<u8>>>)
    ensures
        item_views(items@) == pem_listing(data@),
{
    let mut items: Vec<Option<Vec<u8>>> = Vec::new();
    for item in ureq::tls::parse_pem(data) {
        items.push(match item {
            Ok(ureq::tls::PemItem::Certificate(certificate)) => Some(certificate.der().to_vec()),
            Ok(_) => None,
            Err(_) => None,
        });
    }
    items
}

/// `Debug` for `str`. The text is a function of its argument, named
/// [`quoted_chars`].
#[verifier::external_body]
pub(crate) fn quoted(text: &str) -> (shown: String)
    ensures
        shown@ == quoted_chars(text@),
{
    format!("{text:?}")
}

} // verus!
