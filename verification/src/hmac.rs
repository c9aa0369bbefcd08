//! The signature that proves where a bundle came from.

use vstd::prelude::*;
use vstd::string::*;
use vstd::utf8::*;

use crate::external::{
    hex_decode, hex_encode, hmac_matches, hmac_sha256, hmac_tag, sha256, sha256_digest,
};
use crate::hexadecimal::{hex_bytes, hex_text, lemma_hex_reads_back, lemma_hex_text_injective};
use crate::text::{i64_text, lemma_decimal_reads_back, lemma_i64_text_reads_back, signed_decimal};

verus! {

/// Why a signature could not be made or is not accepted.
#[derive(Debug, Clone, Copy, PartialEq, Eq, Structural)]
pub enum SignatureError {
    /// The secret cannot be used as a key.
    InvalidKeyLength,
    /// The signature is not in hexadecimal.
    NotHex,
    /// The signature is not that of the request.
    Mismatch,
}

impl SignatureError {
    /// What is told to whoever sent the signature.
    pub open spec fn text(&self) -> Seq<char> {
        match self {
            SignatureError::InvalidKeyLength => "Invalid Length"@,
            SignatureError::NotHex => "signature is not valid hex"@,
            SignatureError::Mismatch => "signature verification failed"@,
        }
    }

    /// Tells what is wrong with the signature.
    pub fn message(&self) -> (message: String)
        ensures
            message@ == self.text(),
    {
        match self {
            SignatureError::InvalidKeyLength => String::from_str("Invalid Length"),
            SignatureError::NotHex => String::from_str("signature is not valid hex"),
            SignatureError::Mismatch => String::from_str("signature verification failed"),
        }
    }
}

/// The text that is signed: timestamp, project and the digest of the body, a
/// line each.
pub open spec fn signing_text(timestamp: int, project: Seq<char>, digest: Seq<u8>) -> Seq<char> {
    signed_decimal(timestamp) + seq!['\n'] + project + seq!['\n'] + hex_text(digest)
}

/// The tag that signs a request.
pub open spec fn request_tag(
    secret: Seq<u8>,
    timestamp: int,
    project: Seq<char>,
    body: Seq<u8>,
) -> Seq<u8> {
    hmac_sha256(secret, encode_utf8(signing_text(timestamp, project, sha256_digest(body))))
}

/// Whether `signature_hex` signs a request.
pub open spec fn is_signature(
    secret: Seq<u8>,
    timestamp: int,
    project: Seq<char>,
    body: Seq<u8>,
    signature_hex: Seq<char>,
) -> bool {
    hex_bytes(signature_hex) == Some(request_tag(secret, timestamp, project, body))
}

/// Lays out the text that is signed, for a body with this digest.
pub fn signing_layout(timestamp: i64, project: &str, digest: &[u8]) -> (text: String)
    ensures
        text@ == signing_text(timestamp as int, project@, digest@),
{
    let body_hash: String = hex_encode(digest);
    let mut text: String = i64_text(timestamp);
    proof {
        reveal_strlit("\n");
    }
    text.append("\n");
    text.append(project);
    text.append("\n");
    text.append(body_hash.as_str());
    assert("\n"@ =~= seq!['\n']);
    text
}

/// Lays out the text that is signed.
pub fn signing_string(timestamp: i64, project: &str, body: &[u8]) -> (text: String)
    ensures
        text@ == signing_text(timestamp as int, project@, sha256_digest(body@)),
        sha256_digest(body@).len() == 32,
{
    signing_layout(timestamp, project, sha256(body).as_slice())
}

/// Signs a request with the project's secret, in hexadecimal.
pub fn compute_signature(secret: &[u8], timestamp: i64, project: &str, body: &[u8]) -> (signature:
    Result<String, SignatureError>)
    ensures
        signature is Ok,
        signature->Ok_0@ == hex_text(request_tag(secret@, timestamp as int, project@, body@)),
        signature->Ok_0@.len() == 64,
{
    let message: String = signing_string(timestamp, project, body);
    match hmac_tag(secret, message.as_str().as_bytes()) {
        Ok(tag) => Ok(hex_encode(tag.as_slice())),
        Err(_) => Err(SignatureError::InvalidKeyLength),
    }
}

/// Checks a signature in hexadecimal, without the prefix that the header has,
/// in constant time.
pub fn verify_signature(
    secret: &[u8],
    timestamp: i64,
    project: &str,
    body: &[u8],
    provided_signature_hex: &str,
) -> (verdict: Result<(), SignatureError>)
    ensures
        match verdict {
            Ok(_) => is_signature(
                secret@,
                timestamp as int,
                project@,
                body@,
                provided_signature_hex@,
            ),
            Err(e) => {
                &&& !is_signature(
                    secret@,
                    timestamp as int,
                    project@,
                    body@,
                    provided_signature_hex@,
                )
                &&& e == (if hex_bytes(provided_signature_hex@) is None {
                    SignatureError::NotHex
                } else {
                    SignatureError::Mismatch
                })
            },
        },
{
    let message: String = signing_string(timestamp, project, body);
    let provided: Vec<u8> = match hex_decode(provided_signature_hex) {
        Ok(bytes) => bytes,
        Err(_) => {
            return Err(SignatureError::NotHex);
        },
    };
    match hmac_matches(secret, message.as_str().as_bytes(), provided.as_slice()) {
        Ok(true) => Ok(()),
        Ok(false) => Err(SignatureError::Mismatch),
        Err(_) => Err(SignatureError::InvalidKeyLength),
    }
}

/// What is signed is three lines: the timestamp in decimal, the project as it
/// is, and the digest of the body in hexadecimal, with line breaks between them
/// and none behind. The tag is that of these lines under the whole secret, and a
/// signature is accepted exactly where it is that tag in hexadecimal, in digits
/// of either case.
pub proof fn lemma_signature_is_the_tag(
    secret: Seq<u8>,
    timestamp: int,
    project: Seq<char>,
    body: Seq<u8>,
    signature_hex: Seq<char>,
)
    ensures
        ({
            let lines = signed_decimal(timestamp) + seq!['\n'] + project + seq!['\n'] + hex_text(
                sha256_digest(body),
            );
            let tag = hmac_sha256(secret, encode_utf8(lines));
            &&& signing_text(timestamp, project, sha256_digest(body)) == lines
            &&& request_tag(secret, timestamp, project, body) == tag
            &&& is_signature(secret, timestamp, project, body, signature_hex) <==> hex_bytes(
                signature_hex,
            ) == Some(tag)
        }),
{
}

/// Each thing that can be wrong with a signature is told in words of its own.
pub proof fn lemma_signature_faults_are_told()
    ensures
        SignatureError::InvalidKeyLength.text() == "Invalid Length"@,
        SignatureError::NotHex.text() == "signature is not valid hex"@,
        SignatureError::Mismatch.text() == "signature verification failed"@,
{
}

/// A signature that was made for a request is accepted for it.
pub proof fn lemma_signature_round_trip(
    secret: Seq<u8>,
    timestamp: int,
    project: Seq<char>,
    body: Seq<u8>,
)
    ensures
        is_signature(
            secret,
            timestamp,
            project,
            body,
            hex_text(request_tag(secret, timestamp, project, body)),
        ),
{
    lemma_hex_reads_back(request_tag(secret, timestamp, project, body));
}

/// A signature that was made for one request is accepted for another only
/// where the two have the same tag.
pub proof fn lemma_signature_transfers_only_with_tag(
    secret: Seq<u8>,
    timestamp: int,
    project: Seq<char>,
    body: Seq<u8>,
    other_secret: Seq<u8>,
    other_timestamp: int,
    other_project: Seq<char>,
    other_body: Seq<u8>,
)
    ensures
        is_signature(
            other_secret,
            other_timestamp,
            other_project,
            other_body,
            hex_text(request_tag(secret, timestamp, project, body)),
        ) == (request_tag(secret, timestamp, project, body) == request_tag(
            other_secret,
            other_timestamp,
            other_project,
            other_body,
        )),
{
    lemma_hex_reads_back(request_tag(secret, timestamp, project, body));
}

/// Decimal digits hold no line break.
proof fn lemma_signed_decimal_one_line(value: int)
    ensures
        forall|i: int|
            0 <= i < signed_decimal(value).len() ==> #[trigger] signed_decimal(value)[i] != '\n',
{
    lemma_decimal_reads_back(
        if value < 0 {
            (-value) as nat
        } else {
            value as nat
        },
    );
}

/// Requests that differ in timestamp, project or digest are signed as
/// different texts, whatever characters the project holds.
pub proof fn lemma_signing_text_injective(
    timestamp: i64,
    project: Seq<char>,
    digest: Seq<u8>,
    other_timestamp: i64,
    other_project: Seq<char>,
    other_digest: Seq<u8>,
)
    requires
        digest.len() == other_digest.len(),
        signing_text(timestamp as int, project, digest) == signing_text(
            other_timestamp as int,
            other_project,
            other_digest,
        ),
    ensures
        timestamp == other_timestamp,
        project == other_project,
        digest == other_digest,
{
    let text = signing_text(timestamp as int, project, digest);
    let other = signing_text(other_timestamp as int, other_project, other_digest);
    let a = signed_decimal(timestamp as int);
    let b = signed_decimal(other_timestamp as int);
    lemma_signed_decimal_one_line(timestamp as int);
    lemma_signed_decimal_one_line(other_timestamp as int);
    assert(text[a.len() as int] == '\n');
    assert(other[b.len() as int] == '\n');
    if a.len() < b.len() {
        assert(other[a.len() as int] == b[a.len() as int]);
    } else if b.len() < a.len() {
        assert(text[b.len() as int] == a[b.len() as int]);
    }
    assert forall|i: int| 0 <= i < a.len() implies a[i] == b[i] by {
        assert(text[i] == a[i]);
        assert(other[i] == b[i]);
    }
    assert(a =~= b);
    lemma_i64_text_reads_back(timestamp);
    lemma_i64_text_reads_back(other_timestamp);
    assert(hex_text(digest).len() == hex_text(other_digest).len());
    assert(text.len() == a.len() + 1 + project.len() + 1 + hex_text(digest).len());
    assert(other.len() == a.len() + 1 + other_project.len() + 1 + hex_text(digest).len());
    assert forall|i: int| 0 <= i < project.len() implies project[i] == other_project[i] by {
        assert(text[a.len() + 1 + i] == project[i]);
        assert(other[a.len() + 1 + i] == other_project[i]);
    }
    assert(project =~= other_project);
    let n = a.len() + 1 + project.len() + 1;
    assert forall|i: int| 0 <= i < hex_text(digest).len() implies hex_text(digest)[i] == hex_text(
        other_digest,
    )[i] by {
        assert(text[n + i] == hex_text(digest)[i]);
        assert(other[n + i] == hex_text(other_digest)[i]);
    }
    assert(hex_text(digest) =~= hex_text(other_digest));
    lemma_hex_text_injective(digest, other_digest);
}

} // verus!
