//! What a deploy request says in its headers.

use vstd::prelude::*;
use vstd::string::*;

use crate::hexadecimal::hex_text;
use crate::hmac::{is_signature, lemma_signature_round_trip, request_tag};
use crate::text::{
    lemma_i64_text_reads_back, lemma_prefix_is_split_off, parse_i64, parsed_i64, signed_decimal,
    strip_text_prefix, without_prefix,
};

verus! {

/// How many seconds a request's timestamp may be away from the clock.
pub const REPLAY_WINDOW_SECS: i64 = 300;

/// The headers that a request must have.
#[derive(Debug, Clone, Copy, PartialEq, Eq, Structural)]
pub enum Header {
    Project,
    Timestamp,
    Signature,
}

/// A header as it was received.
#[derive(Debug, Clone)]
pub enum HeaderValue {
    /// The request does not have the header.
    Missing,
    /// The header's value cannot be read as text.
    NotText,
    Text(String),
}

/// What the headers of a request say.
#[derive(Debug, Clone)]
pub struct DeployRequest {
    pub project: String,
    /// When the request was signed, in seconds since the Unix epoch.
    pub timestamp: i64,
    /// The signature in hexadecimal.
    pub signature_hex: String,
}

/// What can be wrong with the headers of a request.
#[derive(Debug, Clone, Copy, PartialEq, Eq, Structural)]
pub enum RequestError {
    Missing(Header),
    NotText(Header),
    /// The timestamp is not a number.
    BadTimestamp,
    /// The signature does not start with the name of its algorithm.
    NoSignaturePrefix,
    /// The timestamp is too far away from the clock.
    OutsideWindow,
}

impl Header {
    /// The name of the header.
    pub open spec fn text(&self) -> Seq<char> {
        match self {
            Header::Project => "x-deploy-project"@,
            Header::Timestamp => "x-deploy-timestamp"@,
            Header::Signature => "x-deploy-signature"@,
        }
    }

    /// The name of the header.
    pub fn name(&self) -> (name: &'static str)
        ensures
            name@ == self.text(),
    {
        match self {
            Header::Project => "x-deploy-project",
            Header::Timestamp => "x-deploy-timestamp",
            Header::Signature => "x-deploy-signature",
        }
    }
}

impl RequestError {
    /// What is told to whoever sent the request.
    pub open spec fn text(&self) -> Seq<char> {
        match self {
            RequestError::Missing(header) => "missing required header: "@ + header.text(),
            RequestError::NotText(header) => "header "@ + header.text() + " is not valid UTF-8"@,
            RequestError::BadTimestamp => "X-Deploy-Timestamp invalid"@,
            RequestError::NoSignaturePrefix => "X-Deploy-Signature missing 'sha256=' prefix"@,
            RequestError::OutsideWindow => "timestamp outside replay window"@,
        }
    }

    /// Tells what is wrong with the request.
    pub fn message(&self) -> (message: String)
        ensures
            message@ == self.text(),
    {
        match self {
            RequestError::Missing(header) => {
                String::from_str("missing required header: ").concat(header.name())
            },
            RequestError::NotText(header) => {
                String::from_str("header ").concat(header.name()).concat(" is not valid UTF-8")
            },
            RequestError::BadTimestamp => String::from_str("X-Deploy-Timestamp invalid"),
            RequestError::NoSignaturePrefix => {
                String::from_str("X-Deploy-Signature missing 'sha256=' prefix")
            },
            RequestError::OutsideWindow => String::from_str("timestamp outside replay window"),
        }
    }
}

/// What is wrong with a header in itself.
pub open spec fn header_fault(value: HeaderValue, header: Header) -> Option<RequestError> {
    match value {
        HeaderValue::Missing => Some(RequestError::Missing(header)),
        HeaderValue::NotText => Some(RequestError::NotText(header)),
        HeaderValue::Text(_) => None,
    }
}

/// What is wrong with the headers of a request: the first fault, in the order
/// project, timestamp, signature.
pub open spec fn request_fault(
    project: HeaderValue,
    timestamp: HeaderValue,
    signature: HeaderValue,
) -> Option<RequestError> {
    if header_fault(project, Header::Project) is Some {
        header_fault(project, Header::Project)
    } else if header_fault(timestamp, Header::Timestamp) is Some {
        header_fault(timestamp, Header::Timestamp)
    } else if parsed_i64(timestamp->Text_0@) is None {
        Some(RequestError::BadTimestamp)
    } else if header_fault(signature, Header::Signature) is Some {
        header_fault(signature, Header::Signature)
    } else if without_prefix(signature->Text_0@, "sha256="@) is None {
        Some(RequestError::NoSignaturePrefix)
    } else {
        None
    }
}

/// Whether a timestamp is close enough to the clock.
pub open spec fn in_window(timestamp: int, now: int) -> bool {
    -300 <= now - timestamp <= 300
}

/// The text of a header that has to be there.
pub fn header_str(value: &HeaderValue, header: Header) -> (text: Result<&str, RequestError>)
    ensures
        is_header_text(
            *value,
            header,
            match text {
                Ok(t) => Ok(t@),
                Err(e) => Err(e),
            },
        ),
{
    match value {
        HeaderValue::Missing => Err(RequestError::Missing(header)),
        HeaderValue::NotText => Err(RequestError::NotText(header)),
        HeaderValue::Text(text) => Ok(text.as_str()),
    }
}

/// Whether `text` is what comes of a header that has to be there.
pub open spec fn is_header_text(
    value: HeaderValue,
    header: Header,
    text: Result<Seq<char>, RequestError>,
) -> bool {
    match text {
        Ok(t) => value is Text && t == value->Text_0@,
        Err(e) => header_fault(value, header) == Some(e),
    }
}

/// Whether `request` is what the headers of a request say.
pub open spec fn is_request(
    project: HeaderValue,
    timestamp: HeaderValue,
    signature: HeaderValue,
    request: Result<DeployRequest, RequestError>,
) -> bool {
    match request {
        Ok(r) => {
            &&& request_fault(project, timestamp, signature) is None
            &&& r.project@ == project->Text_0@
            &&& parsed_i64(timestamp->Text_0@) == Some(r.timestamp as int)
            &&& without_prefix(signature->Text_0@, "sha256="@) == Some(r.signature_hex@)
        },
        Err(e) => request_fault(project, timestamp, signature) == Some(e),
    }
}

/// Whether `verdict` is that on a timestamp, given the clock.
pub open spec fn is_window_verdict(
    timestamp: int,
    now: int,
    verdict: Result<(), RequestError>,
) -> bool {
    match verdict {
        Ok(_) => in_window(timestamp, now),
        Err(e) => !in_window(timestamp, now) && e == RequestError::OutsideWindow,
    }
}

/// Reads the headers of a request.
pub fn parse_request(
    project: &HeaderValue,
    timestamp: &HeaderValue,
    signature: &HeaderValue,
) -> (request: Result<DeployRequest, RequestError>)
    ensures
        is_request(*project, *timestamp, *signature, request),
{
    let project: &str = match header_str(project, Header::Project) {
        Ok(text) => text,
        Err(e) => {
            return Err(e);
        },
    };
    let timestamp: i64 = match header_str(timestamp, Header::Timestamp) {
        Ok(text) => match parse_i64(text) {
            Some(value) => value,
            None => {
                return Err(RequestError::BadTimestamp);
            },
        },
        Err(e) => {
            return Err(e);
        },
    };
    match header_str(signature, Header::Signature) {
        Ok(text) => match strip_text_prefix(text, "sha256=") {
            Some(hex) => Ok(
                DeployRequest {
                    project: String::from_str(project),
                    timestamp,
                    signature_hex: String::from_str(hex),
                },
            ),
            None => Err(RequestError::NoSignaturePrefix),
        },
        Err(e) => Err(e),
    }
}

/// Checks a timestamp against the clock, both in seconds since the Unix epoch.
pub fn check_timestamp(timestamp: i64, now: u64) -> (verdict: Result<(), RequestError>)
    ensures
        is_window_verdict(timestamp as int, now as int, verdict),
{
    let away: i128 = now as i128 - timestamp as i128;
    if away > REPLAY_WINDOW_SECS as i128 || away < -(REPLAY_WINDOW_SECS as i128) {
        Err(RequestError::OutsideWindow)
    } else {
        Ok(())
    }
}

/// The headers are told apart by their names.
pub proof fn lemma_headers_are_named()
    ensures
        Header::Project.text() == "x-deploy-project"@,
        Header::Timestamp.text() == "x-deploy-timestamp"@,
        Header::Signature.text() == "x-deploy-signature"@,
{
}

/// What is wrong with a request is told in words, with the name of the header
/// that is missing or cannot be read.
pub proof fn lemma_request_faults_are_told(header: Header)
    ensures
        RequestError::Missing(header).text() == "missing required header: "@ + header.text(),
        RequestError::NotText(header).text() == "header "@ + header.text()
            + " is not valid UTF-8"@,
        RequestError::BadTimestamp.text() == "X-Deploy-Timestamp invalid"@,
        RequestError::NoSignaturePrefix.text() == "X-Deploy-Signature missing 'sha256=' prefix"@,
        RequestError::OutsideWindow.text() == "timestamp outside replay window"@,
{
}

/// The text of a header is given out as it is, and a header that is not there or
/// cannot be read is told as such.
pub proof fn lemma_header_text(
    value: HeaderValue,
    header: Header,
    text: Result<Seq<char>, RequestError>,
)
    requires
        is_header_text(value, header, text),
    ensures
        match value {
            HeaderValue::Missing => text == Err::<Seq<char>, RequestError>(
                RequestError::Missing(header),
            ),
            HeaderValue::NotText => text == Err::<Seq<char>, RequestError>(
                RequestError::NotText(header),
            ),
            HeaderValue::Text(t) => text == Ok::<Seq<char>, RequestError>(t@),
        },
{
}

/// A request is read exactly where its headers are text, the timestamp is a
/// number, and the signature starts with the name of its algorithm: the project
/// is the text of its header, and what follows the name is the signature. Of
/// several faults the first is told, in the order of project, timestamp and
/// signature.
pub proof fn lemma_request_is_read(
    project: HeaderValue,
    timestamp: HeaderValue,
    signature: HeaderValue,
    request: Result<DeployRequest, RequestError>,
)
    requires
        is_request(project, timestamp, signature, request),
    ensures
        match project {
            HeaderValue::Missing => request == Err::<DeployRequest, RequestError>(
                RequestError::Missing(Header::Project),
            ),
            HeaderValue::NotText => request == Err::<DeployRequest, RequestError>(
                RequestError::NotText(Header::Project),
            ),
            HeaderValue::Text(name) => match timestamp {
                HeaderValue::Missing => request == Err::<DeployRequest, RequestError>(
                    RequestError::Missing(Header::Timestamp),
                ),
                HeaderValue::NotText => request == Err::<DeployRequest, RequestError>(
                    RequestError::NotText(Header::Timestamp),
                ),
                HeaderValue::Text(time) => if parsed_i64(time@) is None {
                    request == Err::<DeployRequest, RequestError>(RequestError::BadTimestamp)
                } else {
                    match signature {
                        HeaderValue::Missing => request == Err::<DeployRequest, RequestError>(
                            RequestError::Missing(Header::Signature),
                        ),
                        HeaderValue::NotText => request == Err::<DeployRequest, RequestError>(
                            RequestError::NotText(Header::Signature),
                        ),
                        HeaderValue::Text(sign) => {
                            &&& request is Err ==> request->Err_0
                                == RequestError::NoSignaturePrefix && forall|rest: Seq<char>|
                                sign@ != #[trigger] ("sha256="@ + rest)
                            &&& request is Ok ==> {
                                &&& request->Ok_0.project@ == name@
                                &&& parsed_i64(time@) == Some(request->Ok_0.timestamp as int)
                                &&& sign@ == "sha256="@ + request->Ok_0.signature_hex@
                            }
                        },
                    }
                },
            },
        },
{
    if let HeaderValue::Text(sign) = signature {
        lemma_prefix_is_split_off(sign@, "sha256="@);
    }
}

/// A timestamp is accepted exactly where it is five minutes away from the clock
/// at most, be it behind or ahead.
pub proof fn lemma_window_is_five_minutes(
    timestamp: i64,
    now: u64,
    verdict: Result<(), RequestError>,
)
    requires
        is_window_verdict(timestamp as int, now as int, verdict),
    ensures
        verdict is Ok <==> now - timestamp <= 5 * 60 && timestamp - now <= 5 * 60,
        verdict is Err ==> verdict->Err_0 == RequestError::OutsideWindow,
{
}

/// A request whose headers hold the project, the timestamp in decimal, and the
/// signature behind the name of its algorithm, is read as what was sent, and
/// its signature is accepted.
pub proof fn lemma_signed_request_is_read(
    project: HeaderValue,
    timestamp: HeaderValue,
    signature: HeaderValue,
    secret: Seq<u8>,
    sent_at: i64,
    body: Seq<u8>,
)
    requires
        project is Text,
        timestamp is Text,
        signature is Text,
        timestamp->Text_0@ == signed_decimal(sent_at as int),
        signature->Text_0@ == "sha256="@ + hex_text(
            request_tag(secret, sent_at as int, project->Text_0@, body),
        ),
    ensures
        request_fault(project, timestamp, signature) is None,
        parsed_i64(timestamp->Text_0@) == Some(sent_at as int),
        without_prefix(signature->Text_0@, "sha256="@) is Some,
        is_signature(
            secret,
            sent_at as int,
            project->Text_0@,
            body,
            without_prefix(signature->Text_0@, "sha256="@)->0,
        ),
{
    let hex = hex_text(request_tag(secret, sent_at as int, project->Text_0@, body));
    lemma_i64_text_reads_back(sent_at);
    lemma_signature_round_trip(secret, sent_at as int, project->Text_0@, body);
    assert(("sha256="@ + hex).take("sha256="@.len() as int) =~= "sha256="@);
    assert(("sha256="@ + hex).skip("sha256="@.len() as int) =~= hex);
}

} // verus!
