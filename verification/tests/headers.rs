use deploy_common::ci::sign_request;
use deploy_common::hmac::verify_signature;
use deploy_common::request::{
    check_timestamp, header_str, parse_request, Header, HeaderValue, RequestError,
};

fn text(value: &str) -> HeaderValue {
    HeaderValue::Text(String::from(value))
}

#[test]
fn headers_are_read() {
    let request = parse_request(&text("myproj"), &text("1757000000"), &text("sha256=00ff")).unwrap();
    assert_eq!(request.project, "myproj");
    assert_eq!(request.timestamp, 1_757_000_000);
    assert_eq!(request.signature_hex, "00ff");
    let request = parse_request(&text(""), &text("-3"), &text("sha256=")).unwrap();
    assert_eq!(request.project, "");
    assert_eq!(request.timestamp, -3);
    assert_eq!(request.signature_hex, "");
}

#[test]
fn header_faults_are_told_in_order() {
    let missing = HeaderValue::Missing;
    let binary = HeaderValue::NotText;
    let cases = [
        (
            parse_request(&missing, &missing, &missing),
            "missing required header: x-deploy-project",
        ),
        (
            parse_request(&binary, &missing, &missing),
            "header x-deploy-project is not valid UTF-8",
        ),
        (
            parse_request(&text("p"), &missing, &missing),
            "missing required header: x-deploy-timestamp",
        ),
        (
            parse_request(&text("p"), &binary, &missing),
            "header x-deploy-timestamp is not valid UTF-8",
        ),
        (
            parse_request(&text("p"), &text("soon"), &missing),
            "X-Deploy-Timestamp invalid",
        ),
        (
            parse_request(&text("p"), &text("1"), &missing),
            "missing required header: x-deploy-signature",
        ),
        (
            parse_request(&text("p"), &text("1"), &binary),
            "header x-deploy-signature is not valid UTF-8",
        ),
        (
            parse_request(&text("p"), &text("1"), &text("SHA256=00")),
            "X-Deploy-Signature missing 'sha256=' prefix",
        ),
    ];
    for (result, message) in cases {
        assert_eq!(result.unwrap_err().message(), message);
    }
}

#[test]
fn one_header_is_read() {
    assert_eq!(header_str(&text("a b"), Header::Project), Ok("a b"));
    assert_eq!(
        header_str(&HeaderValue::Missing, Header::Signature),
        Err(RequestError::Missing(Header::Signature))
    );
    assert_eq!(
        header_str(&HeaderValue::NotText, Header::Timestamp),
        Err(RequestError::NotText(Header::Timestamp))
    );
    assert_eq!(Header::Project.name(), "x-deploy-project");
    assert_eq!(Header::Timestamp.name(), "x-deploy-timestamp");
    assert_eq!(Header::Signature.name(), "x-deploy-signature");
}

#[test]
fn timestamps_have_five_minutes_either_way() {
    assert_eq!(check_timestamp(1000, 1000), Ok(()));
    assert_eq!(check_timestamp(1000, 1300), Ok(()));
    assert_eq!(check_timestamp(1300, 1000), Ok(()));
    assert_eq!(check_timestamp(1000, 1301), Err(RequestError::OutsideWindow));
    assert_eq!(check_timestamp(1301, 1000), Err(RequestError::OutsideWindow));
    assert_eq!(check_timestamp(-300, 0), Ok(()));
    assert_eq!(check_timestamp(-301, 0), Err(RequestError::OutsideWindow));
    assert_eq!(check_timestamp(i64::MIN, u64::MAX), Err(RequestError::OutsideWindow));
    assert_eq!(check_timestamp(i64::MAX, 0), Err(RequestError::OutsideWindow));
    assert_eq!(
        RequestError::OutsideWindow.message(),
        "timestamp outside replay window"
    );
}

#[test]
fn what_is_signed_for_sending_is_accepted() {
    let secret = b"0123";
    let headers = sign_request(secret, 1_757_000_000, "myproj", b"body").unwrap();
    assert_eq!(headers.project, "myproj");
    assert_eq!(headers.timestamp, "1757000000");
    assert!(headers.signature.starts_with("sha256="));
    let request = parse_request(
        &HeaderValue::Text(headers.project),
        &HeaderValue::Text(headers.timestamp),
        &HeaderValue::Text(headers.signature),
    )
    .unwrap();
    assert_eq!(
        verify_signature(
            secret,
            request.timestamp,
            &request.project,
            b"body",
            &request.signature_hex
        ),
        Ok(())
    );
}
