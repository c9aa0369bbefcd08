use deploy_common::hmac::{
    compute_signature, signing_layout, signing_string, verify_signature, SignatureError,
};

#[test]
fn round_trips() {
    let secret = b"test-secret-do-not-use-in-prod";
    let body = b"pretend bundle bytes";
    let ts = 1_757_000_000i64;
    let sig = compute_signature(secret, ts, "myproj", body).unwrap();
    assert!(verify_signature(secret, ts, "myproj", body, &sig).is_ok());
}

#[test]
fn rejects_wrong_secret() {
    let body = b"pretend bundle bytes";
    let ts = 1_757_000_000i64;
    let sig = compute_signature(b"secret-a", ts, "myproj", body).unwrap();
    assert!(verify_signature(b"secret-b", ts, "myproj", body, &sig).is_err());
}

#[test]
fn rejects_tampered_body() {
    let secret = b"test-secret-do-not-use-in-prod";
    let ts = 1_757_000_000i64;
    let sig = compute_signature(secret, ts, "myproj", b"original").unwrap();
    assert!(verify_signature(secret, ts, "myproj", b"tampered!", &sig).is_err());
}

#[test]
fn rejects_wrong_project() {
    let secret = b"test-secret-do-not-use-in-prod";
    let body = b"pretend bundle bytes";
    let ts = 1_757_000_000i64;
    let sig = compute_signature(secret, ts, "myproj", body).unwrap();
    assert!(verify_signature(secret, ts, "otherproj", body, &sig).is_err());
}

#[test]
fn signs_timestamp_project_and_digest() {
    assert_eq!(
        signing_string(1_757_000_000, "myproj", b"pretend bundle bytes"),
        "1757000000\nmyproj\n8ed7a789d00e0de561a7bd013476e328e29f635f372114e9b20c334c178cb6c8"
    );
    assert_eq!(
        signing_string(i64::MIN, "", b""),
        "-9223372036854775808\n\ne3b0c44298fc1c149afbf4c8996fb92427ae41e4649b934ca495991b7852b855"
    );
}

#[test]
fn a_digest_is_laid_out_as_the_last_line() {
    assert_eq!(signing_layout(-7, "my\nproj", &[0x00, 0xfe]), "-7\nmy\nproj\n00fe");
    assert_eq!(signing_layout(0, "", &[]), "0\n\n");
}

#[test]
fn signature_has_known_values() {
    assert_eq!(
        compute_signature(
            b"test-secret-do-not-use-in-prod",
            1_757_000_000,
            "myproj",
            b"pretend bundle bytes"
        )
        .unwrap(),
        "4d4ba6396ade7209074fc40002ba5727ca5af1524f52d18a3704fb22060f2bf2"
    );
    assert_eq!(
        compute_signature(b"", -5, "", b"").unwrap(),
        "430893437fbf3821c6eca4e3e3de48ad66e03dd4db0a7ce6c5352bbe469af900"
    );
    let long_key = [b'k'; 100];
    assert_eq!(
        compute_signature(&long_key, 0, "p", b"x").unwrap(),
        "ce1b1fbc9766fa25bd87c85d5688494564e63acbb90d8aa11dc4df5881fc1e7b"
    );
}

#[test]
fn signature_errors_are_told_apart() {
    let secret = b"secret";
    let sig = compute_signature(secret, 7, "p", b"body").unwrap();
    assert_eq!(
        verify_signature(secret, 7, "p", b"body", &sig.to_uppercase()),
        Ok(())
    );
    assert_eq!(
        verify_signature(secret, 7, "p", b"body", "not hex"),
        Err(SignatureError::NotHex)
    );
    assert_eq!(
        verify_signature(secret, 7, "p", b"body", "abc"),
        Err(SignatureError::NotHex)
    );
    assert_eq!(
        verify_signature(secret, 7, "p", b"body", ""),
        Err(SignatureError::Mismatch)
    );
    assert_eq!(
        verify_signature(secret, 7, "p", b"body", &sig[..62]),
        Err(SignatureError::Mismatch)
    );
    assert_eq!(
        verify_signature(secret, 8, "p", b"body", &sig),
        Err(SignatureError::Mismatch)
    );
    assert_eq!(SignatureError::NotHex.message(), "signature is not valid hex");
    assert_eq!(
        SignatureError::Mismatch.message(),
        "signature verification failed"
    );
    assert_eq!(SignatureError::InvalidKeyLength.message(), "Invalid Length");
}

#[test]
fn line_breaks_in_a_project_do_not_mix_up_requests() {
    let a = signing_string(1, "a\nb", b"x");
    let b = signing_string(1, "a", b"x");
    assert_ne!(a, b);
    assert!(a.starts_with("1\na\nb\n"));
}
