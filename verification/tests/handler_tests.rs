use mail_tracker::decode::DecodeError;
use mail_tracker::handler::{handle, pixel_bytes, MailTrackingParams};

const PIXEL: [u8; 67] = [
    0x89, 0x50, 0x4e, 0x47, 0x0d, 0x0a, 0x1a, 0x0a, 0x00, 0x00, 0x00, 0x0d, 0x49, 0x48, 0x44,
    0x52, 0x00, 0x00, 0x00, 0x01, 0x00, 0x00, 0x00, 0x01, 0x08, 0x06, 0x00, 0x00, 0x00, 0x1f,
    0x15, 0xc4, 0x89, 0x00, 0x00, 0x00, 0x0a, 0x49, 0x44, 0x41, 0x54, 0x78, 0x9c, 0x63, 0x00,
    0x01, 0x00, 0x00, 0x05, 0x00, 0x01, 0x0d, 0x0a, 0x2d, 0xb4, 0x00, 0x00, 0x00, 0x00, 0x49,
    0x45, 0x4e, 0x44, 0xae, 0x42, 0x60, 0x82,
];

fn params(uuid: Option<&str>) -> MailTrackingParams {
    MailTrackingParams {
        email: "a@b.com".to_string(),
        subject: "s".to_string(),
        uuid: uuid.map(|u| u.to_string()),
    }
}

const VALID_16: &str = "1,2,3,4,5,6,7,8,9,10,11,12,13,14,15,16";

#[test]
fn png_request_serves_pixel() {
    let h = handle("pixel.png", params(Some(VALID_16)), None, None);
    assert_eq!(h.response.status, 200);
    assert_eq!(h.response.content_type, Some("image/png".to_string()));
    assert_eq!(h.response.body, PIXEL.to_vec());
    match h.log.outcome {
        Some(Ok(id)) => assert_eq!(
            *id.as_bytes(),
            vec![1, 2, 3, 4, 5, 6, 7, 8, 9, 10, 11, 12, 13, 14, 15, 16]
        ),
        other => panic!("expected a decoded identifier, got {:?}", other),
    }
}

#[test]
fn webp_request_serves_same_pixel_bytes() {
    let h = handle("pixel.webp", params(Some(VALID_16)), None, None);
    assert_eq!(h.response.status, 200);
    assert_eq!(h.response.content_type, Some("image/webp".to_string()));
    assert_eq!(h.response.body, PIXEL.to_vec());
}

#[test]
fn jpg_and_jpeg_are_served_as_jpeg() {
    for name in ["pixel.jpg", "pixel.jpeg"] {
        let h = handle(name, params(Some(VALID_16)), None, None);
        assert_eq!(h.response.status, 200);
        assert_eq!(h.response.content_type, Some("image/jpeg".to_string()));
        assert_eq!(h.response.body, PIXEL.to_vec());
    }
}

#[test]
fn unknown_extension_is_unsupported_media_type() {
    let h = handle("pixel.xyz", params(Some(VALID_16)), None, None);
    assert_eq!(h.response.status, 415);
    assert_eq!(h.response.content_type, None);
    assert_eq!(h.response.body, b"Unsupported Media Type".to_vec());
}

#[test]
fn no_extension_is_not_found() {
    let h = handle("pixel", params(Some(VALID_16)), None, None);
    assert_eq!(h.response.status, 404);
    assert_eq!(h.response.content_type, None);
    assert_eq!(h.response.body, b"Not Found".to_vec());
}

#[test]
fn decode_failure_does_not_block_the_image() {
    let h = handle("pixel.png", params(Some("bad")), None, None);
    assert_eq!(h.response.status, 200);
    assert_eq!(h.response.content_type, Some("image/png".to_string()));
    assert_eq!(h.response.body, PIXEL.to_vec());
    match h.log.outcome {
        Some(Err(DecodeError::InvalidByte { token, .. })) => assert_eq!(token, "bad"),
        other => panic!("expected a logged decode error, got {:?}", other),
    }
    assert_eq!(h.log.uuid_raw, Some("bad".to_string()));
}

#[test]
fn absent_identifier_means_nothing_to_decode() {
    let h = handle("pixel.png", params(None), None, None);
    assert_eq!(h.response.status, 200);
    assert!(h.log.outcome.is_none());
    assert!(h.log.uuid_raw.is_none());
}

#[test]
fn repeated_requests_are_byte_identical() {
    let h1 = handle("pixel.png", params(Some(VALID_16)), None, None);
    let h2 = handle("pixel.png", params(Some(VALID_16)), None, None);
    assert_eq!(h1.response, h2.response);
    let e1 = handle("pixel.xyz", params(None), None, None);
    let e2 = handle("pixel.xyz", params(None), None, None);
    assert_eq!(e1.response, e2.response);
}

#[test]
fn forwarded_for_is_preferred_over_host() {
    let h = handle(
        "pixel.png",
        params(None),
        Some("203.0.113.9".to_string()),
        Some("tracker.example".to_string()),
    );
    assert_eq!(h.log.client, Some("203.0.113.9".to_string()));
}

#[test]
fn host_is_the_fallback_client_value() {
    let h = handle("pixel.png", params(None), None, Some("tracker.example".to_string()));
    assert_eq!(h.log.client, Some("tracker.example".to_string()));
    let none = handle("pixel.png", params(None), None, None);
    assert_eq!(none.log.client, None);
}

#[test]
fn emails_are_split_on_commas_unvalidated() {
    let mut p = params(None);
    p.email = "a@b.com,c@d.com,,not-an-address".to_string();
    let h = handle("pixel.png", p, None, None);
    assert_eq!(
        h.log.emails,
        vec![
            "a@b.com".to_string(),
            "c@d.com".to_string(),
            "".to_string(),
            "not-an-address".to_string()
        ]
    );
    assert_eq!(h.log.subject, "s".to_string());
}

#[test]
fn extension_is_the_final_dot_segment() {
    let h = handle("a.b.png", params(None), None, None);
    assert_eq!(h.response.status, 200);
    assert_eq!(h.response.content_type, Some("image/png".to_string()));
}

#[test]
fn trailing_dot_is_unsupported() {
    let h = handle("pixel.", params(None), None, None);
    assert_eq!(h.response.status, 415);
}

#[test]
fn extension_match_is_case_sensitive() {
    let h = handle("pixel.PNG", params(None), None, None);
    assert_eq!(h.response.status, 415);
}

#[test]
fn pixel_payload_is_the_expected_png() {
    assert_eq!(pixel_bytes(), PIXEL.to_vec());
}
