//! Selection of the HTTP response for a pixel fetch, and the log record
//! that goes with it.
//!
//! The response depends only on the requested filename's final
//! `.`-delimited extension: `png`, `webp`, `jpg` and `jpeg` are served the
//! fixed pixel payload under the matching content type; a filename without
//! a dot yields 404; any other extension yields 415. The identifier in the
//! query string is decoded purely for logging and never changes the
//! response.

use vstd::prelude::*;
use crate::decode::{
    decode, decode_result_matches, spec_decode, split_commas, split_on_commas, string_of_chars,
    to_chars, views_of, DecodeError, TrackingIdentifier,
};

verus! {

// ---------------------------------------------------------------------------
// Filename extensions
// ---------------------------------------------------------------------------

/// Index of the last `.` in the filename, or -1 if there is none.
pub open spec fn last_dot(s: Seq<char>) -> int
    decreases s.len(),
{
    if s.len() == 0 {
        -1
    } else if s.last() == '.' {
        s.len() - 1
    } else {
        last_dot(s.drop_last())
    }
}

/// The characters after the last dot (meaningful when there is one).
pub open spec fn ext_chars(f: Seq<char>) -> Seq<char> {
    f.skip(last_dot(f) + 1)
}

/// The closed set of extension classes the handler dispatches on.
#[derive(Debug, Clone, Copy, PartialEq, Eq, Structural)]
pub enum ExtKind {
    /// The filename holds no dot at all.
    Missing,
    Png,
    Webp,
    /// Either `jpg` or `jpeg`.
    Jpeg,
    /// A final extension outside the supported set.
    Unsupported,
}

pub open spec fn spec_ext_kind(f: Seq<char>) -> ExtKind {
    if last_dot(f) < 0 {
        ExtKind::Missing
    } else {
        let e = ext_chars(f);
        if e == seq!['p', 'n', 'g'] {
            ExtKind::Png
        } else if e == seq!['w', 'e', 'b', 'p'] {
            ExtKind::Webp
        } else if e == seq!['j', 'p', 'g'] || e == seq!['j', 'p', 'e', 'g'] {
            ExtKind::Jpeg
        } else {
            ExtKind::Unsupported
        }
    }
}

pub proof fn lemma_last_dot_at(s: Seq<char>, d: int)
    requires
        0 <= d < s.len(),
        s[d] == '.',
        forall|j: int| d < j < s.len() ==> s[j] != '.',
    ensures
        last_dot(s) == d,
    decreases s.len(),
{
    if d == s.len() - 1 {
    } else {
        assert(s.last() != '.');
        let dl = s.drop_last();
        assert(dl[d] == s[d]);
        assert forall|j: int| d < j < dl.len() implies dl[j] != '.' by {
            assert(dl[j] == s[j]);
        }
        lemma_last_dot_at(dl, d);
    }
}

pub proof fn lemma_last_dot_none(s: Seq<char>)
    requires
        forall|j: int| 0 <= j < s.len() ==> s[j] != '.',
    ensures
        last_dot(s) == -1,
    decreases s.len(),
{
    if s.len() > 0 {
        let dl = s.drop_last();
        assert forall|j: int| 0 <= j < dl.len() implies dl[j] != '.' by {
            assert(dl[j] == s[j]);
        }
        lemma_last_dot_none(dl);
    }
}

/// Classifies the filename by its final `.`-delimited extension.
pub fn ext_kind_of(chars: &Vec<char>) -> (k: ExtKind)
    ensures
        k == spec_ext_kind(chars@),
{
    let n = chars.len();
    let mut i: usize = n;
    while i > 0
        invariant
            i <= n,
            n == chars@.len(),
            forall|j: int| i <= j < n ==> chars@[j] != '.',
        ensures
            i <= n,
            n == chars@.len(),
            forall|j: int| i <= j < n ==> chars@[j] != '.',
            i > 0 ==> chars@[i - 1] == '.',
        decreases i,
    {
        if chars[i - 1] == '.' {
            break;
        }
        i -= 1;
    }
    if i == 0 {
        proof {
            lemma_last_dot_none(chars@);
        }
        return ExtKind::Missing;
    }
    let d = i - 1;
    proof {
        lemma_last_dot_at(chars@, d as int);
    }
    let ghost e = ext_chars(chars@);
    proof {
        assert(e.len() == n - d - 1);
        assert forall|q: int| 0 <= q < e.len() implies e[q] == chars@[d + 1 + q] by {}
    }
    let len = n - d - 1;
    if len == 3 && chars[d + 1] == 'p' && chars[d + 2] == 'n' && chars[d + 3] == 'g' {
        proof {
            assert(e =~= seq!['p', 'n', 'g']);
        }
        ExtKind::Png
    } else if len == 4 && chars[d + 1] == 'w' && chars[d + 2] == 'e' && chars[d + 3] == 'b'
        && chars[d + 4] == 'p' {
        proof {
            assert(e =~= seq!['w', 'e', 'b', 'p']);
        }
        ExtKind::Webp
    } else if len == 3 && chars[d + 1] == 'j' && chars[d + 2] == 'p' && chars[d + 3] == 'g' {
        proof {
            assert(e =~= seq!['j', 'p', 'g']);
        }
        ExtKind::Jpeg
    } else if len == 4 && chars[d + 1] == 'j' && chars[d + 2] == 'p' && chars[d + 3] == 'e'
        && chars[d + 4] == 'g' {
        proof {
            assert(e =~= seq!['j', 'p', 'e', 'g']);
        }
        ExtKind::Jpeg
    } else {
        proof {
            assert(e != seq!['p', 'n', 'g']);
            assert(e != seq!['w', 'e', 'b', 'p']);
            assert(e != seq!['j', 'p', 'g']);
            assert(e != seq!['j', 'p', 'e', 'g']);
        }
        ExtKind::Unsupported
    }
}

// ---------------------------------------------------------------------------
// Response bodies
// ---------------------------------------------------------------------------

/// The bytes of the 1x1 transparent PNG served for every image request.
pub open spec fn spec_pixel() -> Seq<u8> {
    seq![
        0x89u8, 0x50, 0x4e, 0x47, 0x0d, 0x0a, 0x1a, 0x0a, 0x00, 0x00, 0x00, 0x0d, 0x49, 0x48,
        0x44, 0x52, 0x00, 0x00, 0x00, 0x01, 0x00, 0x00, 0x00, 0x01, 0x08, 0x06, 0x00, 0x00,
        0x00, 0x1f, 0x15, 0xc4, 0x89, 0x00, 0x00, 0x00, 0x0a, 0x49, 0x44, 0x41, 0x54, 0x78,
        0x9c, 0x63, 0x00, 0x01, 0x00, 0x00, 0x05, 0x00, 0x01, 0x0d, 0x0a, 0x2d, 0xb4, 0x00,
        0x00, 0x00, 0x00, 0x49, 0x45, 0x4e, 0x44, 0xae, 0x42, 0x60, 0x82,
    ]
}

/// The fixed pixel payload, identical for every request and content type.
pub fn pixel_bytes() -> (r: Vec<u8>)
    ensures
        r@ == spec_pixel(),
{
    let r: Vec<u8> = vec![
        0x89u8, 0x50, 0x4e, 0x47, 0x0d, 0x0a, 0x1a, 0x0a, 0x00, 0x00, 0x00, 0x0d, 0x49, 0x48,
        0x44, 0x52, 0x00, 0x00, 0x00, 0x01, 0x00, 0x00, 0x00, 0x01, 0x08, 0x06, 0x00, 0x00,
        0x00, 0x1f, 0x15, 0xc4, 0x89, 0x00, 0x00, 0x00, 0x0a, 0x49, 0x44, 0x41, 0x54, 0x78,
        0x9c, 0x63, 0x00, 0x01, 0x00, 0x00, 0x05, 0x00, 0x01, 0x0d, 0x0a, 0x2d, 0xb4, 0x00,
        0x00, 0x00, 0x00, 0x49, 0x45, 0x4e, 0x44, 0xae, 0x42, 0x60, 0x82,
    ];
    assert(r@ =~= spec_pixel());
    r
}

/// The ASCII bytes of the text `Not Found`.
pub open spec fn spec_not_found_body() -> Seq<u8> {
    seq![78u8, 111, 116, 32, 70, 111, 117, 110, 100]
}

pub fn not_found_body() -> (r: Vec<u8>)
    ensures
        r@ == spec_not_found_body(),
{
    let r: Vec<u8> = vec![78u8, 111, 116, 32, 70, 111, 117, 110, 100];
    assert(r@ =~= spec_not_found_body());
    r
}

/// The ASCII bytes of the text `Unsupported Media Type`.
pub open spec fn spec_unsupported_body() -> Seq<u8> {
    seq![
        85u8, 110, 115, 117, 112, 112, 111, 114, 116, 101, 100, 32, 77, 101, 100, 105, 97, 32,
        84, 121, 112, 101,
    ]
}

pub fn unsupported_body() -> (r: Vec<u8>)
    ensures
        r@ == spec_unsupported_body(),
{
    let r: Vec<u8> = vec![
        85u8, 110, 115, 117, 112, 112, 111, 114, 116, 101, 100, 32, 77, 101, 100, 105, 97, 32,
        84, 121, 112, 101,
    ];
    assert(r@ =~= spec_unsupported_body());
    r
}

// ---------------------------------------------------------------------------
// Responses
// ---------------------------------------------------------------------------

/// An HTTP response: status code, optional content-type header value, and
/// body bytes.
#[derive(Debug, Clone, PartialEq, Eq)]
pub struct HttpResponse {
    pub status: u16,
    pub content_type: Option<String>,
    pub body: Vec<u8>,
}

/// The mathematical shape of a response.
pub struct ResponseModel {
    pub status: int,
    pub content_type: Option<Seq<char>>,
    pub body: Seq<u8>,
}

pub open spec fn response_matches(r: HttpResponse, m: ResponseModel) -> bool {
    &&& r.status as int == m.status
    &&& match (r.content_type, m.content_type) {
        (Option::Some(c), Option::Some(mc)) => c@ == mc,
        (Option::None, Option::None) => true,
        _ => false,
    }
    &&& r.body@ == m.body
}

/// The response owed for a filename. The pixel payload is byte-identical
/// for every supported extension; only the declared content type differs.
pub open spec fn spec_response_for(f: Seq<char>) -> ResponseModel {
    match spec_ext_kind(f) {
        ExtKind::Missing => ResponseModel {
            status: 404,
            content_type: Option::None,
            body: spec_not_found_body(),
        },
        ExtKind::Png => ResponseModel {
            status: 200,
            content_type: Option::Some("image/png"@),
            body: spec_pixel(),
        },
        ExtKind::Webp => ResponseModel {
            status: 200,
            content_type: Option::Some("image/webp"@),
            body: spec_pixel(),
        },
        ExtKind::Jpeg => ResponseModel {
            status: 200,
            content_type: Option::Some("image/jpeg"@),
            body: spec_pixel(),
        },
        ExtKind::Unsupported => ResponseModel {
            status: 415,
            content_type: Option::None,
            body: spec_unsupported_body(),
        },
    }
}

/// Builds the response for a filename, as [`spec_response_for`] prescribes.
pub fn response_for(filename: &str) -> (r: HttpResponse)
    ensures
        response_matches(r, spec_response_for(filename@)),
{
    let chars = to_chars(filename);
    match ext_kind_of(&chars) {
        ExtKind::Missing => HttpResponse {
            status: 404,
            content_type: None,
            body: not_found_body(),
        },
        ExtKind::Png => HttpResponse {
            status: 200,
            content_type: Some("image/png".to_owned()),
            body: pixel_bytes(),
        },
        ExtKind::Webp => HttpResponse {
            status: 200,
            content_type: Some("image/webp".to_owned()),
            body: pixel_bytes(),
        },
        ExtKind::Jpeg => HttpResponse {
            status: 200,
            content_type: Some("image/jpeg".to_owned()),
            body: pixel_bytes(),
        },
        ExtKind::Unsupported => HttpResponse {
            status: 415,
            content_type: None,
            body: unsupported_body(),
        },
    }
}

// ---------------------------------------------------------------------------
// The request handler
// ---------------------------------------------------------------------------

/// The query parameters of a pixel request. The identifier is optional:
/// a request without one is still served, with nothing to decode.
#[derive(Debug, Clone)]
pub struct MailTrackingParams {
    /// One or more recipient addresses, comma-separated, unvalidated.
    pub email: String,
    pub subject: String,
    /// The textual form of the tracking identifier, if the request had one.
    pub uuid: Option<String>,
}

/// Everything the handler wants logged. Purely observational: nothing in
/// it alters the response.
#[derive(Debug)]
pub struct LogRecord {
    /// Client-identifying header value: the forwarded-for header if
    /// present, else the host header, else nothing.
    pub client: Option<String>,
    /// The email field split on commas, each entry passed through as-is.
    pub emails: Vec<String>,
    pub subject: String,
    /// The identifier parameter exactly as it arrived, if it did.
    pub uuid_raw: Option<String>,
    /// The decode outcome; absent when no identifier was given.
    pub outcome: Option<Result<TrackingIdentifier, DecodeError>>,
}

/// A handled request: the response to send and the record to log.
pub struct Handled {
    pub response: HttpResponse,
    pub log: LogRecord,
}

/// The character views of a list of strings.
pub open spec fn string_views(ss: Seq<String>) -> Seq<Seq<char>> {
    ss.map_values(|s: String| s@)
}

/// Splits the recipient field on commas, without trimming or validation.
pub fn split_emails(email: &str) -> (r: Vec<String>)
    ensures
        string_views(r@) == split_commas(email@),
{
    let chars = to_chars(email);
    let toks = split_on_commas(&chars);
    let mut r: Vec<String> = Vec::new();
    let mut i: usize = 0;
    while i < toks.len()
        invariant
            i <= toks@.len(),
            string_views(r@) == views_of(toks@).take(i as int),
        decreases toks@.len() - i,
    {
        let s = string_of_chars(&toks[i]);
        let ghost old_r = r@;
        r.push(s);
        proof {
            assert(string_views(r@) =~= string_views(old_r).push(toks@[i as int]@));
            assert(views_of(toks@).take(i as int).push(views_of(toks@)[i as int]) =~= views_of(
                toks@,
            ).take(i as int + 1));
        }
        i += 1;
    }
    proof {
        assert(views_of(toks@).take(toks@.len() as int) =~= views_of(toks@));
    }
    r
}

/// Handles one pixel request.
///
/// The response is a pure function of the filename; the decode outcome and
/// everything else in the log record never block or alter it. The client
/// value prefers the forwarded-for header and falls back to the host
/// header; it is only for logging, never for access control.
pub fn handle(
    filename: &str,
    params: MailTrackingParams,
    forwarded_for: Option<String>,
    host: Option<String>,
) -> (h: Handled)
    ensures
        response_matches(h.response, spec_response_for(filename@)),
        forwarded_for is Some ==> h.log.client == forwarded_for,
        forwarded_for is None ==> h.log.client == host,
        string_views(h.log.emails@) == split_commas(params.email@),
        h.log.subject == params.subject,
        h.log.uuid_raw == params.uuid,
        params.uuid is None ==> h.log.outcome is None,
        params.uuid matches Some(u) ==> h.log.outcome matches Some(res)
            && decode_result_matches(res, spec_decode(u@)),
{
    let client = if forwarded_for.is_some() {
        forwarded_for
    } else {
        host
    };
    let emails = split_emails(params.email.as_str());
    let (outcome, uuid_raw) = match params.uuid {
        Some(u) => {
            let res = decode(u.as_str());
            (Some(res), Some(u))
        },
        None => (None, None),
    };
    let response = response_for(filename);
    Handled {
        response,
        log: LogRecord { client, emails, subject: params.subject, uuid_raw, outcome },
    }
}

// ---------------------------------------------------------------------------
// Laws of the handler
// ---------------------------------------------------------------------------

/// Idempotence: any two responses produced for the same filename are
/// byte-identical — same status, same content type, same body. There is no
/// hidden per-request state.
pub proof fn lemma_response_idempotent(f: Seq<char>, r1: HttpResponse, r2: HttpResponse)
    requires
        response_matches(r1, spec_response_for(f)),
        response_matches(r2, spec_response_for(f)),
    ensures
        r1.status == r2.status,
        r1.body@ == r2.body@,
        match (r1.content_type, r2.content_type) {
            (Option::Some(a), Option::Some(b)) => a@ == b@,
            (Option::None, Option::None) => true,
            _ => false,
        },
{
}

/// The pixel payload served for every supported extension is the same
/// byte sequence; only the declared content type distinguishes them.
pub proof fn lemma_same_payload(f1: Seq<char>, f2: Seq<char>)
    requires
        spec_response_for(f1).status == 200,
        spec_response_for(f2).status == 200,
    ensures
        spec_response_for(f1).body == spec_response_for(f2).body,
{
}

} // verus!