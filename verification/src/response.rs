//! Complete HTTP responses for every outcome of a request.
//!
//! A request either fails while its path is decoded or resolved, or it names
//! a file whose bytes are returned, or a directory whose index listing is
//! rendered. Each failure kind maps to one status code and one short fixed
//! plain-text body, so no filesystem detail reaches the client.
use crate::entries::Entry;
use crate::entries::entries_view;
use crate::entries::sort_entries;
use crate::entries::sorted_names;
use crate::percent::decode_path;
use crate::percent::pct_decode;
use crate::render::listing_html;
use crate::render::render_listing;
use vstd::prelude::*;
use vstd::string::StrSliceExecFns;
use vstd::string::StringExecFns;
use vstd::string::StringSliceAdditionalSpecFns;
use vstd::utf8::encode_utf8;

verus! {

/// The ways a request fails: a malformed path segment, a target that does
/// not exist, a file that cannot be read, a directory that cannot be read.
pub enum ServeError {
    BadRequest,
    NotFound,
    ForbiddenFile,
    ForbiddenDir,
}

/// The HTTP status of each failure.
pub open spec fn status_of(e: ServeError) -> int {
    match e {
        ServeError::BadRequest => 400,
        ServeError::NotFound => 404,
        ServeError::ForbiddenFile => 403,
        ServeError::ForbiddenDir => 403,
    }
}

/// The short fixed plain-text body of each failure.
pub open spec fn message_of(e: ServeError) -> Seq<char> {
    match e {
        ServeError::BadRequest => "Bad URL encoding"@,
        ServeError::NotFound => "Not found"@,
        ServeError::ForbiddenFile => "Cannot read file"@,
        ServeError::ForbiddenDir => "Cannot read directory"@,
    }
}

/// A complete response: status code, content type, and body bytes.
#[derive(Debug)]
pub struct HttpResponse {
    pub status: u16,
    pub content_type: String,
    pub body: Vec<u8>,
}

/// The response of a failed request: its status, a plain-text content type,
/// and exactly the failure's short fixed message as body - nothing of the
/// filesystem is echoed back.
pub fn error_response(e: ServeError) -> (r: HttpResponse)
    ensures
        r.status == status_of(e),
        r.content_type@ == "text/plain; charset=utf-8"@,
        r.body@ == encode_utf8(message_of(e)),
{
    let content_type = String::from_str("text/plain; charset=utf-8");
    match e {
        ServeError::BadRequest => HttpResponse {
            status: 400,
            content_type,
            body: "Bad URL encoding".as_bytes_vec(),
        },
        ServeError::NotFound => HttpResponse {
            status: 404,
            content_type,
            body: "Not found".as_bytes_vec(),
        },
        ServeError::ForbiddenFile => HttpResponse {
            status: 403,
            content_type,
            body: "Cannot read file".as_bytes_vec(),
        },
        ServeError::ForbiddenDir => HttpResponse {
            status: 403,
            content_type,
            body: "Cannot read directory".as_bytes_vec(),
        },
    }
}

/// The content type guessed for a file name, as decided by the lookup table.
pub uninterp spec fn mime_of_name(name: Seq<char>) -> Seq<char>;

/// Relies on `mime_guess::from_path(..).first_or_octet_stream()`: the guess
/// is a lookup of the name's extension in a fixed compiled-in table, so it
/// depends on the file name alone; a name with no mapped extension gives
/// `application/octet-stream`.
#[verifier::external_body]
fn guess_mime(name: &str) -> (r: String)
    ensures
        r@ == mime_of_name(name@),
{
    mime_guess::from_path(name).first_or_octet_stream().as_ref().to_owned()
}

/// The successful response for a regular file: status 200, the content type
/// guessed from the file's name, and exactly the file's bytes as body.
pub fn file_response(name: &str, contents: Vec<u8>) -> (r: HttpResponse)
    ensures
        r.status == 200,
        r.content_type@ == mime_of_name(name@),
        r.body@ == contents@,
{
    HttpResponse { status: 200, content_type: guess_mime(name), body: contents }
}

/// The successful response for a directory: status 200, an HTML content
/// type, and the index document of the given entries brought into listing
/// order, with the up-link present exactly when the directory is the root's
/// proper descendant.
pub fn directory_response(entries: Vec<Entry>, is_root: bool) -> (r: HttpResponse)
    ensures
        r.status == 200,
        r.content_type@ == "text/html; charset=utf-8"@,
        exists|s: Seq<(Seq<char>, bool)>|
            sorted_names(s) && s.to_multiset() == entries_view(entries@).to_multiset()
                && r.body@ == encode_utf8(#[trigger] listing_html(s, is_root)),
{
    let ghost input = entries_view(entries@);
    let sorted = sort_entries(entries);
    let html = render_listing(&sorted, is_root);
    let body = html.as_str().as_bytes_vec();
    proof {
        let s = entries_view(sorted@);
        assert(sorted_names(s) && s.to_multiset() == input.to_multiset() && body@ == encode_utf8(
            listing_html(s, is_root),
        ));
    }
    HttpResponse { status: 200, content_type: String::from_str("text/html; charset=utf-8"), body }
}

/// Decodes the raw path segment of a request. A segment with invalid
/// percent-encoding yields the complete bad-request response, and only such
/// a segment does; any other segment yields exactly its decoded bytes.
pub fn resolve_request_path(raw: &str) -> (r: Result<Vec<u8>, HttpResponse>)
    ensures
        pct_decode(raw.spec_bytes()) is Some ==> r is Ok && r->Ok_0@ == pct_decode(
            raw.spec_bytes(),
        ).unwrap(),
        pct_decode(raw.spec_bytes()) is None ==> r is Err && r->Err_0.status == status_of(
            ServeError::BadRequest,
        ) && r->Err_0.body@ == encode_utf8(message_of(ServeError::BadRequest)),
{
    match decode_path(raw) {
        Some(decoded) => Ok(decoded),
        None => Err(error_response(ServeError::BadRequest)),
    }
}

} // verus!
