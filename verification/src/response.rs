//! Answers to requests.

use vstd::prelude::*;
use vstd::utf8::*;

use crate::disposition;
use crate::text;

verus! {

/// What follows the headers of an answer.
#[derive(Debug)]
pub enum Payload {
    /// Nothing.
    Empty,
    /// A web page.
    Page(String),
    /// The archive that is being written.
    Archive,
}

/// An answer to a request. A header that is absent is not sent.
#[derive(Debug)]
pub struct Response {
    pub status: u16,
    pub content_type: Option<String>,
    pub content_length: Option<u64>,
    pub location: Option<String>,
    pub content_disposition: Option<Vec<u8>>,
    pub set_cookie: Option<String>,
    pub payload: Payload,
}

/// The model of [`Payload`].
pub enum PayloadView {
    Empty,
    Page(Seq<char>),
    Archive,
}

/// The model of [`Response`].
pub struct ResponseView {
    pub status: u16,
    pub content_type: Option<Seq<char>>,
    pub content_length: Option<nat>,
    pub location: Option<Seq<char>>,
    pub content_disposition: Option<Seq<u8>>,
    pub set_cookie: Option<Seq<char>>,
    pub payload: PayloadView,
}

impl View for Payload {
    type V = PayloadView;

    open spec fn view(&self) -> PayloadView {
        match *self {
            Payload::Empty => PayloadView::Empty,
            Payload::Page(page) => PayloadView::Page(page@),
            Payload::Archive => PayloadView::Archive,
        }
    }
}

impl View for Response {
    type V = ResponseView;

    open spec fn view(&self) -> ResponseView {
        ResponseView {
            status: self.status,
            content_type: text::text_view(self.content_type),
            content_length: match self.content_length {
                Some(len) => Some(len as nat),
                None => None,
            },
            location: text::text_view(self.location),
            content_disposition: match self.content_disposition {
                Some(value) => Some(value@),
                None => None,
            },
            set_cookie: text::text_view(self.set_cookie),
            payload: self.payload@,
        }
    }
}

/// An answer that consists of its status.
pub open spec fn bare(status: u16) -> ResponseView {
    ResponseView {
        status,
        content_type: None,
        content_length: None,
        location: None,
        content_disposition: None,
        set_cookie: None,
        payload: PayloadView::Empty,
    }
}

/// The answer that is a web page.
pub open spec fn page_view(page: Seq<char>) -> ResponseView {
    ResponseView {
        content_type: Some("text/html; charset=utf-8"@),
        content_length: Some(encode_utf8(page).len()),
        payload: PayloadView::Page(page),
        ..bare(200)
    }
}

/// The answer that sends the client elsewhere.
pub open spec fn found_view(location: Seq<char>) -> ResponseView {
    ResponseView { location: Some(location), ..bare(302) }
}

/// The answer that is an archive of the given name and length.
pub open spec fn archive_view(name: Seq<u8>, len: nat) -> ResponseView {
    ResponseView {
        content_type: Some("application/x-tar"@),
        content_length: Some(len),
        content_disposition: Some(disposition::disposition(name)),
        payload: PayloadView::Archive,
        ..bare(200)
    }
}

fn bare_response(status: u16) -> (response: Response)
    ensures
        response@ == bare(status),
{
    Response {
        status,
        content_type: None,
        content_length: None,
        location: None,
        content_disposition: None,
        set_cookie: None,
        payload: Payload::Empty,
    }
}

/// Answers with a web page.
pub fn page(markup: String) -> (response: Response)
    ensures
        response@ == page_view(markup@),
{
    let len: u64 = markup.as_str().as_bytes().len() as u64;
    Response {
        status: 200,
        content_type: Some("text/html; charset=utf-8".to_owned()),
        content_length: Some(len),
        location: None,
        content_disposition: None,
        set_cookie: None,
        payload: Payload::Page(markup),
    }
}

/// Sends the client elsewhere.
pub fn found(location: String) -> (response: Response)
    ensures
        response@ == found_view(location@),
{
    let mut response = bare_response(302);
    response.location = Some(location);
    response
}

/// Answers with an archive of the given name and length.
pub fn archive(name: &[u8], len: u64) -> (response: Response)
    ensures
        response@ == archive_view(name@, len as nat),
{
    Response {
        status: 200,
        content_type: Some("application/x-tar".to_owned()),
        content_length: Some(len),
        location: None,
        content_disposition: Some(disposition::content_disposition(name)),
        set_cookie: None,
        payload: Payload::Archive,
    }
}

/// Answers that the request makes no sense.
pub fn bad_request() -> (response: Response)
    ensures
        response@ == bare(400),
{
    bare_response(400)
}

/// Answers that the method is not supported.
pub fn method_not_allowed() -> (response: Response)
    ensures
        response@ == bare(405),
{
    bare_response(405)
}

/// Answers that something went wrong.
pub fn internal_server_error() -> (response: Response)
    ensures
        response@ == bare(500),
{
    bare_response(500)
}

/// The model of an answer holds what the answer holds.
pub proof fn lemma_response_view(response: Response)
    ensures
        response@.status == response.status,
        response@.content_type == (match response.content_type {
            Some(value) => Some(value@),
            None => None,
        }),
        response@.content_length == (match response.content_length {
            Some(value) => Some(value as nat),
            None => None,
        }),
        response@.location == (match response.location {
            Some(value) => Some(value@),
            None => None,
        }),
        response@.content_disposition == (match response.content_disposition {
            Some(value) => Some(value@),
            None => None,
        }),
        response@.set_cookie == (match response.set_cookie {
            Some(value) => Some(value@),
            None => None,
        }),
        match response.payload {
            Payload::Empty => response@.payload is Empty,
            Payload::Page(page) => response@.payload == PayloadView::Page(page@),
            Payload::Archive => response@.payload is Archive,
        },
{
}

/// An answer that consists of its status has no header and nothing behind the headers.
pub proof fn lemma_bare(status: u16)
    ensures
        bare(status).status == status,
        bare(status).content_type is None,
        bare(status).content_length is None,
        bare(status).location is None,
        bare(status).content_disposition is None,
        bare(status).set_cookie is None,
        bare(status).payload is Empty,
{
}

/// A web page is sent whole, as HTML, with the number of its bytes.
pub proof fn lemma_page(markup: Seq<char>)
    ensures
        page_view(markup).status == 200,
        page_view(markup).payload == PayloadView::Page(markup),
        page_view(markup).content_length == Some(encode_utf8(markup).len()),
        page_view(markup).content_type == Some("text/html; charset=utf-8"@),
        page_view(markup).location is None,
        page_view(markup).content_disposition is None,
        page_view(markup).set_cookie is None,
{
}

/// A client is sent to the very location that is given.
pub proof fn lemma_found(location: Seq<char>)
    ensures
        found_view(location).status == 302,
        found_view(location).location == Some(location),
        found_view(location).content_type is None,
        found_view(location).content_length is None,
        found_view(location).content_disposition is None,
        found_view(location).set_cookie is None,
        found_view(location).payload is Empty,
{
}

/// An archive is announced with its length, and under a name that is read off the header as it was
/// given.
pub proof fn lemma_archive(name: Seq<u8>, len: nat)
    ensures
        archive_view(name, len).status == 200,
        archive_view(name, len).payload is Archive,
        archive_view(name, len).content_length == Some(len),
        archive_view(name, len).content_type == Some("application/x-tar"@),
        archive_view(name, len).location is None,
        archive_view(name, len).set_cookie is None,
        ({
            let start = encode_utf8("attachment; filename*=ISO-8859-1''"@);
            &&& archive_view(name, len).content_disposition matches Some(value)
            &&& value.len() >= start.len()
            &&& value.take(start.len() as int) == start
            &&& crate::percent::percent_decoded(value.skip(start.len() as int)) == name
        }),
{
    disposition::lemma_disposition(name);
}

} // verus!
