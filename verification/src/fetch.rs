//! Fetching: the request that a script's call makes, and the answer that it is given.
use crate::address;
use crate::address::{PartsView, UrlParts};
use crate::bytes;
use crate::file;
use crate::file::BlobEntry;
use crate::formdata;
use crate::formdata::{FormDataState, ValueView};
use crate::registry;
use crate::registry::Registry;
use crate::text;
use vstd::prelude::*;
use vstd::string::*;
use vstd::utf8::*;

verus! {

/// A request to send: with a body it is posted, without one it is got.
pub struct FetchRequest {
    pub url: String,
    pub post: Option<Vec<u8>>,
    /// The type that a body is sent as.
    pub content_type: String,
}

/// A request over plain values.
pub struct RequestView {
    pub url: Seq<char>,
    pub post: Option<Seq<u8>>,
    pub content_type: Seq<char>,
}

impl View for FetchRequest {
    type V = RequestView;

    open spec fn view(&self) -> RequestView {
        RequestView {
            url: self.url@,
            post: match self.post {
                Some(b) => Some(b@),
                None => None,
            },
            content_type: self.content_type@,
        }
    }
}

/// The type that a posted text is sent as.
pub fn post_content_type() -> (r: String)
    ensures
        r@ == "application/x-www-form-urlencoded"@,
{
    text::copy("application/x-www-form-urlencoded")
}

/// The answer that a script is given.
pub struct ResponseInfo {
    pub ok: bool,
    pub status: u32,
    pub status_text: String,
    pub url: String,
    pub body: String,
}

/// An answer over plain values.
pub struct ResponseView {
    pub ok: bool,
    pub status: u32,
    pub status_text: Seq<char>,
    pub url: Seq<char>,
    pub body: Seq<char>,
}

impl View for ResponseInfo {
    type V = ResponseView;

    open spec fn view(&self) -> ResponseView {
        ResponseView {
            ok: self.ok,
            status: self.status,
            status_text: self.status_text@,
            url: self.url@,
            body: self.body@,
        }
    }
}

/// The answer to a request that failed, with the reason.
pub open spec fn failed_response(url: Seq<char>, reason: Seq<char>) -> ResponseView {
    ResponseView { ok: false, status: 0, status_text: reason, url, body: ""@ }
}

/// The answer to a request that failed, with the reason.
pub fn make_failed_response(url: &str, reason: &str) -> (r: ResponseInfo)
    ensures
        r@ == failed_response(url@, reason@),
{
    ResponseInfo {
        ok: false,
        status: 0,
        status_text: text::copy(reason),
        url: text::copy(url),
        body: text::copy(""),
    }
}

/// The answer to a request that a server answered: fine where its status says so.
pub fn make_response_object(url: &str, status: u16, reason: &str, body: &Vec<u8>) -> (r: ResponseInfo)
    ensures
        r@ == (ResponseView {
            ok: 200 <= status < 300,
            status: status as u32,
            status_text: reason@,
            url: url@,
            body: file::lossy_text(body@),
        }),
        valid_utf8(body@) ==> r@.body == decode_utf8(body@),
        r@.ok == (status / 100 == 2),
{
    ResponseInfo {
        ok: 200 <= status && status < 300,
        status: status as u32,
        status_text: text::copy(reason),
        url: text::copy(url),
        body: file::from_utf8_lossy(body),
    }
}

/// Whether a method, in capital letters, is the one that posts.
pub open spec fn is_post(method: Option<Seq<char>>) -> bool {
    method is Some && text::unicode_upper(method->0) == "POST"@
}

/// The request to an address: posted where the method says so, with a text as its body.
pub open spec fn request_to(
    target: PartsView,
    method: Option<Seq<char>>,
    body: Option<Seq<char>>,
) -> RequestView {
    RequestView {
        url: target.href,
        post: if is_post(method) {
            Some(
                match body {
                    Some(b) => encode_utf8(b),
                    None => Seq::empty(),
                },
            )
        } else {
            None
        },
        content_type: "application/x-www-form-urlencoded"@,
    }
}

/// The request to an address: posted where the method says so, with form data as its body, whose
/// parting line is made from a time stamp.
pub open spec fn form_request_to(
    target: PartsView,
    method: Option<Seq<char>>,
    form: Seq<(Seq<char>, ValueView)>,
    stamp: u128,
) -> RequestView {
    RequestView {
        url: target.href,
        post: if is_post(method) {
            Some(formdata::body_of(formdata::boundary_of(stamp), form))
        } else {
            None
        },
        content_type: "multipart/form-data; boundary="@ + formdata::boundary_of(stamp),
    }
}

fn posts(method: Option<&str>) -> (r: bool)
    ensures
        r == is_post(opt_view(method)),
{
    match method {
        Some(m) => {
            let up = text::to_unicode_upper(m);
            text::same(&up, "POST")
        },
        None => false,
    }
}

/// The view of an optional text.
pub open spec fn opt_view(s: Option<&str>) -> Option<Seq<char>> {
    match s {
        Some(t) => Some(t@),
        None => None,
    }
}

/// The request that a call makes once its address is resolved; a call whose address cannot be
/// is answered at once.
pub fn plan_fetch(
    target: Option<UrlParts>,
    url: &str,
    method: Option<&str>,
    body: Option<&str>,
) -> (r: Result<FetchRequest, ResponseInfo>)
    ensures
        match address::opt_parts(target) {
            Some(t) => r matches Ok(q) && q@ == request_to(t, opt_view(method), opt_view(body)),
            None => r matches Err(e) && e@ == failed_response(url@, "invalid-url"@),
        },
{
    let t = match target {
        Some(t) => t,
        None => {
            return Err(make_failed_response(url, "invalid-url"));
        },
    };
    let post = if posts(method) {
        match body {
            Some(b) => Some(bytes::copy_bytes(b.as_bytes())),
            None => {
                let none: Vec<u8> = Vec::new();
                proof {
                    assert(none@ =~= Seq::empty());
                }
                Some(none)
            },
        }
    } else {
        None
    };
    Ok(FetchRequest { url: t.href, post, content_type: post_content_type() })
}

/// The request that a call of a script makes, with its address seen from the page's; a call
/// whose address cannot be resolved is answered at once.
pub fn js_fetch(base: Option<&str>, url: &str, method: Option<&str>, body: Option<&str>) -> (r:
    Result<FetchRequest, ResponseInfo>)
    ensures
        match address::resolved(opt_view(base), url@) {
            Some(t) => r matches Ok(q) && q@ == request_to(t, opt_view(method), opt_view(body)),
            None => r matches Err(e) && e@ == failed_response(url@, "invalid-url"@),
        },
{
    let target = address::resolve(base, url);
    plan_fetch(target, url, method, body)
}

/// The request that a call of a script makes with form data as its body, once its address is
/// resolved; a call whose address cannot be is answered at once.
pub fn plan_form_fetch(
    target: Option<UrlParts>,
    url: &str,
    method: Option<&str>,
    form: &FormDataState,
    stamp: u128,
) -> (r: Result<FetchRequest, ResponseInfo>)
    ensures
        match address::opt_parts(target) {
            Some(t) => r matches Ok(q) && q@ == form_request_to(t, opt_view(method), form@, stamp),
            None => r matches Err(e) && e@ == failed_response(url@, "invalid-url"@),
        },
{
    let t = match target {
        Some(t) => t,
        None => {
            return Err(make_failed_response(url, "invalid-url"));
        },
    };
    let (body, content_type) = formdata::serialise_formdata(form, stamp);
    let post = if posts(method) {
        Some(body)
    } else {
        None
    };
    Ok(FetchRequest { url: t.href, post, content_type })
}

/// The request that a call of a script makes with form data as its body, with its address seen from
/// the page's; a call whose address cannot be resolved is answered at once.
pub fn fetch_form(
    base: Option<&str>,
    url: &str,
    method: Option<&str>,
    form: &FormDataState,
    stamp: u128,
) -> (r: Result<FetchRequest, ResponseInfo>)
    ensures
        match address::resolved(opt_view(base), url@) {
            Some(t) => r matches Ok(q) && q@ == form_request_to(t, opt_view(method), form@, stamp),
            None => r matches Err(e) && e@ == failed_response(url@, "invalid-url"@),
        },
{
    let target = address::resolve(base, url);
    plan_form_fetch(target, url, method, form, stamp)
}

/// The answer for the address of a blob, where it stands for one: the blob itself.
pub fn fetch_object(urls: &Vec<(String, u32)>, blobs: &Registry<BlobEntry>, url: &str) -> (r: Option<
    ResponseInfo,
>)
    ensures
        match file::object_at(file::urls_view(urls@), registry::views(blobs@), url@) {
            Some(b) => r matches Some(a) && a@ == (ResponseView {
                ok: true,
                status: 200,
                status_text: "OK"@,
                url: url@,
                body: file::lossy_text(b.bytes),
            }),
            None => r is None,
        },
{
    match file::resolve_object_url(urls, blobs, url) {
        Some(b) => Some(make_response_object(url, 200, "OK", &b.bytes)),
        None => None,
    }
}

/// What became of a request that was sent, or was not for want of a way to send it.
pub enum FetchOutcome {
    Answered { status: u16, reason: String, body: Vec<u8> },
    Failed(String),
    NoClient,
}

/// The answer that a script is given for what became of its request.
pub fn answer_fetch(url: &str, outcome: &FetchOutcome) -> (r: ResponseInfo)
    ensures
        match *outcome {
            FetchOutcome::Answered { status, reason, body } => r@ == (ResponseView {
                ok: 200 <= status < 300,
                status: status as u32,
                status_text: reason@,
                url: url@,
                body: file::lossy_text(body@),
            }),
            FetchOutcome::Failed(e) => r@ == failed_response(url@, e@),
            FetchOutcome::NoClient => r@ == failed_response(url@, "no-fetch-client"@),
        },
{
    match outcome {
        FetchOutcome::Answered { status, reason, body } => make_response_object(
            url,
            *status,
            reason,
            body,
        ),
        FetchOutcome::Failed(e) => make_failed_response(url, e),
        FetchOutcome::NoClient => make_failed_response(url, "no-fetch-client"),
    }
}

/// A request goes to its address. It has a body just where its method is the one that posts, and the
/// body is the text that was given, or nothing where none was.
pub proof fn requests_post_their_body(
    target: PartsView,
    method: Option<Seq<char>>,
    body: Seq<char>,
    form: Seq<(Seq<char>, ValueView)>,
    stamp: u128,
)
    ensures
        request_to(target, method, Some(body)).url == target.href,
        form_request_to(target, method, form, stamp).url == target.href,
        request_to(target, method, Some(body)).post is Some <==> method is Some
            && text::unicode_upper(method->0) == "POST"@,
        form_request_to(target, method, form, stamp).post is Some <==> request_to(
            target,
            method,
            None,
        ).post is Some,
        request_to(target, method, Some(body)).post matches Some(b) ==> decode_utf8(b) == body,
        request_to(target, method, None).post matches Some(b) ==> b.len() == 0,
        form_request_to(target, method, form, stamp).post matches Some(b) ==> b
            == formdata::body_of(formdata::boundary_of(stamp), form),
        text::ends(
            form_request_to(target, method, form, stamp).content_type,
            formdata::boundary_of(stamp),
        ),
        text::begins(form_request_to(target, method, form, stamp).content_type,
            "multipart/form-data; boundary="@),
        request_to(target, method, Some(body)).content_type == "application/x-www-form-urlencoded"@,
{
    encode_utf8_decode_utf8(body);
    let a = "multipart/form-data; boundary="@;
    let b = formdata::boundary_of(stamp);
    text::beginnings_and_ends(a + b, a, b);
    text::beginnings_and_ends(a + b, b, a);
}

/// A request that failed is answered as not fine, with no status, no body and the reason.
pub proof fn failures_tell_their_reason(url: Seq<char>, reason: Seq<char>)
    ensures
        !failed_response(url, reason).ok,
        failed_response(url, reason).status == 0,
        failed_response(url, reason).status_text == reason,
        failed_response(url, reason).url == url,
        failed_response(url, reason).body.len() == 0,
{
    reveal_strlit("");
}

} // verus!
