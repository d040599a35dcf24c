//! Response generation: the traversal guard over the resolved path, the
//! three response kinds (file, directory listing, not-found), and the exact
//! wire serialization.
//!
//! The status and accept-ranges lines end with a bare line feed while the
//! header block ends with CRLF CRLF; that asymmetry is kept byte-for-byte,
//! as is the listing page's whitespace.
use vstd::prelude::*;

use crate::request::{version_text, HttpRequest, Version};
use crate::text::{dec_str, usize_to_dec};
use vstd::utf8::encode_utf8;

verus! {

/// The response status line's code and reason.
#[derive(Debug, Clone, Copy, PartialEq, Eq, Structural)]
pub enum ResponseStatus {
    OK,
    NotFound,
}

/// The wire text of a status.
pub open spec fn status_text(s: ResponseStatus) -> Seq<char> {
    match s {
        ResponseStatus::OK => "200 OK"@,
        ResponseStatus::NotFound => "404 NOT FOUND"@,
    }
}

impl ResponseStatus {
    /// The status's wire text, `200 OK` or `404 NOT FOUND`.
    pub fn render(&self) -> (r: &'static str)
        ensures
            r@ == status_text(*self),
    {
        match self {
            ResponseStatus::OK => "200 OK",
            ResponseStatus::NotFound => "404 NOT FOUND",
        }
    }

    /// The numeric status code.
    pub fn code(&self) -> (r: u16)
        ensures
            r == match *self {
                ResponseStatus::OK => 200u16,
                ResponseStatus::NotFound => 404u16,
            },
    {
        match self {
            ResponseStatus::OK => 200,
            ResponseStatus::NotFound => 404,
        }
    }
}

/// Whether the response advertises byte-range support. `Absent` is rendered
/// as `accept-ranges: none`.
#[derive(Debug, Clone, Copy, PartialEq, Eq, Structural)]
pub enum AcceptRanges {
    Bytes,
    Absent,
}

/// The wire text of an accept-ranges line.
pub open spec fn ranges_text(a: AcceptRanges) -> Seq<char> {
    match a {
        AcceptRanges::Bytes => "accept-ranges: bytes"@,
        AcceptRanges::Absent => "accept-ranges: none"@,
    }
}

impl AcceptRanges {
    /// The accept-ranges line's wire text.
    pub fn render(&self) -> (r: &'static str)
        ensures
            r@ == ranges_text(*self),
    {
        match self {
            AcceptRanges::Bytes => "accept-ranges: bytes",
            AcceptRanges::Absent => "accept-ranges: none",
        }
    }
}

/// The head of the wire response: status line and headers, up to and
/// including the CRLF CRLF that separates them from the body.
pub open spec fn head_text(
    v: Version,
    st: ResponseStatus,
    ar: AcceptRanges,
    ct: Seq<char>,
    n: int,
) -> Seq<char> {
    version_text(v) + " "@ + status_text(st) + "\n"@ + ranges_text(ar) + "\ncontent-type: "@ + ct
        + "\ncontent-length: "@ + dec_str(n) + "\r\n\r\n"@
}

/// The full wire response: the UTF-8 bytes of the head followed by the raw
/// content bytes.
pub open spec fn serialized_response(
    v: Version,
    st: ResponseStatus,
    ar: AcceptRanges,
    ct: Seq<char>,
    n: int,
    content: Seq<u8>,
) -> Seq<u8> {
    encode_utf8(head_text(v, st, ar, ct, n)) + content
}

/// Serialize a response to its exact wire bytes.
pub fn response(
    version: Version,
    status: ResponseStatus,
    accept_ranges: AcceptRanges,
    content_type: &str,
    content_length: usize,
    content: Vec<u8>,
) -> (r: Vec<u8>)
    ensures
        r@ == serialized_response(
            version,
            status,
            accept_ranges,
            content_type@,
            content_length as int,
            content@,
        ),
{
    let mut head: String = version.render().to_owned();
    head.append(" ");
    head.append(status.render());
    head.append("\n");
    head.append(accept_ranges.render());
    head.append("\ncontent-type: ");
    head.append(content_type);
    head.append("\ncontent-length: ");
    let n: String = usize_to_dec(content_length);
    head.append(n.as_str());
    head.append("\r\n\r\n");
    proof {
        assert(head@ =~= head_text(
            version,
            status,
            accept_ranges,
            content_type@,
            content_length as int,
        ));
    }
    let mut out: Vec<u8> = head.as_str().as_bytes_vec();
    let mut tail: Vec<u8> = content;
    out.append(&mut tail);
    out
}

/// What `infer`'s magic-number sniffing returns for given bytes: a MIME
/// type where a known signature matches, nothing otherwise. The result is a
/// function of the bytes alone.
pub uninterp spec fn sniffed_mime(b: Seq<u8>) -> Option<Seq<char>>;

/// Relies on infer::get: matches the buffer against its built-in magic
/// numbers and names the MIME type of the first matcher that accepts it,
/// deterministically in the bytes.
#[verifier::external_body]
fn sniff_mime(content: &Vec<u8>) -> (r: Option<String>)
    ensures
        match r {
            Some(m) => sniffed_mime(content@) == Some(m@),
            None => sniffed_mime(content@) is None,
        },
{
    infer::get(content.as_slice()).map(|k| k.mime_type().to_string())
}

/// The content type a file response carries: the sniffed MIME type, with
/// `text/plain` as the fallback when no signature matches.
pub open spec fn mime_text(b: Seq<u8>) -> Seq<char> {
    match sniffed_mime(b) {
        Some(m) => m,
        None => "text/plain"@,
    }
}

/// What `url_escape::encode_path` returns for a given string: the text with
/// the path percent-encode set escaped, a function of the text alone.
pub uninterp spec fn path_encoded(s: Seq<char>) -> Seq<char>;

/// Relies on url_escape::encode_path: percent-encodes the path
/// percent-encode set, deterministically in the input text.
#[verifier::external_body]
fn encode_path_str(s: &str) -> (r: String)
    ensures
        r@ == path_encoded(s@),
{
    url_escape::encode_path(s).into_owned()
}

/// What `url_escape::decode` returns for a given string: its
/// percent-encoded byte sequences decoded, with invalid UTF-8 replaced
/// lossily, a function of the text alone.
pub uninterp spec fn percent_decoded(s: Seq<char>) -> Seq<char>;

/// Relies on url_escape::decode: percent-decodes the text with lossy UTF-8,
/// deterministically in the input text.
#[verifier::external_body]
fn decode_resource(s: &str) -> (r: String)
    ensures
        r@ == percent_decoded(s@),
{
    url_escape::decode(s).into_owned()
}

/// A single response, already serialized: the head fields it was built
/// from, the resolved path it answers for, and the exact wire bytes.
#[derive(Debug)]
pub struct HttpResponse {
    pub version: Version,
    pub status: ResponseStatus,
    pub content_type: String,
    pub content_length: usize,
    pub accept_ranges: AcceptRanges,
    pub response_body: Vec<u8>,
    pub current_path: String,
}

/// Build the response for an existing regular file from its full contents:
/// status 200, sniffed content type, byte-range support advertised, and the
/// file bytes as the body.
pub fn file_response(resource_file_path: String, content: Vec<u8>) -> (r: HttpResponse)
    ensures
        r.version == Version::V1_1,
        r.status == ResponseStatus::OK,
        r.accept_ranges == AcceptRanges::Bytes,
        r.content_type@ == mime_text(content@),
        r.content_length == content@.len(),
        r.current_path@ == resource_file_path@,
        r.response_body@ == serialized_response(
            Version::V1_1,
            ResponseStatus::OK,
            AcceptRanges::Bytes,
            mime_text(content@),
            content@.len() as int,
            content@,
        ),
{
    let version = Version::V1_1;
    let status = ResponseStatus::OK;
    let accept_ranges = AcceptRanges::Bytes;
    let content_type: String = match sniff_mime(&content) {
        Some(m) => m,
        None => "text/plain".to_owned(),
    };
    let content_length: usize = content.len();
    let response_body = response(
        version,
        status,
        accept_ranges,
        content_type.as_str(),
        content_length,
        content,
    );
    HttpResponse {
        version,
        status,
        content_type,
        content_length,
        accept_ranges,
        response_body,
        current_path: resource_file_path,
    }
}

/// The opening boilerplate of a listing page.
pub open spec fn dir_begin_text() -> Seq<char> {
    "\n<!DOCTYPE html> \n<html> \n<head> \n    <meta charset=\"utf-8\"> \n</head> \n<body>"@
}

/// The closing boilerplate of a listing page.
pub open spec fn dir_end_text() -> Seq<char> {
    "\n    </body>\n    </html>"@
}

/// The listing page's heading: the resolved directory path and the "go up"
/// link.
pub open spec fn dir_header_text(path: Seq<char>) -> Seq<char> {
    "<h1>Currently in "@ + path
        + "</h1><a href=\"../\">Go back up a directory</a><hr/>\n        "@
}

/// One listing entry: a link whose `href` joins the percent-encoded
/// resource and entry name, showing the raw entry name.
pub open spec fn entry_link(resource: Seq<char>, name: Seq<char>) -> Seq<char> {
    "<a href='"@ + path_encoded(resource) + "/"@ + path_encoded(name) + "'>"@ + name + "</a></br>"@
}

/// The concatenated links of a listing, in entry order.
pub open spec fn entry_links(resource: Seq<char>, names: Seq<Seq<char>>) -> Seq<char>
    decreases names.len(),
{
    if names.len() == 0 {
        Seq::empty()
    } else {
        entry_links(resource, names.drop_last()) + entry_link(resource, names.last())
    }
}

/// The views of a list of owned strings.
pub open spec fn str_views(l: Seq<String>) -> Seq<Seq<char>> {
    l.map_values(|s: String| s@)
}

/// The complete HTML text of a listing page.
pub open spec fn dir_content_text(
    path: Seq<char>,
    resource: Seq<char>,
    names: Seq<Seq<char>>,
) -> Seq<char> {
    "\n           "@ + dir_begin_text() + "\n           "@ + dir_header_text(path)
        + "\n           "@ + entry_links(resource, names) + "\n           "@ + dir_end_text()
        + "\n        "@
}

/// Build the response for an existing directory from its entry names, in
/// the order the caller hands them over: status 200, `text/html`, and a
/// generated listing page as the body.
pub fn dir_response(resource_file_path: String, resource: &str, entries: Vec<String>) -> (r:
    HttpResponse)
    ensures
        r.version == Version::V1_1,
        r.status == ResponseStatus::OK,
        r.accept_ranges == AcceptRanges::Bytes,
        r.content_type@ == "text/html"@,
        r.current_path@ == resource_file_path@,
        r.content_length == encode_utf8(
            dir_content_text(resource_file_path@, resource@, str_views(entries@)),
        ).len(),
        r.response_body@ == serialized_response(
            Version::V1_1,
            ResponseStatus::OK,
            AcceptRanges::Bytes,
            "text/html"@,
            r.content_length as int,
            encode_utf8(dir_content_text(resource_file_path@, resource@, str_views(entries@))),
        ),
{
    let version = Version::V1_1;
    let status = ResponseStatus::OK;
    let accept_ranges = AcceptRanges::Bytes;
    let encoded_resource: String = encode_path_str(resource);
    let mut listing: String = String::new();
    let n: usize = entries.len();
    let mut i: usize = 0;
    while i < n
        invariant
            0 <= i <= n,
            n == entries@.len(),
            encoded_resource@ == path_encoded(resource@),
            listing@ == entry_links(resource@, str_views(entries@.take(i as int))),
        decreases n - i,
    {
        let name: &String = &entries[i];
        let encoded_name: String = encode_path_str(name.as_str());
        listing.append("<a href='");
        listing.append(encoded_resource.as_str());
        listing.append("/");
        listing.append(encoded_name.as_str());
        listing.append("'>");
        listing.append(name.as_str());
        listing.append("</a></br>");
        proof {
            let ghost views = str_views(entries@);
            assert(str_views(entries@.take(i as int + 1)).drop_last() =~= str_views(
                entries@.take(i as int),
            ));
            assert(str_views(entries@.take(i as int + 1)).last() == entries@[i as int]@);
            assert(listing@ =~= entry_links(resource@, str_views(entries@.take(i as int + 1))));
        }
        i = i + 1;
    }
    proof {
        assert(entries@.take(n as int) =~= entries@);
    }
    let header: String = "<h1>Currently in ".to_owned().concat(resource_file_path.as_str()).concat(
        "</h1><a href=\"../\">Go back up a directory</a><hr/>\n        ",
    );
    let mut content: String = "\n           ".to_owned();
    content.append(
        "\n<!DOCTYPE html> \n<html> \n<head> \n    <meta charset=\"utf-8\"> \n</head> \n<body>",
    );
    content.append("\n           ");
    content.append(header.as_str());
    content.append("\n           ");
    content.append(listing.as_str());
    content.append("\n           ");
    content.append("\n    </body>\n    </html>");
    content.append("\n        ");
    proof {
        assert(content@ =~= dir_content_text(
            resource_file_path@,
            resource@,
            str_views(entries@),
        ));
    }
    let content_bytes: Vec<u8> = content.as_str().as_bytes_vec();
    let content_length: usize = content_bytes.len();
    let content_type: String = "text/html".to_owned();
    let response_body = response(
        version,
        status,
        accept_ranges,
        content_type.as_str(),
        content_length,
        content_bytes,
    );
    HttpResponse {
        version,
        status,
        content_type,
        content_length,
        accept_ranges,
        response_body,
        current_path: resource_file_path,
    }
}

/// The fixed not-found page.
pub open spec fn not_found_text() -> Seq<char> {
    "\n                <html>\n                <body>\n                <h1>404 NOT FOUND</h1>\n                </body>\n                </html>"@
}

/// Build the response for a path that names nothing on disk: status 404,
/// the fixed not-found page, no byte-range support.
pub fn four_o_four_response(resource_file_path: String) -> (r: HttpResponse)
    ensures
        r.version == Version::V1_1,
        r.status == ResponseStatus::NotFound,
        r.accept_ranges == AcceptRanges::Absent,
        r.content_type@ == "text/html"@,
        r.current_path@ == resource_file_path@,
        r.content_length == encode_utf8(not_found_text()).len(),
        r.response_body@ == serialized_response(
            Version::V1_1,
            ResponseStatus::NotFound,
            AcceptRanges::Absent,
            "text/html"@,
            r.content_length as int,
            encode_utf8(not_found_text()),
        ),
{
    let version = Version::V1_1;
    let status = ResponseStatus::NotFound;
    let accept_ranges = AcceptRanges::Absent;
    let content: &'static str =
        "\n                <html>\n                <body>\n                <h1>404 NOT FOUND</h1>\n                </body>\n                </html>";
    let content_bytes: Vec<u8> = content.as_bytes_vec();
    let content_length: usize = content_bytes.len();
    let content_type: String = "text/html".to_owned();
    let response_body = response(
        version,
        status,
        accept_ranges,
        content_type.as_str(),
        content_length,
        content_bytes,
    );
    HttpResponse {
        version,
        status,
        content_type,
        content_length,
        accept_ranges,
        response_body,
        current_path: resource_file_path,
    }
}

/// What the connection handler observed on disk at the candidate path:
/// a regular file's full contents, a directory's decodable entry names,
/// something that exists but is neither, or nothing at all.
pub enum ResourceKind {
    File { content: Vec<u8> },
    Directory { entries: Vec<String> },
    OtherExisting,
    Missing,
}

/// The filesystem facts the response pipeline decides on: what kind of
/// object the candidate path names, and the canonical component counts of
/// the server root and of the candidate (meaningful when it exists).
pub struct FsObservation {
    pub kind: ResourceKind,
    pub root_depth: usize,
    pub candidate_depth: usize,
}

/// A relative path joined onto the root: an absolute path replaces the
/// root, anything else is appended behind a single separator.
pub open spec fn join_path_spec(root: Seq<char>, rel: Seq<char>) -> Seq<char> {
    if rel.len() > 0 && rel[0] == '/' {
        rel
    } else if root.len() > 0 && root[root.len() - 1] == '/' {
        root + rel
    } else {
        root + seq!['/'] + rel
    }
}

pub fn join_path(root: &str, rel: &str) -> (r: String)
    ensures
        r@ == join_path_spec(root@, rel@),
{
    let rlen: usize = rel.unicode_len();
    if rlen > 0 && rel.get_char(0) == '/' {
        return rel.to_owned();
    }
    let rootlen: usize = root.unicode_len();
    if rootlen > 0 && root.get_char(rootlen - 1) == '/' {
        root.to_owned().concat(rel)
    } else {
        let r = root.to_owned().concat("/").concat(rel);
        proof {
            reveal_strlit("/");
            assert(r@ =~= root@ + seq!['/'] + rel@);
        }
        r
    }
}

/// The path a response is generated for: the percent-decoded resource
/// joined onto the root, replaced by the root itself when the candidate
/// exists with fewer canonical components than the root.
///
/// Comparing component counts is a deliberate heuristic, weaker than a
/// canonical-prefix containment check: an escape to a path at least as deep
/// as the root passes through. It is kept for compatibility with the wire
/// behavior this server has always had; [`lemma_traversal_guard`] states
/// exactly what it does and does not rule out.
pub open spec fn resolved_path_spec(
    root: Seq<char>,
    resource: Seq<char>,
    exists: bool,
    root_depth: int,
    candidate_depth: int,
) -> Seq<char> {
    if exists && candidate_depth < root_depth {
        root
    } else {
        join_path_spec(root, percent_decoded(resource))
    }
}

/// The traversal guard's containment: when the requested resource exists
/// on disk, the resolved path is either the server root itself or a
/// candidate whose canonical component count is at least the root's — no
/// canonically shallower path is ever served.
pub proof fn lemma_traversal_guard(
    root: Seq<char>,
    resource: Seq<char>,
    root_depth: int,
    candidate_depth: int,
)
    ensures
        resolved_path_spec(root, resource, true, root_depth, candidate_depth) == root
            || candidate_depth >= root_depth,
{
}

/// An existing empty directory's listing page: exactly the boilerplate and
/// the heading with its "go up" link, with no entry links.
pub proof fn lemma_empty_dir_listing(path: Seq<char>, resource: Seq<char>)
    ensures
        entry_links(resource, Seq::empty()) == Seq::<char>::empty(),
        dir_content_text(path, resource, Seq::empty()) == "\n           "@ + dir_begin_text()
            + "\n           "@ + dir_header_text(path) + "\n           "@ + "\n           "@
            + dir_end_text() + "\n        "@,
{
    assert(dir_content_text(path, resource, Seq::empty()) =~= "\n           "@ + dir_begin_text()
        + "\n           "@ + dir_header_text(path) + "\n           "@ + "\n           "@
        + dir_end_text() + "\n        "@);
}

/// A listing of exactly two entries holds exactly their two links, in
/// entry order, besides the page's fixed heading and "go up" link.
pub proof fn lemma_two_entry_listing(resource: Seq<char>, a: Seq<char>, b: Seq<char>)
    ensures
        entry_links(resource, seq![a, b]) == entry_link(resource, a) + entry_link(resource, b),
{
    assert(seq![a, b].drop_last() =~= seq![a]);
    assert(seq![a].drop_last() =~= Seq::<Seq<char>>::empty());
    assert(entry_links(resource, Seq::empty()) == Seq::<char>::empty());
    assert(entry_links(resource, seq![a]) =~= entry_link(resource, a));
    assert(entry_links(resource, seq![a, b]) =~= entry_link(resource, a) + entry_link(
        resource,
        b,
    ));
}

/// Whether `r` is the response the pipeline owes for `resource` under
/// `root`, given the filesystem facts in `obs`: the resolved path obeys the
/// traversal guard, and the body is the matching generator's exact output.
pub open spec fn response_matches(
    r: HttpResponse,
    resource: Seq<char>,
    root: Seq<char>,
    obs: FsObservation,
) -> bool {
    let path = resolved_path_spec(
        root,
        resource,
        !(obs.kind is Missing),
        obs.root_depth as int,
        obs.candidate_depth as int,
    );
    &&& r.version == Version::V1_1
    &&& r.current_path@ == path
    &&& match obs.kind {
        ResourceKind::File { content } => {
            &&& r.status == ResponseStatus::OK
            &&& r.accept_ranges == AcceptRanges::Bytes
            &&& r.content_type@ == mime_text(content@)
            &&& r.content_length == content@.len()
            &&& r.response_body@ == serialized_response(
                Version::V1_1,
                ResponseStatus::OK,
                AcceptRanges::Bytes,
                mime_text(content@),
                content@.len() as int,
                content@,
            )
        },
        ResourceKind::Directory { entries } => {
            &&& r.status == ResponseStatus::OK
            &&& r.accept_ranges == AcceptRanges::Bytes
            &&& r.content_type@ == "text/html"@
            &&& r.content_length == encode_utf8(
                dir_content_text(path, resource, str_views(entries@)),
            ).len()
            &&& r.response_body@ == serialized_response(
                Version::V1_1,
                ResponseStatus::OK,
                AcceptRanges::Bytes,
                "text/html"@,
                r.content_length as int,
                encode_utf8(dir_content_text(path, resource, str_views(entries@))),
            )
        },
        _ => {
            &&& r.status == ResponseStatus::NotFound
            &&& r.accept_ranges == AcceptRanges::Absent
            &&& r.content_type@ == "text/html"@
            &&& r.content_length == encode_utf8(not_found_text()).len()
            &&& r.response_body@ == serialized_response(
                Version::V1_1,
                ResponseStatus::NotFound,
                AcceptRanges::Absent,
                "text/html"@,
                r.content_length as int,
                encode_utf8(not_found_text()),
            )
        },
    }
}

/// Resolve a resource (the request path without its leading slash) under
/// the server root and generate the response the filesystem facts call
/// for.
pub fn handle_file_response(resource: &str, root: &str, obs: FsObservation) -> (r: HttpResponse)
    ensures
        response_matches(r, resource@, root@, obs),
{
    let decoded: String = decode_resource(resource);
    let candidate: String = join_path(root, decoded.as_str());
    let shallower: bool = obs.candidate_depth < obs.root_depth;
    match obs.kind {
        ResourceKind::File { content } => {
            let path: String = if shallower {
                root.to_owned()
            } else {
                candidate
            };
            file_response(path, content)
        },
        ResourceKind::Directory { entries } => {
            let path: String = if shallower {
                root.to_owned()
            } else {
                candidate
            };
            dir_response(path, resource, entries)
        },
        ResourceKind::OtherExisting => {
            let path: String = if shallower {
                root.to_owned()
            } else {
                candidate
            };
            four_o_four_response(path)
        },
        ResourceKind::Missing => four_o_four_response(candidate),
    }
}

impl HttpResponse {
    /// Answer a parsed request from the filesystem facts the connection
    /// handler observed under the server root.
    pub fn new(request: &HttpRequest, root: &str, obs: FsObservation) -> (r: HttpResponse)
        requires
            request.resource.path@.len() > 0,
            request.resource.path@[0] == '/',
        ensures
            response_matches(
                r,
                request.resource.path@.subrange(1, request.resource.path@.len() as int),
                root@,
                obs,
            ),
    {
        let path: &str = request.resource.path.as_str();
        let plen: usize = path.unicode_len();
        let resource: &str = path.substring_char(1, plen);
        handle_file_response(resource, root, obs)
    }
}

impl HttpRequest {
    /// The response this request gets, given the filesystem facts the
    /// connection handler observed at the candidate path.
    pub fn response(&self, root: &str, obs: FsObservation) -> (r: HttpResponse)
        requires
            self.resource.path@.len() > 0,
            self.resource.path@[0] == '/',
        ensures
            response_matches(
                r,
                self.resource.path@.subrange(1, self.resource.path@.len() as int),
                root@,
                obs,
            ),
    {
        HttpResponse::new(self, root, obs)
    }
}

} // verus!
