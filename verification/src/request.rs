//! Parsing of a raw HTTP request buffer: request-line method, resource path
//! and protocol version, header lines, and the Post body.
//!
//! Each parser re-scans the raw text on its own, so method, resource and
//! version recognition are independent of one another; only a buffer without
//! any CRLF line boundary is a hard error.
use vstd::map::*;
use vstd::prelude::*;

use crate::text::{
    ascii_ws_char, find_blank, find_blank_at, find_char, find_char_at, find_crlf, find_crlf_at,
    is_ascii_ws, lemma_find_char_at_first, lemma_find_crlf_at_first, str_eq, token_end,
    token_end_at, trim_of, trim_str,
};

verus! {

/// A malformed request structure: the buffer has no line boundary where one
/// is required, or no recognizable version token. The message says which.
#[derive(Debug)]
pub struct ParsingError {
    msg: String,
}

impl View for ParsingError {
    type V = Seq<char>;

    closed spec fn view(&self) -> Seq<char> {
        self.msg@
    }
}

impl ParsingError {
    /// The human-readable description of what failed to parse.
    pub fn message(&self) -> (r: &str)
        ensures
            r@ == self@,
    {
        self.msg.as_str()
    }
}

/// The request method: the first space-delimited token of the request line.
/// Anything but `GET` and `POST` is carried as `Uninitialized`, not an error.
#[derive(Debug, Clone, Copy, PartialEq, Eq, Structural)]
pub enum Method {
    Get,
    Post,
    Uninitialized,
}

/// The method a request-line token stands for.
pub open spec fn method_of_token(t: Seq<char>) -> Method {
    if t == "POST"@ {
        Method::Post
    } else if t == "GET"@ {
        Method::Get
    } else {
        Method::Uninitialized
    }
}

/// The parsed method: `None` exactly when the buffer has no CRLF. The
/// method token is the first line up to its first space, or the whole line
/// when it has none; an unrecognized token is `Uninitialized`, never an
/// error.
pub open spec fn parse_method_spec(s: Seq<char>) -> Option<Method> {
    match find_crlf_at(s, 0) {
        Some(e) => {
            let line = s.subrange(0, e);
            let token = match find_char_at(line, ' ', 0) {
                Some(sp) => line.subrange(0, sp),
                None => line,
            };
            Some(method_of_token(token))
        },
        None => None,
    }
}

proof fn lemma_find_crlf_range(s: Seq<char>, i: int)
    requires
        0 <= i,
    ensures
        match find_crlf_at(s, i) {
            Some(j) => i <= j && j + 2 <= s.len(),
            None => true,
        },
    decreases s.len() - i,
{
    if i + 2 <= s.len() && !(s[i] == '\r' && s[i + 1] == '\n') {
        lemma_find_crlf_range(s, i + 1);
    }
}

impl Method {
    /// Parse the method out of the raw request buffer.
    pub fn new(request: &str) -> (r: Result<Method, ParsingError>)
        ensures
            match r {
                Ok(m) => parse_method_spec(request@) == Some(m),
                Err(e) => {
                    &&& parse_method_spec(request@) is None
                    &&& e@ == "parsing method: Invalid http header"@
                },
            },
    {
        proof {
            lemma_find_crlf_range(request@, 0);
        }
        if let Some(e) = find_crlf(request, 0) {
            let line: &str = request.substring_char(0, e);
            let token: &str = match find_char(line, ' ', 0) {
                Some(sp) => {
                    proof {
                        lemma_find_char_range(line@, ' ', 0);
                    }
                    line.substring_char(0, sp)
                },
                None => line,
            };
            return Ok(
                if str_eq(token, "POST") {
                    Method::Post
                } else if str_eq(token, "GET") {
                    Method::Get
                } else {
                    Method::Uninitialized
                },
            );
        }
        Err(ParsingError { msg: "parsing method: Invalid http header".to_owned() })
    }
}

proof fn lemma_find_char_range(s: Seq<char>, c: char, i: int)
    requires
        0 <= i,
    ensures
        match find_char_at(s, c, i) {
            Some(j) => i <= j && j < s.len(),
            None => true,
        },
    decreases s.len() - i,
{
    if i < s.len() && s[i] != c {
        lemma_find_char_range(s, c, i + 1);
    }
}

/// The requested resource: the substring of the request line between the
/// first `/` and the following space, kept with its leading slash.
#[derive(Debug)]
pub struct Resource {
    pub path: String,
}

/// The parsed resource path: `None` exactly when the buffer has no CRLF. A
/// first line without a `/`, or whose `/` is not followed by a space,
/// lacks a path segment and defaults to the root path `/`.
pub open spec fn parse_resource_spec(s: Seq<char>) -> Option<Seq<char>> {
    match find_crlf_at(s, 0) {
        Some(e) => {
            let line = s.subrange(0, e);
            match find_char_at(line, '/', 0) {
                Some(sl) => {
                    let rest = line.subrange(sl + 1, line.len() as int);
                    match find_char_at(rest, ' ', 0) {
                        Some(sp) => Some(seq!['/'] + rest.subrange(0, sp)),
                        None => Some(seq!['/']),
                    }
                },
                None => Some(seq!['/']),
            }
        },
        None => None,
    }
}

impl Resource {
    /// Parse the resource path out of the raw request buffer. The result
    /// always starts with `/`.
    pub fn new(request: &str) -> (r: Result<Resource, ParsingError>)
        ensures
            match r {
                Ok(res) => {
                    &&& parse_resource_spec(request@) == Some(res.path@)
                    &&& res.path@.len() > 0
                    &&& res.path@[0] == '/'
                },
                Err(e) => {
                    &&& parse_resource_spec(request@) is None
                    &&& e@ == "parsing route: Invalid http header"@
                },
            },
    {
        proof {
            lemma_find_crlf_range(request@, 0);
        }
        if let Some(e) = find_crlf(request, 0) {
            let line: &str = request.substring_char(0, e);
            let path: String = if let Some(sl) = find_char(line, '/', 0) {
                proof {
                    lemma_find_char_range(line@, '/', 0);
                }
                let rest: &str = line.substring_char(sl + 1, line.unicode_len());
                if let Some(sp) = find_char(rest, ' ', 0) {
                    proof {
                        lemma_find_char_range(rest@, ' ', 0);
                    }
                    "/".to_owned().concat(rest.substring_char(0, sp))
                } else {
                    "/".to_owned()
                }
            } else {
                "/".to_owned()
            };
            proof {
                reveal_strlit("/");
                assert(parse_resource_spec(request@) == Some(path@));
                assert(path@[0] == '/');
            }
            return Ok(Resource { path });
        }
        Err(ParsingError { msg: "parsing route: Invalid http header".to_owned() })
    }
}

/// A request line of the shape `<verb> /<path> <version>` parses to the
/// resource `/` + `path`, for every verb free of `/` and of carriage
/// returns, every path free of spaces and of carriage returns, and every
/// version text free of carriage returns; an empty path gives `/` alone.
pub proof fn lemma_resource_of_request_line(
    verb: Seq<char>,
    path: Seq<char>,
    version: Seq<char>,
    tail: Seq<char>,
)
    requires
        forall|i: int| 0 <= i < verb.len() ==> #[trigger] verb[i] != '/' && verb[i] != '\r',
        forall|i: int| 0 <= i < path.len() ==> #[trigger] path[i] != ' ' && path[i] != '\r',
        forall|i: int| 0 <= i < version.len() ==> #[trigger] version[i] != '\r',
    ensures
        parse_resource_spec(
            verb + seq![' ', '/'] + path + seq![' '] + version + seq!['\r', '\n'] + tail,
        ) == Some(seq!['/'] + path),
{
    let s = verb + seq![' ', '/'] + path + seq![' '] + version + seq!['\r', '\n'] + tail;
    let vl = verb.len() as int;
    let pl = path.len() as int;
    let linelen = vl + 2 + pl + 1 + version.len();
    assert(s[linelen] == '\r');
    assert(s[linelen + 1] == '\n');
    assert forall|j: int| 0 <= j < linelen implies #[trigger] s[j] != '\r' by {
        if j < vl {
            assert(s[j] == verb[j]);
        } else if j == vl {
            assert(s[j] == ' ');
        } else if j == vl + 1 {
            assert(s[j] == '/');
        } else if j < vl + 2 + pl {
            assert(s[j] == path[j - (vl + 2)]);
        } else if j == vl + 2 + pl {
            assert(s[j] == ' ');
        } else {
            assert(s[j] == version[j - (vl + 2 + pl + 1)]);
        }
    }
    lemma_find_crlf_at_first(s, 0, linelen);
    let line = s.subrange(0, linelen);
    assert forall|j: int| 0 <= j < vl + 1 implies #[trigger] line[j] != '/' by {
        if j < vl {
            assert(line[j] == verb[j]);
        } else {
            assert(line[j] == ' ');
        }
    }
    assert(line[vl + 1] == '/');
    lemma_find_char_at_first(line, '/', 0, vl + 1);
    let rest = line.subrange(vl + 2, linelen);
    assert forall|j: int| 0 <= j < pl implies #[trigger] rest[j] != ' ' by {
        assert(rest[j] == path[j]);
    }
    assert(rest[pl] == ' ');
    lemma_find_char_at_first(rest, ' ', 0, pl);
    assert(rest.subrange(0, pl) =~= path);
    assert(parse_resource_spec(s) == Some(seq!['/'] + path));
}

/// The protocol version named on the request line. Only the header-line
/// token is recognized; no HTTP/2 framing is handled.
#[derive(Debug, Clone, Copy, PartialEq, Eq, Structural)]
pub enum Version {
    V1_1,
    V2_0,
}

/// The wire text of a version.
pub open spec fn version_text(v: Version) -> Seq<char> {
    match v {
        Version::V1_1 => "HTTP/1.1"@,
        Version::V2_0 => "HTTP/2"@,
    }
}

impl Version {
    /// The version's wire text, `HTTP/1.1` or `HTTP/2`.
    pub fn render(&self) -> (r: &'static str)
        ensures
            r@ == version_text(*self),
    {
        match self {
            Version::V1_1 => "HTTP/1.1",
            Version::V2_0 => "HTTP/2",
        }
    }
}

proof fn lemma_token_end_range(s: Seq<char>, i: int)
    requires
        0 <= i <= s.len(),
    ensures
        i <= token_end_at(s, i) <= s.len(),
        i < s.len() && !is_ascii_ws(s[i]) ==> i < token_end_at(s, i),
    decreases s.len() - i,
{
    if i < s.len() && !is_ascii_ws(s[i]) {
        lemma_token_end_range(s, i + 1);
    }
}

/// One step of the version scan over the whitespace-separated
/// tokens of the first line, starting at `i` with `last` the most recent
/// unrecognized token: the first token equal to `HTTP/1.1`, `HTTP/2` or
/// `HTTP/2.0` decides; if none matches, `Err` carries the last token seen.
pub open spec fn scan_version(line: Seq<char>, i: int, last: Seq<char>) -> Result<Version, Seq<char>>
    decreases line.len() - i,
    when 0 <= i <= line.len()
    via scan_version_decreases
{
    if i >= line.len() {
        Err(last)
    } else if is_ascii_ws(line[i]) {
        scan_version(line, i + 1, last)
    } else {
        let k = token_end_at(line, i);
        let t = line.subrange(i, k);
        if t == "HTTP/1.1"@ {
            Ok(Version::V1_1)
        } else if t == "HTTP/2"@ || t == "HTTP/2.0"@ {
            Ok(Version::V2_0)
        } else {
            scan_version(line, k, t)
        }
    }
}

#[via_fn]
proof fn scan_version_decreases(line: Seq<char>, i: int, last: Seq<char>) {
    lemma_token_end_range(line, i);
}

/// The parsed version, or the exact error message: a named unknown token
/// where one was seen, a generic parse failure where the buffer has no CRLF
/// or the first line has no token at all.
pub open spec fn parse_version_spec(s: Seq<char>) -> Result<Version, Seq<char>> {
    match find_crlf_at(s, 0) {
        None => Err("parsing version: Invalid http header"@),
        Some(e) => {
            let line = s.subrange(0, e);
            match scan_version(line, 0, Seq::empty()) {
                Ok(v) => Ok(v),
                Err(last) => if last.len() == 0 {
                    Err("parsing version: Invalid http header"@)
                } else {
                    Err("Unknown HTTP version: "@ + last + " in "@ + line)
                },
            }
        },
    }
}

/// The whitespace-separated tokens of `line`, from `i` on.
pub open spec fn line_tokens(line: Seq<char>, i: int) -> Seq<Seq<char>>
    decreases line.len() - i,
    when 0 <= i <= line.len()
    via line_tokens_decreases
{
    if i >= line.len() {
        Seq::empty()
    } else if is_ascii_ws(line[i]) {
        line_tokens(line, i + 1)
    } else {
        seq![line.subrange(i, token_end_at(line, i))] + line_tokens(line, token_end_at(line, i))
    }
}

#[via_fn]
proof fn line_tokens_decreases(line: Seq<char>, i: int) {
    lemma_token_end_range(line, i);
}

/// A token the scan recognizes as a version.
pub open spec fn is_version_token(t: Seq<char>) -> bool {
    t == "HTTP/1.1"@ || t == "HTTP/2"@ || t == "HTTP/2.0"@
}

/// The version a recognized token names.
pub open spec fn version_of_token(t: Seq<char>) -> Version {
    if t == "HTTP/1.1"@ {
        Version::V1_1
    } else {
        Version::V2_0
    }
}

/// `k` indexes the first version token of `toks`.
pub open spec fn first_version_token_at(toks: Seq<Seq<char>>, k: int) -> bool {
    &&& 0 <= k < toks.len()
    &&& is_version_token(toks[k])
    &&& forall|j: int| 0 <= j < k ==> !is_version_token(#[trigger] toks[j])
}

/// No token of `toks` is a version token.
pub open spec fn no_version_token(toks: Seq<Seq<char>>) -> bool {
    forall|j: int| 0 <= j < toks.len() ==> !is_version_token(#[trigger] toks[j])
}

proof fn lemma_scan_tokens(line: Seq<char>, i: int, last: Seq<char>)
    requires
        0 <= i <= line.len(),
    ensures
        ({
            let toks = line_tokens(line, i);
            match scan_version(line, i, last) {
                Ok(v) => exists|k: int|
                    first_version_token_at(toks, k) && v == version_of_token(toks[k]),
                Err(l) => {
                    &&& no_version_token(toks)
                    &&& l == if toks.len() == 0 {
                        last
                    } else {
                        toks.last()
                    }
                },
            }
        }),
    decreases line.len() - i,
{
    if i >= line.len() {
    } else if is_ascii_ws(line[i]) {
        lemma_scan_tokens(line, i + 1, last);
    } else {
        lemma_token_end_range(line, i);
        let k = token_end_at(line, i);
        let t = line.subrange(i, k);
        let toks = line_tokens(line, i);
        let rest_toks = line_tokens(line, k);
        assert(toks == seq![t] + rest_toks);
        assert(toks[0] == t);
        if is_version_token(t) {
            assert(first_version_token_at(toks, 0) && version_of_token(toks[0])
                == version_of_token(t));
        } else {
            lemma_scan_tokens(line, k, t);
            match scan_version(line, k, t) {
                Ok(v) => {
                    let k0 = choose|k0: int|
                        first_version_token_at(rest_toks, k0) && v == version_of_token(
                            rest_toks[k0],
                        );
                    assert(toks[k0 + 1] == rest_toks[k0]);
                    assert forall|j: int| 0 <= j < k0 + 1 implies !is_version_token(
                        #[trigger] toks[j],
                    ) by {
                        if j > 0 {
                            assert(toks[j] == rest_toks[j - 1]);
                        }
                    }
                    assert(first_version_token_at(toks, k0 + 1) && v == version_of_token(
                        toks[k0 + 1],
                    ));
                },
                Err(_) => {
                    assert forall|j: int| 0 <= j < toks.len() implies !is_version_token(
                        #[trigger] toks[j],
                    ) by {
                        if j > 0 {
                            assert(toks[j] == rest_toks[j - 1]);
                        }
                    }
                    if rest_toks.len() == 0 {
                        assert(toks.last() == t);
                    } else {
                        assert(toks.last() == rest_toks.last());
                    }
                },
            }
        }
    }
}

/// The first line of a buffer that has a CRLF boundary.
pub open spec fn request_line_of(s: Seq<char>) -> Seq<char>
    recommends
        find_crlf_at(s, 0) is Some,
{
    s.subrange(0, find_crlf_at(s, 0)->Some_0)
}

/// The version scan takes the first version token: a buffer with a line
/// boundary whose first line holds `HTTP/1.1`, `HTTP/2` or `HTTP/2.0` at
/// token position `k`, with no version token before it, parses to that
/// token's version.
pub proof fn lemma_version_of_first_token(s: Seq<char>, k: int)
    requires
        find_crlf_at(s, 0) is Some,
        first_version_token_at(line_tokens(request_line_of(s), 0), k),
    ensures
        parse_version_spec(s) == Ok::<Version, Seq<char>>(
            version_of_token(line_tokens(request_line_of(s), 0)[k]),
        ),
{
    lemma_find_crlf_range(s, 0);
    let line = request_line_of(s);
    let toks = line_tokens(line, 0);
    lemma_scan_tokens(line, 0, Seq::empty());
    match scan_version(line, 0, Seq::empty()) {
        Ok(v) => {
            let k0 = choose|k0: int|
                first_version_token_at(toks, k0) && v == version_of_token(toks[k0]);
            if k0 < k {
                assert(!is_version_token(toks[k0]));
                assert(false);
            }
            if k < k0 {
                assert(!is_version_token(toks[k]));
                assert(false);
            }
        },
        Err(_) => {
            assert(!is_version_token(toks[k]));
            assert(false);
        },
    }
}

/// A first line none of whose tokens is a version token fails the version
/// parse: with at least one token the failure names the last of them, with
/// none it is the generic message.
pub proof fn lemma_version_no_token_fails(s: Seq<char>)
    requires
        find_crlf_at(s, 0) is Some,
        no_version_token(line_tokens(request_line_of(s), 0)),
    ensures
        parse_version_spec(s) is Err,
{
    lemma_find_crlf_range(s, 0);
    let line = request_line_of(s);
    let toks = line_tokens(line, 0);
    lemma_scan_tokens(line, 0, Seq::empty());
    match scan_version(line, 0, Seq::empty()) {
        Ok(_) => {
            let k0 = choose|k0: int|
                first_version_token_at(toks, k0) && scan_version(line, 0, Seq::empty())->Ok_0
                    == version_of_token(toks[k0]);
            assert(!is_version_token(toks[k0]));
            assert(false);
        },
        Err(_) => {
        },
    }
}

impl Version {
    /// Parse the protocol version out of the raw request buffer.
    pub fn new(request: &str) -> (r: Result<Version, ParsingError>)
        ensures
            match r {
                Ok(v) => parse_version_spec(request@) == Ok::<Version, Seq<char>>(v),
                Err(e) => parse_version_spec(request@) == Err::<Version, Seq<char>>(e@),
            },
    {
        proof {
            lemma_find_crlf_range(request@, 0);
        }
        if let Some(e) = find_crlf(request, 0) {
            let line: &str = request.substring_char(0, e);
            let len: usize = line.unicode_len();
            let mut i: usize = 0;
            let mut last_start: usize = 0;
            let mut last_end: usize = 0;
            proof {
                assert(line@.subrange(0int, 0int) =~= Seq::<char>::empty());
            }
            while i < len
                invariant
                    0 <= i <= len,
                    len == line@.len(),
                    last_start <= last_end <= len,
                    find_crlf_at(request@, 0) == Some(e as int),
                    line@ == request@.subrange(0, e as int),
                    scan_version(line@, 0, Seq::empty()) == scan_version(
                        line@,
                        i as int,
                        line@.subrange(last_start as int, last_end as int),
                    ),
                decreases len - i,
            {
                let c = line.get_char(i);
                if ascii_ws_char(c) {
                    i = i + 1;
                } else {
                    proof {
                        lemma_token_end_range(line@, i as int);
                    }
                    let k = token_end(line, i);
                    let t: &str = line.substring_char(i, k);
                    proof {
                        assert(scan_version(
                            line@,
                            i as int,
                            line@.subrange(last_start as int, last_end as int),
                        ) == if t@ == "HTTP/1.1"@ {
                            Ok::<Version, Seq<char>>(Version::V1_1)
                        } else if t@ == "HTTP/2"@ || t@ == "HTTP/2.0"@ {
                            Ok::<Version, Seq<char>>(Version::V2_0)
                        } else {
                            scan_version(line@, k as int, t@)
                        });
                    }
                    if str_eq(t, "HTTP/1.1") {
                        return Ok(Version::V1_1);
                    } else if str_eq(t, "HTTP/2") || str_eq(t, "HTTP/2.0") {
                        return Ok(Version::V2_0);
                    }
                    last_start = i;
                    last_end = k;
                    i = k;
                }
            }
            if last_end > last_start {
                let token: &str = line.substring_char(last_start, last_end);
                let msg = "Unknown HTTP version: ".to_owned().concat(token).concat(" in ").concat(
                    line,
                );
                proof {
                    assert(msg@ =~= "Unknown HTTP version: "@ + line@.subrange(
                        last_start as int,
                        last_end as int,
                    ) + " in "@ + line@);
                }
                Err(ParsingError { msg })
            } else {
                proof {
                    assert(line@.subrange(last_start as int, last_end as int) =~= Seq::<
                        char,
                    >::empty());
                }
                Err(ParsingError { msg: "parsing version: Invalid http header".to_owned() })
            }
        } else {
            Err(ParsingError { msg: "parsing version: Invalid http header".to_owned() })
        }
    }
}

/// The header map a list of `(key, value)` entries denotes when they are
/// inserted left to right into `m`: a later entry with the same key wins.
pub open spec fn entries_map_acc(
    l: Seq<(Seq<char>, Seq<char>)>,
    m: Map<Seq<char>, Seq<char>>,
) -> Map<Seq<char>, Seq<char>>
    decreases l.len(),
{
    if l.len() == 0 {
        m
    } else {
        entries_map_acc(l.drop_first(), m.insert(l[0].0, l[0].1))
    }
}

/// The header map of an entry list, starting from nothing.
pub open spec fn entries_map(l: Seq<(Seq<char>, Seq<char>)>) -> Map<Seq<char>, Seq<char>> {
    entries_map_acc(l, Map::empty())
}

/// The `(trimmed key, trimmed value)` entries of the header section that
/// starts at `i` in `rest`, the text after the first CRLF: one entry per
/// line with a `:`, lines without one skipped, stopping at the first empty
/// line or the end of the text.
pub open spec fn header_entries_at(rest: Seq<char>, i: int) -> Seq<(Seq<char>, Seq<char>)>
    decreases rest.len() - i,
    when 0 <= i <= rest.len()
    via header_entries_at_decreases
{
    if i >= rest.len() {
        Seq::empty()
    } else {
        let e = match find_crlf_at(rest, i) {
            Some(j) => j,
            None => rest.len() as int,
        };
        let line = rest.subrange(i, e);
        if line.len() == 0 {
            Seq::empty()
        } else {
            let here = match find_char_at(line, ':', 0) {
                Some(c) => seq![
                    (trim_of(line.subrange(0, c)), trim_of(line.subrange(c + 1, line.len() as int))),
                ],
                None => Seq::empty(),
            };
            if e == rest.len() {
                here
            } else {
                here + header_entries_at(rest, e + 2)
            }
        }
    }
}

#[via_fn]
proof fn header_entries_at_decreases(rest: Seq<char>, i: int) {
    lemma_find_crlf_range(rest, i);
}

/// The parsed header map: `None` exactly when the buffer has no CRLF.
pub open spec fn headers_of(s: Seq<char>) -> Option<Map<Seq<char>, Seq<char>>> {
    match find_crlf_at(s, 0) {
        Some(e) => Some(entries_map(header_entries_at(s.subrange(e + 2, s.len() as int), 0))),
        None => None,
    }
}

/// The headers of a request: trimmed keys mapped to trimmed values, the last
/// occurrence of a duplicate key winning.
#[derive(Debug)]
pub struct HttpHeaders {
    headers: Vec<(String, String)>,
}

/// The entry list a vector of owned pairs stands for.
pub open spec fn entry_views(l: Seq<(String, String)>) -> Seq<(Seq<char>, Seq<char>)> {
    l.map_values(|p: (String, String)| (p.0@, p.1@))
}

impl View for HttpHeaders {
    type V = Map<Seq<char>, Seq<char>>;

    closed spec fn view(&self) -> Map<Seq<char>, Seq<char>> {
        entries_map(entry_views(self.headers@))
    }
}

proof fn lemma_entries_map_acc_cons(
    x: (Seq<char>, Seq<char>),
    l: Seq<(Seq<char>, Seq<char>)>,
    m: Map<Seq<char>, Seq<char>>,
)
    ensures
        entries_map_acc(seq![x] + l, m) == entries_map_acc(l, m.insert(x.0, x.1)),
{
    assert((seq![x] + l).drop_first() =~= l);
    assert((seq![x] + l)[0] == x);
}

proof fn lemma_entries_map_acc_snoc(
    l: Seq<(Seq<char>, Seq<char>)>,
    x: (Seq<char>, Seq<char>),
    m: Map<Seq<char>, Seq<char>>,
)
    ensures
        entries_map_acc(l.push(x), m) == entries_map_acc(l, m).insert(x.0, x.1),
    decreases l.len(),
{
    if l.len() == 0 {
        assert(l.push(x).drop_first() =~= Seq::empty());
        assert(l.push(x)[0] == x);
        assert(entries_map_acc(Seq::empty(), m.insert(x.0, x.1)) == m.insert(x.0, x.1));
    } else {
        assert(l.push(x).drop_first() =~= l.drop_first().push(x));
        assert(l.push(x)[0] == l[0]);
        lemma_entries_map_acc_snoc(l.drop_first(), x, m.insert(l[0].0, l[0].1));
    }
}

impl HttpHeaders {
    /// Parse the header lines of the raw request buffer.
    pub fn new(request: &str) -> (r: Result<HttpHeaders, ParsingError>)
        ensures
            match r {
                Ok(h) => headers_of(request@) == Some(h@),
                Err(e) => {
                    &&& headers_of(request@) is None
                    &&& e@ == "parsing headers: Invalid http header"@
                },
            },
    {
        proof {
            lemma_find_crlf_range(request@, 0);
        }
        let eol = match find_crlf(request, 0) {
            Some(j) => j,
            None => {
                return Err(
                    ParsingError { msg: "parsing headers: Invalid http header".to_owned() },
                );
            },
        };
        let ulen: usize = request.unicode_len();
        let rest: &str = request.substring_char(eol + 2, ulen);
        let rlen: usize = rest.unicode_len();
        let mut hv: Vec<(String, String)> = Vec::new();
        let mut i: usize = 0;
        let ghost target = entries_map(header_entries_at(rest@, 0));
        loop
            invariant_except_break
                0 <= i <= rlen,
                rlen == rest@.len(),
                entries_map_acc(header_entries_at(rest@, i as int), entries_map(
                    entry_views(hv@),
                )) == target,
            ensures
                entries_map(entry_views(hv@)) == target,
            decreases rlen - i,
        {
            let ghost cur = entries_map(entry_views(hv@));
            if i >= rlen {
                proof {
                    assert(entries_map_acc(Seq::<(Seq<char>, Seq<char>)>::empty(), cur) == cur);
                }
                break ;
            }
            proof {
                lemma_find_crlf_range(rest@, i as int);
            }
            let eor = match find_crlf(rest, i) {
                Some(j) => j,
                None => rlen,
            };
            let line: &str = rest.substring_char(i, eor);
            if eor == i {
                proof {
                    assert(entries_map_acc(Seq::<(Seq<char>, Seq<char>)>::empty(), cur) == cur);
                }
                break ;
            }
            let ghost entries_here = header_entries_at(rest@, i as int);
            let ghost tail = if eor as int == rest@.len() {
                Seq::<(Seq<char>, Seq<char>)>::empty()
            } else {
                header_entries_at(rest@, eor + 2)
            };
            if let Some(c) = find_char(line, ':', 0) {
                proof {
                    lemma_find_char_range(line@, ':', 0);
                }
                let key: String = trim_str(line.substring_char(0, c));
                let value: String = trim_str(line.substring_char(c + 1, line.unicode_len()));
                let ghost x = (key@, value@);
                proof {
                    assert(entries_here =~= seq![x] + tail);
                    lemma_entries_map_acc_snoc(entry_views(hv@), x, Map::empty());
                    assert(entry_views(hv@.push((key, value))) =~= entry_views(hv@).push(x));
                    lemma_entries_map_acc_cons(x, tail, cur);
                }
                hv.push((key, value));
                proof {
                    assert(entries_map(entry_views(hv@)) == cur.insert(x.0, x.1));
                    assert(entries_map_acc(tail, cur.insert(x.0, x.1)) == target);
                }
            } else {
                proof {
                    assert(entries_here =~= tail);
                }
            }
            if eor == rlen {
                proof {
                    assert(entries_map_acc(
                        Seq::<(Seq<char>, Seq<char>)>::empty(),
                        entries_map(entry_views(hv@)),
                    ) == entries_map(entry_views(hv@)));
                }
                break ;
            }
            i = eor + 2;
        }
        Ok(HttpHeaders { headers: hv })
    }

    /// Look a header up by its exact (already trimmed) key.
    pub fn get(&self, key: &str) -> (r: Option<&String>)
        ensures
            match r {
                Some(v) => self@.contains_key(key@) && v@ == self@[key@],
                None => !self@.contains_key(key@),
            },
    {
        let n: usize = self.headers.len();
        let mut i: usize = 0;
        let mut found: Option<usize> = None;
        let ghost mut macc: Map<Seq<char>, Seq<char>> = Map::empty();
        proof {
            assert(entry_views(self.headers@).skip(0) =~= entry_views(self.headers@));
        }
        while i < n
            invariant
                0 <= i <= n,
                n == self.headers@.len(),
                entries_map_acc(entry_views(self.headers@).skip(i as int), macc) == self@,
                match found {
                    Some(j) => {
                        &&& 0 <= j < i
                        &&& self.headers@[j as int].0@ == key@
                        &&& macc.contains_key(key@)
                        &&& macc[key@] == self.headers@[j as int].1@
                    },
                    None => !macc.contains_key(key@),
                },
            decreases n - i,
        {
            proof {
                let ghost l = entry_views(self.headers@);
                assert(l.skip(i as int).drop_first() =~= l.skip(i as int + 1));
                assert(l.skip(i as int)[0] == l[i as int]);
            }
            if str_eq(self.headers[i].0.as_str(), key) {
                found = Some(i);
            }
            proof {
                macc = macc.insert(self.headers@[i as int].0@, self.headers@[i as int].1@);
            }
            i = i + 1;
        }
        proof {
            assert(entry_views(self.headers@).skip(n as int) =~= Seq::empty());
        }
        match found {
            Some(j) => Some(&self.headers[j].1),
            None => None,
        }
    }
}

proof fn lemma_find_blank_range(s: Seq<char>, i: int)
    requires
        0 <= i,
    ensures
        match find_blank_at(s, i) {
            Some(j) => i <= j && j + 4 <= s.len(),
            None => true,
        },
    decreases s.len() - i,
{
    if i + 4 <= s.len() && !(s[i] == '\r' && s[i + 1] == '\n' && s[i + 2] == '\r' && s[i + 3]
        == '\n') {
        lemma_find_blank_range(s, i + 1);
    }
}

/// The request body: for Post, everything after the first blank-line
/// boundary (empty if there is none); for every other method, empty.
pub open spec fn body_of(s: Seq<char>, m: Method) -> Seq<char> {
    if m == Method::Post {
        match find_blank_at(s, 0) {
            Some(b) => s.subrange(b + 4, s.len() as int),
            None => Seq::empty(),
        }
    } else {
        Seq::empty()
    }
}

/// A fully parsed request. A buffer parses whenever its first line has a
/// CRLF boundary and a recognized version token; an unrecognized method
/// token and a missing path segment are recovered (`Uninitialized`, `/`),
/// never errors.
#[derive(Debug)]
pub struct HttpRequest {
    pub method: Method,
    pub resource: Resource,
    pub version: Version,
    pub headers: HttpHeaders,
    pub request_body: String,
}

impl HttpRequest {
    /// Parse a raw request buffer, checking method, resource, version and
    /// headers in that order and reporting the first failure's message.
    pub fn new(request: &str) -> (r: Result<HttpRequest, ParsingError>)
        ensures
            match r {
                Ok(req) => {
                    &&& parse_method_spec(request@) == Some(req.method)
                    &&& parse_resource_spec(request@) == Some(req.resource.path@)
                    &&& req.resource.path@.len() > 0
                    &&& req.resource.path@[0] == '/'
                    &&& parse_version_spec(request@) == Ok::<Version, Seq<char>>(req.version)
                    &&& headers_of(request@) == Some(req.headers@)
                    &&& req.request_body@ == body_of(request@, req.method)
                },
                Err(e) => {
                    &&& (parse_method_spec(request@) is None || parse_version_spec(request@)
                        is Err)
                    &&& e@ == if parse_method_spec(request@) is None {
                        "parsing method: Invalid http header"@
                    } else {
                        parse_version_spec(request@)->Err_0
                    }
                },
            },
    {
        let method = match Method::new(request) {
            Ok(m) => m,
            Err(e) => {
                return Err(e);
            },
        };
        let resource = match Resource::new(request) {
            Ok(res) => res,
            Err(e) => {
                return Err(e);
            },
        };
        let version = match Version::new(request) {
            Ok(v) => v,
            Err(e) => {
                return Err(e);
            },
        };
        let headers = match HttpHeaders::new(request) {
            Ok(h) => h,
            Err(e) => {
                return Err(e);
            },
        };
        let request_body: String = if matches!(method, Method::Post) {
            proof {
                lemma_find_blank_range(request@, 0);
            }
            match find_blank(request, 0) {
                Some(b) => {
                    let ulen: usize = request.unicode_len();
                    request.substring_char(b + 4, ulen).to_owned()
                },
                None => String::new(),
            }
        } else {
            String::new()
        };
        Ok(HttpRequest { method, resource, version, headers, request_body })
    }
}

/// No two entries carry the same key.
pub open spec fn distinct_keys(l: Seq<(Seq<char>, Seq<char>)>) -> bool {
    forall|i: int, j: int| 0 <= i < j < l.len() ==> l[i].0 != l[j].0
}

proof fn lemma_acc_no_key(
    l: Seq<(Seq<char>, Seq<char>)>,
    m: Map<Seq<char>, Seq<char>>,
    k: Seq<char>,
)
    requires
        forall|i: int| 0 <= i < l.len() ==> l[i].0 != k,
    ensures
        entries_map_acc(l, m).contains_key(k) == m.contains_key(k),
        m.contains_key(k) ==> entries_map_acc(l, m)[k] == m[k],
    decreases l.len(),
{
    if l.len() > 0 {
        assert forall|i: int| 0 <= i < l.drop_first().len() implies l.drop_first()[i].0 != k by {
            assert(l.drop_first()[i] == l[i + 1]);
        }
        lemma_acc_no_key(l.drop_first(), m.insert(l[0].0, l[0].1), k);
    }
}

proof fn lemma_acc_key_at(
    l: Seq<(Seq<char>, Seq<char>)>,
    m: Map<Seq<char>, Seq<char>>,
    k: Seq<char>,
    idx: int,
)
    requires
        0 <= idx < l.len(),
        l[idx].0 == k,
        forall|j: int| idx < j < l.len() ==> l[j].0 != k,
    ensures
        entries_map_acc(l, m).contains_key(k),
        entries_map_acc(l, m)[k] == l[idx].1,
    decreases l.len(),
{
    if idx == 0 {
        assert forall|i: int| 0 <= i < l.drop_first().len() implies l.drop_first()[i].0 != k by {
            assert(l.drop_first()[i] == l[i + 1]);
        }
        lemma_acc_no_key(l.drop_first(), m.insert(k, l[0].1), k);
    } else {
        assert forall|j: int| idx - 1 < j < l.drop_first().len() implies l.drop_first()[j].0
            != k by {
            assert(l.drop_first()[j] == l[j + 1]);
        }
        assert(l.drop_first()[idx - 1] == l[idx]);
        lemma_acc_key_at(l.drop_first(), m.insert(l[0].0, l[0].1), k, idx - 1);
    }
}

proof fn lemma_entries_map_at(l: Seq<(Seq<char>, Seq<char>)>, idx: int)
    requires
        distinct_keys(l),
        0 <= idx < l.len(),
    ensures
        entries_map(l).contains_key(l[idx].0),
        entries_map(l)[l[idx].0] == l[idx].1,
{
    lemma_acc_key_at(l, Map::empty(), l[idx].0, idx);
}

proof fn lemma_entries_map_absent(l: Seq<(Seq<char>, Seq<char>)>, k: Seq<char>)
    requires
        forall|i: int| 0 <= i < l.len() ==> l[i].0 != k,
    ensures
        !entries_map(l).contains_key(k),
{
    lemma_acc_no_key(l, Map::empty(), k);
}

/// Header parsing does not depend on the order of lines whose keys are all
/// distinct: two entry lists that hold the same entries, each without
/// duplicate keys, denote the same header map.
pub proof fn lemma_headers_reorder(l1: Seq<(Seq<char>, Seq<char>)>, l2: Seq<(Seq<char>, Seq<char>)>)
    requires
        l1.to_multiset() == l2.to_multiset(),
        distinct_keys(l1),
        distinct_keys(l2),
    ensures
        entries_map(l1) == entries_map(l2),
{
    assert_maps_equal!(entries_map(l1), entries_map(l2), k => {
        if entries_map(l1).contains_key(k) {
            lemma_entries_map_one_way(l1, l2, k);
        }
        if entries_map(l2).contains_key(k) {
            lemma_entries_map_one_way(l2, l1, k);
        }
    });
}

proof fn lemma_entries_map_one_way(
    l1: Seq<(Seq<char>, Seq<char>)>,
    l2: Seq<(Seq<char>, Seq<char>)>,
    k: Seq<char>,
)
    requires
        l1.to_multiset() == l2.to_multiset(),
        distinct_keys(l1),
        distinct_keys(l2),
        entries_map(l1).contains_key(k),
    ensures
        entries_map(l2).contains_key(k),
        entries_map(l2)[k] == entries_map(l1)[k],
{
    broadcast use vstd::seq_lib::group_to_multiset_ensures;

    if forall|i: int| 0 <= i < l1.len() ==> l1[i].0 != k {
        lemma_entries_map_absent(l1, k);
        assert(false);
    }
    let i = choose|i: int| 0 <= i < l1.len() && l1[i].0 == k;
    lemma_entries_map_at(l1, i);
    assert(l1.contains(l1[i]));
    assert(l1.to_multiset().count(l1[i]) > 0);
    assert(l2.to_multiset().count(l1[i]) > 0);
    assert(l2.contains(l1[i]));
    let j = choose|j: int| 0 <= j < l2.len() && l2[j] == l1[i];
    lemma_entries_map_at(l2, j);
}

} // verus!
