//! Routing: what a request asks of the server, decided from its parts alone.
//! File reads and writes are handed back to the caller as actions.
use vstd::prelude::*;
use crate::bytes::{append_bytes, bytes_equal, copy_range, find_byte, has_prefix, index_of, starts_with};
use crate::compression::gzip_of;
use crate::names::{
    accept_encoding, accept_encoding_spec, content_encoding_spec, content_type, content_type_spec,
    echo_prefix, echo_prefix_spec, files_prefix, gzip_spec, files_prefix_spec, method_get, method_get_spec,
    method_post, method_post_spec, octet_stream, octet_stream_spec, root_line, root_line_spec,
    text_plain, text_plain_spec, unknown, unknown_spec, user_agent, user_agent_line,
    user_agent_line_spec, user_agent_path_spec, user_agent_spec,
};
use crate::request::{header_value, path_of, Request, RequestView};
use crate::response::{
    encodes_gzip, offers_gzip, with_body, with_header, Headers, Response, ResponseStatus,
    ResponseView,
};

verus! {

/// What the server does next for a request.
pub enum Action {
    /// Send this response.
    Respond(Response),
    /// Read the file at this path; `file_read` makes the response.
    ReadFile(Vec<u8>),
    /// Write these bytes to the file at this path; `file_written` makes the response.
    WriteFile(Vec<u8>, Vec<u8>),
}

pub enum ActionView {
    Respond(ResponseView),
    ReadFile(Seq<u8>),
    WriteFile(Seq<u8>, Seq<u8>),
}

impl View for Action {
    type V = ActionView;

    open spec fn view(&self) -> ActionView {
        match self {
            Action::Respond(r) => ActionView::Respond(r@),
            Action::ReadFile(p) => ActionView::ReadFile(p@),
            Action::WriteFile(p, b) => ActionView::WriteFile(p@, b@),
        }
    }
}

/// The first space-separated token of a request line.
pub open spec fn method_of(line: Seq<u8>) -> Seq<u8> {
    line.subrange(0, index_of(line, 32) as int)
}

/// The part of a path after its last `/`.
pub open spec fn last_segment(p: Seq<u8>) -> Seq<u8>
    decreases p.len(),
{
    let i = index_of(p, 47);
    if i >= p.len() {
        p
    } else {
        last_segment(p.subrange(i as int + 1, p.len() as int))
    }
}

/// Where a file of the served directory lives: `{dir}/{name}`, for reads and
/// writes alike. (An earlier form of this server read from `/{dir}/{name}`
/// and wrote to `{dir}{name}`; one rule for both is used here, so that a file
/// written with `POST` is the one read back with `GET`.)
pub open spec fn file_path(dir: Seq<u8>, name: Seq<u8>) -> Seq<u8> {
    dir + seq![47u8] + name
}

pub open spec fn empty_response(status: ResponseStatus) -> ResponseView {
    ResponseView { status, headers: Seq::empty(), body: Seq::empty() }
}

/// The `User-Agent` value, or `Unknown`, as plain text.
pub open spec fn user_agent_response(req: RequestView) -> ResponseView {
    ResponseView {
        status: ResponseStatus::Success,
        headers: seq![(content_type_spec(), text_plain_spec())],
        body: match header_value(req.headers, user_agent_spec()) {
            Some(v) => v,
            None => unknown_spec(),
        },
    }
}

/// Headers of an echo: plain text, gzip-encoded where the client offers gzip.
pub open spec fn echo_headers(req: RequestView) -> Headers {
    let plain = seq![(content_type_spec(), text_plain_spec())];
    match header_value(req.headers, accept_encoding_spec()) {
        Some(s) => if offers_gzip(s) {
            with_header(plain, content_encoding_spec(), gzip_spec())
        } else {
            plain
        },
        None => plain,
    }
}

/// An echo of `text`, compressed where its headers ask for it (plain, without
/// `Content-Encoding`, where compression fails).
pub open spec fn echo_response(req: RequestView, text: Seq<u8>) -> ResponseView {
    let (hs, body) = with_body(echo_headers(req), text);
    ResponseView { status: ResponseStatus::Success, headers: hs, body }
}

pub open spec fn is_route(req: RequestView, method: Seq<u8>, prefix: Seq<u8>) -> bool {
    method_of(req.line) == method && path_of(req.line) is Some && starts_with(
        path_of(req.line).unwrap(),
        prefix,
    )
}


/// What the server does for `req`, with files served from `dir`. Routes are
/// tried in order: `GET /` and `GET /user-agent` match the whole request line
/// (`HTTP/1.1` included); `/echo/` and `/files/` match the path by prefix.
pub open spec fn plan(req: RequestView, dir: Seq<u8>) -> ActionView {
    if req.line == root_line_spec() {
        ActionView::Respond(empty_response(ResponseStatus::Success))
    } else if req.line == user_agent_line_spec() {
        ActionView::Respond(user_agent_response(req))
    } else if is_route(req, method_get_spec(), echo_prefix_spec()) {
        ActionView::Respond(echo_response(req, last_segment(path_of(req.line).unwrap())))
    } else if is_route(req, method_get_spec(), files_prefix_spec()) {
        ActionView::ReadFile(file_path(dir, last_segment(path_of(req.line).unwrap())))
    } else if is_route(req, method_post_spec(), files_prefix_spec()) {
        match req.body {
            Some(b) => ActionView::WriteFile(
                file_path(dir, last_segment(path_of(req.line).unwrap())),
                b,
            ),
            None => ActionView::Respond(empty_response(ResponseStatus::NotFound)),
        }
    } else {
        ActionView::Respond(empty_response(ResponseStatus::NotFound))
    }
}

/// Copy of the part of `p` after its last `/`.
fn last_segment_of(p: &[u8]) -> (r: Vec<u8>)
    ensures
        r@ == last_segment(p@),
{
    let mut pos: usize = 0;
    assert(p@.subrange(0, p@.len() as int) =~= p@);
    loop
        invariant
            pos <= p@.len(),
            last_segment(p@) == last_segment(p@.subrange(pos as int, p@.len() as int)),
        decreases p@.len() - pos,
    {
        let ghost t = p@.subrange(pos as int, p@.len() as int);
        let j = find_byte(p, pos, 47u8);
        if j == p.len() {
            return copy_range(p, pos, j);
        }
        assert(t.subrange(j - pos + 1, t.len() as int) =~= p@.subrange(j + 1, p@.len() as int));
        pos = j + 1;
    }
}

fn join_path(dir: &[u8], name: &Vec<u8>) -> (r: Vec<u8>)
    ensures
        r@ == file_path(dir@, name@),
{
    let mut r: Vec<u8> = Vec::new();
    append_bytes(&mut r, dir);
    r.push(47u8);
    append_bytes(&mut r, name.as_slice());
    assert(r@ =~= file_path(dir@, name@));
    r
}

fn method_is(line: &[u8], method: &Vec<u8>) -> (r: bool)
    ensures
        r == (method_of(line@) == method@),
{
    let i = find_byte(line, 0, 32u8);
    assert(line@.subrange(0, line@.len() as int) =~= line@);
    let m = copy_range(line, 0, i);
    bytes_equal(m.as_slice(), method.as_slice())
}

fn plain_text_response() -> (r: Response)
    ensures
        r@.status == ResponseStatus::Success,
        r@.headers == seq![(content_type_spec(), text_plain_spec())],
        r@.body.len() == 0,
        r.wf(),
{
    let mut r = Response::new(ResponseStatus::Success);
    let ct = content_type();
    let tp = text_plain();
    r.add_header(ct.as_slice(), tp.as_slice());
    assert(!exists|i: int| crate::response::key_at(Seq::empty(), content_type_spec(), i));
    assert(r@.headers =~= seq![(content_type_spec(), text_plain_spec())]);
    r
}

/// Decides what to do for `request`, with files served from `directory`.
pub fn route(request: &Request, directory: &[u8]) -> (r: Action)
    ensures
        r@ == plan(request@, directory@),
{
    let ghost req = request@;
    let line = request.line.as_slice();
    let root_req = root_line();
    if bytes_equal(line, root_req.as_slice()) {
        let r = Response::new(ResponseStatus::Success);
        return Action::Respond(r);
    }
    let ua_req = user_agent_line();
    if bytes_equal(line, ua_req.as_slice()) {
        let mut r = plain_text_response();
        let ua = user_agent();
        let body = match request.get_header(ua.as_slice()) {
            Some(v) => v,
            None => unknown(),
        };
        r.add_body(body.as_slice());
        assert(r@ =~= user_agent_response(req));
        return Action::Respond(r);
    }
    let path = match request.get_path() {
        Some(p) => p,
        None => {
            let r = Response::new(ResponseStatus::NotFound);
            return Action::Respond(r);
        },
    };
    let get = method_get();
    let post = method_post();
    let is_get = method_is(line, &get);
    let is_post = method_is(line, &post);
    let echo = echo_prefix();
    let files = files_prefix();
    if is_get && has_prefix(path.as_slice(), echo.as_slice()) {
        let text = last_segment_of(path.as_slice());
        let mut r = plain_text_response();
        let ae = accept_encoding();
        match request.get_header(ae.as_slice()) {
            Some(schemes) => r.compress(schemes.as_slice()),
            None => {},
        }
        assert(r@.headers == echo_headers(req));
        r.add_body(text.as_slice());
        return Action::Respond(r);
    }
    if is_get && has_prefix(path.as_slice(), files.as_slice()) {
        let name = last_segment_of(path.as_slice());
        return Action::ReadFile(join_path(directory, &name));
    }
    if is_post && has_prefix(path.as_slice(), files.as_slice()) {
        match &request.body {
            Some(b) => {
                let name = last_segment_of(path.as_slice());
                let contents = copy_range(b.as_slice(), 0, b.len());
                assert(b@.subrange(0, b@.len() as int) =~= b@);
                return Action::WriteFile(join_path(directory, &name), contents);
            },
            None => {
                let r = Response::new(ResponseStatus::NotFound);
                assert(r@ =~= empty_response(ResponseStatus::NotFound));
                return Action::Respond(r);
            },
        }
    }
    let r = Response::new(ResponseStatus::NotFound);
    assert(r@ =~= empty_response(ResponseStatus::NotFound));
    Action::Respond(r)
}

/// The response to a file read: its bytes as `application/octet-stream`, or
/// 404 with an empty body where the read failed (`None`).
pub fn file_read(contents: Option<Vec<u8>>) -> (r: Response)
    ensures
        contents matches Some(c) ==> r@ == (ResponseView {
            status: ResponseStatus::Success,
            headers: seq![(content_type_spec(), octet_stream_spec())],
            body: c@,
        }),
        contents is None ==> r@ == empty_response(ResponseStatus::NotFound),
{
    match contents {
        Some(c) => {
            let mut r = Response::new(ResponseStatus::Success);
            let ct = content_type();
            let os = octet_stream();
            r.add_header(ct.as_slice(), os.as_slice());
            assert(!exists|i: int| crate::response::key_at(Seq::empty(), content_type_spec(), i));
            r.add_body(c.as_slice());
            assert(r@.headers =~= seq![(content_type_spec(), octet_stream_spec())]);
            r
        },
        None => {
            let r = Response::new(ResponseStatus::NotFound);
            assert(r@ =~= empty_response(ResponseStatus::NotFound));
            r
        },
    }
}

/// The response to a file write: 201 where it succeeded, else 404; both
/// with an empty body.
pub fn file_written(ok: bool) -> (r: Response)
    ensures
        ok ==> r@ == empty_response(ResponseStatus::Created),
        !ok ==> r@ == empty_response(ResponseStatus::NotFound),
{
    let r = if ok {
        Response::new(ResponseStatus::Created)
    } else {
        Response::new(ResponseStatus::NotFound)
    };
    r
}

proof fn lemma_index_of_at_most(s: Seq<u8>, b: u8, j: int)
    requires
        0 <= j < s.len(),
        s[j] == b,
    ensures
        index_of(s, b) <= j,
        s[index_of(s, b) as int] == b,
    decreases j,
{
    if s[0] != b {
        lemma_index_of_at_most(s.drop_first(), b, j - 1);
    }
}

/// The paths of the two whole request lines that are routed exactly.
proof fn lemma_exact_line_paths()
    ensures
        path_of(root_line_spec()) == Some(seq![47u8]),
        path_of(user_agent_line_spec()) == Some(user_agent_path_spec()),
{
    let l = root_line_spec();
    crate::bytes::lemma_index_of(l, 32, 3);
    let rest = l.subrange(4, l.len() as int);
    crate::bytes::lemma_index_of(rest, 32, 1);
    assert(rest.subrange(0, 1) =~= seq![47u8]);
    let u = user_agent_line_spec();
    crate::bytes::lemma_index_of(u, 32, 3);
    let rest2 = u.subrange(4, u.len() as int);
    crate::bytes::lemma_index_of(rest2, 32, 11);
    assert(rest2.subrange(0, 11) =~= user_agent_path_spec());
}

proof fn lemma_last_segment(x: Seq<u8>, s: Seq<u8>)
    requires
        forall|i: int| 0 <= i < s.len() ==> s[i] != 47,
    ensures
        last_segment(x + seq![47u8] + s) == s,
    decreases x.len(),
{
    let p = x + seq![47u8] + s;
    lemma_index_of_at_most(p, 47, x.len() as int);
    let i = index_of(p, 47) as int;
    if i == x.len() {
        assert(p.subrange(i + 1, p.len() as int) =~= s);
        crate::bytes::lemma_index_of(s, 47, s.len() as int);
        assert(last_segment(s) == s);
        assert(last_segment(p) == last_segment(p.subrange(i + 1, p.len() as int)));
    } else {
        let x2 = x.subrange(i + 1, x.len() as int);
        assert(p.subrange(i + 1, p.len() as int) =~= x2 + seq![47u8] + s);
        lemma_last_segment(x2, s);
        assert(last_segment(p) == last_segment(p.subrange(i + 1, p.len() as int)));
    }
}

/// A `GET /echo/<s>` request, with no `/` in `s`, is answered with status 200
/// and `s` as the body: as it is, or gzip-compressed where the headers say
/// `Content-Encoding: gzip`. A failed compression sends `s` as it is.
pub proof fn lemma_echo(req: RequestView, dir: Seq<u8>, s: Seq<u8>)
    requires
        method_of(req.line) == method_get_spec(),
        path_of(req.line) == Some(echo_prefix_spec() + s),
        forall|i: int| 0 <= i < s.len() ==> s[i] != 47,
    ensures
        plan(req, dir) == ActionView::Respond(echo_response(req, s)),
        echo_response(req, s).status == ResponseStatus::Success,
        !encodes_gzip(echo_headers(req)) ==> echo_response(req, s).body == s,
        encodes_gzip(echo_headers(req)) ==> match gzip_of(s) {
            Some(c) => echo_response(req, s).body == c,
            None => echo_response(req, s).body == s,
        },
{
    let p = echo_prefix_spec() + s;
    lemma_exact_line_paths();
    assert(p[1] == 101);
    assert(user_agent_path_spec()[1] == 117);
    assert(p.len() != 1);
    assert(starts_with(p, echo_prefix_spec())) by {
        assert(p.subrange(0, 6) =~= echo_prefix_spec());
    }
    assert(echo_prefix_spec() =~= seq![47u8, 101, 99, 104, 111] + seq![47u8]);
    lemma_last_segment(seq![47u8, 101, 99, 104, 111], s);
}

/// A `GET /echo/<s>` request that offers `Accept-Encoding: gzip` gets
/// `Content-Encoding: gzip` and the gzip stream of `s` as its body; where
/// compression fails, plain text and `s` itself.
pub proof fn lemma_echo_gzip(req: RequestView, dir: Seq<u8>, s: Seq<u8>)
    requires
        method_of(req.line) == method_get_spec(),
        path_of(req.line) == Some(echo_prefix_spec() + s),
        forall|i: int| 0 <= i < s.len() ==> s[i] != 47,
        header_value(req.headers, accept_encoding_spec()) == Some(gzip_spec()),
    ensures
        plan(req, dir) == ActionView::Respond(
            match gzip_of(s) {
                Some(c) => ResponseView {
                    status: ResponseStatus::Success,
                    headers: seq![
                        (content_type_spec(), text_plain_spec()),
                        (content_encoding_spec(), gzip_spec()),
                    ],
                    body: c,
                },
                None => ResponseView {
                    status: ResponseStatus::Success,
                    headers: seq![(content_type_spec(), text_plain_spec())],
                    body: s,
                },
            },
        ),
{
    lemma_echo(req, dir, s);
    let g = gzip_spec();
    crate::bytes::lemma_index_of(g, 44, 4);
    assert(g.subrange(0, 4) =~= g);
    assert(crate::response::trim_start(g) == g);
    assert(crate::response::trim_end(g) == g);
    assert(offers_gzip(g));
    let plain = seq![(content_type_spec(), text_plain_spec())];
    let ce = content_encoding_spec();
    assert(content_type_spec().len() != ce.len());
    assert(!exists|i: int| crate::response::key_at(plain, ce, i));
    let hs = echo_headers(req);
    assert(hs == plain.push((ce, g)));
    assert(crate::response::key_at(hs, ce, 1));
    crate::response::lemma_first_key_unique(hs, ce, 1);
    assert(encodes_gzip(hs));
    assert(hs =~= seq![(content_type_spec(), text_plain_spec()), (ce, g)]);
    assert(hs.remove(1) =~= plain);
}

/// `POST /files/<name>` with a body and `GET /files/<name>`, for a `name`
/// with no `/`, reach the same file: the first writes the body there, the
/// second reads it back.
pub proof fn lemma_post_then_get(post: RequestView, get: RequestView, dir: Seq<u8>, name: Seq<u8>)
    requires
        method_of(post.line) == method_post_spec(),
        path_of(post.line) == Some(files_prefix_spec() + name),
        post.body is Some,
        method_of(get.line) == method_get_spec(),
        path_of(get.line) == Some(files_prefix_spec() + name),
        forall|i: int| 0 <= i < name.len() ==> name[i] != 47,
    ensures
        plan(post, dir) == ActionView::WriteFile(file_path(dir, name), post.body.unwrap()),
        plan(get, dir) == ActionView::ReadFile(file_path(dir, name)),
{
    let p = files_prefix_spec() + name;
    lemma_exact_line_paths();
    assert(method_post_spec().len() != method_get_spec().len());
    assert(p[1] == 102);
    assert(user_agent_path_spec()[1] == 117);
    assert(echo_prefix_spec()[1] == 101);
    assert(p.len() != 1);
    assert(starts_with(p, files_prefix_spec())) by {
        assert(p.subrange(0, 7) =~= files_prefix_spec());
    }
    assert(!starts_with(p, echo_prefix_spec())) by {
        assert(p.subrange(0, 6)[1] != echo_prefix_spec()[1]);
    }
    assert(files_prefix_spec() =~= seq![47u8, 102, 105, 108, 101, 115] + seq![47u8]);
    lemma_last_segment(seq![47u8, 102, 105, 108, 101, 115], name);
}

} // verus!
