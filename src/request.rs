//! Requests: framing a received byte stream and reading its parts.
use vstd::prelude::*;
use crate::bytes::{
    after_sep, copy_range, find_byte, find_sep, has_prefix, index_of, parse_decimal, parse_usize,
    starts_with, strip_cr, views,
};

verus! {

pub struct Request {
    pub line: Vec<u8>,
    pub headers: Vec<Vec<u8>>,
    pub body: Option<Vec<u8>>,
}

pub struct RequestView {
    pub line: Seq<u8>,
    pub headers: Seq<Seq<u8>>,
    pub body: Option<Seq<u8>>,
}

impl View for Request {
    type V = RequestView;

    open spec fn view(&self) -> RequestView {
        RequestView {
            line: self.line@,
            headers: views(self.headers@),
            body: match self.body {
                Some(b) => Some(b@),
                None => None,
            },
        }
    }
}

pub enum ParseOutcome {
    /// A whole request was read.
    Complete(Request),
    /// The bytes so far end before the request does.
    Incomplete,
    /// The request cannot be read: no request line, or a bad `Content-Length`.
    Malformed,
}

pub enum ParsedView {
    Complete(RequestView),
    Incomplete,
    Malformed,
}

impl View for ParseOutcome {
    type V = ParsedView;

    open spec fn view(&self) -> ParsedView {
        match self {
            ParseOutcome::Complete(r) => ParsedView::Complete(r@),
            ParseOutcome::Incomplete => ParsedView::Incomplete,
            ParseOutcome::Malformed => ParsedView::Malformed,
        }
    }
}

/// The lines before the first empty line, with their endings (LF or CR LF)
/// removed, and the number of bytes that they and the empty line take.
/// `None` while no empty line has ended.
pub open spec fn head_lines(s: Seq<u8>) -> Option<(Seq<Seq<u8>>, nat)>
    decreases s.len(),
{
    let j = index_of(s, 10);
    if j >= s.len() {
        None
    } else {
        let line = strip_cr(s.subrange(0, j as int));
        if line.len() == 0 {
            Some((Seq::empty(), j + 1))
        } else {
            match head_lines(s.subrange(j as int + 1, s.len() as int)) {
                Some((ls, n)) => Some((seq![line] + ls, j + 1 + n)),
                None => None,
            }
        }
    }
}

/// The first header that begins with `key`.
pub open spec fn find_header(headers: Seq<Seq<u8>>, key: Seq<u8>) -> Option<Seq<u8>>
    decreases headers.len(),
{
    if headers.len() == 0 {
        None
    } else if starts_with(headers[0], key) {
        Some(headers[0])
    } else {
        find_header(headers.drop_first(), key)
    }
}

/// The value of the first header that begins with `key`: the text after its first `": "`.
pub open spec fn header_value(headers: Seq<Seq<u8>>, key: Seq<u8>) -> Option<Seq<u8>> {
    match find_header(headers, key) {
        Some(h) => after_sep(h),
        None => None,
    }
}

/// `Content-Length:`
pub open spec fn content_length_prefix() -> Seq<u8> {
    seq![67u8, 111, 110, 116, 101, 110, 116, 45, 76, 101, 110, 103, 116, 104, 58]
}

/// The declared body length: zero without a `Content-Length` header, `None`
/// where its value is not a `usize`.
pub open spec fn content_length(headers: Seq<Seq<u8>>) -> Option<nat> {
    match find_header(headers, content_length_prefix()) {
        None => Some(0),
        Some(h) => match after_sep(h) {
            Some(v) => parse_usize(v),
            None => None,
        },
    }
}

/// What the bytes received so far make of a request.
pub open spec fn parse_request(buf: Seq<u8>) -> ParsedView {
    match head_lines(buf) {
        None => ParsedView::Incomplete,
        Some((ls, n)) => if ls.len() == 0 {
            ParsedView::Malformed
        } else {
            match content_length(ls.drop_first()) {
                None => ParsedView::Malformed,
                Some(cl) => if n + cl > buf.len() {
                    ParsedView::Incomplete
                } else {
                    ParsedView::Complete(
                        RequestView {
                            line: ls[0],
                            headers: ls.drop_first(),
                            body: if cl == 0 {
                                None
                            } else {
                                Some(buf.subrange(n as int, (n + cl) as int))
                            },
                        },
                    )
                },
            }
        },
    }
}

/// The second space-separated token of a request line.
pub open spec fn path_of(line: Seq<u8>) -> Option<Seq<u8>> {
    let i = index_of(line, 32);
    if i >= line.len() {
        None
    } else {
        let rest = line.subrange(i as int + 1, line.len() as int);
        Some(rest.subrange(0, index_of(rest, 32) as int))
    }
}

/// Splits off the head of `buf`: see `head_lines`.
fn read_head(buf: &[u8]) -> (r: Option<(Vec<Vec<u8>>, usize)>)
    ensures
        r is None ==> head_lines(buf@) is None,
        r matches Some((ls, n)) ==> n <= buf@.len() && head_lines(buf@) == Some(
            (views(ls@), n as nat),
        ),
{
    let mut lines: Vec<Vec<u8>> = Vec::new();
    let mut pos: usize = 0;
    assert(buf@.subrange(0, buf@.len() as int) =~= buf@);
    assert(views(lines@) =~= Seq::<Seq<u8>>::empty());
    assert forall|ls: Seq<Seq<u8>>| Seq::<Seq<u8>>::empty() + ls =~= ls by {}
    while pos < buf.len()
        invariant
            pos <= buf@.len(),
            head_lines(buf@) == match head_lines(buf@.subrange(pos as int, buf@.len() as int)) {
                Some((ls, n)) => Some((views(lines@) + ls, (pos + n) as nat)),
                None => None,
            },
        decreases buf@.len() - pos,
    {
        let ghost s = buf@.subrange(pos as int, buf@.len() as int);
        let j = find_byte(buf, pos, 10u8);
        if j == buf.len() {
            return None;
        }
        let end: usize = if j > pos && buf[j - 1] == 13u8 { j - 1 } else { j };
        let ghost raw = s.subrange(0, j - pos);
        assert(strip_cr(raw) =~= buf@.subrange(pos as int, end as int));
        if end == pos {
            assert(views(lines@) + Seq::<Seq<u8>>::empty() =~= views(lines@));
            return Some((lines, j + 1));
        }
        let line = copy_range(buf, pos, end);
        assert(s.subrange(j - pos + 1, s.len() as int) =~= buf@.subrange(j + 1, buf@.len() as int));
        proof {
            let old_lines = views(lines@);
            assert(views(lines@.push(line)) =~= old_lines.push(line@));
            assert forall|ls: Seq<Seq<u8>>| old_lines + (seq![line@] + ls) =~= old_lines.push(line@) + ls by {}
        }
        lines.push(line);
        pos = j + 1;
    }
    assert(buf@.subrange(pos as int, buf@.len() as int).len() == 0);
    None
}

/// Index of the first header that begins with `key`.
fn find_header_index(headers: &Vec<Vec<u8>>, key: &[u8]) -> (r: Option<usize>)
    ensures
        r is None ==> find_header(views(headers@), key@) is None,
        r is Some ==> r.unwrap() < headers@.len() && find_header(views(headers@), key@) == Some(
            headers@[r.unwrap() as int]@,
        ),
{
    let ghost hs = views(headers@);
    let mut i: usize = 0;
    assert(hs.subrange(0, hs.len() as int) =~= hs);
    while i < headers.len()
        invariant
            i <= headers@.len(),
            hs == views(headers@),
            find_header(hs, key@) == find_header(hs.subrange(i as int, hs.len() as int), key@),
        decreases headers@.len() - i,
    {
        let ghost t = hs.subrange(i as int, hs.len() as int);
        if has_prefix(headers[i].as_slice(), key) {
            return Some(i);
        }
        assert(t.drop_first() =~= hs.subrange(i + 1, hs.len() as int));
        i = i + 1;
    }
    None
}

/// The value of the `Content-Length` header: see `content_length`.
fn declared_length(headers: &Vec<Vec<u8>>) -> (r: Option<usize>)
    ensures
        r is None <==> content_length(views(headers@)) is None,
        r is Some ==> r.unwrap() as nat == content_length(views(headers@)).unwrap(),
{
    let prefix: Vec<u8> = vec![67u8, 111, 110, 116, 101, 110, 116, 45, 76, 101, 110, 103, 116, 104, 58];
    assert(prefix@ == content_length_prefix());
    match find_header_index(headers, prefix.as_slice()) {
        None => Some(0),
        Some(i) => {
            let h = headers[i].as_slice();
            let sep = find_sep(h);
            match sep {
                None => None,
                Some(k) => {
                    let len = h.len();
                    let v = copy_range(h, k + 2, len);
                    parse_decimal(v.as_slice())
                },
            }
        },
    }
}

impl Request {
    /// The request target: the second space-separated token of the request line.
    pub fn get_path(&self) -> (r: Option<Vec<u8>>)
        ensures
            r is None <==> path_of(self.line@) is None,
            r is Some ==> r.unwrap()@ == path_of(self.line@).unwrap(),
    {
        let line = self.line.as_slice();
        let i = find_byte(line, 0, 32u8);
        assert(line@.subrange(0, line@.len() as int) =~= line@);
        if i == line.len() {
            return None;
        }
        let j = find_byte(line, i + 1, 32u8);
        let ghost rest = line@.subrange(i + 1, line@.len() as int);
        let r = copy_range(line, i + 1, j);
        assert(r@ =~= rest.subrange(0, index_of(rest, 32) as int));
        Some(r)
    }

    /// The value of the first header that begins with `key`: the text after
    /// its first `": "`. Keys are compared byte for byte, case included.
    pub fn get_header(&self, key: &[u8]) -> (r: Option<Vec<u8>>)
        ensures
            r is None <==> header_value(self@.headers, key@) is None,
            r is Some ==> r.unwrap()@ == header_value(self@.headers, key@).unwrap(),
    {
        match find_header_index(&self.headers, key) {
            None => None,
            Some(i) => {
                let h = self.headers[i].as_slice();
                let sep = find_sep(h);
                match sep {
                    None => None,
                    Some(k) => {
                        let len = h.len();
                        Some(copy_range(h, k + 2, len))
                    },
                }
            },
        }
    }

    /// Reads a request from the bytes received so far on a connection: the
    /// request line and headers up to the first empty line, then exactly as
    /// many body bytes as `Content-Length` declares.
    pub fn parse(buf: &[u8]) -> (r: ParseOutcome)
        ensures
            r@ == parse_request(buf@),
    {
        match read_head(buf) {
            None => ParseOutcome::Incomplete,
            Some((mut lines, n)) => {
                if lines.len() == 0 {
                    return ParseOutcome::Malformed;
                }
                let ghost all = views(lines@);
                let line = lines.remove(0);
                assert(views(lines@) =~= all.drop_first());
                match declared_length(&lines) {
                    None => ParseOutcome::Malformed,
                    Some(cl) => {
                        if cl > buf.len() - n {
                            return ParseOutcome::Incomplete;
                        }
                        let body = if cl == 0 {
                            None
                        } else {
                            Some(copy_range(buf, n, n + cl))
                        };
                        let r = Request { line, headers: lines, body };
                        assert(r@.headers == all.drop_first());
                        ParseOutcome::Complete(r)
                    },
                }
            },
        }
    }
}

} // verus!
