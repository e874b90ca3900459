//! Responses: status, headers and body, and their serialisation.
use vstd::prelude::*;
use crate::bytes::{
    append_bytes, bytes_equal, copy_range, has_prefix, starts_with, crlf, decimal, find_byte, index_of, join_lines,
    push_decimal,
};
use crate::compression::{compress, gzip_of};
use crate::request::content_length_prefix;
use crate::names::{content_encoding, content_encoding_spec, content_length, content_length_spec, gzip, gzip_spec};

verus! {

#[derive(Clone, Copy, Debug, PartialEq, Eq, Structural)]
pub enum ResponseStatus {
    Success,
    Created,
    NotFound,
}

/// The status line of each status, without its line ending.
pub open spec fn status_text(s: ResponseStatus) -> Seq<u8> {
    match s {
        ResponseStatus::Success => seq![72u8, 84, 84, 80, 47, 49, 46, 49, 32, 50, 48, 48, 32, 79, 75],
        ResponseStatus::Created => seq![
            72u8, 84, 84, 80, 47, 49, 46, 49, 32, 50, 48, 49, 32, 67, 114, 101, 97, 116, 101, 100,
        ],
        ResponseStatus::NotFound => seq![
            72u8, 84, 84, 80, 47, 49, 46, 49, 32, 52, 48, 52, 32, 78, 111, 116, 32, 70, 111, 117,
            110, 100,
        ],
    }
}

impl ResponseStatus {
    /// The status line, e.g. `HTTP/1.1 200 OK`.
    pub fn status_line(&self) -> (r: Vec<u8>)
        ensures
            r@ == status_text(*self),
    {
        match self {
            ResponseStatus::Success => vec![72u8, 84, 84, 80, 47, 49, 46, 49, 32, 50, 48, 48, 32, 79, 75],
            ResponseStatus::Created => vec![
                72u8, 84, 84, 80, 47, 49, 46, 49, 32, 50, 48, 49, 32, 67, 114, 101, 97, 116, 101, 100,
            ],
            ResponseStatus::NotFound => vec![
                72u8, 84, 84, 80, 47, 49, 46, 49, 32, 52, 48, 52, 32, 78, 111, 116, 32, 70, 111,
                117, 110, 100,
            ],
        }
    }
}

pub struct Response {
    pub status: ResponseStatus,
    /// Header names and values; a name stands at most once.
    pub headers: Vec<(Vec<u8>, Vec<u8>)>,
    pub body: Vec<u8>,
}

pub struct ResponseView {
    pub status: ResponseStatus,
    pub headers: Seq<(Seq<u8>, Seq<u8>)>,
    pub body: Seq<u8>,
}

pub open spec fn header_views(hs: Seq<(Vec<u8>, Vec<u8>)>) -> Seq<(Seq<u8>, Seq<u8>)> {
    hs.map_values(|h: (Vec<u8>, Vec<u8>)| (h.0@, h.1@))
}

impl View for Response {
    type V = ResponseView;

    open spec fn view(&self) -> ResponseView {
        ResponseView { status: self.status, headers: header_views(self.headers@), body: self.body@ }
    }
}

pub type Headers = Seq<(Seq<u8>, Seq<u8>)>;

/// `i` is the first position of name `k` in `hs`.
pub open spec fn key_at(hs: Headers, k: Seq<u8>, i: int) -> bool {
    0 <= i < hs.len() && hs[i].0 == k && forall|j: int| 0 <= j < i ==> hs[j].0 != k
}

pub open spec fn keys_unique(hs: Headers) -> bool {
    forall|i: int, j: int| 0 <= i < j < hs.len() ==> hs[i].0 != hs[j].0
}

/// `hs` with the value of `k` set to `v`: replaced in place, or added at the end.
pub open spec fn with_header(hs: Headers, k: Seq<u8>, v: Seq<u8>) -> Headers {
    if exists|i: int| key_at(hs, k, i) {
        hs.update(choose|i: int| key_at(hs, k, i), (k, v))
    } else {
        hs.push((k, v))
    }
}

/// `hs` without its header named `k`.
pub open spec fn without_header(hs: Headers, k: Seq<u8>) -> Headers {
    if exists|i: int| key_at(hs, k, i) {
        hs.remove(choose|i: int| key_at(hs, k, i))
    } else {
        hs
    }
}

/// The value of the header named `k`.
pub open spec fn header_get(hs: Headers, k: Seq<u8>) -> Option<Seq<u8>> {
    if exists|i: int| key_at(hs, k, i) {
        Some(hs[choose|i: int| key_at(hs, k, i)].1)
    } else {
        None
    }
}

/// The headers ask for a gzip-encoded body.
pub open spec fn encodes_gzip(hs: Headers) -> bool {
    header_get(hs, content_encoding_spec()) == Some(gzip_spec())
}

/// Headers and body once `body` is set: see `Response::add_body`.
pub open spec fn with_body(hs: Headers, body: Seq<u8>) -> (Headers, Seq<u8>) {
    if encodes_gzip(hs) {
        match gzip_of(body) {
            Some(c) => (hs, c),
            None => (without_header(hs, content_encoding_spec()), body),
        }
    } else {
        (hs, body)
    }
}

/// A header name that would pass for `Content-Length`; such headers are left
/// out on serialisation, where the length is computed.
pub open spec fn is_length_name(k: Seq<u8>) -> bool {
    k == content_length_spec() || starts_with(k, content_length_prefix())
}

pub open spec fn header_line(k: Seq<u8>, v: Seq<u8>) -> Seq<u8> {
    k + seq![58u8, 32u8] + v
}

/// One `Name: value` line per header, in order, leaving out any
/// `Content-Length` set by hand (see `is_length_name`).
pub open spec fn header_lines(hs: Headers) -> Seq<Seq<u8>>
    decreases hs.len(),
{
    if hs.len() == 0 {
        Seq::empty()
    } else {
        let rest = header_lines(hs.drop_last());
        if is_length_name(hs.last().0) {
            rest
        } else {
            rest.push(header_line(hs.last().0, hs.last().1))
        }
    }
}

/// The `Content-Length` line: present exactly when the body is not empty.
pub open spec fn length_lines(body: Seq<u8>) -> Seq<Seq<u8>> {
    if body.len() == 0 {
        Seq::empty()
    } else {
        seq![header_line(content_length_spec(), decimal(body.len()))]
    }
}

/// All lines of the head: status line, headers, computed length.
pub open spec fn head_of(r: ResponseView) -> Seq<Seq<u8>> {
    seq![status_text(r.status)] + header_lines(r.headers) + length_lines(r.body)
}

/// The bytes sent for a response.
pub open spec fn serialize(r: ResponseView) -> Seq<u8> {
    join_lines(head_of(r)) + crlf() + r.body
}

pub open spec fn is_ascii_space(b: u8) -> bool {
    b == 32 || (9 <= b <= 13)
}

/// The three-byte UTF-8 encodings of Unicode whitespace: U+1680,
/// U+2000 to U+200A, U+2028, U+2029, U+202F, U+205F and U+3000.
pub open spec fn is_wide_space(x: u8, y: u8, z: u8) -> bool {
    (x == 0xE1 && y == 0x9A && z == 0x80) || (x == 0xE2 && y == 0x80 && ((0x80 <= z <= 0x8A)
        || z == 0xA8 || z == 0xA9 || z == 0xAF)) || (x == 0xE2 && y == 0x81 && z == 0x9F) || (x
        == 0xE3 && y == 0x80 && z == 0x80)
}

/// The two-byte UTF-8 encodings of Unicode whitespace: U+0085 and U+00A0.
pub open spec fn is_narrow_space(x: u8, y: u8) -> bool {
    x == 0xC2 && (y == 0x85 || y == 0xA0)
}

/// Byte length of the whitespace character that `s` begins with, or 0.
pub open spec fn leading_space(s: Seq<u8>) -> nat {
    if s.len() >= 1 && is_ascii_space(s[0]) {
        1
    } else if s.len() >= 2 && is_narrow_space(s[0], s[1]) {
        2
    } else if s.len() >= 3 && is_wide_space(s[0], s[1], s[2]) {
        3
    } else {
        0
    }
}

/// Byte length of the whitespace character that `s` ends with, or 0.
pub open spec fn trailing_space(s: Seq<u8>) -> nat {
    let n = s.len() as int;
    if n >= 1 && is_ascii_space(s[n - 1]) {
        1
    } else if n >= 2 && is_narrow_space(s[n - 2], s[n - 1]) {
        2
    } else if n >= 3 && is_wide_space(s[n - 3], s[n - 2], s[n - 1]) {
        3
    } else {
        0
    }
}

pub open spec fn trim_start(s: Seq<u8>) -> Seq<u8>
    decreases s.len(),
{
    if 0 < leading_space(s) <= s.len() {
        trim_start(s.subrange(leading_space(s) as int, s.len() as int))
    } else {
        s
    }
}

pub open spec fn trim_end(s: Seq<u8>) -> Seq<u8>
    decreases s.len(),
{
    if 0 < trailing_space(s) <= s.len() {
        trim_end(s.subrange(0, s.len() - trailing_space(s)))
    } else {
        s
    }
}

/// `s` without the whitespace (ASCII or Unicode, UTF-8 encoded) at either end.
pub open spec fn trim(s: Seq<u8>) -> Seq<u8> {
    trim_end(trim_start(s))
}

/// One of the comma-separated schemes in `s`, trimmed, is `gzip`.
pub open spec fn offers_gzip(s: Seq<u8>) -> bool
    decreases s.len(),
{
    let j = index_of(s, 44);
    trim(s.subrange(0, j as int)) == gzip_spec() || (j < s.len() && offers_gzip(
        s.subrange(j as int + 1, s.len() as int),
    ))
}

pub proof fn lemma_join_push(ls: Seq<Seq<u8>>, l: Seq<u8>)
    ensures
        join_lines(ls.push(l)) == join_lines(ls) + l + crlf(),
    decreases ls.len(),
{
    if ls.len() == 0 {
        assert(ls.push(l).drop_first() =~= Seq::<Seq<u8>>::empty());
        assert(ls.push(l)[0] == l);
        assert(join_lines(ls.push(l).drop_first()) == Seq::<u8>::empty());
        assert(join_lines(ls) == Seq::<u8>::empty());
        assert(join_lines(ls.push(l)) =~= join_lines(ls) + l + crlf());
    } else {
        lemma_join_push(ls.drop_first(), l);
        assert(ls.push(l).drop_first() =~= ls.drop_first().push(l));
        assert(ls.push(l)[0] == ls[0]);
        assert(join_lines(ls.push(l)) == ls[0] + crlf() + join_lines(ls.drop_first().push(l)));
        assert(join_lines(ls) == ls[0] + crlf() + join_lines(ls.drop_first()));
        assert(join_lines(ls.push(l)) =~= join_lines(ls) + l + crlf());
    }
}

pub proof fn lemma_first_key_unique(hs: Headers, k: Seq<u8>, i: int)
    requires
        key_at(hs, k, i),
    ensures
        (choose|j: int| key_at(hs, k, j)) == i,
{
    let c = choose|j: int| key_at(hs, k, j);
    assert(key_at(hs, k, c));
    if c < i {
        assert(hs[c].0 != k);
    } else if c > i {
        assert(hs[i].0 != k);
    }
}

/// `leading_space` of `s[a..to]`.
fn leading_space_at(s: &[u8], a: usize, to: usize) -> (n: usize)
    requires
        a <= to <= s@.len(),
    ensures
        n == leading_space(s@.subrange(a as int, to as int)),
{
    let ghost t = s@.subrange(a as int, to as int);
    let len = to - a;
    if len >= 1 && (s[a] == 32u8 || (9u8 <= s[a] && s[a] <= 13u8)) {
        assert(t[0] == s@[a as int]);
        1
    } else if len >= 2 && s[a] == 0xC2u8 && (s[a + 1] == 0x85u8 || s[a + 1] == 0xA0u8) {
        assert(t[0] == s@[a as int] && t[1] == s@[a + 1]);
        2
    } else if len >= 3 && ((s[a] == 0xE1u8 && s[a + 1] == 0x9Au8 && s[a + 2] == 0x80u8) || (s[a]
        == 0xE2u8 && s[a + 1] == 0x80u8 && ((0x80u8 <= s[a + 2] && s[a + 2] <= 0x8Au8) || s[a + 2]
        == 0xA8u8 || s[a + 2] == 0xA9u8 || s[a + 2] == 0xAFu8)) || (s[a] == 0xE2u8 && s[a + 1]
        == 0x81u8 && s[a + 2] == 0x9Fu8) || (s[a] == 0xE3u8 && s[a + 1] == 0x80u8 && s[a + 2]
        == 0x80u8)) {
        assert(t[0] == s@[a as int] && t[1] == s@[a + 1] && t[2] == s@[a + 2]);
        3
    } else {
        proof {
            if len >= 1 {
                assert(t[0] == s@[a as int]);
            }
            if len >= 2 {
                assert(t[1] == s@[a + 1]);
            }
            if len >= 3 {
                assert(t[2] == s@[a + 2]);
            }
        }
        0
    }
}

/// `trailing_space` of `s[a..b]`.
fn trailing_space_at(s: &[u8], a: usize, b: usize) -> (n: usize)
    requires
        a <= b <= s@.len(),
    ensures
        n == trailing_space(s@.subrange(a as int, b as int)),
{
    let ghost t = s@.subrange(a as int, b as int);
    let len = b - a;
    if len >= 1 && (s[b - 1] == 32u8 || (9u8 <= s[b - 1] && s[b - 1] <= 13u8)) {
        assert(t[len - 1] == s@[b - 1]);
        1
    } else if len >= 2 && s[b - 2] == 0xC2u8 && (s[b - 1] == 0x85u8 || s[b - 1] == 0xA0u8) {
        assert(t[len - 2] == s@[b - 2] && t[len - 1] == s@[b - 1]);
        2
    } else if len >= 3 && ((s[b - 3] == 0xE1u8 && s[b - 2] == 0x9Au8 && s[b - 1] == 0x80u8) || (
    s[b - 3] == 0xE2u8 && s[b - 2] == 0x80u8 && ((0x80u8 <= s[b - 1] && s[b - 1] <= 0x8Au8)
        || s[b - 1] == 0xA8u8 || s[b - 1] == 0xA9u8 || s[b - 1] == 0xAFu8)) || (s[b - 3] == 0xE2u8
        && s[b - 2] == 0x81u8 && s[b - 1] == 0x9Fu8) || (s[b - 3] == 0xE3u8 && s[b - 2] == 0x80u8
        && s[b - 1] == 0x80u8)) {
        assert(t[len - 3] == s@[b - 3] && t[len - 2] == s@[b - 2] && t[len - 1] == s@[b - 1]);
        3
    } else {
        proof {
            if len >= 1 {
                assert(t[len - 1] == s@[b - 1]);
            }
            if len >= 2 {
                assert(t[len - 2] == s@[b - 2]);
            }
            if len >= 3 {
                assert(t[len - 3] == s@[b - 3]);
            }
        }
        0
    }
}

/// Whether `s[from..to]`, trimmed, is `gzip`.
fn trimmed_is_gzip(s: &[u8], from: usize, to: usize) -> (r: bool)
    requires
        from <= to <= s@.len(),
    ensures
        r == (trim(s@.subrange(from as int, to as int)) == gzip_spec()),
{
    let mut a: usize = from;
    assert(s@.subrange(from as int, to as int) =~= s@.subrange(a as int, to as int));
    loop
        invariant
            from <= a <= to <= s@.len(),
            trim_start(s@.subrange(from as int, to as int)) == trim_start(
                s@.subrange(a as int, to as int),
            ),
        ensures
            from <= a <= to,
            trim_start(s@.subrange(from as int, to as int)) == s@.subrange(a as int, to as int),
        decreases to - a,
    {
        let n = leading_space_at(s, a, to);
        if n == 0 {
            break;
        }
        assert(s@.subrange(a as int, to as int).subrange(n as int, to - a) =~= s@.subrange(
            a + n,
            to as int,
        ));
        a = a + n;
    }
    let mut b: usize = to;
    loop
        invariant
            from <= a <= b <= to <= s@.len(),
            trim_end(s@.subrange(a as int, to as int)) == trim_end(s@.subrange(a as int, b as int)),
        ensures
            a <= b <= to,
            trim_end(s@.subrange(a as int, to as int)) == s@.subrange(a as int, b as int),
        decreases b - a,
    {
        let n = trailing_space_at(s, a, b);
        if n == 0 {
            break;
        }
        assert(s@.subrange(a as int, b as int).subrange(0, b - a - n) =~= s@.subrange(
            a as int,
            b - n,
        ));
        b = b - n;
    }
    let piece = copy_range(s, a, b);
    let g = gzip();
    bytes_equal(piece.as_slice(), g.as_slice())
}

/// Whether the comma-separated list `s` names `gzip`.
fn gzip_offered(s: &[u8]) -> (r: bool)
    ensures
        r == offers_gzip(s@),
{
    let mut pos: usize = 0;
    assert(s@.subrange(0, s@.len() as int) =~= s@);
    loop
        invariant
            pos <= s@.len(),
            offers_gzip(s@) == offers_gzip(s@.subrange(pos as int, s@.len() as int)),
        decreases s@.len() - pos,
    {
        let ghost t = s@.subrange(pos as int, s@.len() as int);
        let j = find_byte(s, pos, 44u8);
        assert(t.subrange(0, j - pos) =~= s@.subrange(pos as int, j as int));
        if trimmed_is_gzip(s, pos, j) {
            return true;
        }
        if j == s.len() {
            return false;
        }
        assert(t.subrange(j - pos + 1, t.len() as int) =~= s@.subrange(j + 1, s@.len() as int));
        pos = j + 1;
    }
}

/// Position of the header named `key`.
fn key_position(headers: &Vec<(Vec<u8>, Vec<u8>)>, key: &[u8]) -> (r: Option<usize>)
    ensures
        r matches Some(i) ==> key_at(header_views(headers@), key@, i as int),
        r is None ==> forall|j: int|
            0 <= j < headers@.len() ==> header_views(headers@)[j].0 != key@,
{
    let ghost hs = header_views(headers@);
    let mut i: usize = 0;
    while i < headers.len()
        invariant
            i <= headers@.len(),
            hs == header_views(headers@),
            forall|j: int| 0 <= j < i ==> hs[j].0 != key@,
        decreases headers@.len() - i,
    {
        if bytes_equal(headers[i].0.as_slice(), key) {
            return Some(i);
        }
        i = i + 1;
    }
    None
}

impl Response {
    pub open spec fn wf(&self) -> bool {
        keys_unique(self@.headers)
    }

    /// A response with the given status, no headers and an empty body.
    pub fn new(status: ResponseStatus) -> (r: Response)
        ensures
            r@ == (ResponseView { status, headers: Seq::empty(), body: Seq::empty() }),
            r.wf(),
    {
        let r = Response { status, headers: Vec::new(), body: Vec::new() };
        assert(r@.headers =~= Seq::<(Seq<u8>, Seq<u8>)>::empty());
        assert(r@.body =~= Seq::<u8>::empty());
        r
    }

    /// Sets header `key` to `value`, replacing an earlier value of `key`.
    pub fn add_header(&mut self, key: &[u8], value: &[u8])
        ensures
            final(self)@.status == old(self)@.status,
            final(self)@.body == old(self)@.body,
            final(self)@.headers == with_header(old(self)@.headers, key@, value@),
            old(self).wf() ==> final(self).wf(),
    {
        let ghost hs = old(self)@.headers;
        let k = copy_range(key, 0, key.len());
        let v = copy_range(value, 0, value.len());
        assert(key@.subrange(0, key@.len() as int) =~= key@);
        assert(value@.subrange(0, value@.len() as int) =~= value@);
        match key_position(&self.headers, key) {
            Some(i) => {
                proof {
                    lemma_first_key_unique(hs, key@, i as int);
                }
                self.headers.set(i, (k, v));
                assert(self@.headers =~= hs.update(i as int, (key@, value@)));
            },
            None => {
                self.headers.push((k, v));
                assert(self@.headers =~= hs.push((key@, value@)));
                assert(!exists|i: int| key_at(hs, key@, i));
            },
        }
    }

    /// Whether the headers ask for a gzip-encoded body.
    fn gzip_requested(&self) -> (r: (bool, usize))
        ensures
            r.0 == encodes_gzip(self@.headers),
            r.0 ==> key_at(self@.headers, content_encoding_spec(), r.1 as int),
    {
        let name = content_encoding();
        match key_position(&self.headers, name.as_slice()) {
            Some(i) => {
                proof {
                    lemma_first_key_unique(self@.headers, content_encoding_spec(), i as int);
                }
                let g = gzip();
                (bytes_equal(self.headers[i].1.as_slice(), g.as_slice()), i)
            },
            None => {
                assert(!exists|i: int| key_at(self@.headers, content_encoding_spec(), i));
                (false, 0)
            },
        }
    }

    /// Marks the body for gzip encoding (sets `Content-Encoding: gzip`) when
    /// the comma-separated list `schemes` names `gzip`; other schemes are ignored.
    pub fn compress(&mut self, schemes: &[u8])
        ensures
            final(self)@.status == old(self)@.status,
            final(self)@.body == old(self)@.body,
            offers_gzip(schemes@) ==> final(self)@.headers == with_header(
                old(self)@.headers,
                content_encoding_spec(),
                gzip_spec(),
            ),
            !offers_gzip(schemes@) ==> final(self)@.headers == old(self)@.headers,
            old(self).wf() ==> final(self).wf(),
    {
        if gzip_offered(schemes) {
            let name = content_encoding();
            let g = gzip();
            self.add_header(name.as_slice(), g.as_slice());
        }
    }

    /// Sets the body given the outcome of compressing it. Where the headers ask
    /// for gzip, `compressed` becomes the body; where compression failed
    /// (`None`), `body` is sent as it is and `Content-Encoding` is dropped.
    pub fn add_encoded_body(&mut self, body: &[u8], compressed: Option<Vec<u8>>)
        ensures
            final(self)@.status == old(self)@.status,
            !encodes_gzip(old(self)@.headers) ==> final(self)@.headers == old(self)@.headers
                && final(self)@.body == body@,
            encodes_gzip(old(self)@.headers) && compressed is Some ==> final(self)@.headers == old(
                self,
            )@.headers && final(self)@.body == compressed.unwrap()@,
            encodes_gzip(old(self)@.headers) && compressed is None ==> final(self)@.headers
                == without_header(old(self)@.headers, content_encoding_spec()) && final(self)@.body
                == body@,
            old(self).wf() ==> final(self).wf(),
    {
        let ghost hs = old(self)@.headers;
        let (gz, i) = self.gzip_requested();
        if gz {
            match compressed {
                Some(c) => {
                    self.body = c;
                },
                None => {
                    proof {
                        lemma_first_key_unique(hs, content_encoding_spec(), i as int);
                    }
                    self.headers.remove(i);
                    assert(self@.headers =~= hs.remove(i as int));
                    self.body = copy_range(body, 0, body.len());
                    assert(body@.subrange(0, body@.len() as int) =~= body@);
                    assert(old(self).wf() ==> keys_unique(self@.headers)) by {
                        if old(self).wf() {
                            assert forall|a: int, b: int|
                                0 <= a < b < self@.headers.len() implies self@.headers[a].0
                                != self@.headers[b].0 by {
                                let a2 = if a < i { a } else { a + 1 };
                                let b2 = if b < i { b } else { b + 1 };
                                assert(self@.headers[a] == hs[a2]);
                                assert(self@.headers[b] == hs[b2]);
                            }
                        }
                    }
                },
            }
        } else {
            self.body = copy_range(body, 0, body.len());
            assert(body@.subrange(0, body@.len() as int) =~= body@);
        }
    }

    /// Sets the body, gzip-compressed where the headers ask for it (falling
    /// back to the plain body, without `Content-Encoding`, if that fails).
    pub fn add_body(&mut self, body: &[u8])
        ensures
            final(self)@.status == old(self)@.status,
            !encodes_gzip(old(self)@.headers) ==> final(self)@.headers == old(self)@.headers
                && final(self)@.body == body@,
            encodes_gzip(old(self)@.headers) ==> match gzip_of(body@) {
                Some(c) => final(self)@.headers == old(self)@.headers && final(self)@.body == c,
                None => final(self)@.headers == without_header(
                    old(self)@.headers,
                    content_encoding_spec(),
                ) && final(self)@.body == body@,
            },
            (final(self)@.headers, final(self)@.body) == with_body(old(self)@.headers, body@),
            old(self).wf() ==> final(self).wf(),
    {
        let (gz, _) = self.gzip_requested();
        let compressed = if gz {
            compress(body)
        } else {
            None
        };
        self.add_encoded_body(body, compressed);
    }

    /// The bytes sent for this response: status line, one line per header
    /// (a hand-set `Content-Length`, or a name beginning `Content-Length:`, left out), `Content-Length` of the body
    /// when it is not empty, an empty line, then the body.
    pub fn to_bytes(&self) -> (r: Vec<u8>)
        ensures
            r@ == serialize(self@),
    {
        let ghost hs = self@.headers;
        let mut out = self.status.status_line();
        let ghost status = seq![status_text(self.status)];
        out.push(13u8);
        out.push(10u8);
        proof {
            lemma_join_push(Seq::empty(), status_text(self.status));
            assert(Seq::<Seq<u8>>::empty().push(status_text(self.status)) =~= status);
            assert(join_lines(Seq::<Seq<u8>>::empty()) == Seq::<u8>::empty());
            assert(out@ =~= join_lines(status));
            assert(hs.subrange(0, 0) =~= Seq::<(Seq<u8>, Seq<u8>)>::empty());
            assert(status + header_lines(hs.subrange(0, 0)) =~= status);
        }
        let cl_name = content_length();
        let cl_prefix: Vec<u8> = vec![67u8, 111, 110, 116, 101, 110, 116, 45, 76, 101, 110, 103, 116, 104, 58];
        assert(cl_prefix@ == content_length_prefix());
        let mut i: usize = 0;
        while i < self.headers.len()
            invariant
                i <= self.headers@.len(),
                hs == self@.headers,
                cl_name@ == content_length_spec(),
                cl_prefix@ == content_length_prefix(),
                out@ == join_lines(status + header_lines(hs.subrange(0, i as int))),
            decreases self.headers@.len() - i,
        {
            let ghost before = status + header_lines(hs.subrange(0, i as int));
            assert(hs.subrange(0, i + 1).drop_last() =~= hs.subrange(0, i as int));
            assert(hs.subrange(0, i + 1).last() == hs[i as int]);
            let key = self.headers[i].0.as_slice();
            let value = self.headers[i].1.as_slice();
            if !bytes_equal(key, cl_name.as_slice()) && !has_prefix(key, cl_prefix.as_slice()) {
                append_bytes(&mut out, key);
                out.push(58u8);
                out.push(32u8);
                append_bytes(&mut out, value);
                out.push(13u8);
                out.push(10u8);
                proof {
                    let l = header_line(key@, value@);
                    lemma_join_push(before, l);
                    assert(status + header_lines(hs.subrange(0, i + 1)) =~= before.push(l));
                    assert(out@ =~= join_lines(before) + l + crlf());
                }
            }
            i = i + 1;
        }
        assert(hs.subrange(0, hs.len() as int) =~= hs);
        let ghost lines = status + header_lines(hs);
        if self.body.len() > 0 {
            append_bytes(&mut out, cl_name.as_slice());
            out.push(58u8);
            out.push(32u8);
            push_decimal(&mut out, self.body.len());
            out.push(13u8);
            out.push(10u8);
            proof {
                let l = header_line(content_length_spec(), decimal(self@.body.len()));
                lemma_join_push(lines, l);
                assert(head_of(self@) =~= lines.push(l));
            }
        } else {
            assert(head_of(self@) =~= lines);
        }
        out.push(13u8);
        out.push(10u8);
        append_bytes(&mut out, self.body.as_slice());
        assert(out@ =~= serialize(self@));
        out
    }
}

} // verus!
