//! How a serialised response reads back through the request parser.
use vstd::prelude::*;
use crate::bytes::{
    after_sep, crlf, decimal, has_no_lf, join_lines, lemma_after_sep, lemma_decimal_digits,
    lemma_decimal_parses, lemma_index_of, starts_with, strip_cr,
};
use crate::names::content_length_spec;
use crate::request::{
    content_length, content_length_prefix, find_header, head_lines, parse_request, ParsedView,
    RequestView,
};
use crate::response::{
    head_of, header_line, header_lines, is_length_name, length_lines, serialize, status_text, Headers,
    ResponseView,
};

verus! {

/// A header that frames cleanly: no line feed in its name or value.
pub open spec fn plain_header(k: Seq<u8>, v: Seq<u8>) -> bool {
    has_no_lf(k) && has_no_lf(v)
}

pub open spec fn plain_headers(hs: Headers) -> bool {
    forall|i: int| 0 <= i < hs.len() ==> plain_header(hs[i].0, hs[i].1)
}

/// What the request parser reads from a serialised response.
pub open spec fn response_as_request(r: ResponseView) -> RequestView {
    RequestView {
        line: status_text(r.status),
        headers: header_lines(r.headers) + length_lines(r.body),
        body: if r.body.len() == 0 {
            None
        } else {
            Some(r.body)
        },
    }
}

pub open spec fn clean_line(l: Seq<u8>) -> bool {
    l.len() > 0 && has_no_lf(l) && !starts_with(l, content_length_prefix())
}

proof fn lemma_head_lines_join(ls: Seq<Seq<u8>>, rest: Seq<u8>)
    requires
        forall|i: int| 0 <= i < ls.len() ==> ls[i].len() > 0 && has_no_lf(#[trigger] ls[i]),
    ensures
        head_lines(join_lines(ls) + crlf() + rest) == Some(
            (ls, (join_lines(ls).len() + 2) as nat),
        ),
    decreases ls.len(),
{
    let s = join_lines(ls) + crlf() + rest;
    if ls.len() == 0 {
        assert(join_lines(ls) == Seq::<u8>::empty());
        lemma_index_of(s, 10, 1);
        assert(s.subrange(0, 1) =~= seq![13u8]);
        assert(strip_cr(s.subrange(0, 1)) =~= Seq::<u8>::empty());
        assert(ls =~= Seq::<Seq<u8>>::empty());
    } else {
        let l = ls[0];
        let tail = ls.drop_first();
        assert forall|i: int| 0 <= i < tail.len() implies tail[i].len() > 0 && has_no_lf(
            #[trigger] tail[i],
        ) by {
            assert(tail[i] == ls[i + 1]);
        }
        lemma_head_lines_join(tail, rest);
        assert(join_lines(ls) == l + crlf() + join_lines(tail));
        assert(s =~= l + crlf() + (join_lines(tail) + crlf() + rest));
        assert(has_no_lf(ls[0]));
        lemma_index_of(s, 10, l.len() as int + 1);
        assert(s.subrange(0, l.len() as int + 1) =~= l.push(13u8));
        assert(strip_cr(s.subrange(0, l.len() as int + 1)) =~= l);
        assert(s.subrange(l.len() as int + 2, s.len() as int) =~= join_lines(tail) + crlf() + rest);
        assert(seq![l] + tail =~= ls);
    }
}

proof fn lemma_find_header_skip(a: Seq<Seq<u8>>, b: Seq<Seq<u8>>, key: Seq<u8>)
    requires
        forall|i: int| 0 <= i < a.len() ==> !starts_with(#[trigger] a[i], key),
    ensures
        find_header(a + b, key) == find_header(b, key),
    decreases a.len(),
{
    if a.len() > 0 {
        assert((a + b)[0] == a[0]);
        assert((a + b).drop_first() =~= a.drop_first() + b);
        assert forall|i: int| 0 <= i < a.drop_first().len() implies !starts_with(
            #[trigger] a.drop_first()[i],
            key,
        ) by {
            assert(a.drop_first()[i] == a[i + 1]);
        }
        lemma_find_header_skip(a.drop_first(), b, key);
    } else {
        assert(a + b =~= b);
    }
}

proof fn lemma_header_line_no_lf(k: Seq<u8>, v: Seq<u8>)
    requires
        has_no_lf(k),
        has_no_lf(v),
    ensures
        header_line(k, v).len() > 0,
        has_no_lf(header_line(k, v)),
{
    let l = header_line(k, v);
    assert forall|i: int| 0 <= i < l.len() implies l[i] != 10 by {
        if i < k.len() {
            assert(l[i] == k[i]);
        } else if i < k.len() + 2 {
        } else {
            assert(l[i] == v[i - k.len() - 2]);
        }
    }
}

proof fn lemma_line_not_length(k: Seq<u8>, v: Seq<u8>)
    requires
        !is_length_name(k),
    ensures
        !starts_with(header_line(k, v), content_length_prefix()),
{
    let l = header_line(k, v);
    let p = content_length_prefix();
    assert(p.subrange(0, 14) =~= content_length_spec());
    if starts_with(l, p) {
        if k.len() >= 15 {
            assert(k.subrange(0, 15) =~= l.subrange(0, 15));
        } else if k.len() == 14 {
            assert(k =~= l.subrange(0, 14));
            assert(l.subrange(0, 14) =~= p.subrange(0, 14));
        } else {
            let n = k.len() as int;
            assert(l[n] == 58);
            assert(l.subrange(0, 15)[n] == p[n]);
            assert(p[n] != 58);
        }
    }
}

proof fn lemma_header_lines_clean(hs: Headers)
    requires
        plain_headers(hs),
    ensures
        forall|i: int| 0 <= i < header_lines(hs).len() ==> clean_line(#[trigger] header_lines(hs)[i]),
    decreases hs.len(),
{
    if hs.len() > 0 {
        let init = hs.drop_last();
        assert(plain_headers(init)) by {
            assert forall|i: int| 0 <= i < init.len() implies plain_header(init[i].0, init[i].1) by {
                assert(init[i] == hs[i]);
            }
        }
        lemma_header_lines_clean(init);
        let (k, v) = hs.last();
        assert(plain_header(hs[hs.len() - 1].0, hs[hs.len() - 1].1));
        let rest = header_lines(init);
        let hl = header_lines(hs);
        if !is_length_name(k) {
            lemma_header_line_no_lf(k, v);
            lemma_line_not_length(k, v);
            assert(hl == rest.push(header_line(k, v)));
            assert forall|i: int| 0 <= i < hl.len() implies clean_line(#[trigger] hl[i]) by {
                if i < rest.len() {
                    assert(hl[i] == rest[i]);
                }
            }
        } else {
            assert(hl == rest);
        }
    }
}

proof fn lemma_status_clean(r: ResponseView)
    ensures
        status_text(r.status).len() > 0,
        has_no_lf(status_text(r.status)),
{
}

proof fn lemma_length_line(n: nat)
    requires
        n <= usize::MAX,
    ensures
        header_line(content_length_spec(), decimal(n)).len() > 0,
        has_no_lf(header_line(content_length_spec(), decimal(n))),
        starts_with(header_line(content_length_spec(), decimal(n)), content_length_prefix()),
        after_sep(header_line(content_length_spec(), decimal(n))) == Some(decimal(n)),
{
    let d = decimal(n);
    let l = header_line(content_length_spec(), d);
    lemma_decimal_digits(n);
    assert(has_no_lf(d));
    assert(has_no_lf(content_length_spec()));
    lemma_header_line_no_lf(content_length_spec(), d);
    assert(l.subrange(0, 15) =~= content_length_prefix());
    assert forall|k: int| 0 <= k < 14 implies l[k] != 58 by {
        assert(l[k] == content_length_spec()[k]);
    }
    lemma_after_sep(l, 14);
    assert(l.subrange(16, l.len() as int) =~= d);
}

/// A serialised response, read back as a request, gives the status line as
/// the request line, one line per header followed by the computed
/// `Content-Length`, and the body bytes unchanged.
pub proof fn lemma_round_trip(r: ResponseView)
    requires
        plain_headers(r.headers),
        r.body.len() <= usize::MAX,
    ensures
        parse_request(serialize(r)) == ParsedView::Complete(response_as_request(r)),
{
    let ls = head_of(r);
    let hl = header_lines(r.headers);
    let ll = length_lines(r.body);
    lemma_header_lines_clean(r.headers);
    lemma_status_clean(r);
    if r.body.len() > 0 {
        lemma_length_line(r.body.len());
    }
    assert forall|i: int| 0 <= i < ls.len() implies ls[i].len() > 0 && has_no_lf(
        #[trigger] ls[i],
    ) by {
        if i == 0 {
        } else if i < 1 + hl.len() {
            assert(ls[i] == hl[i - 1]);
            assert(clean_line(hl[i - 1]));
        } else {
            assert(ls[i] == ll[i - 1 - hl.len()]);
        }
    }
    lemma_head_lines_join(ls, r.body);
    let n = join_lines(ls).len() + 2;
    let s = serialize(r);
    assert(ls.drop_first() =~= hl + ll);
    assert forall|i: int| 0 <= i < hl.len() implies !starts_with(#[trigger] hl[i], content_length_prefix()) by {
        assert(clean_line(hl[i]));
    }
    lemma_find_header_skip(hl, ll, content_length_prefix());
    if r.body.len() > 0 {
        let cl = header_line(content_length_spec(), decimal(r.body.len()));
        assert(ll == seq![cl]);
        assert(find_header(ll, content_length_prefix()) == Some(cl));
        lemma_decimal_parses(r.body.len());
        assert(content_length(hl + ll) == Some(r.body.len()));
        assert(s.subrange(n as int, (n + r.body.len()) as int) =~= r.body);
    } else {
        assert(ll =~= Seq::<Seq<u8>>::empty());
        assert(find_header(ll, content_length_prefix()) is None);
    }
}

/// In a serialised response the `Content-Length` read back is the byte
/// length of the body as sent; an empty body sends no `Content-Length`.
pub proof fn lemma_content_length_is_body_length(r: ResponseView)
    requires
        plain_headers(r.headers),
        r.body.len() <= usize::MAX,
    ensures
        parse_request(serialize(r)) matches ParsedView::Complete(q) && content_length(q.headers)
            == Some(r.body.len()),
        r.body.len() == 0 ==> find_header(
            response_as_request(r).headers,
            content_length_prefix(),
        ) is None,
{
    lemma_round_trip(r);
    let hl = header_lines(r.headers);
    let ll = length_lines(r.body);
    lemma_header_lines_clean(r.headers);
    assert forall|i: int| 0 <= i < hl.len() implies !starts_with(#[trigger] hl[i], content_length_prefix()) by {
        assert(clean_line(hl[i]));
    }
    lemma_find_header_skip(hl, ll, content_length_prefix());
    if r.body.len() > 0 {
        lemma_length_line(r.body.len());
        lemma_decimal_parses(r.body.len());
        assert(find_header(ll, content_length_prefix()) == Some(ll[0]));
    } else {
        assert(ll =~= Seq::<Seq<u8>>::empty());
    }
}

} // verus!
