//! Byte strings of the protocol, each as a spec value and as a builder.
use vstd::prelude::*;

verus! {

/// `Content-Encoding`: header naming the body's encoding.
pub open spec fn content_encoding_spec() -> Seq<u8> {
    seq![67u8, 111, 110, 116, 101, 110, 116, 45, 69, 110, 99, 111, 100, 105, 110, 103]
}

pub fn content_encoding() -> (r: Vec<u8>)
    ensures
        r@ == content_encoding_spec(),
{
    vec![67u8, 111, 110, 116, 101, 110, 116, 45, 69, 110, 99, 111, 100, 105, 110, 103]
}

/// `gzip`: the one supported encoding.
pub open spec fn gzip_spec() -> Seq<u8> {
    seq![103u8, 122, 105, 112]
}

pub fn gzip() -> (r: Vec<u8>)
    ensures
        r@ == gzip_spec(),
{
    vec![103u8, 122, 105, 112]
}

/// `Content-Length`: header giving the body's length.
pub open spec fn content_length_spec() -> Seq<u8> {
    seq![67u8, 111, 110, 116, 101, 110, 116, 45, 76, 101, 110, 103, 116, 104]
}

pub fn content_length() -> (r: Vec<u8>)
    ensures
        r@ == content_length_spec(),
{
    vec![67u8, 111, 110, 116, 101, 110, 116, 45, 76, 101, 110, 103, 116, 104]
}

/// `Content-Type`: header giving the body's media type.
pub open spec fn content_type_spec() -> Seq<u8> {
    seq![67u8, 111, 110, 116, 101, 110, 116, 45, 84, 121, 112, 101]
}

pub fn content_type() -> (r: Vec<u8>)
    ensures
        r@ == content_type_spec(),
{
    vec![67u8, 111, 110, 116, 101, 110, 116, 45, 84, 121, 112, 101]
}

/// `text/plain`: media type of echoed text.
pub open spec fn text_plain_spec() -> Seq<u8> {
    seq![116u8, 101, 120, 116, 47, 112, 108, 97, 105, 110]
}

pub fn text_plain() -> (r: Vec<u8>)
    ensures
        r@ == text_plain_spec(),
{
    vec![116u8, 101, 120, 116, 47, 112, 108, 97, 105, 110]
}

/// `application/octet-stream`: media type of served files.
pub open spec fn octet_stream_spec() -> Seq<u8> {
    seq![97u8, 112, 112, 108, 105, 99, 97, 116, 105, 111, 110, 47, 111, 99, 116, 101, 116, 45, 115, 116, 114, 101, 97, 109]
}

pub fn octet_stream() -> (r: Vec<u8>)
    ensures
        r@ == octet_stream_spec(),
{
    vec![97u8, 112, 112, 108, 105, 99, 97, 116, 105, 111, 110, 47, 111, 99, 116, 101, 116, 45, 115, 116, 114, 101, 97, 109]
}

/// `User-Agent`: header naming the client.
pub open spec fn user_agent_spec() -> Seq<u8> {
    seq![85u8, 115, 101, 114, 45, 65, 103, 101, 110, 116]
}

pub fn user_agent() -> (r: Vec<u8>)
    ensures
        r@ == user_agent_spec(),
{
    vec![85u8, 115, 101, 114, 45, 65, 103, 101, 110, 116]
}

/// `Accept-Encoding`: header listing the encodings a client takes.
pub open spec fn accept_encoding_spec() -> Seq<u8> {
    seq![65u8, 99, 99, 101, 112, 116, 45, 69, 110, 99, 111, 100, 105, 110, 103]
}

pub fn accept_encoding() -> (r: Vec<u8>)
    ensures
        r@ == accept_encoding_spec(),
{
    vec![65u8, 99, 99, 101, 112, 116, 45, 69, 110, 99, 111, 100, 105, 110, 103]
}

/// `Unknown`: body sent for a missing `User-Agent`.
pub open spec fn unknown_spec() -> Seq<u8> {
    seq![85u8, 110, 107, 110, 111, 119, 110]
}

pub fn unknown() -> (r: Vec<u8>)
    ensures
        r@ == unknown_spec(),
{
    vec![85u8, 110, 107, 110, 111, 119, 110]
}

/// `GET`: request method.
pub open spec fn method_get_spec() -> Seq<u8> {
    seq![71u8, 69, 84]
}

pub fn method_get() -> (r: Vec<u8>)
    ensures
        r@ == method_get_spec(),
{
    vec![71u8, 69, 84]
}

/// `POST`: request method.
pub open spec fn method_post_spec() -> Seq<u8> {
    seq![80u8, 79, 83, 84]
}

pub fn method_post() -> (r: Vec<u8>)
    ensures
        r@ == method_post_spec(),
{
    vec![80u8, 79, 83, 84]
}

/// `/user-agent`: route.
pub open spec fn user_agent_path_spec() -> Seq<u8> {
    seq![47u8, 117, 115, 101, 114, 45, 97, 103, 101, 110, 116]
}

/// `/echo/`: route prefix.
pub open spec fn echo_prefix_spec() -> Seq<u8> {
    seq![47u8, 101, 99, 104, 111, 47]
}

pub fn echo_prefix() -> (r: Vec<u8>)
    ensures
        r@ == echo_prefix_spec(),
{
    vec![47u8, 101, 99, 104, 111, 47]
}

/// `/files/`: route prefix.
pub open spec fn files_prefix_spec() -> Seq<u8> {
    seq![47u8, 102, 105, 108, 101, 115, 47]
}

pub fn files_prefix() -> (r: Vec<u8>)
    ensures
        r@ == files_prefix_spec(),
{
    vec![47u8, 102, 105, 108, 101, 115, 47]
}

/// `GET / HTTP/1.1`: request line of the root route.
pub open spec fn root_line_spec() -> Seq<u8> {
    seq![71u8, 69, 84, 32, 47, 32, 72, 84, 84, 80, 47, 49, 46, 49]
}

pub fn root_line() -> (r: Vec<u8>)
    ensures
        r@ == root_line_spec(),
{
    vec![71u8, 69, 84, 32, 47, 32, 72, 84, 84, 80, 47, 49, 46, 49]
}

/// `GET /user-agent HTTP/1.1`: request line of the user-agent route.
pub open spec fn user_agent_line_spec() -> Seq<u8> {
    seq![71u8, 69, 84, 32, 47, 117, 115, 101, 114, 45, 97, 103, 101, 110, 116, 32, 72, 84, 84, 80, 47, 49, 46, 49]
}

pub fn user_agent_line() -> (r: Vec<u8>)
    ensures
        r@ == user_agent_line_spec(),
{
    vec![71u8, 69, 84, 32, 47, 117, 115, 101, 114, 45, 97, 103, 101, 110, 116, 32, 72, 84, 84, 80, 47, 49, 46, 49]
}

} // verus!
