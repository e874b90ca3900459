//! A small HTTP/1.1 server's logic: framing requests from received bytes,
//! deciding what each route answers, and writing responses back as bytes.

pub mod bytes;
pub mod compression;
pub mod framing;
pub mod names;
pub mod request;
pub mod response;
pub mod router;
