//! The library's error type.

use vstd::prelude::*;

verus! {

#[verifier::external_type_specification]
#[verifier::external_body]
pub struct ExIoError(std::io::Error);


/// Every way in which loading, fetching, decoding or saving can fail.
#[derive(Debug)]
pub enum Error {
    /// A file (the source list, an output directory entry) could not be read.
    Io { path: String, source: std::io::Error },
    /// The source list is not a JSON object of strings; `message` is the
    /// JSON parser's description of the problem.
    Parse { path: String, message: String },
    /// The HTTP request for a subscription failed; `message` is the HTTP
    /// client's description of the problem.
    Fetch { url: String, message: String },
    /// The server answered with a status outside 2xx.
    BadStatus { url: String, status: u16 },
    /// The content is neither plain URIs nor valid base64.
    Decode(String),
    /// The decoded bytes are not valid UTF-8.
    NonUtf8(String),
    /// A file could not be written or removed.
    Save { path: String, source: std::io::Error },
    /// The source list holds no entries.
    EmptySources { path: String },
}

/// The result of the library's fallible operations.
pub type Result<T, E = Error> = std::result::Result<T, E>;

} // verus!
