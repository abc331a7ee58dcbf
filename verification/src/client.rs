//! HTTP client core: the request text the client sends. The socket work
//! around it (host lookup, connect, send, receive) lives with the enclosing
//! program; this library only computes.

use vstd::prelude::*;
use vstd::string::StringExecFns;

verus! {

pub struct HttpClient {}

impl HttpClient {
    pub fn new() -> (c: HttpClient) {
        HttpClient {  }
    }

    /// The GET request for `path` on `host`, with bare `\n` line endings as
    /// this client has always sent them.
    pub fn get_request_message(&self, host: &str, path: &str) -> (r: String)
        ensures
            r@ == "GET /"@ + path@ + " HTTP/1.1\nHost: "@ + host@
                + "\nAccept: text/html\nConnection: close\n\n"@,
    {
        String::from_str("GET /").concat(path).concat(" HTTP/1.1\nHost: ").concat(host).concat(
            "\nAccept: text/html\nConnection: close\n\n",
        )
    }
}

} // verus!
