//! URL decomposer: splits `http://HOST[:PORT][/PATH[?PARAMS]]` into its four
//! components. Only the `http://` scheme is accepted; the port defaults to
//! "80" when absent, and path and params are empty when absent.

use vstd::prelude::*;
use vstd::string::{StrSliceExecFns, StringExecFns};
use crate::text::{find_char, find_char_in, starts_with};

verus! {

/// The characters of the accepted scheme prefix, `http://`.
pub open spec fn http_scheme() -> Seq<char> {
    seq!['h', 't', 't', 'p', ':', '/', '/']
}

/// The authority part: what stands before the first `/` of `rest` (the URL
/// with its scheme stripped), or all of `rest` when there is no `/`.
pub open spec fn authority_of(rest: Seq<char>) -> Seq<char> {
    match find_char(rest, '/', 0) {
        Some(i) => rest.subrange(0, i),
        None => rest,
    }
}

/// What stands after the first `/` of `rest`, if that `/` exists.
pub open spec fn tail_of(rest: Seq<char>) -> Option<Seq<char>> {
    match find_char(rest, '/', 0) {
        Some(i) => Some(rest.subrange(i + 1, rest.len() as int)),
        None => None,
    }
}

/// The host: the authority up to its first `:`, or all of it.
pub open spec fn host_of(rest: Seq<char>) -> Seq<char> {
    let a = authority_of(rest);
    match find_char(a, ':', 0) {
        Some(i) => a.subrange(0, i),
        None => a,
    }
}

/// The port: what follows the authority's first `:`, or `80` by default.
pub open spec fn port_of(rest: Seq<char>) -> Seq<char> {
    let a = authority_of(rest);
    match find_char(a, ':', 0) {
        Some(i) => a.subrange(i + 1, a.len() as int),
        None => seq!['8', '0'],
    }
}

/// The path: the tail up to its first `?`, or empty without a tail.
pub open spec fn path_of(rest: Seq<char>) -> Seq<char> {
    match tail_of(rest) {
        Some(b) => match find_char(b, '?', 0) {
            Some(i) => b.subrange(0, i),
            None => b,
        },
        None => Seq::<char>::empty(),
    }
}

/// The params: what follows the tail's first `?`, or empty.
pub open spec fn params_of(rest: Seq<char>) -> Seq<char> {
    match tail_of(rest) {
        Some(b) => match find_char(b, '?', 0) {
            Some(i) => b.subrange(i + 1, b.len() as int),
            None => Seq::<char>::empty(),
        },
        None => Seq::<char>::empty(),
    }
}

pub struct UrlView {
    pub url: Seq<char>,
    pub host: Seq<char>,
    pub port: Seq<char>,
    pub path: Seq<char>,
    pub params: Seq<char>,
}

/// The record that decomposing `url` must produce, assuming the scheme
/// prefix is present.
pub open spec fn decomposed(url: Seq<char>) -> UrlView {
    let rest = url.subrange(7, url.len() as int);
    UrlView {
        url,
        host: host_of(rest),
        port: port_of(rest),
        path: path_of(rest),
        params: params_of(rest),
    }
}

#[derive(Debug, Clone, PartialEq, Eq)]
pub struct Url {
    url: String,
    host: String,
    port: String,
    path: String,
    params: String,
}

impl View for Url {
    type V = UrlView;

    closed spec fn view(&self) -> UrlView {
        UrlView {
            url: self.url@,
            host: self.host@,
            port: self.port@,
            path: self.path@,
            params: self.params@,
        }
    }
}

impl Url {
    /// A decomposed URL agrees with `decomposed` applied to the string it
    /// keeps.
    pub open spec fn wf(self) -> bool {
        self@.url.len() >= 7 && self@ == decomposed(self@.url)
    }

    /// Decomposes `url`. Succeeds exactly on strings that begin with
    /// `http://`; everything else is rejected with the fixed message.
    pub fn try_from(url: &str) -> (r: Result<Url, String>)
        ensures
            match r {
                Ok(u) => starts_with(url@, http_scheme()) && u@ == decomposed(url@) && u.wf(),
                Err(e) => !starts_with(url@, http_scheme()) && e@
                    == "Only HTTP scheme is supported."@,
            },
    {
        let mut u = Url::new(url.to_owned());
        if !u.is_http() {
            return Err(String::from_str("Only HTTP scheme is supported."));
        }
        u.host = u.extract_host();
        u.port = u.extract_port();
        u.path = u.extract_path();
        u.params = u.extract_params();
        Ok(u)
    }

    fn new(url: String) -> (u: Url)
        ensures
            u.url@ == url@,
            u.host@ == Seq::<char>::empty(),
            u.port@ == Seq::<char>::empty(),
            u.path@ == Seq::<char>::empty(),
            u.params@ == Seq::<char>::empty(),
    {
        Url {
            url,
            host: String::new(),
            port: String::new(),
            path: String::new(),
            params: String::new(),
        }
    }

    pub fn host(&self) -> (r: String)
        ensures
            r@ == self@.host,
    {
        self.host.clone()
    }

    pub fn port(&self) -> (r: String)
        ensures
            r@ == self@.port,
    {
        self.port.clone()
    }

    pub fn path(&self) -> (r: String)
        ensures
            r@ == self@.path,
    {
        self.path.clone()
    }

    pub fn params(&self) -> (r: String)
        ensures
            r@ == self@.params,
    {
        self.params.clone()
    }

    fn is_http(&self) -> (r: bool)
        ensures
            r == starts_with(self.url@, http_scheme()),
    {
        let s: &str = self.url.as_str();
        if s.unicode_len() < 7 {
            return false;
        }
        let r = s.get_char(0) == 'h' && s.get_char(1) == 't' && s.get_char(2) == 't'
            && s.get_char(3) == 'p' && s.get_char(4) == ':' && s.get_char(5) == '/'
            && s.get_char(6) == '/';
        proof {
            if r {
                assert(self.url@.subrange(0, 7) =~= http_scheme());
            } else {
                assert(self.url@.subrange(0, 7) != http_scheme());
            }
        }
        r
    }

    /// The URL with its scheme prefix stripped.
    fn trim_url(&self) -> (r: &str)
        requires
            starts_with(self.url@, http_scheme()),
        ensures
            r@ == self@.url.subrange(7, self@.url.len() as int),
    {
        let s: &str = self.url.as_str();
        s.substring_char(7, s.unicode_len())
    }

    fn extract_host(&self) -> (r: String)
        requires
            starts_with(self.url@, http_scheme()),
        ensures
            r@ == host_of(self@.url.subrange(7, self@.url.len() as int)),
    {
        let rest = self.trim_url();
        let a: &str = match find_char_in(rest, '/', 0) {
            Some(i) => rest.substring_char(0, i),
            None => rest,
        };
        match find_char_in(a, ':', 0) {
            Some(i) => a.substring_char(0, i).to_owned(),
            None => a.to_owned(),
        }
    }

    fn extract_port(&self) -> (r: String)
        requires
            starts_with(self.url@, http_scheme()),
        ensures
            r@ == port_of(self@.url.subrange(7, self@.url.len() as int)),
    {
        let rest = self.trim_url();
        let a: &str = match find_char_in(rest, '/', 0) {
            Some(i) => rest.substring_char(0, i),
            None => rest,
        };
        let alen = a.unicode_len();
        match find_char_in(a, ':', 0) {
            Some(i) => a.substring_char(i + 1, alen).to_owned(),
            None => {
                let p = String::from_str("80");
                proof {
                    reveal_strlit("80");
                    assert(p@ =~= seq!['8', '0']);
                }
                p
            },
        }
    }

    fn extract_path(&self) -> (r: String)
        requires
            starts_with(self.url@, http_scheme()),
        ensures
            r@ == path_of(self@.url.subrange(7, self@.url.len() as int)),
    {
        let rest = self.trim_url();
        let rlen = rest.unicode_len();
        match find_char_in(rest, '/', 0) {
            Some(i) => {
                let b = rest.substring_char(i + 1, rlen);
                match find_char_in(b, '?', 0) {
                    Some(j) => b.substring_char(0, j).to_owned(),
                    None => b.to_owned(),
                }
            },
            None => String::new(),
        }
    }

    fn extract_params(&self) -> (r: String)
        requires
            starts_with(self.url@, http_scheme()),
        ensures
            r@ == params_of(self@.url.subrange(7, self@.url.len() as int)),
    {
        let rest = self.trim_url();
        let rlen = rest.unicode_len();
        match find_char_in(rest, '/', 0) {
            Some(i) => {
                let b = rest.substring_char(i + 1, rlen);
                let blen = b.unicode_len();
                match find_char_in(b, '?', 0) {
                    Some(j) => b.substring_char(j + 1, blen).to_owned(),
                    None => String::new(),
                }
            },
            None => String::new(),
        }
    }
}

/// URL round-trip soundness: decomposition is a function of the stored
/// string, so two decomposed records over the same original string are the
/// same record; re-decomposing a record's own string reproduces it.
pub proof fn lemma_url_round_trip(u1: Url, u2: Url)
    requires
        u1.wf(),
        u2.wf(),
        u1@.url == u2@.url,
    ensures
        u1@ == u2@,
{
}

} // verus!
