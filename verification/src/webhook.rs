//! Where notifications go: webhook addresses, and reading the answer to a
//! delivery.

use crate::procfs::{fields, parse_decimal, parse_u64, split_fields, starts_with};
use crate::text::{chars_of, index_of_char, lemma_span_until_bound, span_until};
use vstd::prelude::*;

verus! {

/// The address of a webhook that takes alert notifications.
#[derive(Debug, Clone)]
pub struct WebhookClient {
    url: String,
}

impl WebhookClient {
    /// A client for the webhook at `url`.
    pub fn new(url: String) -> (r: Self)
        ensures
            r.spec_url() == url@,
    {
        WebhookClient { url }
    }

    /// The webhook's address.
    pub closed spec fn spec_url(&self) -> Seq<char> {
        self.url@
    }

    /// The webhook's address.
    pub fn url(&self) -> (r: &str)
        ensures
            r@ == self.spec_url(),
    {
        self.url.as_str()
    }
}

/// Where an HTTP request for a webhook goes.
#[derive(Debug, Clone)]
pub struct HttpTarget {
    pub host: String,
    pub port: u16,
    pub path: String,
}

/// The host, port and path that an `http://` address names: the host runs to
/// the first `:` or `/`, an explicit port follows the `:` (80 otherwise), and
/// the path is the rest from the first `/` (`/` when there is none). `None`
/// for another scheme, an empty host or a port that is not a number below
/// 65536.
pub open spec fn url_target(url: Seq<char>) -> Option<(Seq<char>, u16, Seq<char>)> {
    if !starts_with(url, "http://"@) {
        None
    } else {
        let rest = url.skip(7);
        let slash = span_until(rest, '/');
        let authority = rest.take(slash as int);
        let path = if slash == rest.len() {
            "/"@
        } else {
            rest.skip(slash as int)
        };
        let colon = span_until(authority, ':');
        let host = authority.take(colon as int);
        let port: Option<u16> = if colon == authority.len() {
            Some(80u16)
        } else {
            match parse_decimal(authority.skip(colon + 1 as int)) {
                Some(p) => if p <= u16::MAX {
                    Some(p as u16)
                } else {
                    None
                },
                None => None,
            }
        };
        if host.len() == 0 {
            None
        } else {
            match port {
                Some(p) => Some((host, p, path)),
                None => None,
            }
        }
    }
}

/// Where a request to the webhook at `url` goes (see [`url_target`]).
pub fn http_target(url: &str) -> (r: Option<HttpTarget>)
    ensures
        match r {
            Some(t) => url_target(url@) == Some((t.host@, t.port, t.path@)),
            None => url_target(url@) is None,
        },
{
    let cs = chars_of(url);
    let scheme = "http://";
    proof {
        reveal_strlit("http://");
        reveal_strlit("/");
    }
    if cs.len() < 7 {
        return None;
    }
    let head = url.substring_char(0, 7);
    if !crate::text::same_text(head, scheme) {
        proof {
            assert(url@.take(7) == head@);
        }
        return None;
    }
    proof {
        assert(url@.take(7) =~= scheme@);
    }
    let n = cs.len();
    let rest = url.substring_char(7, n);
    proof {
        assert(rest@ =~= url@.skip(7));
    }
    let rn = n - 7;
    let slash = index_of_char(rest, '/');
    proof {
        lemma_span_until_bound(rest@, '/');
    }
    let authority = rest.substring_char(0, slash);
    let path: String = if slash == rn {
        "/".to_owned()
    } else {
        rest.substring_char(slash, rn).to_owned()
    };
    proof {
        assert(authority@ =~= rest@.take(slash as int));
        if slash < rn {
            assert(rest@.subrange(slash as int, rn as int) =~= rest@.skip(slash as int));
        }
    }
    let an = slash;
    let colon = index_of_char(authority, ':');
    proof {
        lemma_span_until_bound(authority@, ':');
    }
    let host = authority.substring_char(0, colon);
    proof {
        assert(host@ =~= authority@.take(colon as int));
    }
    let port: Option<u16> = if colon == an {
        Some(80u16)
    } else {
        let digits = authority.substring_char(colon + 1, an);
        proof {
            assert(digits@ =~= authority@.skip(colon + 1));
        }
        match parse_u64(digits) {
            Some(p) => if p <= 65535 {
                Some(p as u16)
            } else {
                None
            },
            None => None,
        }
    };
    if colon == 0 {
        return None;
    }
    match port {
        Some(p) => Some(HttpTarget { host: host.to_owned(), port: p, path }),
        None => None,
    }
}

/// Whether an HTTP status line (such as `HTTP/1.1 204 No Content`) reports
/// success: its second field is a number from 200 to 299.
pub open spec fn status_success(line: Seq<char>) -> bool {
    fields(line).len() >= 2 && match parse_decimal(fields(line)[1]) {
        Some(code) => 200 <= code <= 299,
        None => false,
    }
}

/// Whether the status line `line` reports success (see [`status_success`]).
pub fn is_success_status(line: &str) -> (r: bool)
    ensures
        r == status_success(line@),
{
    let fs = split_fields(line);
    proof {
        assert(fs@.map_values(|t: &str| t@).len() == fs@.len());
    }
    if fs.len() < 2 {
        return false;
    }
    proof {
        assert(fs@.map_values(|t: &str| t@)[1] == fs@[1]@);
    }
    match parse_u64(fs[1]) {
        Some(code) => 200 <= code && code <= 299,
        None => false,
    }
}

} // verus!
