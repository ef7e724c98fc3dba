use vstd::prelude::*;

verus! {

/// Proof, for a handler, that its request carried an accepted bearer token.
pub struct Authorization;

/// Decides whether a bearer token grants access.
pub trait Authorizer {
    fn is_authorized(&self, token: &str) -> bool;
}

/// Grants access to exactly one token.
pub struct BasicAuth {
    token: String,
}

impl BasicAuth {
    pub fn new(token: String) -> (r: BasicAuth)
        ensures
            r.token() == token@,
    {
        BasicAuth { token }
    }

    pub closed spec fn token(&self) -> Seq<char> {
        self.token@
    }

    /// Whether `token` is the one this authorizer grants.
    pub fn accepts(&self, token: &str) -> (r: bool)
        ensures
            r == (token@ == self.token()),
    {
        let n = token.unicode_len();
        if n != self.token.as_str().unicode_len() {
            return false;
        }
        let mut i: usize = 0;
        while i < n
            invariant
                i <= n,
                n == token@.len(),
                n == self.token@.len(),
                forall|k: int| 0 <= k < i ==> token@[k] == self.token@[k],
            decreases n - i,
        {
            if token.get_char(i) != self.token.as_str().get_char(i) {
                return false;
            }
            i += 1;
        }
        assert(token@ =~= self.token@);
        true
    }
}

impl Authorizer for BasicAuth {
    fn is_authorized(&self, token: &str) -> bool {
        self.accepts(token)
    }
}

/// The scheme word that starts an `Authorization` header value.
pub open spec fn bearer_prefix() -> Seq<char> {
    seq!['B', 'e', 'a', 'r', 'e', 'r', ' ']
}

/// The token of a header value of the form `Bearer <token>`.
pub fn bearer_token(header: &str) -> (r: Option<String>)
    ensures
        r is Some <==> header@.len() >= 7 && header@.take(7) == bearer_prefix(),
        r matches Some(t) ==> t@ == header@.subrange(7, header@.len() as int),
{
    let n = header.unicode_len();
    if n < 7 {
        return None;
    }
    let mut i: usize = 0;
    while i < 7
        invariant
            i <= 7,
            n == header@.len(),
            n >= 7,
            forall|k: int| 0 <= k < i ==> header@[k] == bearer_prefix()[k],
        decreases 7 - i,
    {
        let expected = if i == 0 {
            'B'
        } else if i == 1 {
            'e'
        } else if i == 2 {
            'a'
        } else if i == 3 {
            'r'
        } else if i == 4 {
            'e'
        } else if i == 5 {
            'r'
        } else {
            ' '
        };
        assert(expected == bearer_prefix()[i as int]);
        if header.get_char(i) != expected {
            return None;
        }
        i += 1;
    }
    assert(header@.take(7) =~= bearer_prefix());
    Some(String::from_str(header.substring_char(7, n)))
}

/// Whether a request whose `Authorization` header is `header` may go on:
/// the header must be present, use the bearer scheme, and carry a token
/// that `authorizer` accepts.
pub fn authorize<A: Authorizer>(header: Option<&str>, authorizer: &A) -> (r: bool)
    ensures
        r ==> header is Some && header->Some_0@.len() >= 7 && header->Some_0@.take(7)
            == bearer_prefix(),
{
    match header {
        None => false,
        Some(h) => match bearer_token(h) {
            None => false,
            Some(token) => authorizer.is_authorized(token.as_str()),
        },
    }
}

/// Whether serving the file at `path` counts as a download: the file is a
/// descriptor, its name ending in `erm.json`.
pub fn counts_as_download(path: &str) -> (r: bool)
    ensures
        r == (path@.len() >= 8 && path@.subrange(path@.len() - 8, path@.len() as int)
            == "erm.json"@),
{
    let n = path.unicode_len();
    let suffix = "erm.json";
    let m = suffix.unicode_len();
    proof {
        reveal_strlit("erm.json");
        assert(m == 8);
    }
    if n < m {
        return false;
    }
    let mut k: usize = 0;
    while k < m
        invariant
            k <= m,
            m <= n,
            n == path@.len(),
            m == suffix@.len(),
            suffix@ == "erm.json"@,
            m == 8,
            forall|j: int| 0 <= j < k ==> path@[n - m + j] == suffix@[j],
        decreases m - k,
    {
        if path.get_char(n - m + k) != suffix.get_char(k) {
            assert(path@.subrange(n - 8, n as int)[k as int] != suffix@[k as int]);
            assert(path@.subrange(n - 8, n as int) != suffix@);
            return false;
        }
        k += 1;
    }
    assert(path@.subrange(n - 8, n as int) =~= suffix@);
    true
}

/// The cross-origin headers that every response carries, as (name, value).
pub struct CORS;

impl CORS {
    pub fn headers() -> (r: Vec<(String, String)>)
        ensures
            r@.len() == 3,
            r@[0].0@ == "Access-Control-Allow-Origin"@ && r@[0].1@ == "*"@,
            r@[1].0@ == "Access-Control-Allow-Methods"@ && r@[1].1@
                == "GET, POST, PUT, DELETE, OPTIONS"@,
            r@[2].0@ == "Access-Control-Allow-Headers"@ && r@[2].1@
                == "Content-Type, Authorization"@,
    {
        let mut r: Vec<(String, String)> = Vec::new();
        r.push((String::from_str("Access-Control-Allow-Origin"), String::from_str("*")));
        r.push(
            (
                String::from_str("Access-Control-Allow-Methods"),
                String::from_str("GET, POST, PUT, DELETE, OPTIONS"),
            ),
        );
        r.push(
            (
                String::from_str("Access-Control-Allow-Headers"),
                String::from_str("Content-Type, Authorization"),
            ),
        );
        r
    }
}

} // verus!
