//! The bearer-credential gate at the service's edge: header parsing,
//! static credential comparison, and the session claims issued on login.
//!
//! Signing and verifying the token itself is the auth collaborator's work
//! and stays outside the library; what is decided here is which header
//! texts carry a token, which login attempts are valid, and what a fresh
//! session's claims hold.

use vstd::prelude::*;
use vstd::string::StrSliceExecFns;

verus! {

/// How long an issued session token stays valid, in seconds.
pub const TOKEN_TTL_SECS: usize = 3600;

/// The claims carried by a session token.
pub struct Claims {
    pub sub: String,
    pub exp: usize,
    pub iat: usize,
}

/// A well-formed authorization header: the scheme prefix, then the token.
pub open spec fn spec_bearer_token(h: Seq<char>) -> Option<Seq<char>> {
    if h.len() >= 7 && h.take(7) == "Bearer "@ {
        Some(h.skip(7))
    } else {
        None
    }
}

/// Pull the token out of an authorization header; `None` unless the
/// header uses the bearer scheme.
pub fn parse_bearer(header: &str) -> (r: Option<String>)
    ensures
        match r {
            Some(t) => spec_bearer_token(header@) == Some(t@),
            None => spec_bearer_token(header@) is None,
        },
{
    proof {
        reveal_strlit("Bearer ");
    }
    let n = header.unicode_len();
    if n < 7 {
        return None;
    }
    let prefix = "Bearer ";
    let mut i: usize = 0;
    while i < 7
        invariant
            i <= 7,
            n == header@.len() >= 7,
            prefix@ == "Bearer "@,
            prefix@.len() == 7,
            forall|k: int| 0 <= k < i ==> header@[k] == "Bearer "@[k],
        decreases 7 - i,
    {
        if header.get_char(i) != prefix.get_char(i) {
            proof {
                if header@.take(7) == "Bearer "@ {
                    assert(header@.take(7)[i as int] == header@[i as int]);
                }
            }
            return None;
        }
        i = i + 1;
    }
    proof {
        assert(header@.take(7) =~= "Bearer "@);
    }
    let token = header.substring_char(7, n);
    Some(token.to_owned())
}

/// Whether the presented credentials are exactly the configured ones.
pub fn check_credentials(
    user: &String,
    password: &String,
    expected_user: &String,
    expected_password: &String,
) -> (r: bool)
    ensures
        r == (user@ == expected_user@ && password@ == expected_password@),
{
    user.eq(expected_user) && password.eq(expected_password)
}

/// The claims of a session issued now for `sub`: issued-at is the current
/// time and expiry lies one token lifetime later.
pub fn session_claims(sub: String, now: usize) -> (r: Claims)
    requires
        now + TOKEN_TTL_SECS <= usize::MAX,
    ensures
        r.sub@ == sub@,
        r.iat == now,
        r.exp == now + TOKEN_TTL_SECS,
{
    Claims { sub, exp: now + TOKEN_TTL_SECS, iat: now }
}

} // verus!
