use vstd::prelude::*;
use vstd::string::StrSliceExecFns;
use vstd::string::StringExecFns;

verus! {

/// The claims a freshly issued anonymous token carries.
#[derive(Debug, Clone, PartialEq, Eq)]
pub struct TokenClaims {
    pub id: String,
    pub picture: String,
    pub name: String,
    pub iss: String,
    pub exp: u64,
}

/// The claims for an anonymous login: the caller's chosen profile under the
/// issuing server's name, with a far-away expiry.
pub fn make_anonymous_claims(id: String, nickname: String, picture: String) -> (c: TokenClaims)
    ensures
        c.id == id,
        c.picture == picture,
        c.name == nickname,
        c.iss@ == "https://fodinha.click"@,
        c.exp == 10000000000u64,
{
    TokenClaims {
        id,
        picture,
        name: nickname,
        iss: "https://fodinha.click".to_owned(),
        exp: 10000000000,
    }
}

/// The token carried by an authorization header: what follows the
/// `Bearer ` marker, if the header starts with it.
pub fn bearer_token(value: &str) -> (r: Option<&str>)
    ensures
        match r {
            Some(t) => value@.len() >= 7 && value@.subrange(0, 7) == "Bearer "@ && t@
                == value@.skip(7),
            None => !(value@.len() >= 7 && value@.subrange(0, 7) == "Bearer "@),
        },
{
    proof {
        reveal_strlit("Bearer ");
    }
    let n = value.unicode_len();
    if n < 7 {
        return None;
    }
    let prefix = value.substring_char(0, 7);
    let owned_prefix = String::from_str(prefix);
    let marker = String::from_str("Bearer ");
    if owned_prefix == marker {
        let rest = value.substring_char(7, n);
        proof {
            assert(rest@ =~= value@.skip(7));
        }
        Some(rest)
    } else {
        proof {
            assert(prefix@ == value@.subrange(0, 7));
        }
        None
    }
}

} // verus!
