//! The parts of bearer-token checking that are rules rather than transport: reading
//! the token from its header, picking the signing key, and describing a failure.
use vstd::prelude::*;
use vstd::string::StrSliceExecFns;
use crate::api::text_is;

verus! {

/// The claims of a verified token that the service reads.
#[derive(Clone, Debug)]
pub struct Claims {
    /// The subject: the user's id.
    pub sub: String,
}

/// One elliptic-curve key of the issuer's key set.
#[derive(Clone, Debug)]
pub struct JsonWebKey {
    pub kid: String,
    pub x: String,
    pub y: String,
}

/// The prefix of an `Authorization` header that carries a bearer token.
pub open spec fn bearer_prefix() -> Seq<char> {
    "Bearer "@
}

/// The token of an `Authorization` header of the form `Bearer <token>`.
pub fn bearer_token(header: &str) -> (r: Option<&str>)
    ensures
        r is Some <==> header@.len() >= 7 && header@.take(7) == bearer_prefix(),
        r matches Some(t) ==> header@ == bearer_prefix() + t@,
{
    let n = header.unicode_len();
    if n < 7 {
        return None;
    }
    let head = header.substring_char(0, 7);
    if !text_is(head, "Bearer ") {
        return None;
    }
    let token = header.substring_char(7, n);
    assert(header@ =~= head@ + token@);
    Some(token)
}

/// The first key of the set whose id is `kid`.
pub fn find_key(keys: &Vec<JsonWebKey>, kid: &str) -> (r: Option<JsonWebKey>)
    ensures
        r is None <==> forall|i: int| 0 <= i < keys@.len() ==> (#[trigger] keys@[i]).kid@ != kid@,
        r matches Some(k) ==> exists|i: int|
            0 <= i < keys@.len() && k.kid@ == kid@ && (#[trigger] keys@[i]).kid@ == kid@
                && (forall|j: int| 0 <= j < i ==> (#[trigger] keys@[j]).kid@ != kid@),
{
    let mut i: usize = 0;
    while i < keys.len()
        invariant
            i <= keys@.len(),
            forall|j: int| 0 <= j < i ==> (#[trigger] keys@[j]).kid@ != kid@,
        decreases keys@.len() - i,
    {
        if text_is(keys[i].kid.as_str(), kid) {
            let k = JsonWebKey { kid: keys[i].kid.clone(), x: keys[i].x.clone(), y: keys[i].y.clone() };
            assert(keys@[i as int].kid@ == kid@);
            return Some(k);
        }
        i += 1;
    }
    None
}

/// Why a bearer token was refused.
#[derive(Clone, Copy, Debug, PartialEq, Eq, Structural)]
pub enum TokenFailure {
    InvalidAudience,
    ExpiredSignature,
    InvalidSignature,
    Invalid,
}

impl TokenFailure {
    /// The description sent back with the refusal.
    pub fn description(&self) -> (r: &'static str)
        ensures
            r@ == match *self {
                TokenFailure::InvalidAudience => "token has an invalid audience"@,
                TokenFailure::ExpiredSignature => "token has expired"@,
                TokenFailure::InvalidSignature => "token has an invalid signature"@,
                TokenFailure::Invalid => "Bearer token is invalid"@,
            },
    {
        match self {
            TokenFailure::InvalidAudience => "token has an invalid audience",
            TokenFailure::ExpiredSignature => "token has expired",
            TokenFailure::InvalidSignature => "token has an invalid signature",
            TokenFailure::Invalid => "Bearer token is invalid",
        }
    }
}

} // verus!
