//! The admission decision of the authentication gate on the `authorization`
//! metadata value. Checking the token's signature and expiry is left to the
//! token library at the edge.
use vstd::prelude::*;
use vstd::string::StrSliceExecFns;

verus! {

/// Why a request was turned away before its token was examined.
#[derive(Debug, Clone, Copy, PartialEq, Eq)]
pub enum AuthRejection {
    /// No `authorization` value, or one that is not visible ASCII.
    MissingHeader,
    /// The value does not start with `Bearer `.
    BadFormat,
}

impl AuthRejection {
    /// The message sent back with the rejection.
    pub fn message(&self) -> (r: String)
        ensures
            *self == AuthRejection::MissingHeader ==> r@ == "missing authorization header"@,
            *self == AuthRejection::BadFormat ==> r@ == "invalid authorization header format"@,
    {
        match self {
            AuthRejection::MissingHeader => "missing authorization header".to_string(),
            AuthRejection::BadFormat => "invalid authorization header format".to_string(),
        }
    }
}

/// The case-sensitive scheme prefix of a bearer credential.
pub open spec fn bearer_prefix() -> Seq<char> {
    seq!['B', 'e', 'a', 'r', 'e', 'r', ' ']
}

/// The token carried by an `authorization` value of the form `Bearer <token>`.
pub fn bearer_token(header: Option<&str>) -> (r: Result<&str, AuthRejection>)
    ensures
        header is None ==> r == Err::<&str, AuthRejection>(AuthRejection::MissingHeader),
        header matches Some(h) ==> {
            if h@.len() >= 7 && h@.subrange(0, 7) == bearer_prefix() {
                r matches Ok(t) && t@ == h@.subrange(7, h@.len() as int)
            } else {
                r == Err::<&str, AuthRejection>(AuthRejection::BadFormat)
            }
        },
{
    let h = match header {
        Some(h) => h,
        None => {
            return Err(AuthRejection::MissingHeader);
        },
    };
    let n = h.unicode_len();
    if n < 7 {
        return Err(AuthRejection::BadFormat);
    }
    let prefix = ['B', 'e', 'a', 'r', 'e', 'r', ' '];
    let mut i: usize = 0;
    while i < 7
        invariant
            i <= 7,
            header == Some(h),
            n == h@.len(),
            n >= 7,
            prefix@ == bearer_prefix(),
            forall|j: int| 0 <= j < i ==> h@[j] == bearer_prefix()[j],
        decreases 7 - i,
    {
        if h.get_char(i) != prefix[i] {
            assert(h@.subrange(0, 7)[i as int] != bearer_prefix()[i as int]);
            return Err(AuthRejection::BadFormat);
        }
        i = i + 1;
    }
    assert(h@.subrange(0, 7) =~= bearer_prefix());
    Ok(h.substring_char(7, n))
}

} // verus!
