//! An outbound HTTP request as plain values, and the adapter that attaches
//! the authorization header for a token to one, builder style.

use crate::form::pairs_view;
use crate::token::Token;
use vstd::prelude::*;
use vstd::string::StringExecFns;

verus! {

/// An outbound request, as the values a transport needs to perform it: the
/// target URL, the headers in order, and the body.
#[derive(Debug)]
pub struct Request {
    pub url: String,
    pub headers: Vec<(String, String)>,
    pub body: String,
}

/// Extends a request-builder type with chaining the right authorization
/// header for a token onto it.
pub trait Authorization {
    fn auth_with(self, token: &Token) -> Self;
}

/// The value of the `Authorization` header carrying a token.
pub open spec fn auth_header_value(t: Token) -> Seq<char> {
    "token "@ + t.access_token@
}

impl Request {
    /// A request for the given URL, with no headers and an empty body.
    pub fn get(url: String) -> (r: Request)
        ensures
            r.url@ == url@,
            r.headers@.len() == 0,
            r.body@.len() == 0,
    {
        Request { url, headers: Vec::new(), body: String::new() }
    }

    /// The same request with `Authorization: token <access_token>` appended
    /// to its headers; the URL, the body and the other headers stand
    /// unchanged.
    pub fn with_auth_header(self, token: &Token) -> (r: Request)
        ensures
            r.url@ == self.url@,
            r.body@ == self.body@,
            pairs_view(r.headers@) == pairs_view(self.headers@).push(
                ("Authorization"@, auth_header_value(*token)),
            ),
    {
        let mut r = self;
        let mut value = String::from_str("token ");
        value.append(token.access_token.as_str());
        r.headers.push((String::from_str("Authorization"), value));
        proof {
            assert(pairs_view(r.headers@) =~~= pairs_view(self.headers@).push(
                ("Authorization"@, auth_header_value(*token)),
            ));
        }
        r
    }
}

impl Authorization for Request {
    /// Chains `Authorization: token <access_token>` onto the request; the
    /// URL, the body and the other headers stand unchanged.
    fn auth_with(self, token: &Token) -> (r: Self)
        ensures
            r.url@ == self.url@,
            r.body@ == self.body@,
            pairs_view(r.headers@) == pairs_view(self.headers@).push(
                ("Authorization"@, auth_header_value(*token)),
            ),
    {
        self.with_auth_header(token)
    }
}

} // verus!
