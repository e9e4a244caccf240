//! Configuration of an OAuth2 application, and the artifacts built from it:
//! the authorization redirect URL and the token-exchange request.

use crate::form::encode_form;
use crate::form::join_comma;
use crate::form::pairs_view;
use crate::form::spec_encode_form;
use crate::form::spec_join_comma;
use crate::form::strings_view;
use crate::request::Request;
use crate::urls::parse_url;
use crate::urls::url_parts_of;
use crate::urls::url_text;
use crate::urls::Url;
use vstd::pervasive::unreached;
use vstd::prelude::*;
use vstd::string::StrSliceExecFns;
use vstd::string::StringExecFns;

verus! {

/// Configuration of an OAuth2 application: provider credentials, the two
/// provider endpoints, the scopes to ask for, and an optional redirect URL
/// (an empty string meaning that none is set).
pub struct Config {
    pub client_id: String,
    pub client_secret: String,
    pub scopes: Vec<String>,
    pub auth_url: Url,
    pub token_url: Url,
    pub redirect_url: String,
}

/// The query parameters the authorization URL carries, in order:
/// `client_id`, `state`, `scope` (the scopes joined with commas), and
/// `redirect_uri` only when the redirect URL is non-empty.
pub open spec fn authorize_params(
    id: Seq<char>,
    state: Seq<char>,
    scopes: Seq<Seq<char>>,
    redirect: Seq<char>,
) -> Seq<(Seq<char>, Seq<char>)> {
    let base = seq![
        ("client_id"@, id),
        ("state"@, state),
        ("scope"@, spec_join_comma(scopes)),
    ];
    if redirect.len() > 0 {
        base.push(("redirect_uri"@, redirect))
    } else {
        base
    }
}

/// For an authorization endpoint that carries no query pairs of its own,
/// the authorization URL's query is exactly the appended parameters, and a
/// `redirect_uri` parameter stands in it exactly when a redirect URL is
/// set: then it comes last, carries that URL, and no other parameter has
/// its name.
pub proof fn lemma_authorize_query_redirect(
    base: Seq<(Seq<char>, Seq<char>)>,
    id: Seq<char>,
    state: Seq<char>,
    scopes: Seq<Seq<char>>,
    redirect: Seq<char>,
)
    requires
        base.len() == 0,
    ensures
        base + authorize_params(id, state, scopes, redirect) == authorize_params(
            id,
            state,
            scopes,
            redirect,
        ),
        redirect.len() > 0 ==> authorize_params(id, state, scopes, redirect).len() == 4
            && authorize_params(id, state, scopes, redirect).last() == ("redirect_uri"@, redirect),
        redirect.len() == 0 ==> authorize_params(id, state, scopes, redirect).len() == 3,
        forall|i: int|
            0 <= i < authorize_params(id, state, scopes, redirect).len() && (#[trigger] authorize_params(
                id,
                state,
                scopes,
                redirect,
            )[i]).0 == "redirect_uri"@ ==> redirect.len() > 0 && i == authorize_params(
                id,
                state,
                scopes,
                redirect,
            ).len() - 1,
{
    reveal_strlit("client_id");
    reveal_strlit("state");
    reveal_strlit("scope");
    reveal_strlit("redirect_uri");
    assert("client_id"@.len() == 9);
    assert("state"@.len() == 5);
    assert("scope"@.len() == 5);
    assert("redirect_uri"@.len() == 12);
    let q = authorize_params(id, state, scopes, redirect);
    let three = seq![
        ("client_id"@, id),
        ("state"@, state),
        ("scope"@, spec_join_comma(scopes)),
    ];
    assert(base + q =~= q);
    if redirect.len() > 0 {
        assert(q == three.push(("redirect_uri"@, redirect)));
        assert(q[0] == three[0] && q[1] == three[1] && q[2] == three[2]);
    } else {
        assert(q == three);
    }
    assert(q[0].0 != "redirect_uri"@);
    assert(q[1].0 != "redirect_uri"@);
    assert(q[2].0 != "redirect_uri"@);
}

/// The fields the token-exchange request body carries, in order:
/// `client_id`, `client_secret`, `code`, and `redirect_uri` only when the
/// redirect URL is non-empty.
pub open spec fn exchange_params(
    id: Seq<char>,
    secret: Seq<char>,
    code: Seq<char>,
    redirect: Seq<char>,
) -> Seq<(Seq<char>, Seq<char>)> {
    let base = seq![("client_id"@, id), ("client_secret"@, secret), ("code"@, code)];
    if redirect.len() > 0 {
        base.push(("redirect_uri"@, redirect))
    } else {
        base
    }
}

impl Config {
    /// What a freshly built configuration holds: the given credentials, the
    /// parts that parsing the two endpoint strings yields, no scopes, and no
    /// redirect URL.
    pub open spec fn is_new(
        self,
        id: Seq<char>,
        secret: Seq<char>,
        auth_url: Seq<char>,
        token_url: Seq<char>,
    ) -> bool {
        &&& self.client_id@ == id
        &&& self.client_secret@ == secret
        &&& Some((self.auth_url.base@, pairs_view(self.auth_url.query@))) == url_parts_of(auth_url)
        &&& Some((self.token_url.base@, pairs_view(self.token_url.query@))) == url_parts_of(
            token_url,
        )
        &&& self.scopes@.len() == 0
        &&& self.redirect_url@.len() == 0
    }

    /// Builds a configuration from provider credentials and the two
    /// endpoint strings, which must be well-formed URLs; `try_new` is the
    /// form that checks them instead of requiring it.
    pub fn new(id: &str, secret: &str, auth_url: &str, token_url: &str) -> (r: Config)
        requires
            url_parts_of(auth_url@) is Some,
            url_parts_of(token_url@) is Some,
        ensures
            r.is_new(id@, secret@, auth_url@, token_url@),
    {
        let auth = match parse_url(auth_url) {
            Some(u) => u,
            None => unreached(),
        };
        let token = match parse_url(token_url) {
            Some(u) => u,
            None => unreached(),
        };
        Config {
            client_id: String::from_str(id),
            client_secret: String::from_str(secret),
            scopes: Vec::new(),
            auth_url: auth,
            token_url: token,
            redirect_url: String::new(),
        }
    }

    /// Builds a configuration when both endpoint strings are well-formed
    /// URLs, and yields nothing when either of them is not.
    pub fn try_new(id: &str, secret: &str, auth_url: &str, token_url: &str) -> (r: Option<Config>)
        ensures
            (r is Some) == (url_parts_of(auth_url@) is Some && url_parts_of(token_url@) is Some),
            r matches Some(c) ==> c.is_new(id@, secret@, auth_url@, token_url@),
    {
        if parse_url(auth_url).is_none() {
            return None;
        }
        if parse_url(token_url).is_none() {
            return None;
        }
        Some(Self::new(id, secret, auth_url, token_url))
    }

    /// The URL to redirect the end user to: the authorization endpoint with
    /// `client_id`, the caller's anti-forgery `state`, and `scope` appended
    /// to its query, and `redirect_uri` appended after them only when a
    /// redirect URL is set.
    pub fn authorize_url(&self, state: String) -> (r: Url)
        ensures
            r.base@ == self.auth_url.base@,
            pairs_view(r.query@) == pairs_view(self.auth_url.query@) + authorize_params(
                self.client_id@,
                state@,
                strings_view(self.scopes@),
                self.redirect_url@,
            ),
    {
        let mut url = self.auth_url.duplicate();
        url.query.push((String::from_str("client_id"), self.client_id.clone()));
        url.query.push((String::from_str("state"), state));
        url.query.push((String::from_str("scope"), join_comma(&self.scopes)));
        if self.redirect_url.as_str().unicode_len() > 0 {
            url.query.push((String::from_str("redirect_uri"), self.redirect_url.clone()));
        }
        proof {
            assert(pairs_view(url.query@) =~~= pairs_view(self.auth_url.query@) + authorize_params(
                self.client_id@,
                state@,
                strings_view(self.scopes@),
                self.redirect_url@,
            ));
        }
        url
    }

    /// The token-exchange request: a POST to the token endpoint whose
    /// form-encoded body holds `client_id`, `client_secret`, the
    /// authorization `code`, and `redirect_uri` only when a redirect URL is
    /// set, under a `Content-Type: application/x-www-form-urlencoded`
    /// header.
    pub fn exchange_request(&self, code: String) -> (r: Request)
        ensures
            r.url@ == url_text(self.token_url.base@, pairs_view(self.token_url.query@)),
            pairs_view(r.headers@) == seq![
                ("Content-Type"@, "application/x-www-form-urlencoded"@),
            ],
            r.body@ == spec_encode_form(
                exchange_params(self.client_id@, self.client_secret@, code@, self.redirect_url@),
            ),
    {
        let mut params: Vec<(String, String)> = Vec::new();
        params.push((String::from_str("client_id"), self.client_id.clone()));
        params.push((String::from_str("client_secret"), self.client_secret.clone()));
        params.push((String::from_str("code"), code));
        if self.redirect_url.as_str().unicode_len() > 0 {
            params.push((String::from_str("redirect_uri"), self.redirect_url.clone()));
        }
        let mut headers: Vec<(String, String)> = Vec::new();
        headers.push(
            (
                String::from_str("Content-Type"),
                String::from_str("application/x-www-form-urlencoded"),
            ),
        );
        proof {
            assert(pairs_view(params@) =~~= exchange_params(
                self.client_id@,
                self.client_secret@,
                code@,
                self.redirect_url@,
            ));
            assert(pairs_view(headers@) =~~= seq![
                ("Content-Type"@, "application/x-www-form-urlencoded"@),
            ]);
        }
        Request { url: self.token_url.to_text(), headers, body: encode_form(&params) }
    }
}

} // verus!
