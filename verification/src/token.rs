//! The token obtained from a successful exchange, and the validation and
//! parsing of the provider's token response.

use crate::form::decode_form;
use crate::form::pairs_view;
use crate::form::spec_decode_form;
use crate::form::split_on;
use crate::form::split_string;
use crate::form::strings_view;
use vstd::prelude::*;
use vstd::string::StrSliceExecFns;
use vstd::string::StringExecFns;

verus! {

/// The parsed result of a successful token exchange.
#[derive(Debug, Clone, PartialEq, Eq, PartialOrd, Ord)]
pub struct Token {
    pub access_token: String,
    pub scopes: Vec<String>,
    pub token_type: String,
}

/// Why a token exchange failed.
#[derive(Debug, Clone, PartialEq, Eq)]
pub enum ExchangeError {
    /// The transport could not complete the round trip; carries the
    /// transport's own description of what went wrong.
    Transport(String),
    /// The provider answered with a status other than 200; carries the
    /// status that was observed.
    UnexpectedStatus(u32),
    /// The response held no usable `access_token` field.
    MissingAccessToken,
}

/// The value of the first pair with the given key, if any pair has it.
pub open spec fn first_value(ps: Seq<(Seq<char>, Seq<char>)>, key: Seq<char>) -> Option<Seq<char>>
    decreases ps.len(),
{
    if ps.len() == 0 {
        None
    } else if ps[0].0 == key {
        Some(ps[0].1)
    } else {
        first_value(ps.drop_first(), key)
    }
}

/// The value of an optional field, an absent field reading as empty.
pub open spec fn opt_or_empty(o: Option<Seq<char>>) -> Seq<char> {
    match o {
        Some(v) => v,
        None => Seq::empty(),
    }
}

/// The access token the response pairs carry: the first `access_token`
/// value, or empty when there is none.
pub open spec fn spec_access_token(ps: Seq<(Seq<char>, Seq<char>)>) -> Seq<char> {
    opt_or_empty(first_value(ps, "access_token"@))
}

/// The token type the response pairs carry, or empty when there is none.
pub open spec fn spec_token_type(ps: Seq<(Seq<char>, Seq<char>)>) -> Seq<char> {
    opt_or_empty(first_value(ps, "token_type"@))
}

/// The scopes the response pairs carry: the first `scope` value split on
/// `,`, or no scopes at all when the field is absent.
pub open spec fn spec_scopes(ps: Seq<(Seq<char>, Seq<char>)>) -> Seq<Seq<char>> {
    match first_value(ps, "scope"@) {
        Some(v) => split_on(v, ','),
        None => Seq::empty(),
    }
}

/// The token `t` holds exactly what the response pairs `ps` say.
pub open spec fn token_matches(t: Token, ps: Seq<(Seq<char>, Seq<char>)>) -> bool {
    &&& t.access_token@ == spec_access_token(ps)
    &&& t.token_type@ == spec_token_type(ps)
    &&& strings_view(t.scopes@) == spec_scopes(ps)
}

proof fn lemma_first_value_push(
    ps: Seq<(Seq<char>, Seq<char>)>,
    extra: (Seq<char>, Seq<char>),
    key: Seq<char>,
)
    requires
        extra.0 != key,
    ensures
        first_value(ps.push(extra), key) == first_value(ps, key),
    decreases ps.len(),
{
    if ps.len() == 0 {
        assert(ps.push(extra)[0] == extra);
        assert(ps.push(extra).drop_first() =~~= Seq::<(Seq<char>, Seq<char>)>::empty());
    } else {
        assert(ps.push(extra)[0] == ps[0]);
        assert(ps.push(extra).drop_first() =~~= ps.drop_first().push(extra));
        lemma_first_value_push(ps.drop_first(), extra, key);
    }
}

/// A response field with an unrecognized key is ignored: appending such a
/// pair changes nothing of what a token reads from the response.
pub proof fn lemma_unrecognized_field_ignored(
    ps: Seq<(Seq<char>, Seq<char>)>,
    extra: (Seq<char>, Seq<char>),
)
    requires
        extra.0 != "access_token"@,
        extra.0 != "token_type"@,
        extra.0 != "scope"@,
    ensures
        spec_access_token(ps.push(extra)) == spec_access_token(ps),
        spec_token_type(ps.push(extra)) == spec_token_type(ps),
        spec_scopes(ps.push(extra)) == spec_scopes(ps),
{
    lemma_first_value_push(ps, extra, "access_token"@);
    lemma_first_value_push(ps, extra, "token_type"@);
    lemma_first_value_push(ps, extra, "scope"@);
}

/// Whether two strings hold the same characters.
fn str_eq(a: &str, b: &str) -> (r: bool)
    ensures
        r == (a@ == b@),
{
    let la = a.unicode_len();
    let lb = b.unicode_len();
    if la != lb {
        proof {
            assert(a@ != b@);
        }
        return false;
    }
    let mut i: usize = 0;
    while i < la
        invariant
            i <= la,
            la == a@.len(),
            la == b@.len(),
            forall|k: int| 0 <= k < i ==> a@[k] == b@[k],
        decreases la - i,
    {
        if a.get_char(i) != b.get_char(i) {
            return false;
        }
        i = i + 1;
    }
    proof {
        assert(a@ =~= b@);
    }
    true
}

/// The value of the first pair whose key is `key`, cloned out.
fn find_first(pairs: &Vec<(String, String)>, key: &str) -> (r: Option<String>)
    ensures
        r matches Some(v) ==> first_value(pairs_view(pairs@), key@) == Some(v@),
        (r is None) == (first_value(pairs_view(pairs@), key@) is None),
{
    let ghost views = pairs_view(pairs@);
    let mut i: usize = 0;
    proof {
        assert(views.skip(0) =~= views);
    }
    while i < pairs.len()
        invariant
            i <= pairs.len(),
            views == pairs_view(pairs@),
            first_value(views, key@) == first_value(views.skip(i as int), key@),
        decreases pairs.len() - i,
    {
        proof {
            assert(views.skip(i as int)[0] == views[i as int]);
            assert(views.skip(i as int).drop_first() =~= views.skip(i + 1 as int));
        }
        if str_eq(pairs[i].0.as_str(), key) {
            return Some(pairs[i].1.clone());
        }
        i = i + 1;
    }
    proof {
        assert(views.skip(views.len() as int) =~= Seq::<(Seq<char>, Seq<char>)>::empty());
    }
    None
}

impl Token {
    /// A token is well-formed only with a non-empty access token.
    pub open spec fn wf(self) -> bool {
        self.access_token@.len() > 0
    }

    /// Validates and parses the provider's answer to the token request. A
    /// status other than 200 is refused with that status. Otherwise the body
    /// is decoded as form-encoded pairs; `access_token`, `token_type` and
    /// `scope` are read from it, every other field is ignored, and a
    /// response whose access token comes out empty is refused.
    pub fn from_response(status: u32, body: &str) -> (r: Result<Token, ExchangeError>)
        ensures
            status != 200 ==> r == Err::<Token, ExchangeError>(
                ExchangeError::UnexpectedStatus(status),
            ),
            status == 200 ==> match r {
                Ok(t) => t.wf() && token_matches(t, spec_decode_form(body@)),
                Err(e) => {
                    &&& e == ExchangeError::MissingAccessToken
                    &&& spec_access_token(spec_decode_form(body@)).len() == 0
                },
            },
    {
        if status != 200 {
            return Err(ExchangeError::UnexpectedStatus(status));
        }
        let pairs = decode_form(body);
        let access_token = match find_first(&pairs, "access_token") {
            Some(v) => v,
            None => String::new(),
        };
        if access_token.as_str().unicode_len() == 0 {
            return Err(ExchangeError::MissingAccessToken);
        }
        let token_type = match find_first(&pairs, "token_type") {
            Some(v) => v,
            None => String::new(),
        };
        let scopes = match find_first(&pairs, "scope") {
            Some(v) => split_string(v.as_str(), ','),
            None => Vec::new(),
        };
        proof {
            assert(strings_view(Seq::<String>::empty()) =~= Seq::<Seq<char>>::empty());
        }
        Ok(Token { access_token, scopes, token_type })
    }
}

} // verus!
