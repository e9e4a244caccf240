//! A provider endpoint URL, modelled as the serialization up to its query
//! together with the query itself as decoded key/value pairs.

use crate::form::encode_form;
use crate::form::pairs_view;
use crate::form::spec_encode_form;
use vstd::prelude::*;
use vstd::string::StringExecFns;

verus! {

/// A parsed URL: everything before the query as one string, and the query as
/// decoded key/value pairs in order.
#[derive(Debug)]
pub struct Url {
    pub base: String,
    pub query: Vec<(String, String)>,
}

/// What `url::Url::parse` makes of a string: nothing when the string is not
/// a well-formed absolute URL, else the parsed URL's serialization without
/// query and fragment, paired with its decoded query pairs.
pub uninterp spec fn url_parts_of(s: Seq<char>) -> Option<(Seq<char>, Seq<(Seq<char>, Seq<char>)>)>;

/// Relies on `url::Url::parse` to decide whether the string is a well-formed
/// absolute URL, and on `Url::query_pairs`, `Url::set_fragment`,
/// `Url::set_query` and `Url::as_str` to take the parsed value apart into
/// plain strings.
#[verifier::external_body]
pub(crate) fn parse_url(s: &str) -> (r: Option<Url>)
    ensures
        (r is Some) == (url_parts_of(s@) is Some),
        r matches Some(u) ==> Some((u.base@, pairs_view(u.query@))) == url_parts_of(s@),
{
    match url::Url::parse(s) {
        Ok(mut u) => {
            let mut query: Vec<(String, String)> = Vec::new();
            for (k, v) in u.query_pairs() {
                query.push((k.into_owned(), v.into_owned()));
            }
            u.set_fragment(None);
            u.set_query(None);
            Some(Url { base: u.as_str().to_string(), query })
        }
        Err(_) => None,
    }
}

/// The string form of a URL with the given parts: the base alone when the
/// query is empty, else the base, `?`, and the form-encoded query.
pub open spec fn url_text(base: Seq<char>, q: Seq<(Seq<char>, Seq<char>)>) -> Seq<char> {
    if q.len() == 0 {
        base
    } else {
        base + seq!['?'] + spec_encode_form(q)
    }
}

impl Url {
    /// An owned copy with the same parts.
    pub fn duplicate(&self) -> (r: Url)
        ensures
            r.base@ == self.base@,
            pairs_view(r.query@) == pairs_view(self.query@),
    {
        let mut query: Vec<(String, String)> = Vec::new();
        let mut i: usize = 0;
        while i < self.query.len()
            invariant
                i <= self.query.len(),
                query@.len() == i,
                pairs_view(query@) == pairs_view(self.query@.take(i as int)),
            decreases self.query.len() - i,
        {
            let k = self.query[i].0.clone();
            let v = self.query[i].1.clone();
            query.push((k, v));
            proof {
                assert(query@.last().0@ == self.query@[i as int].0@);
                assert(forall|j: int|
                    0 <= j < i ==> pairs_view(query@)[j] == pairs_view(
                        self.query@.take(i as int),
                    )[j]);
                assert(pairs_view(query@) =~~= pairs_view(self.query@.take(i + 1 as int)));
            }
            i = i + 1;
        }
        proof {
            assert(self.query@.take(self.query@.len() as int) =~= self.query@);
            assert(pairs_view(query@) =~~= pairs_view(self.query@));
        }
        Url { base: self.base.clone(), query }
    }

    /// The URL written out as a string.
    pub fn to_text(&self) -> (r: String)
        ensures
            r@ == url_text(self.base@, pairs_view(self.query@)),
    {
        if self.query.len() == 0 {
            self.base.clone()
        } else {
            let mut r = self.base.clone();
            r.push('?');
            let q = encode_form(&self.query);
            r.append(q.as_str());
            r
        }
    }
}

} // verus!
