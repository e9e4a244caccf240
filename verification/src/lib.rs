//! An OAuth2 authorization-code client: builds the authorization redirect
//! URL, prepares the token-exchange request, and validates and parses the
//! provider's token response.

pub mod config;
pub mod form;
pub mod request;
pub mod token;
pub mod urls;

pub use crate::config::{authorize_params, exchange_params, lemma_authorize_query_redirect, Config};
pub use crate::form::{
    decode_form, encode_form, is_ascii_pairs, join_comma, lemma_form_round_trip,
    lemma_join_comma_empty, spec_decode_form, spec_encode_form, spec_join_comma,
};
pub use crate::request::{auth_header_value, Authorization, Request};
pub use crate::token::{
    first_value, lemma_unrecognized_field_ignored, spec_access_token, spec_scopes,
    spec_token_type, token_matches, ExchangeError, Token,
};
pub use crate::urls::{url_parts_of, url_text, Url};
