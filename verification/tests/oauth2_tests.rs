use oauth2::Authorization;
use oauth2::Config;
use oauth2::ExchangeError;
use oauth2::Request;
use oauth2::Token;

fn pairs(ps: &[(&str, &str)]) -> Vec<(String, String)> {
    let mut v: Vec<(String, String)> = Vec::new();
    for (k, val) in ps {
        v.push((k.to_string(), val.to_string()));
    }
    v
}

fn demo_config() -> Config {
    Config::new(
        "id",
        "secret",
        "https://example.com/oauth/authorize",
        "https://example.com/oauth/token",
    )
}

#[test]
fn new_parses_both_endpoints() {
    let cfg = demo_config();
    assert_eq!(cfg.client_id, "id");
    assert_eq!(cfg.client_secret, "secret");
    assert_eq!(cfg.auth_url.base, "https://example.com/oauth/authorize");
    assert_eq!(cfg.token_url.base, "https://example.com/oauth/token");
    assert!(cfg.scopes.is_empty());
    assert_eq!(cfg.redirect_url, "");
}

#[test]
fn parsing_normalizes_the_url() {
    let cfg = Config::try_new("i", "s", "https://example.com", "https://example.com/t").unwrap();
    assert_eq!(cfg.auth_url.base, "https://example.com/");
}

#[test]
fn parsing_takes_the_query_apart() {
    let cfg =
        Config::try_new("i", "s", "https://example.com/a?x=1&y=2", "https://example.com/t").unwrap();
    assert_eq!(cfg.auth_url.base, "https://example.com/a");
    assert_eq!(cfg.auth_url.query, pairs(&[("x", "1"), ("y", "2")]));
}

#[test]
fn try_new_rejects_a_bad_auth_url() {
    assert!(Config::try_new("i", "s", "not a url", "https://example.com/t").is_none());
}

#[test]
fn try_new_rejects_a_bad_token_url() {
    assert!(Config::try_new("i", "s", "https://example.com/a", "not a url").is_none());
}

#[test]
fn authorize_url_appends_the_parameters_in_order() {
    let mut cfg = demo_config();
    cfg.scopes.push("a".to_string());
    cfg.scopes.push("b".to_string());
    let url = cfg.authorize_url("st8".to_string());
    assert_eq!(url.base, "https://example.com/oauth/authorize");
    assert_eq!(
        url.query,
        pairs(&[("client_id", "id"), ("state", "st8"), ("scope", "a,b")])
    );
}

#[test]
fn authorize_url_adds_redirect_uri_only_when_set() {
    let mut cfg = demo_config();
    cfg.redirect_url = "https://client.example/cb".to_string();
    let url = cfg.authorize_url("s".to_string());
    assert_eq!(
        url.query,
        pairs(&[
            ("client_id", "id"),
            ("state", "s"),
            ("scope", ""),
            ("redirect_uri", "https://client.example/cb"),
        ])
    );
}

#[test]
fn empty_scopes_give_an_empty_scope_parameter() {
    let cfg = demo_config();
    let url = cfg.authorize_url("s".to_string());
    assert_eq!(
        url.query,
        pairs(&[("client_id", "id"), ("state", "s"), ("scope", "")])
    );
}

#[test]
fn authorize_url_writes_out_with_escaping() {
    let mut cfg = demo_config();
    cfg.scopes.push("a".to_string());
    cfg.scopes.push("b".to_string());
    let url = cfg.authorize_url("st8".to_string());
    assert_eq!(
        url.to_text(),
        "https://example.com/oauth/authorize?client_id=id&state=st8&scope=a%2Cb"
    );
}

#[test]
fn base_url_query_comes_before_the_appended_parameters() {
    let cfg =
        Config::try_new("i", "s", "https://example.com/a?x=1", "https://example.com/t").unwrap();
    let url = cfg.authorize_url("s".to_string());
    assert_eq!(
        url.query,
        pairs(&[("x", "1"), ("client_id", "i"), ("state", "s"), ("scope", "")])
    );
}

#[test]
fn exchange_request_carries_the_form_body() {
    let cfg = demo_config();
    let req = cfg.exchange_request("thecode".to_string());
    assert_eq!(req.url, "https://example.com/oauth/token");
    assert_eq!(
        req.headers,
        pairs(&[("Content-Type", "application/x-www-form-urlencoded")])
    );
    assert_eq!(req.body, "client_id=id&client_secret=secret&code=thecode");
}

#[test]
fn exchange_request_adds_redirect_uri_only_when_set() {
    let mut cfg = demo_config();
    cfg.redirect_url = "https://client.example/cb".to_string();
    let req = cfg.exchange_request("c".to_string());
    assert_eq!(
        req.body,
        "client_id=id&client_secret=secret&code=c&redirect_uri=https%3A%2F%2Fclient.example%2Fcb"
    );
}

#[test]
fn token_round_trips_through_the_form_encoding() {
    let body = oauth2::encode_form(&pairs(&[
        ("access_token", "abc123"),
        ("token_type", "bearer"),
        ("scope", "a,b"),
    ]));
    let token = Token::from_response(200, &body).unwrap();
    assert_eq!(token.access_token, "abc123");
    assert_eq!(token.token_type, "bearer");
    assert_eq!(token.scopes, vec!["a".to_string(), "b".to_string()]);
}

#[test]
fn plain_response_parses_the_same_way() {
    let token =
        Token::from_response(200, "access_token=abc123&token_type=bearer&scope=a,b").unwrap();
    assert_eq!(token.access_token, "abc123");
    assert_eq!(token.token_type, "bearer");
    assert_eq!(token.scopes, vec!["a".to_string(), "b".to_string()]);
}

#[test]
fn empty_access_token_is_refused() {
    let r = Token::from_response(200, "access_token=&token_type=bearer");
    assert_eq!(r.unwrap_err(), ExchangeError::MissingAccessToken);
}

#[test]
fn absent_access_token_is_refused() {
    let r = Token::from_response(200, "token_type=bearer");
    assert_eq!(r.unwrap_err(), ExchangeError::MissingAccessToken);
}

#[test]
fn unexpected_status_is_refused_whatever_the_body() {
    let r = Token::from_response(401, "access_token=abc123");
    assert_eq!(r.unwrap_err(), ExchangeError::UnexpectedStatus(401));
    let r = Token::from_response(401, "");
    assert_eq!(r.unwrap_err(), ExchangeError::UnexpectedStatus(401));
    let r = Token::from_response(500, "access_token=abc123");
    assert_eq!(r.unwrap_err(), ExchangeError::UnexpectedStatus(500));
}

#[test]
fn unrecognized_fields_are_ignored() {
    let token =
        Token::from_response(200, "expires_in=3600&access_token=abc123&refresh_token=r").unwrap();
    assert_eq!(token.access_token, "abc123");
    assert_eq!(token.token_type, "");
    assert!(token.scopes.is_empty());
}

#[test]
fn omitted_scope_differs_from_an_empty_scope() {
    let token = Token::from_response(200, "access_token=t").unwrap();
    assert!(token.scopes.is_empty());
    let token = Token::from_response(200, "access_token=t&scope=").unwrap();
    assert_eq!(token.scopes, vec!["".to_string()]);
}

#[test]
fn first_occurrence_of_a_field_wins() {
    let token = Token::from_response(200, "access_token=first&access_token=second").unwrap();
    assert_eq!(token.access_token, "first");
}

#[test]
fn decode_form_unescapes_pairs_in_order() {
    let got = oauth2::decode_form("a=1&b=2%20c&d=x+y");
    assert_eq!(got, pairs(&[("a", "1"), ("b", "2 c"), ("d", "x y")]));
}

#[test]
fn decode_form_keeps_malformed_escapes_and_bare_keys() {
    let got = oauth2::decode_form("a=%2G&&b");
    assert_eq!(got, pairs(&[("a", "%2G"), ("b", "")]));
}

#[test]
fn decode_form_of_an_empty_body_is_empty() {
    assert!(oauth2::decode_form("").is_empty());
}

#[test]
fn encode_form_escapes_reserved_characters() {
    let got = oauth2::encode_form(&pairs(&[("k ey", "a&b=c"), ("u", "\u{e9}")]));
    assert_eq!(got, "k+ey=a%26b%3Dc&u=%C3%A9");
}

#[test]
fn join_comma_renders_scope_lists() {
    assert_eq!(oauth2::join_comma(&Vec::<String>::new()), "");
    assert_eq!(oauth2::join_comma(&vec!["a".to_string()]), "a");
    assert_eq!(oauth2::join_comma(&vec!["a".to_string(), "b".to_string()]), "a,b");
}

#[test]
fn auth_with_appends_the_authorization_header_only() {
    let token = Token::from_response(200, "access_token=abc123").unwrap();
    let mut req = Request::get("https://api.example.com/user".to_string());
    req.headers.push(("Accept".to_string(), "application/json".to_string()));
    let req = req.auth_with(&token);
    assert_eq!(req.url, "https://api.example.com/user");
    assert_eq!(req.body, "");
    assert_eq!(
        req.headers,
        pairs(&[("Accept", "application/json"), ("Authorization", "token abc123")])
    );
}

#[test]
fn tokens_compare_for_deterministic_caching() {
    let a = Token::from_response(200, "access_token=abc").unwrap();
    let b = Token::from_response(200, "access_token=abc").unwrap();
    let c = Token::from_response(200, "access_token=xyz").unwrap();
    assert_eq!(a, b);
    assert_ne!(a, c);
    assert!(a < c);
}

#[test]
fn percent_decoding_is_per_byte() {
    let got = oauth2::decode_form("u=%C3%A9");
    assert_eq!(got, pairs(&[("u", "\u{c3}\u{a9}")]));
}

#[test]
fn exchange_request_reencodes_the_token_url_query() {
    let cfg = Config::try_new(
        "i",
        "s",
        "https://example.com/a",
        "https://example.com/t?a=b%20c",
    )
    .unwrap();
    let req = cfg.exchange_request("c".to_string());
    assert_eq!(req.url, "https://example.com/t?a=b+c");
}
