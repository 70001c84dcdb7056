use qui::error::MyError;
use qui::text::chars_of;
use qui::token::generate_random_string;
use qui::token::get_cached_token;
use qui::token::handle_connection;
use qui::token::parse_response_code;
use qui::token::request_token;
use qui::token::respond_with_error;
use qui::token::respond_with_success;
use qui::token::store_token;
use qui::token::TraqOAuthParam;
use qui::token::STATE_LENGTH;
use qui::token::TOKEN_LENGTH;

fn by_split(url: &str) -> Option<String> {
    url.split("?code=")
        .nth(1)
        .and_then(|strs| strs.split('&').next())
        .map(|s| s.to_owned())
}

#[test]
fn response_code_is_cut_out_of_the_address() {
    assert_eq!(
        parse_response_code("http://localhost:8080/?code=abc123&state=xyz"),
        Some("abc123".to_owned())
    );
    assert_eq!(parse_response_code("/?code=abc"), Some("abc".to_owned()));
    assert_eq!(parse_response_code("/?code="), Some("".to_owned()));
    assert_eq!(parse_response_code("/?code=&x"), Some("".to_owned()));
    assert_eq!(parse_response_code("/?state=1&code=abc"), None);
    assert_eq!(parse_response_code(""), None);
    assert_eq!(parse_response_code("?code"), None);
    assert_eq!(parse_response_code("a?code=first?code=second"), Some("first".to_owned()));
}

#[test]
fn response_code_agrees_with_split() {
    for url in [
        "",
        "?code=",
        "x?code=1&2?code=3",
        "?code=?code=",
        "??code=a&",
        "?cod?code=é&ü",
        "no code here",
        "?code=a?code",
        "&?code=&&",
        "?code=日本語&x=1",
    ] {
        assert_eq!(parse_response_code(url), by_split(url), "url {:?}", url);
    }
}

#[test]
fn chars_of_gives_every_character() {
    assert_eq!(chars_of("aé日"), vec!['a', 'é', '日']);
    assert_eq!(chars_of(""), Vec::<char>::new());
}

#[test]
fn authorize_url_lists_the_parameters_that_have_a_value() {
    let mut p = TraqOAuthParam::new("https://q.example/api/v3".to_owned(), "client".to_owned(), None);
    assert_eq!(
        p.get_authorize_url(None),
        "https://q.example/api/v3/oauth2/authorize?response_type=code&client_id=client"
    );
    assert_eq!(
        p.get_authorize_url(Some("st")),
        "https://q.example/api/v3/oauth2/authorize?response_type=code&client_id=client&state=st"
    );
    p.redirect_uri = Some("http://localhost:8080".to_owned());
    p.scope = Some("read".to_owned());
    p.code_challenge = Some("ch".to_owned());
    p.code_challenge_method = Some("S256".to_owned());
    p.nonce = Some("n".to_owned());
    p.prompt = Some("none".to_owned());
    assert_eq!(
        p.get_authorize_url(Some("st")),
        "https://q.example/api/v3/oauth2/authorize?response_type=code&client_id=client\
         &redirect_uri=http://localhost:8080&scope=read&state=st&code_challenge=ch\
         &code_challenge_method=S256&nonce=n&prompto=none"
    );
}

#[test]
fn new_param_keeps_the_state_and_nothing_else() {
    let p = TraqOAuthParam::new("b".to_owned(), "c".to_owned(), Some("s".to_owned()));
    assert_eq!(p.base_path, "b");
    assert_eq!(p.client_id, "c");
    assert_eq!(p.state, Some("s".to_owned()));
    assert_eq!(p.redirect_uri, None);
    assert_eq!(p.scope, None);
    assert_eq!(p.code_challenge, None);
    assert_eq!(p.code_challenge_method, None);
    assert_eq!(p.nonce, None);
    assert_eq!(p.prompt, None);
}

#[test]
fn random_string_has_the_length_and_the_alphabet() {
    for length in [0usize, 1, 16, 128] {
        let s = generate_random_string(length);
        assert_eq!(s.chars().count(), length);
        assert!(s.chars().all(|c| c.is_ascii_alphanumeric()));
    }
    assert_ne!(generate_random_string(64), generate_random_string(64));
}

#[test]
fn request_token_puts_a_fresh_state_into_the_address() {
    let p = TraqOAuthParam::new("https://q.example".to_owned(), "me".to_owned(), None);
    let url = request_token(&p);
    let head = "https://q.example/oauth2/authorize?response_type=code&client_id=me&state=";
    assert!(url.starts_with(head));
    let state = &url[head.len()..];
    assert_eq!(STATE_LENGTH, 16);
    assert_eq!(state.len(), 16);
    assert!(state.chars().all(|c| c.is_ascii_alphanumeric()));
}

#[test]
fn token_must_have_thirty_six_bytes() {
    assert_eq!(TOKEN_LENGTH, 36);
    let good = "a".repeat(36);
    assert_eq!(store_token(&good), Ok(()));
    assert_eq!(store_token(&"a".repeat(35)), Err(MyError::InvalidToken));
    assert_eq!(store_token(&"a".repeat(37)), Err(MyError::InvalidToken));
    assert_eq!(store_token(""), Err(MyError::InvalidToken));
    assert_eq!(store_token(&"é".repeat(18)), Ok(()));
    assert_eq!(store_token(&"é".repeat(36)), Err(MyError::InvalidToken));
    assert_eq!(get_cached_token(good.clone()), Some(good));
    assert_eq!(get_cached_token("short".to_owned()), None);
    assert_eq!(get_cached_token("b".repeat(37)), None);
    assert_eq!(MyError::InvalidToken.message(), "invalid token length");
}

#[test]
fn responses() {
    assert_eq!(respond_with_success("<html/>"), "HTTP/1.1 200 OK\r\n\r\n<html/>");
    assert_eq!(
        respond_with_error("oops"),
        "HTTP/1.1 400 Bad Request\r\n\r\n400 - Bad Request - oops"
    );
}

#[test]
fn connection_gives_the_second_word_of_the_request() {
    let (url, response) = handle_connection(Ok("GET /?code=abc HTTP/1.1\r\nHost: x\r\n\r\n"), "page");
    assert_eq!(url, Some("/?code=abc".to_owned()));
    assert_eq!(response, "HTTP/1.1 200 OK\r\n\r\npage");

    let (url, response) = handle_connection(Ok("GET"), "page");
    assert_eq!(url, None);
    assert_eq!(response, "HTTP/1.1 400 Bad Request\r\n\r\n400 - Bad Request - Malformed request");

    let (url, response) = handle_connection(Ok("   "), "page");
    assert_eq!(url, None);
    assert_eq!(response, "HTTP/1.1 400 Bad Request\r\n\r\n400 - Bad Request - Malformed request");

    let (url, response) = handle_connection(Err("bad byte"), "page");
    assert_eq!(url, None);
    assert_eq!(
        response,
        "HTTP/1.1 400 Bad Request\r\n\r\n400 - Bad Request - Invalid UTF-8 sequence: bad byte"
    );
}
