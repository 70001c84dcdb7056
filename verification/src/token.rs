//! The access token: the address at which the user grants access, the code
//! that comes back, and the token as it is kept in a file.

use crate::error::MyError;
use crate::text::chars_of;
use crate::text::split_whitespace;
use crate::text::text_of;
use crate::text::words;
use rand::distributions::Alphanumeric;
use rand::Rng;
use vstd::prelude::*;
use vstd::string::StrSliceExecFns;
use vstd::string::StringExecFns;

verus! {

/// What the request for access is made of.
pub struct TraqOAuthParam {
    pub base_path: String,
    pub client_id: String,
    pub redirect_uri: Option<String>,
    pub scope: Option<String>,
    pub state: Option<String>,
    pub code_challenge: Option<String>,
    pub code_challenge_method: Option<String>,
    pub nonce: Option<String>,
    pub prompt: Option<String>,
}

/// A `TraqOAuthParam` with its texts as sequences of characters.
pub struct OAuthParamView {
    pub base_path: Seq<char>,
    pub client_id: Seq<char>,
    pub redirect_uri: Option<Seq<char>>,
    pub scope: Option<Seq<char>>,
    pub state: Option<Seq<char>>,
    pub code_challenge: Option<Seq<char>>,
    pub code_challenge_method: Option<Seq<char>>,
    pub nonce: Option<Seq<char>>,
    pub prompt: Option<Seq<char>>,
}

impl View for TraqOAuthParam {
    type V = OAuthParamView;

    open spec fn view(&self) -> OAuthParamView {
        OAuthParamView {
            base_path: self.base_path@,
            client_id: self.client_id@,
            redirect_uri: text_of(self.redirect_uri),
            scope: text_of(self.scope),
            state: text_of(self.state),
            code_challenge: text_of(self.code_challenge),
            code_challenge_method: text_of(self.code_challenge_method),
            nonce: text_of(self.nonce),
            prompt: text_of(self.prompt),
        }
    }
}

/// `url` with the key and the value behind it, if there is a value.
pub open spec fn with_param(url: Seq<char>, key: Seq<char>, value: Option<Seq<char>>) -> Seq<
    char,
> {
    match value {
        Some(v) => url + key + v,
        None => url,
    }
}

/// The address at which the user grants access: the path `/oauth2/authorize`
/// of the service, the response type `code`, the id of the client, and each
/// further parameter that has a value.
pub open spec fn authorize_url(p: OAuthParamView, state: Option<Seq<char>>) -> Seq<char> {
    let url = p.base_path + "/oauth2/authorize"@ + "?response_type=code"@ + "&client_id="@
        + p.client_id;
    let url = with_param(url, "&redirect_uri="@, p.redirect_uri);
    let url = with_param(url, "&scope="@, p.scope);
    let url = with_param(url, "&state="@, state);
    let url = with_param(url, "&code_challenge="@, p.code_challenge);
    let url = with_param(url, "&code_challenge_method="@, p.code_challenge_method);
    let url = with_param(url, "&nonce="@, p.nonce);
    with_param(url, "&prompto="@, p.prompt)
}

/// Puts the key and the value behind `url`, if there is a value.
fn append_param(url: String, key: &str, value: &Option<String>) -> (longer: String)
    ensures
        longer@ == with_param(url@, key@, text_of(*value)),
{
    match value {
        Some(v) => url.concat(key).concat(v.as_str()),
        None => url,
    }
}

impl TraqOAuthParam {
    /// A request to the service at `base_path` for the given client, with
    /// no further parameter but the state.
    pub fn new(base_path: String, client_id: String, state: Option<String>) -> (param: Self)
        ensures
            param@ == (OAuthParamView {
                base_path: base_path@,
                client_id: client_id@,
                redirect_uri: None,
                scope: None,
                state: text_of(state),
                code_challenge: None,
                code_challenge_method: None,
                nonce: None,
                prompt: None,
            }),
    {
        Self {
            base_path,
            client_id,
            redirect_uri: None,
            scope: None,
            state,
            code_challenge: None,
            code_challenge_method: None,
            nonce: None,
            prompt: None,
        }
    }

    /// The address at which the user grants access, with the given state
    /// in it.
    pub fn get_authorize_url(&self, state: Option<&str>) -> (url: String)
        ensures
            url@ == authorize_url(
                self@,
                match state {
                    Some(s) => Some(s@),
                    None => None,
                },
            ),
    {
        let url = self.base_path.clone().concat("/oauth2/authorize").concat(
            "?response_type=code",
        ).concat("&client_id=").concat(self.client_id.as_str());
        let url = append_param(url, "&redirect_uri=", &self.redirect_uri);
        let url = append_param(url, "&scope=", &self.scope);
        let url = match state {
            Some(s) => url.concat("&state=").concat(s),
            None => url,
        };
        let url = append_param(url, "&code_challenge=", &self.code_challenge);
        let url = append_param(url, "&code_challenge_method=", &self.code_challenge_method);
        let url = append_param(url, "&nonce=", &self.nonce);
        append_param(url, "&prompto=", &self.prompt)
    }
}

/// Whether `c` is a letter `A` to `Z` or `a` to `z`, or a digit `0` to `9`.
pub open spec fn is_alphanumeric(c: char) -> bool {
    let u = c as u32;
    (0x30 <= u <= 0x39) || (0x41 <= u <= 0x5A) || (0x61 <= u <= 0x7A)
}

/// A text of `length` letters and digits, chosen at random.
///
/// Calls `rand::thread_rng` and draws `length` samples of
/// `rand::distributions::Alphanumeric` from it with `Rng::sample_iter`. The
/// contract states what holds of every outcome: each sample is one of the
/// 62 characters `A` to `Z`, `a` to `z` and `0` to `9`, and there are
/// `length` of them. `thread_rng` panics if the system gives it no seed.
#[verifier::external_body]
pub fn generate_random_string(length: usize) -> (text: String)
    ensures
        text@.len() == length,
        forall|i: int| 0 <= i < text@.len() ==> is_alphanumeric(#[trigger] text@[i]),
{
    rand::thread_rng().sample_iter(&Alphanumeric).take(length).map(char::from).collect()
}

/// How many characters the state of a request for access has.
pub const STATE_LENGTH: usize = 16;

/// The address to open for the user to grant access: the address of the
/// request with a state of `STATE_LENGTH` letters and digits chosen at
/// random.
pub fn request_token(traq_oauth: &TraqOAuthParam) -> (auth_url: String)
    ensures
        exists|state: Seq<char>|
            state.len() == STATE_LENGTH && (forall|i: int|
                0 <= i < state.len() ==> is_alphanumeric(#[trigger] state[i])) && auth_url@
                == #[trigger] authorize_url(traq_oauth@, Some(state)),
{
    let state = generate_random_string(STATE_LENGTH);
    let auth_url = traq_oauth.get_authorize_url(Some(state.as_str()));
    assert(auth_url@ == authorize_url(traq_oauth@, Some(state@)));
    auth_url
}

/// Whether `pattern` stands in `s` at place `i`.
pub open spec fn occurs_at(s: Seq<char>, pattern: Seq<char>, i: int) -> bool {
    0 <= i && i + pattern.len() <= s.len() && s.subrange(i, i + pattern.len()) == pattern
}

/// The first place from `from` on at which `pattern` stands in `s`, or the
/// length of `s` if there is none.
pub open spec fn first_occurrence(s: Seq<char>, pattern: Seq<char>, from: int) -> int
    decreases s.len() - from,
{
    if from < 0 || from >= s.len() || from + pattern.len() > s.len() {
        s.len() as int
    } else if occurs_at(s, pattern, from) {
        from
    } else {
        first_occurrence(s, pattern, from + 1)
    }
}

/// The first place of `c` in `s`, or the length of `s` if it has none.
pub open spec fn first_char(s: Seq<char>, c: char) -> int
    decreases s.len(),
{
    if s.len() == 0 {
        0
    } else if s[0] == c {
        0
    } else {
        1 + first_char(s.drop_first(), c)
    }
}

/// The code in the address that the service sent the user back to: what
/// stands between the first `?code=` and the next `?code=` or the end, up
/// to its first `&`. There is none if the address holds no `?code=`.
pub open spec fn response_code(url: Seq<char>) -> Option<Seq<char>> {
    let key = "?code="@;
    let i = first_occurrence(url, key, 0);
    if i >= url.len() {
        None
    } else {
        let rest = url.skip(i + key.len());
        let part = rest.take(first_occurrence(rest, key, 0));
        Some(part.take(first_char(part, '&')))
    }
}

/// `first_char` finds the first place of the character.
pub proof fn lemma_first_char(s: Seq<char>, c: char, k: int)
    requires
        0 <= k <= s.len(),
        forall|j: int| 0 <= j < k ==> s[j] != c,
        k < s.len() ==> s[k] == c,
    ensures
        first_char(s, c) == k,
    decreases k,
{
    if k > 0 {
        assert(s[0] != c);
        let rest = s.drop_first();
        assert forall|j: int| 0 <= j < k - 1 implies rest[j] != c by {
            assert(rest[j] == s[j + 1]);
        }
        if k < s.len() {
            assert(rest[k - 1] == s[k]);
        }
        lemma_first_char(rest, c, k - 1);
    }
}

/// Whether `pattern` stands in `text` at place `i`.
fn matches_at(text: &Vec<char>, pattern: &Vec<char>, i: usize) -> (found: bool)
    requires
        i + pattern.len() <= text.len(),
    ensures
        found == occurs_at(text@, pattern@, i as int),
{
    let mut k: usize = 0;
    while k < pattern.len()
        invariant
            0 <= k <= pattern.len(),
            i + pattern.len() <= text.len(),
            forall|j: int| 0 <= j < k ==> text[i + j] == pattern[j],
        decreases pattern.len() - k,
    {
        if text[i + k] != pattern[k] {
            assert(text@.subrange(i as int, i + pattern.len())[k as int] != pattern@[k as int]);
            return false;
        }
        k += 1;
    }
    assert(text@.subrange(i as int, i + pattern.len()) =~= pattern@);
    true
}

/// The first place from `from` on at which `pattern` stands in the part of
/// `text` before `end`, or `end` if there is none.
fn find(text: &Vec<char>, pattern: &Vec<char>, from: usize, end: usize) -> (place: usize)
    requires
        from <= end <= text.len(),
    ensures
        from <= place <= end,
        place - from == first_occurrence(text@.subrange(from as int, end as int), pattern@, 0),
{
    let ghost s = text@.subrange(from as int, end as int);
    if pattern.len() > end - from {
        return end;
    }
    let last = end - pattern.len();
    let mut i: usize = from;
    while i <= last
        invariant
            from <= i <= last + 1,
            last + pattern.len() == end,
            end <= text.len(),
            s == text@.subrange(from as int, end as int),
            first_occurrence(s, pattern@, 0) == first_occurrence(s, pattern@, i - from),
        decreases last + 1 - i,
    {
        let found = matches_at(text, pattern, i);
        proof {
            assert(s.subrange(i - from, i - from + pattern.len()) =~= text@.subrange(
                i as int,
                i + pattern.len(),
            ));
        }
        if found {
            return i;
        }
        if i == last {
            proof {
                lemma_no_late_occurrence(s, pattern@, i - from + 1);
            }
            return end;
        }
        i += 1;
    }
    end
}

/// The pattern stands nowhere from a place on where it no longer fits.
pub proof fn lemma_no_late_occurrence(s: Seq<char>, pattern: Seq<char>, from: int)
    requires
        from + pattern.len() > s.len(),
    ensures
        first_occurrence(s, pattern, from) == s.len(),
{
}

/// The code in the address that the service sent the user back to.
pub fn parse_response_code(url: &str) -> (code: Option<String>)
    ensures
        match response_code(url@) {
            Some(c) => code matches Some(found) && found@ == c,
            None => code is None,
        },
{
    let text = chars_of(url);
    let key = chars_of("?code=");
    let n = text.len();
    assert(text@.subrange(0, n as int) =~= text@);
    let i = find(&text, &key, 0, n);
    if i >= n {
        return None;
    }
    proof {
        lemma_occurrence_fits(text@, key@, 0);
    }
    let start = i + key.len();
    let ghost rest = text@.skip(start as int);
    assert(text@.subrange(start as int, n as int) =~= rest);
    let stop = find(&text, &key, start, n);
    let ghost part = rest.take(stop - start);
    let mut end = start;
    while end < stop && text[end] != '&'
        invariant
            start <= end <= stop <= n,
            n == text.len(),
            forall|j: int| start <= j < end ==> text[j] != '&',
        decreases stop - end,
    {
        end += 1;
    }
    proof {
        assert forall|j: int| 0 <= j < end - start implies part[j] != '&' by {
            assert(part[j] == text[start + j]);
        }
        if end - start < part.len() {
            assert(part[end - start] == text[end as int]);
        }
        lemma_first_char(part, '&', end - start);
        assert(part.take(end - start) =~= url@.subrange(start as int, end as int));
    }
    Some(url.substring_char(start, end).to_owned())
}

/// What `first_occurrence` finds inside `s` is a place where the pattern
/// fits.
pub proof fn lemma_occurrence_fits(s: Seq<char>, pattern: Seq<char>, from: int)
    requires
        0 <= from,
    ensures
        from <= first_occurrence(s, pattern, from) || first_occurrence(s, pattern, from)
            == s.len(),
        first_occurrence(s, pattern, from) < s.len() ==> first_occurrence(s, pattern, from)
            + pattern.len() <= s.len(),
    decreases s.len() - from,
{
    if from < s.len() && from + pattern.len() <= s.len() && !occurs_at(s, pattern, from) {
        lemma_occurrence_fits(s, pattern, from + 1);
    }
}

/// How many bytes an access token has.
pub const TOKEN_LENGTH: usize = 36;

/// How many bytes the text has.
pub open spec fn byte_length(text: Seq<char>) -> nat {
    vstd::utf8::encode_utf8(text).len()
}

/// The token that was read from the file in which it is kept, if it is as
/// long as a token is.
pub fn get_cached_token(token_info_string: String) -> (token: Option<String>)
    ensures
        byte_length(token_info_string@) == TOKEN_LENGTH ==> token == Some(token_info_string),
        byte_length(token_info_string@) != TOKEN_LENGTH ==> token is None,
{
    if token_info_string.as_str().as_bytes().len() != TOKEN_LENGTH {
        None
    } else {
        Some(token_info_string)
    }
}

/// Whether the token may be kept: it may if it is as long as a token is.
pub fn store_token(token: &str) -> (result: Result<(), MyError>)
    ensures
        byte_length(token@) == TOKEN_LENGTH ==> result is Ok,
        byte_length(token@) != TOKEN_LENGTH ==> result == Err::<(), MyError>(
            MyError::InvalidToken,
        ),
{
    if token.as_bytes().len() != TOKEN_LENGTH {
        Err(MyError::InvalidToken)
    } else {
        Ok(())
    }
}

/// The answer to a request that was understood: the page `contents`.
pub open spec fn success_text(contents: Seq<char>) -> Seq<char> {
    "HTTP/1.1 200 OK\r\n\r\n"@ + contents
}

/// The answer to a request that was not understood.
pub open spec fn error_text(error_message: Seq<char>) -> Seq<char> {
    "HTTP/1.1 400 Bad Request\r\n\r\n400 - Bad Request - "@ + error_message
}

/// The answer to a request that was understood: the page `contents`.
pub fn respond_with_success(contents: &str) -> (response: String)
    ensures
        response@ == success_text(contents@),
{
    "HTTP/1.1 200 OK\r\n\r\n".to_owned().concat(contents)
}

/// The answer to a request that was not understood.
pub fn respond_with_error(error_message: &str) -> (response: String)
    ensures
        response@ == error_text(error_message@),
{
    "HTTP/1.1 400 Bad Request\r\n\r\n400 - Bad Request - ".to_owned().concat(error_message)
}

/// Reads the request that came in after the user granted access, and
/// gives the address that was asked for and the answer to send.
///
/// `request` is the text of the request, or what was wrong with its bytes
/// if they are no text. The address is the second word of the request. A
/// request of fewer than two words is malformed: it has no address, and
/// neither has one that is no text.
pub fn handle_connection(request: Result<&str, &str>, contents: &str) -> (answer: (
    Option<String>,
    String,
))
    ensures
        match request {
            Ok(text) => if words(text@).len() > 1 {
                &&& answer.0 matches Some(url) && url@ == words(text@)[1]
                &&& answer.1@ == success_text(contents@)
            } else {
                &&& answer.0 is None
                &&& answer.1@ == error_text("Malformed request"@)
            },
            Err(why) => {
                &&& answer.0 is None
                &&& answer.1@ == error_text("Invalid UTF-8 sequence: "@ + why@)
            },
        },
{
    match request {
        Ok(text) => {
            let split = split_whitespace(text);
            if split.len() > 1 {
                (Some(split[1].clone()), respond_with_success(contents))
            } else {
                (None, respond_with_error("Malformed request"))
            }
        },
        Err(why) => {
            let message = "Invalid UTF-8 sequence: ".to_owned().concat(why);
            (None, respond_with_error(message.as_str()))
        },
    }
}

} // verus!
