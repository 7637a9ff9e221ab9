use vstd::prelude::*;
use vstd::string::{StringExecFns, StringSliceAdditionalSpecFns, StrSliceExecFns};
use vstd::utf8::encode_utf8;
use crate::error::PayoutError;
use crate::text::str_equal;

verus! {

/// The path under which the directory's API is expected.
pub const API_ROOT: &'static str = "/api/v1";

/// The reference that leads from the API's base to its list of users.
pub const USERS_REFERENCE: &'static str = "users";

/// The name of the query parameter that carries the helper's identifier.
pub const QUERY_PARAMETER: &'static str = "query";

/// What precedes the token in the `Authorization` header.
pub const BEARER_PREFIX: &'static str = "Bearer ";

/// The longest address, in bytes, that a query is added to: 16 MiB.
pub const MAX_URL_BYTES: usize = 0x100_0000;

/// The longest helper identifier, in bytes, that is looked up: 256 MiB.
pub const MAX_QUERY_BYTES: usize = 0x1000_0000;

/// The text of the URL that a text is parsed to; `None` for a text that is
/// no absolute URL.
pub uninterp spec fn url_normal_form(text: Seq<char>) -> Option<Seq<char>>;

/// The path of the URL that a text is parsed to.
pub uninterp spec fn url_path(text: Seq<char>) -> Option<Seq<char>>;

/// The text of the URL that a reference leads to from a base.
pub uninterp spec fn url_joined(base: Seq<char>, reference: Seq<char>) -> Option<Seq<char>>;

/// The text of a URL after a pair was added to its query.
pub uninterp spec fn url_with_query_pair(
    url: Seq<char>,
    name: Seq<char>,
    value: Seq<char>,
) -> Option<Seq<char>>;

/// `reqwest::Url::parse`, the parsed URL written out again. The outcome
/// depends on the text alone and has the name `url_normal_form`; `None`
/// stands for the parser's error.
#[verifier::external_body]
fn parse_url(text: &str) -> (normal: Option<String>)
    ensures
        match normal {
            Some(url) => url_normal_form(text@) == Some(url@),
            None => url_normal_form(text@) is None,
        },
{
    reqwest::Url::parse(text).ok().map(String::from)
}

/// `reqwest::Url::path` of the URL that `text` is parsed to, named
/// `url_path`; `None` where the text does not parse.
#[verifier::external_body]
fn path_of_url(text: &str) -> (path: Option<String>)
    ensures
        match path {
            Some(p) => url_path(text@) == Some(p@),
            None => url_path(text@) is None,
        },
{
    reqwest::Url::parse(text).ok().map(|url| String::from(url.path()))
}

/// `reqwest::Url::join` on the URL that `base` is parsed to, the result
/// written out, named `url_joined`; `None` where either step gives an
/// error.
#[verifier::external_body]
fn join_url(base: &str, reference: &str) -> (joined: Option<String>)
    ensures
        match joined {
            Some(url) => url_joined(base@, reference@) == Some(url@),
            None => url_joined(base@, reference@) is None,
        },
{
    let base = reqwest::Url::parse(base).ok()?;
    base.join(reference).ok().map(String::from)
}

/// `append_pair` on `reqwest::Url::query_pairs_mut` of the URL that `url`
/// is parsed to, the result written out, named `url_with_query_pair`;
/// `None` where the text does not parse. The URL keeps positions as 32-bit
/// numbers and panics where its text outgrows them, which takes 4 GiB.
/// How long the parsed URL is written out is not told by the length of
/// `url` alone, so the lengths admitted here leave room: the pair adds at
/// most three bytes for each of its own, 1.5 GiB in all, and the URL would
/// have to grow 160 times in parsing to fill the rest.
#[verifier::external_body]
fn append_query_pair(url: &str, name: &str, value: &str) -> (extended: Option<String>)
    requires
        url.spec_bytes().len() <= MAX_URL_BYTES,
        name.spec_bytes().len() <= MAX_QUERY_BYTES,
        value.spec_bytes().len() <= MAX_QUERY_BYTES,
    ensures
        match extended {
            Some(text) => url_with_query_pair(url@, name@, value@) == Some(text@),
            None => url_with_query_pair(url@, name@, value@) is None,
        },
{
    let mut url = reqwest::Url::parse(url).ok()?;
    url.query_pairs_mut().append_pair(name, value);
    Some(String::from(url))
}

/// A text without the slashes at its end.
pub open spec fn without_trailing_slashes(text: Seq<char>) -> Seq<char>
    decreases text.len(),
{
    if text.len() > 0 && text.last() == '/' {
        without_trailing_slashes(text.drop_last())
    } else {
        text
    }
}

/// Whether a path is the API's root, whatever slashes follow it.
pub fn is_api_root(path: &str) -> (is_root: bool)
    ensures
        is_root == (without_trailing_slashes(path@) == API_ROOT@),
{
    let mut end: usize = path.unicode_len();
    assert(path@.take(end as int) =~= path@);
    while end > 0 && path.get_char(end - 1) == '/'
        invariant
            end <= path@.len(),
            without_trailing_slashes(path@) == without_trailing_slashes(path@.take(end as int)),
        decreases end,
    {
        proof {
            assert(path@.take(end as int).drop_last() =~= path@.take(end - 1));
        }
        end -= 1;
    }
    let kept = path.substring_char(0, end);
    assert(kept@ =~= path@.take(end as int));
    str_equal(kept, API_ROOT)
}

/// The place at which the path of a URL ends in its text: that of the first
/// `?` or `#`, or the end of the text where there is none.
pub open spec fn path_end(text: Seq<char>) -> int
    decreases text.len(),
{
    if text.len() == 0 || text[0] == '?' || text[0] == '#' {
        0
    } else {
        1 + path_end(text.drop_first())
    }
}

/// The text of a URL with a path that ends in a slash: the text itself
/// where the path does so already, else with a slash put after the path,
/// before the query and the fragment.
pub open spec fn with_final_slash(text: Seq<char>) -> Seq<char> {
    let end = path_end(text);
    if end > 0 && text[end - 1] == '/' {
        text
    } else {
        text.take(end) + seq!['/'] + text.skip(end)
    }
}

/// The path ends within the text, at a `?` or `#` or at the end of the
/// text, and holds neither of the two.
pub proof fn lemma_path_end(text: Seq<char>)
    ensures
        0 <= path_end(text) <= text.len(),
        path_end(text) < text.len() ==> text[path_end(text)] == '?' || text[path_end(text)] == '#',
        forall|i: int| 0 <= i < path_end(text) ==> text[i] != '?' && text[i] != '#',
    decreases text.len(),
{
    if !(text.len() == 0 || text[0] == '?' || text[0] == '#') {
        let rest = text.drop_first();
        lemma_path_end(rest);
        assert forall|i: int| 0 <= i < path_end(text) implies text[i] != '?' && text[i] != '#' by {
            if i > 0 {
                assert(text[i] == rest[i - 1]);
            }
        }
    }
}

/// Where the path of a text ends when another text follows it.
pub proof fn lemma_path_end_of_two(first: Seq<char>, second: Seq<char>)
    ensures
        path_end(first + second) == if path_end(first) < first.len() {
            path_end(first)
        } else {
            first.len() + path_end(second)
        },
    decreases first.len(),
{
    lemma_path_end(first);
    if first.len() == 0 {
        assert(first + second =~= second);
    } else if !(first[0] == '?' || first[0] == '#') {
        lemma_path_end_of_two(first.drop_first(), second);
        assert((first + second).drop_first() =~= first.drop_first() + second);
    }
}

/// A path is given its final slash once: the text that has one stays as it
/// is, the query and the fragment are kept, and the path ends in a slash.
pub proof fn lemma_final_slash(text: Seq<char>)
    ensures
        path_end(with_final_slash(text)) > 0,
        with_final_slash(text)[path_end(with_final_slash(text)) - 1] == '/',
        with_final_slash(text).skip(path_end(with_final_slash(text))) == text.skip(path_end(text)),
        with_final_slash(with_final_slash(text)) == with_final_slash(text),
{
    let end = path_end(text);
    lemma_path_end(text);
    if !(end > 0 && text[end - 1] == '/') {
        let head = text.take(end) + seq!['/'];
        let tail = text.skip(end);
        let slashed = with_final_slash(text);
        assert(slashed =~= head + tail);
        lemma_path_end(head);
        assert(path_end(head) == head.len()) by {
            if path_end(head) < head.len() {
                let i = path_end(head);
                if i < end {
                    assert(head[i] == text[i]);
                }
            }
        }
        lemma_path_end_of_two(head, tail);
        assert(path_end(tail) == 0) by {
            if tail.len() > 0 {
                assert(tail[0] == text[end]);
            }
        }
        assert(slashed.skip(end + 1) =~= tail);
    }
}

/// The final slash of the base does not matter to a lookup: the base that
/// has it and the base that lacks it lead to the same address.
pub proof fn lemma_lookup_under_the_base(base: Seq<char>, helper_id: Seq<char>)
    ensures
        lookup_address(with_final_slash(base), helper_id) == lookup_address(base, helper_id),
{
    lemma_final_slash(base);
}

/// The character at place `i`, read in one step where the text is known
/// to be ASCII.
fn char_at(text: &str, ascii: bool, i: usize) -> (c: char)
    requires
        ascii ==> text.is_ascii(),
        i < text@.len(),
    ensures
        c == text@[i as int],
{
    if ascii {
        text.get_ascii(i) as char
    } else {
        text.get_char(i)
    }
}

/// Puts a slash at the end of the path of a URL, where there is none.
pub fn add_final_slash(text: &str) -> (slashed: String)
    ensures
        slashed@ == with_final_slash(text@),
{
    let ascii: bool = text.is_ascii();
    let len: usize = text.unicode_len();
    let mut end: usize = 0;
    let mut found: bool = false;
    assert(text@.skip(0) =~= text@);
    while end < len && !found
        invariant
            ascii ==> text.is_ascii(),
            len == text@.len(),
            end <= len,
            path_end(text@) == end + path_end(text@.skip(end as int)),
            found ==> end < len && path_end(text@.skip(end as int)) == 0,
        decreases len - end + if found { 0int } else { 1int },
    {
        let c: char = char_at(text, ascii, end);
        proof {
            let rest = text@.skip(end as int);
            assert(rest[0] == c);
            assert(rest.drop_first() =~= text@.skip(end + 1));
        }
        if c == '?' || c == '#' {
            found = true;
        } else {
            end += 1;
        }
    }
    assert(end == path_end(text@)) by {
        if !found {
            assert(text@.skip(end as int).len() == 0);
        }
    }
    if end > 0 && char_at(text, ascii, end - 1) == '/' {
        return String::from_str(text);
    }
    proof {
        reveal_strlit("/");
    }
    let mut slashed = String::from_str(text.substring_char(0, end));
    slashed.append("/");
    slashed.append(text.substring_char(end, len));
    assert(slashed@ =~= with_final_slash(text@));
    slashed
}

/// The directory's API as plain values.
pub struct ApiView {
    pub base: Seq<char>,
    pub key: Seq<char>,
}

/// The directory's API: the URL under which it is found, and the token
/// that opens it.
pub struct DirectoryApi {
    base: String,
    key: String,
}

impl View for DirectoryApi {
    type V = ApiView;

    closed spec fn view(&self) -> ApiView {
        ApiView { base: self.base@, key: self.key@ }
    }
}

/// The address to ask for a helper, from the base of the API: the list of
/// users under the base, whether or not the path of the base ends in a
/// slash, with the helper's identifier as the query. Where the list
/// cannot be reached from the base the fault is in the configuration;
/// an identifier that cannot be asked for leaves the directory
/// unavailable.
pub open spec fn lookup_address(base: Seq<char>, helper_id: Seq<char>) -> Result<
    Seq<char>,
    PayoutError,
> {
    match url_joined(with_final_slash(base), USERS_REFERENCE@) {
        None => Err(PayoutError::ConfigurationError),
        Some(users) => if encode_utf8(users).len() > MAX_URL_BYTES || encode_utf8(
            helper_id,
        ).len() > MAX_QUERY_BYTES {
            Err(PayoutError::DirectoryUnavailable)
        } else {
            match url_with_query_pair(users, QUERY_PARAMETER@, helper_id) {
                Some(address) => Ok(address),
                None => Err(PayoutError::DirectoryUnavailable),
            }
        },
    }
}

/// An API or an error as a plain value.
pub open spec fn api_view(outcome: Result<DirectoryApi, PayoutError>) -> Result<
    ApiView,
    PayoutError,
> {
    match outcome {
        Ok(api) => Ok(api@),
        Err(e) => Err(e),
    }
}

/// A text or an error as a plain value.
pub open spec fn text_view(outcome: Result<String, PayoutError>) -> Result<
    Seq<char>,
    PayoutError,
> {
    match outcome {
        Ok(text) => Ok(text@),
        Err(e) => Err(e),
    }
}

impl DirectoryApi {
    /// The API under `base_url`, opened by `key`. A base that is no
    /// absolute URL is refused with `ConfigurationError`.
    pub fn new(base_url: &str, key: &str) -> (api: Result<DirectoryApi, PayoutError>)
        ensures
            api_view(api) == match url_normal_form(base_url@) {
                Some(base) => Ok(ApiView { base, key: key@ }),
                None => Err(PayoutError::ConfigurationError),
            },
    {
        match parse_url(base_url) {
            Some(base) => Ok(DirectoryApi { base, key: String::from_str(key) }),
            None => Err(PayoutError::ConfigurationError),
        }
    }

    /// The URL of the API, as the parser wrote it out.
    pub fn base(&self) -> (base: &String)
        ensures
            base@ == self@.base,
    {
        &self.base
    }

    /// Whether the path of the base is the API's root, as it should be.
    pub fn has_api_root(&self) -> (is_root: bool)
        ensures
            is_root == match url_path(self@.base) {
                Some(path) => without_trailing_slashes(path) == API_ROOT@,
                None => false,
            },
    {
        match path_of_url(self.base.as_str()) {
            Some(path) => is_api_root(path.as_str()),
            None => false,
        }
    }

    /// The value of the `Authorization` header: the token as a bearer
    /// token.
    pub fn authorization(&self) -> (header: String)
        ensures
            header@ == BEARER_PREFIX@ + self@.key,
    {
        let mut header = String::from_str(BEARER_PREFIX);
        header.append(self.key.as_str());
        header
    }

    /// The address to ask for a helper.
    pub fn lookup_url(&self, helper_id: &str) -> (address: Result<String, PayoutError>)
        ensures
            text_view(address) == lookup_address(self@.base, helper_id@),
    {
        let base = add_final_slash(self.base.as_str());
        let users = match join_url(base.as_str(), USERS_REFERENCE) {
            Some(users) => users,
            None => {
                return Err(PayoutError::ConfigurationError);
            },
        };
        if users.as_str().as_bytes().len() > MAX_URL_BYTES || helper_id.as_bytes().len()
            > MAX_QUERY_BYTES {
            return Err(PayoutError::DirectoryUnavailable);
        }
        proof {
            reveal_strlit("query");
            assert(QUERY_PARAMETER@.len() == 5);
            vstd::utf8::is_ascii_chars_encode_utf8(QUERY_PARAMETER@);
        }
        match append_query_pair(users.as_str(), QUERY_PARAMETER, helper_id) {
            Some(address) => Ok(address),
            None => Err(PayoutError::DirectoryUnavailable),
        }
    }
}

/// What a run needs from its environment.
pub struct Settings {
    pub database_url: String,
    pub directory: DirectoryApi,
}

/// Settings or an error as plain values: the address of the store and the
/// API of the directory.
pub open spec fn settings_view(outcome: Result<Settings, PayoutError>) -> Result<
    (Seq<char>, ApiView),
    PayoutError,
> {
    match outcome {
        Ok(settings) => Ok((settings.database_url@, settings.directory@)),
        Err(e) => Err(e),
    }
}

/// The settings that three values of the environment make, each `None`
/// where it is not set.
pub open spec fn settings_from(
    database_url: Option<Seq<char>>,
    api_base: Option<Seq<char>>,
    api_key: Option<Seq<char>>,
) -> Result<(Seq<char>, ApiView), PayoutError> {
    match (database_url, api_base, api_key) {
        (Some(store), Some(base), Some(key)) => match url_normal_form(base) {
            Some(normal) => Ok((store, ApiView { base: normal, key })),
            None => Err(PayoutError::ConfigurationError),
        },
        _ => Err(PayoutError::ConfigurationError),
    }
}

/// A text, where there is one, as a plain value.
pub open spec fn optional_text(text: Option<String>) -> Option<Seq<char>> {
    match text {
        Some(t) => Some(t@),
        None => None,
    }
}

/// Puts the settings of a run together: the address of the store, the base
/// of the directory's API and its token. Where one of them is missing, or
/// the base is no absolute URL, the answer is `ConfigurationError`.
pub fn configure(
    database_url: Option<String>,
    api_base: Option<String>,
    api_key: Option<String>,
) -> (settings: Result<Settings, PayoutError>)
    ensures
        settings_view(settings) == settings_from(
            optional_text(database_url),
            optional_text(api_base),
            optional_text(api_key),
        ),
{
    match (database_url, api_base, api_key) {
        (Some(store), Some(base), Some(key)) => match DirectoryApi::new(
            base.as_str(),
            key.as_str(),
        ) {
            Ok(directory) => Ok(Settings { database_url: store, directory }),
            Err(_) => Err(PayoutError::ConfigurationError),
        },
        _ => Err(PayoutError::ConfigurationError),
    }
}

} // verus!
