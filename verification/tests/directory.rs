use crimson::directory::{
    profile_url, resolve, status_is_success, DirectoryReply, DirectoryUser, ResolvedIdentity,
};
use crimson::endpoint::{
    add_final_slash, configure, is_api_root, DirectoryApi, MAX_QUERY_BYTES, MAX_URL_BYTES,
};
use crimson::error::PayoutError;

fn user(id: i64, name: &str) -> DirectoryUser {
    DirectoryUser {
        id,
        slack_id: "U1".to_string(),
        display_name: name.to_string(),
        avatar: "https://example.net/a.png".to_string(),
        project_ids: vec![1, 2],
        cookies: Some(3),
    }
}

fn answered(status: u16, users: Option<Vec<DirectoryUser>>) -> DirectoryReply {
    DirectoryReply::Answered { status, users }
}

fn fields(identity: ResolvedIdentity) -> (String, String, String, i64) {
    (
        identity.helper_id,
        identity.display_name,
        identity.profile_url,
        identity.directory_numeric_id,
    )
}

#[test]
fn no_match_in_the_directory_is_an_error() {
    let reply = answered(200, Some(Vec::new()));
    assert!(matches!(resolve("U1", &reply), Err(PayoutError::NoMatchFound)));
}

#[test]
fn the_first_match_is_taken() {
    let reply = answered(200, Some(vec![user(17, "Ada"), user(18, "Bob")]));
    assert_eq!(
        fields(resolve("U1", &reply).ok().unwrap()),
        (
            "U1".to_string(),
            "Ada".to_string(),
            "https://flavortown.hackclub.com/admin/users/17".to_string(),
            17
        )
    );
}

#[test]
fn a_directory_that_does_not_answer_properly_is_unavailable() {
    assert!(matches!(
        resolve("U1", &DirectoryReply::Unreachable),
        Err(PayoutError::DirectoryUnavailable)
    ));
    assert!(matches!(
        resolve("U1", &answered(200, None)),
        Err(PayoutError::DirectoryUnavailable)
    ));
    for status in [0, 100, 199, 300, 301, 401, 404, 500, 503, u16::MAX] {
        assert!(matches!(
            resolve("U1", &answered(status, Some(vec![user(17, "Ada")]))),
            Err(PayoutError::DirectoryUnavailable)
        ));
        assert!(matches!(
            resolve("U1", &answered(status, Some(Vec::new()))),
            Err(PayoutError::DirectoryUnavailable)
        ));
    }
    for status in [200, 201, 204, 299] {
        assert!(resolve("U1", &answered(status, Some(vec![user(17, "Ada")]))).is_ok());
    }
}

#[test]
fn success_is_a_status_from_200_to_299() {
    for status in 0..=u16::MAX {
        assert_eq!(status_is_success(status), (200..300).contains(&status));
    }
}

#[test]
fn the_profile_url_ends_in_the_number_of_the_user() {
    assert_eq!(profile_url(0), "https://flavortown.hackclub.com/admin/users/0");
    assert_eq!(profile_url(7), "https://flavortown.hackclub.com/admin/users/7");
    assert_eq!(profile_url(10), "https://flavortown.hackclub.com/admin/users/10");
    assert_eq!(profile_url(1_234_567_890), "https://flavortown.hackclub.com/admin/users/1234567890");
    assert_eq!(profile_url(-42), "https://flavortown.hackclub.com/admin/users/-42");
    assert_eq!(
        profile_url(i64::MAX),
        "https://flavortown.hackclub.com/admin/users/9223372036854775807"
    );
    assert_eq!(
        profile_url(i64::MIN),
        "https://flavortown.hackclub.com/admin/users/-9223372036854775808"
    );
}

#[test]
fn the_lookup_url_asks_the_list_of_users_for_the_helper() {
    let api = DirectoryApi::new("https://flavortown.example/api/v1/", "secret").ok().unwrap();
    assert_eq!(
        api.lookup_url("U1"),
        Ok("https://flavortown.example/api/v1/users?query=U1".to_string())
    );
}

#[test]
fn the_lookup_url_encodes_the_identifier() {
    let api = DirectoryApi::new("https://flavortown.example/api/v1/", "secret").ok().unwrap();
    assert_eq!(
        api.lookup_url("a b&c=d/\u{e9}"),
        Ok("https://flavortown.example/api/v1/users?query=a+b%26c%3Dd%2F%C3%A9".to_string())
    );
    assert_eq!(
        api.lookup_url(""),
        Ok("https://flavortown.example/api/v1/users?query=".to_string())
    );
}

#[test]
fn a_base_without_a_final_slash_keeps_its_last_segment() {
    let api = DirectoryApi::new("https://ft.example/api/v1", "tok").ok().unwrap();
    assert_eq!(api.lookup_url("U1"), Ok("https://ft.example/api/v1/users?query=U1".to_string()));
    let slashed = DirectoryApi::new("https://ft.example/api/v1/", "tok").ok().unwrap();
    assert_eq!(slashed.lookup_url("U1"), api.lookup_url("U1"));
}

#[test]
fn the_users_are_asked_for_under_the_base_whatever_follows_its_path() {
    for base in [
        "https://ft.example/api/v1?page=2",
        "https://ft.example/api/v1#top",
        "https://ft.example/api/v1/?page=2#top",
        "https://ft.example/api/v1?next=/a/b/",
    ] {
        let api = DirectoryApi::new(base, "tok").ok().unwrap();
        assert_eq!(
            api.lookup_url("U1"),
            Ok("https://ft.example/api/v1/users?query=U1".to_string()),
            "{base}"
        );
    }
    let root = DirectoryApi::new("https://ft.example", "tok").ok().unwrap();
    assert_eq!(root.lookup_url("U1"), Ok("https://ft.example/users?query=U1".to_string()));
}

#[test]
fn a_final_slash_is_put_after_the_path() {
    let cases = [
        ("https://ft.example/api/v1", "https://ft.example/api/v1/"),
        ("https://ft.example/api/v1/", "https://ft.example/api/v1/"),
        ("https://ft.example/api/v1//", "https://ft.example/api/v1//"),
        ("https://ft.example/api/v1?a=b/", "https://ft.example/api/v1/?a=b/"),
        ("https://ft.example/api/v1/?a=b", "https://ft.example/api/v1/?a=b"),
        ("https://ft.example/api/v1#x?y", "https://ft.example/api/v1/#x?y"),
        ("https://ft.example/api/v1?x#y", "https://ft.example/api/v1/?x#y"),
        ("https://ft.example/caf\u{e9}", "https://ft.example/caf\u{e9}/"),
        ("https://ft.example/caf\u{e9}?\u{1F36A}", "https://ft.example/caf\u{e9}/?\u{1F36A}"),
        ("mailto:helpers@example.net", "mailto:helpers@example.net/"),
        ("?a", "/?a"),
        ("#", "/#"),
        ("/", "/"),
        ("", "/"),
    ];
    for (text, slashed) in cases {
        assert_eq!(add_final_slash(text), slashed, "{text}");
        assert_eq!(add_final_slash(slashed), slashed, "{slashed}");
    }
}

#[test]
fn a_base_that_cannot_be_a_base_is_a_fault_of_the_configuration() {
    let api = DirectoryApi::new("mailto:helpers@example.net", "secret").ok().unwrap();
    assert_eq!(api.lookup_url("U1"), Err(PayoutError::ConfigurationError));
}

#[test]
fn an_identifier_too_long_to_ask_for_leaves_the_directory_unavailable() {
    let api = DirectoryApi::new("https://flavortown.example/api/v1/", "secret").ok().unwrap();
    let long = "x".repeat(0x10_0000);
    let asked = api.lookup_url(&long).ok().unwrap();
    assert_eq!(asked.len(), "https://flavortown.example/api/v1/users?query=".len() + 0x10_0000);
    let longer = "x".repeat(MAX_QUERY_BYTES + 1);
    assert_eq!(api.lookup_url(&longer), Err(PayoutError::DirectoryUnavailable));
}

#[test]
fn an_address_too_long_to_ask_leaves_the_directory_unavailable() {
    let near = format!("https://flavortown.example/{}", "p".repeat(0x10_0000));
    let api = DirectoryApi::new(&near, "secret").ok().unwrap();
    assert_eq!(api.lookup_url("U1"), Ok(format!("{near}/users?query=U1")));
    let base = format!("https://flavortown.example/{}/", "p".repeat(MAX_URL_BYTES));
    let far = DirectoryApi::new(&base, "secret").ok().unwrap();
    assert_eq!(far.lookup_url("U1"), Err(PayoutError::DirectoryUnavailable));
}

#[test]
fn the_base_is_kept_as_the_parser_writes_it() {
    let api = DirectoryApi::new("HTTPS://Flavortown.Example:443/api/../api/v1", "k").ok().unwrap();
    assert_eq!(api.base(), "https://flavortown.example/api/v1");
    assert!(api.has_api_root());
}

#[test]
fn a_base_that_is_no_url_is_a_configuration_error() {
    for base in ["", "flavortown", "/api/v1", "https://"] {
        assert!(matches!(DirectoryApi::new(base, "k"), Err(PayoutError::ConfigurationError)));
    }
}

#[test]
fn the_api_root_may_be_followed_by_slashes() {
    for path in ["/api/v1", "/api/v1/", "/api/v1///"] {
        assert!(is_api_root(path));
    }
    for path in ["", "/", "/api", "/api/v2", "/api/v1/users", "api/v1", "/api/v1/ ", "//api/v1"] {
        assert!(!is_api_root(path));
    }
    let with_root = DirectoryApi::new("https://example.net/api/v1//", "k").ok().unwrap();
    assert!(with_root.has_api_root());
    let without = DirectoryApi::new("https://example.net/", "k").ok().unwrap();
    assert!(!without.has_api_root());
    let deeper = DirectoryApi::new("https://example.net/api/v1/users?x=/api/v1", "k").ok().unwrap();
    assert!(!deeper.has_api_root());
}

#[test]
fn the_token_is_sent_as_a_bearer_token() {
    let api = DirectoryApi::new("https://example.net/api/v1/", "SECRET-REDACTED").ok().unwrap();
    assert_eq!(api.authorization(), "Bearer SECRET-REDACTED");
    let empty = DirectoryApi::new("https://example.net/api/v1/", "").ok().unwrap();
    assert_eq!(empty.authorization(), "Bearer ");
}

#[test]
fn every_setting_has_to_be_there() {
    let some = |text: &str| Some(text.to_string());
    let settings = configure(some("postgres://db"), some("https://example.net/api/v1/"), some("k"))
        .ok()
        .unwrap();
    assert_eq!(settings.database_url, "postgres://db");
    assert_eq!(settings.directory.base(), "https://example.net/api/v1/");
    assert_eq!(settings.directory.authorization(), "Bearer k");
    assert!(matches!(
        configure(None, some("https://example.net/api/v1/"), some("k")),
        Err(PayoutError::ConfigurationError)
    ));
    assert!(matches!(
        configure(some("postgres://db"), None, some("k")),
        Err(PayoutError::ConfigurationError)
    ));
    assert!(matches!(
        configure(some("postgres://db"), some("https://example.net/api/v1/"), None),
        Err(PayoutError::ConfigurationError)
    ));
    assert!(matches!(
        configure(some("postgres://db"), some("not a url"), some("k")),
        Err(PayoutError::ConfigurationError)
    ));
}
