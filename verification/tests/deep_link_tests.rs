use addie_auth::deep_link::{parse_deep_link, DeepLinkOutcome, RequiredField};

fn full_url() -> &'static str {
    "addie://auth/callback?sealed_session=tok_123&user_id=user_01&email=ada%40example.org&first_name=Ada&last_name=Lovelace"
}

#[test]
fn callback_full_round_trip() {
    match parse_deep_link(full_url()) {
        DeepLinkOutcome::Parsed(s) => {
            assert_eq!(s.sealed_session, "tok_123");
            assert_eq!(s.user_id, "user_01");
            assert_eq!(s.email, "ada@example.org");
            assert_eq!(s.first_name.as_deref(), Some("Ada"));
            assert_eq!(s.last_name.as_deref(), Some("Lovelace"));
        },
        other => panic!("expected a parsed session, got {:?}", other),
    }
}

#[test]
fn optional_names_absent_stay_absent() {
    match parse_deep_link("addie://auth/callback?sealed_session=t&user_id=u&email=e") {
        DeepLinkOutcome::Parsed(s) => {
            assert_eq!(s.first_name, None);
            assert_eq!(s.last_name, None);
        },
        other => panic!("expected a parsed session, got {:?}", other),
    }
}

#[test]
fn plus_and_percent_decode_in_values() {
    match parse_deep_link(
        "addie://auth/callback?sealed_session=a+b%2Bc&user_id=u&email=x%20y%40z",
    ) {
        DeepLinkOutcome::Parsed(s) => {
            assert_eq!(s.sealed_session, "a b+c");
            assert_eq!(s.email, "x y@z");
        },
        other => panic!("expected a parsed session, got {:?}", other),
    }
}

#[test]
fn duplicate_parameter_last_wins() {
    match parse_deep_link(
        "addie://auth/callback?sealed_session=first&user_id=u&email=e&sealed_session=second",
    ) {
        DeepLinkOutcome::Parsed(s) => assert_eq!(s.sealed_session, "second"),
        other => panic!("expected a parsed session, got {:?}", other),
    }
}

#[test]
fn missing_sealed_session_is_an_error() {
    let r = parse_deep_link("addie://auth/callback?user_id=u&email=e");
    assert_eq!(r, DeepLinkOutcome::Missing(RequiredField::SealedSession));
    if let DeepLinkOutcome::Missing(f) = r {
        assert_eq!(f.message(), "Missing sealed_session");
    }
}

#[test]
fn missing_user_id_is_an_error() {
    let r = parse_deep_link("addie://auth/callback?sealed_session=t&email=e");
    assert_eq!(r, DeepLinkOutcome::Missing(RequiredField::UserId));
    if let DeepLinkOutcome::Missing(f) = r {
        assert_eq!(f.message(), "Missing user_id");
    }
}

#[test]
fn missing_email_is_an_error() {
    let r = parse_deep_link("addie://auth/callback?sealed_session=t&user_id=u");
    assert_eq!(r, DeepLinkOutcome::Missing(RequiredField::Email));
    if let DeepLinkOutcome::Missing(f) = r {
        assert_eq!(f.message(), "Missing email");
    }
}

#[test]
fn callback_without_query_misses_sealed_session() {
    let r = parse_deep_link("addie://auth/callback");
    assert_eq!(r, DeepLinkOutcome::Missing(RequiredField::SealedSession));
}

#[test]
fn other_scheme_is_ignored() {
    let r = parse_deep_link("https://auth/callback?sealed_session=t&user_id=u&email=e");
    assert_eq!(r, DeepLinkOutcome::Ignored);
}

#[test]
fn other_host_is_ignored() {
    let r = parse_deep_link("addie://settings/callback?sealed_session=t&user_id=u&email=e");
    assert_eq!(r, DeepLinkOutcome::Ignored);
}

#[test]
fn other_path_is_ignored() {
    assert_eq!(parse_deep_link("addie://auth/callback2?sealed_session=t"), DeepLinkOutcome::Ignored);
    assert_eq!(parse_deep_link("addie://auth/callback/x"), DeepLinkOutcome::Ignored);
}

#[test]
fn malformed_url_is_ignored() {
    assert_eq!(parse_deep_link("not a url"), DeepLinkOutcome::Ignored);
    assert_eq!(parse_deep_link(""), DeepLinkOutcome::Ignored);
}

#[test]
fn fragment_is_not_part_of_the_query() {
    match parse_deep_link("addie://auth/callback?sealed_session=t&user_id=u&email=e#frag") {
        DeepLinkOutcome::Parsed(s) => assert_eq!(s.email, "e"),
        other => panic!("expected a parsed session, got {:?}", other),
    }
}

#[test]
fn empty_optional_value_is_present_and_empty() {
    match parse_deep_link("addie://auth/callback?sealed_session=t&user_id=u&email=e&first_name=") {
        DeepLinkOutcome::Parsed(s) => {
            assert_eq!(s.first_name.as_deref(), Some(""));
            assert_eq!(s.last_name, None);
        },
        other => panic!("expected a parsed session, got {:?}", other),
    }
}

#[test]
fn multibyte_percent_escapes_decode_as_utf8() {
    match parse_deep_link(
        "addie://auth/callback?sealed_session=t&user_id=u&email=ren%C3%A9e%40example.org&first_name=Ren%C3%A9e&last_name=%E2%82%AC",
    ) {
        DeepLinkOutcome::Parsed(s) => {
            assert_eq!(s.email, "ren\u{e9}e@example.org");
            assert_eq!(s.first_name.as_deref(), Some("Ren\u{e9}e"));
            assert_eq!(s.last_name.as_deref(), Some("\u{20ac}"));
        },
        other => panic!("expected a parsed session, got {:?}", other),
    }
}

#[test]
fn invalid_escape_bytes_agree_with_the_url_crate() {
    let url_s = "addie://auth/callback?sealed_session=a%FFb&user_id=%C3x&email=e%25";
    let parsed = url::Url::parse(url_s).unwrap();
    let pairs: std::collections::HashMap<_, _> = parsed.query_pairs().collect();
    match parse_deep_link(url_s) {
        DeepLinkOutcome::Parsed(s) => {
            assert_eq!(pairs.get("sealed_session").map(|v| v.to_string()), Some(s.sealed_session.clone()));
            assert_eq!(pairs.get("user_id").map(|v| v.to_string()), Some(s.user_id.clone()));
            assert_eq!(pairs.get("email").map(|v| v.to_string()), Some(s.email.clone()));
            assert_eq!(s.sealed_session, "a\u{fffd}b");
            assert_eq!(s.email, "e%");
        },
        other => panic!("expected a parsed session, got {:?}", other),
    }
}

#[test]
fn field_extraction_agrees_with_the_url_crate() {
    let parsed = url::Url::parse(full_url()).unwrap();
    assert_eq!(parsed.scheme(), "addie");
    assert_eq!(parsed.host_str(), Some("auth"));
    assert_eq!(parsed.path(), "/callback");
    let pairs: std::collections::HashMap<_, _> = parsed.query_pairs().collect();
    match parse_deep_link(full_url()) {
        DeepLinkOutcome::Parsed(s) => {
            assert_eq!(pairs.get("sealed_session").map(|v| v.to_string()), Some(s.sealed_session));
            assert_eq!(pairs.get("user_id").map(|v| v.to_string()), Some(s.user_id));
            assert_eq!(pairs.get("email").map(|v| v.to_string()), Some(s.email));
            assert_eq!(pairs.get("first_name").map(|v| v.to_string()), s.first_name);
            assert_eq!(pairs.get("last_name").map(|v| v.to_string()), s.last_name);
        },
        other => panic!("expected a parsed session, got {:?}", other),
    }
}
