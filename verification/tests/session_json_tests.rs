use addie_auth::session_json::{session_from_json, session_to_json};
use addie_auth::{auth_state_of, session_token_of, UserSession};
use addie_auth::login::{build_login_url, default_api_base};

fn sample() -> UserSession {
    UserSession {
        sealed_session: "tok_123".to_string(),
        user_id: "user_01".to_string(),
        email: "ada@example.org".to_string(),
        first_name: Some("Ada".to_string()),
        last_name: Some("Lovelace".to_string()),
    }
}

#[test]
fn json_text_has_the_expected_shape() {
    let json = session_to_json(&sample());
    assert_eq!(
        json,
        "{\"sealed_session\":\"tok_123\",\"user_id\":\"user_01\",\"email\":\"ada@example.org\",\"first_name\":\"Ada\",\"last_name\":\"Lovelace\"}"
    );
}

#[test]
fn json_round_trip_keeps_every_field() {
    let s = sample();
    let back = session_from_json(&session_to_json(&s)).expect("round trip must parse");
    assert_eq!(back, s);
}

#[test]
fn absent_names_are_null_and_stay_absent() {
    let s = UserSession {
        sealed_session: "t".to_string(),
        user_id: "u".to_string(),
        email: "e".to_string(),
        first_name: None,
        last_name: None,
    };
    let json = session_to_json(&s);
    assert!(json.contains("\"first_name\":null"));
    assert!(json.contains("\"last_name\":null"));
    let back = session_from_json(&json).expect("round trip must parse");
    assert_eq!(back.first_name, None);
    assert_eq!(back.last_name, None);
    assert_eq!(back, s);
}

#[test]
fn escapes_round_trip_and_serde_json_reads_them() {
    let s = UserSession {
        sealed_session: "quote\" backslash\\ newline\n tab\t bell\u{0007}".to_string(),
        user_id: "u".to_string(),
        email: "e".to_string(),
        first_name: Some("Ada\r\u{0001}".to_string()),
        last_name: None,
    };
    let json = session_to_json(&s);
    let back = session_from_json(&json).expect("round trip must parse");
    assert_eq!(back, s);
    let v: serde_json::Value = serde_json::from_str(&json).expect("serde_json must accept it");
    assert_eq!(v["sealed_session"].as_str(), Some(s.sealed_session.as_str()));
    assert_eq!(v["first_name"].as_str(), s.first_name.as_deref());
    assert!(v["last_name"].is_null());
}

#[test]
fn serde_json_output_reads_back() {
    let v: serde_json::Value =
        serde_json::from_str(&session_to_json(&sample())).expect("must be valid JSON");
    let again = serde_json::to_string(&v).expect("must serialize");
    assert_eq!(session_from_json(&again), Some(sample()));
    let pretty = serde_json::to_string_pretty(&v).expect("must serialize");
    assert_eq!(session_from_json(&pretty), Some(sample()));
}

#[test]
fn whitespace_and_field_order_are_tolerated() {
    let json = " {\n\t\"email\" : \"e\" ,\r\n \"sealed_session\": \"t\", \"user_id\":\"u\" } ";
    let s = session_from_json(json).expect("reordered fields must parse");
    assert_eq!(s.sealed_session, "t");
    assert_eq!(s.user_id, "u");
    assert_eq!(s.email, "e");
    assert_eq!(s.first_name, None);
    assert_eq!(s.last_name, None);
}

#[test]
fn absent_optional_keys_read_as_absent() {
    let s = session_from_json("{\"sealed_session\":\"t\",\"user_id\":\"u\",\"email\":\"e\"}")
        .expect("object without the optional keys must parse");
    assert_eq!(s.first_name, None);
    assert_eq!(s.last_name, None);
}

#[test]
fn garbage_is_rejected() {
    assert_eq!(session_from_json(""), None);
    assert_eq!(session_from_json("   "), None);
    assert_eq!(session_from_json("{}"), None);
    assert_eq!(session_from_json("{\"sealed_session\":\"t\"}"), None);
    let full = session_to_json(&sample());
    assert_eq!(session_from_json(&full[..full.len() - 1]), None);
    let mut padded = full.clone();
    padded.push(' ');
    assert_eq!(session_from_json(&padded), Some(sample()));
    let mut trailing = full.clone();
    trailing.push('x');
    assert_eq!(session_from_json(&trailing), None);
}

#[test]
fn duplicate_unknown_and_null_required_fields_are_rejected() {
    assert_eq!(
        session_from_json(
            "{\"sealed_session\":\"a\",\"sealed_session\":\"b\",\"user_id\":\"u\",\"email\":\"e\"}"
        ),
        None
    );
    assert_eq!(
        session_from_json(
            "{\"sealed_session\":\"t\",\"user_id\":\"u\",\"email\":\"e\",\"extra\":\"x\"}"
        ),
        None
    );
    assert_eq!(
        session_from_json("{\"sealed_session\":null,\"user_id\":\"u\",\"email\":\"e\"}"),
        None
    );
}

#[test]
fn null_optional_names_read_as_absent() {
    let s = session_from_json(
        "{\"sealed_session\":\"t\",\"user_id\":\"u\",\"email\":\"e\",\"first_name\":null,\"last_name\":null}",
    )
    .expect("null names must parse");
    assert_eq!(s.first_name, None);
    assert_eq!(s.last_name, None);
}

#[test]
fn auth_success_payload_carries_the_user_and_not_the_token() {
    let payload = addie_auth::session_json::auth_success_payload(&sample());
    assert_eq!(
        payload,
        "{\"user\":{\"id\":\"user_01\",\"email\":\"ada@example.org\",\"first_name\":\"Ada\",\"last_name\":\"Lovelace\"}}"
    );
    assert!(!payload.contains("tok_123"));
    assert!(!payload.contains("sealed_session"));
    let v: serde_json::Value = serde_json::from_str(&payload).expect("must be valid JSON");
    assert_eq!(v["user"]["id"].as_str(), Some("user_01"));
    assert_eq!(v["user"]["email"].as_str(), Some("ada@example.org"));
}

#[test]
fn auth_state_reflects_the_stored_session() {
    let state = auth_state_of(Some(sample()));
    assert!(state.is_authenticated);
    let user = state.user.expect("a user must be shown");
    assert_eq!(user.id, "user_01");
    assert_eq!(user.email, "ada@example.org");
    assert_eq!(user.first_name.as_deref(), Some("Ada"));
    assert_eq!(user.last_name.as_deref(), Some("Lovelace"));

    let empty = auth_state_of(None);
    assert!(!empty.is_authenticated);
    assert!(empty.user.is_none());
}

#[test]
fn session_token_is_the_sealed_session() {
    assert_eq!(session_token_of(Some(sample())), Some("tok_123".to_string()));
    assert_eq!(session_token_of(None), None);
}

#[test]
fn login_url_has_the_documented_shape() {
    let base = default_api_base();
    assert_eq!(base, "https://agenticadvertising.org");
    let url = build_login_url(&base);
    assert_eq!(
        url,
        "https://agenticadvertising.org/auth/login?native=true&redirect_uri=addie%3A%2F%2Fauth%2Fcallback"
    );
}

#[test]
fn redirect_encoding_agrees_with_the_urlencoding_crate() {
    let enc = urlencoding::encode("addie://auth/callback").to_string();
    let url = build_login_url("https://example.org");
    assert_eq!(url, format!("https://example.org/auth/login?native=true&redirect_uri={}", enc));
}
