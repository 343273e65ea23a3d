//! Session handling for a desktop application that signs its user in
//! through a browser-based login and a deep-link callback.
//!
//! The library owns the two data formats the application lives on:
//! the `addie://auth/callback` deep-link URL whose query string carries
//! the session fields, and the JSON encoding of the session record that
//! is persisted on the device. Both are parsed and rendered by verified
//! code; the surrounding I/O (opening the browser, the credential
//! store, the file fallback) stays outside the library.

use vstd::prelude::*;

pub mod deep_link;
pub mod login;
pub mod percent;
pub mod query;
pub mod session_json;
pub mod text;

verus! {

/// A user's authenticated session, as delivered by the identity
/// provider's callback and persisted on the device.
#[derive(Debug, Clone, PartialEq)]
pub struct UserSession {
    pub sealed_session: String,
    pub user_id: String,
    pub email: String,
    pub first_name: Option<String>,
    pub last_name: Option<String>,
}

/// Mathematical model of a session record: each field as a sequence of
/// characters, the optional names as optional sequences.
#[verifier::ext_equal]
pub struct SessionView {
    pub sealed_session: Seq<char>,
    pub user_id: Seq<char>,
    pub email: Seq<char>,
    pub first_name: Option<Seq<char>>,
    pub last_name: Option<Seq<char>>,
}

impl View for UserSession {
    type V = SessionView;

    open spec fn view(&self) -> SessionView {
        SessionView {
            sealed_session: self.sealed_session@,
            user_id: self.user_id@,
            email: self.email@,
            first_name: self.first_name.deep_view(),
            last_name: self.last_name.deep_view(),
        }
    }
}

/// What the frontend is shown about authentication.
#[derive(Debug, Clone, PartialEq)]
pub struct AuthState {
    pub is_authenticated: bool,
    pub user: Option<UserInfo>,
}

/// The user-visible part of a session record.
#[derive(Debug, Clone, PartialEq)]
pub struct UserInfo {
    pub id: String,
    pub email: String,
    pub first_name: Option<String>,
    pub last_name: Option<String>,
}

/// The authentication state shown for a stored session: authenticated
/// with the session's user when one is stored, unauthenticated with no
/// user when none is.
pub fn auth_state_of(session: Option<UserSession>) -> (r: AuthState)
    ensures
        r.is_authenticated == (session is Some),
        match session {
            Some(s) => {
                &&& r.user matches Some(u)
                &&& u.id@ == s.user_id@
                &&& u.email@ == s.email@
                &&& u.first_name.deep_view() == s.first_name.deep_view()
                &&& u.last_name.deep_view() == s.last_name.deep_view()
            },
            None => r.user is None,
        },
{
    match session {
        Some(s) => AuthState {
            is_authenticated: true,
            user: Some(UserInfo {
                id: s.user_id,
                email: s.email,
                first_name: s.first_name,
                last_name: s.last_name,
            }),
        },
        None => AuthState { is_authenticated: false, user: None },
    }
}

/// The token handed to API calls: the stored session's sealed token,
/// or nothing when no session is stored.
pub fn session_token_of(session: Option<UserSession>) -> (r: Option<String>)
    ensures
        match session {
            Some(s) => r matches Some(t) && t@ == s.sealed_session@,
            None => r is None,
        },
{
    match session {
        Some(s) => Some(s.sealed_session),
        None => None,
    }
}

} // verus!
