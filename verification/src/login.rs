//! The login URL handed to the system browser: the API origin's login
//! path, with the callback deep link as the URL-encoded redirect URI.

use vstd::prelude::*;
use crate::deep_link::callback_prefix;
use crate::percent::{all_ascii, pct_encode, pct_encode_chars};
use crate::text::{append_chars, append_str, chars_to_string, str_to_chars};

verus! {

/// The API origin used when no other is configured.
pub fn default_api_base() -> (r: String)
    ensures
        r@ == "https://agenticadvertising.org"@,
{
    "https://agenticadvertising.org".to_owned()
}

/// The login URL for an API origin: its login path with the native flag
/// set and the percent-encoded callback URL as the redirect URI.
pub fn build_login_url(api_base: &str) -> (r: String)
    ensures
        r@ == api_base@ + "/auth/login?native=true&redirect_uri="@ + pct_encode(callback_prefix()),
{
    let mut out = str_to_chars(api_base);
    append_str(&mut out, "/auth/login?native=true&redirect_uri=");
    let cb = str_to_chars("addie://auth/callback");
    proof {
        reveal_strlit("addie://auth/callback");
        assert(cb@ =~= seq![
            'a', 'd', 'd', 'i', 'e', ':', '/', '/', 'a', 'u', 't', 'h', '/', 'c', 'a', 'l', 'l',
            'b', 'a', 'c', 'k',
        ]);
        assert(all_ascii(cb@));
    }
    let enc = pct_encode_chars(&cb);
    append_chars(&mut out, &enc);
    proof {
        assert(out@ =~= api_base@ + "/auth/login?native=true&redirect_uri="@ + pct_encode(
            callback_prefix(),
        ));
    }
    chars_to_string(&out)
}

} // verus!
