//! The configuration and callback-query types the web layer carries.

use vstd::prelude::*;

verus! {

/// The provider endpoints and credentials the handlers work from.
pub struct AppState {
    pub consumer_key: String,
    pub consumer_secret: String,
    pub auth_url: String,
    pub token_url: String,
    pub access_url: String,
    pub redirect_url: String,
    pub callback_url: String,
}

/// The query parameters the provider sends back to the callback route.
pub struct AuthRequest {
    pub oauth_token: String,
    pub oauth_verifier: String,
}

} // verus!
