//! How requests to the remote library are signed. The bearer token of the
//! authorization-code flow is held as an explicitly owned, exclusively
//! mutable cell: readers produce the request header, and only the exchange
//! step replaces the token. The exchange itself — the network call — happens
//! outside; its answer is applied here.

use vstd::prelude::*;
use crate::config::AuthConfig;
use crate::types::OAuthTokenResponse;
use crate::util::clone_opt_string;

verus! {

/// Why a request could not be signed, or a token not placed.
#[derive(Clone, Copy, Debug, PartialEq, Eq, Structural)]
pub enum AuthError {
    /// The authorization-code exchange has not happened yet.
    TokenNotSet,
    /// The operation belongs to the authorization-code flow, but the
    /// connection uses a pre-shared key.
    NotOAuth,
}

impl AuthError {
    /// A description fit for logs and error answers.
    pub fn message(&self) -> (r: String)
        ensures
            *self is TokenNotSet ==> r@ == "OAuth token not set. Please authenticate first."@,
            *self is NotOAuth ==> r@ == "operation requires OAuth authentication"@,
    {
        match self {
            AuthError::TokenNotSet => String::from_str("OAuth token not set. Please authenticate first."),
            AuthError::NotOAuth => String::from_str("operation requires OAuth authentication"),
        }
    }
}

/// The mutable state of the authorization-code flow: the bearer token once
/// one was exchanged, and the refresh token the exchange may have carried
/// (held but not used; expiry requires a fresh exchange).
pub struct OAuthProvider {
    pub token: Option<String>,
    pub refresh_token: Option<String>,
}

/// The capability that signs requests: a static pre-shared key, or the
/// bearer-token state of the authorization-code flow.
pub enum AuthProvider {
    ApiKey(String),
    OAuth(OAuthProvider),
}

impl AuthProvider {
    /// The provider a configuration calls for; an authorization-code flow
    /// starts with no token.
    pub fn from_config(config: &AuthConfig) -> (r: AuthProvider)
        ensures
            (match config {
                AuthConfig::ApiKey { api_key } => r matches AuthProvider::ApiKey(k) && k@ == api_key@,
                AuthConfig::OAuth { .. } => r matches AuthProvider::OAuth(p) && p.token is None
                    && p.refresh_token is None,
            }),
    {
        match config {
            AuthConfig::ApiKey { api_key } => AuthProvider::ApiKey(api_key.clone()),
            AuthConfig::OAuth { .. } => AuthProvider::OAuth(
                OAuthProvider { token: None, refresh_token: None },
            ),
        }
    }

    /// The header that signs a request: the `x-api-key` header carrying the
    /// pre-shared key, or the `Authorization` bearer header; before any
    /// exchange, the bearer flow cannot sign and says so.
    pub fn get_auth_header(&self) -> (r: Result<(String, String), AuthError>)
        ensures
            (match self {
                AuthProvider::ApiKey(k) => r matches Ok(h) && h.0@ == "x-api-key"@ && h.1@ == k@,
                AuthProvider::OAuth(p) => (match p.token {
                    Some(t) => r matches Ok(h) && h.0@ == "Authorization"@ && h.1@ == "Bearer "@
                        + t@,
                    None => r == Err::<(String, String), AuthError>(AuthError::TokenNotSet),
                }),
            }),
    {
        match self {
            AuthProvider::ApiKey(key) => Ok((String::from_str("x-api-key"), key.clone())),
            AuthProvider::OAuth(provider) => match &provider.token {
                Some(t) => Ok(
                    (
                        String::from_str("Authorization"),
                        String::from_str("Bearer ").concat(t.as_str()),
                    ),
                ),
                None => Err(AuthError::TokenNotSet),
            },
        }
    }

    /// Places a bearer token obtained out-of-band; refused for a pre-shared
    /// key, which never changes.
    pub fn set_token(&mut self, access_token: &str) -> (r: Result<(), AuthError>)
        ensures
            (match *old(self) {
                AuthProvider::ApiKey(_) => r == Err::<(), AuthError>(AuthError::NotOAuth)
                    && *final(self) == *old(self),
                AuthProvider::OAuth(p) => r == Ok::<(), AuthError>(()) && (*final(self) matches
                    AuthProvider::OAuth(q) && q.token.deep_view() == Some(access_token@)
                    && q.refresh_token.deep_view() == p.refresh_token.deep_view()),
            }),
    {
        match self {
            AuthProvider::ApiKey(_) => Err(AuthError::NotOAuth),
            AuthProvider::OAuth(provider) => {
                provider.token = Some(String::from_str(access_token));
                Ok(())
            },
        }
    }

    /// Applies the answer of an authorization-code exchange: the bearer
    /// token is replaced, and the refresh token too if the answer carried
    /// one; refused for a pre-shared key.
    pub fn apply_token_response(&mut self, resp: &OAuthTokenResponse) -> (r: Result<(), AuthError>)
        ensures
            (match *old(self) {
                AuthProvider::ApiKey(_) => r == Err::<(), AuthError>(AuthError::NotOAuth)
                    && *final(self) == *old(self),
                AuthProvider::OAuth(p) => r == Ok::<(), AuthError>(()) && (*final(self) matches
                    AuthProvider::OAuth(q) && q.token.deep_view() == Some(resp.access_token@)
                    && q.refresh_token.deep_view() == (match resp.refresh_token {
                    Some(rt) => Some(rt@),
                    None => p.refresh_token.deep_view(),
                })),
            }),
    {
        match self {
            AuthProvider::ApiKey(_) => Err(AuthError::NotOAuth),
            AuthProvider::OAuth(provider) => {
                provider.token = Some(resp.access_token.clone());
                match &resp.refresh_token {
                    Some(rt) => {
                        provider.refresh_token = Some(rt.clone());
                    },
                    None => {},
                }
                Ok(())
            },
        }
    }

    /// A copy of this capability, with the same key or token state.
    pub fn clone_provider(&self) -> (r: AuthProvider)
        ensures
            (match self {
                AuthProvider::ApiKey(k) => r matches AuthProvider::ApiKey(k2) && k2@ == k@,
                AuthProvider::OAuth(p) => r matches AuthProvider::OAuth(q) && q.token.deep_view()
                    == p.token.deep_view() && q.refresh_token.deep_view()
                    == p.refresh_token.deep_view(),
            }),
    {
        match self {
            AuthProvider::ApiKey(k) => AuthProvider::ApiKey(k.clone()),
            AuthProvider::OAuth(p) => AuthProvider::OAuth(
                OAuthProvider {
                    token: clone_opt_string(&p.token),
                    refresh_token: clone_opt_string(&p.refresh_token),
                },
            ),
        }
    }
}

} // verus!
