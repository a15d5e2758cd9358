//! What a request-handling layer needs around an engine: the identity
//! taken from a request, the bearer token of an `Authorization` header,
//! and the answer to a request that is not let through.

use crate::engine::Decision;
use crate::error::Error;
use crate::text::chars_of;
use crate::text::string_of;
use crate::types::checked_name;
use crate::types::PrincipalId;
use crate::types::TenantId;
use vstd::prelude::*;
use vstd::string::StringExecFns;

verus! {

/// The status of a request without identity.
pub const UNAUTHORIZED: u16 = 401;

/// The status of a request that was denied.
pub const FORBIDDEN: u16 = 403;

/// The status of a request whose authorization failed.
pub const INTERNAL_SERVER_ERROR: u16 = 500;

/// Authentication context extracted from a request.
#[derive(Debug, Clone)]
pub struct AuthContext {
    /// Tenant identifier.
    pub tenant: TenantId,
    /// Principal identifier.
    pub principal: PrincipalId,
}

/// Errors of the authentication of a request.
#[derive(Debug)]
pub enum AuthError {
    /// Authorization header is missing.
    MissingAuthorization,
    /// Authorization header format is invalid.
    InvalidAuthorization,
    /// The token was refused.
    InvalidToken,
    /// Required claims are missing or invalid.
    InvalidClaims(String),
    /// Invalid identifier.
    InvalidId(String),
}

/// An [`AuthError`] as plain values.
pub enum AuthErrorModel {
    MissingAuthorization,
    InvalidAuthorization,
    InvalidToken,
    InvalidClaims(Seq<char>),
    InvalidId(Seq<char>),
}

impl AuthErrorModel {
    /// The message that describes the error.
    pub open spec fn text(self) -> Seq<char> {
        match self {
            AuthErrorModel::MissingAuthorization => "missing authorization header"@,
            AuthErrorModel::InvalidAuthorization => "invalid authorization header"@,
            AuthErrorModel::InvalidToken => "invalid token"@,
            AuthErrorModel::InvalidClaims(m) => "invalid claims: "@ + m,
            AuthErrorModel::InvalidId(m) => "invalid id: "@ + m,
        }
    }
}

impl View for AuthError {
    type V = AuthErrorModel;

    open spec fn view(&self) -> AuthErrorModel {
        match self {
            AuthError::MissingAuthorization => AuthErrorModel::MissingAuthorization,
            AuthError::InvalidAuthorization => AuthErrorModel::InvalidAuthorization,
            AuthError::InvalidToken => AuthErrorModel::InvalidToken,
            AuthError::InvalidClaims(m) => AuthErrorModel::InvalidClaims(m@),
            AuthError::InvalidId(m) => AuthErrorModel::InvalidId(m@),
        }
    }
}

impl AuthError {
    /// The message that describes the error.
    pub fn to_string(&self) -> (r: String)
        ensures
            r@ == self@.text(),
    {
        match self {
            AuthError::MissingAuthorization => String::from_str("missing authorization header"),
            AuthError::InvalidAuthorization => String::from_str("invalid authorization header"),
            AuthError::InvalidToken => String::from_str("invalid token"),
            AuthError::InvalidClaims(m) => String::from_str("invalid claims: ").concat(m.as_str()),
            AuthError::InvalidId(m) => String::from_str("invalid id: ").concat(m.as_str()),
        }
    }
}

/// The answer to a request that is not let through.
#[derive(Debug)]
pub struct AuthRejection {
    status: u16,
    message: String,
}

impl AuthRejection {
    /// The status of the answer.
    pub closed spec fn status_of(&self) -> u16 {
        self.status
    }

    /// The text of the answer.
    pub closed spec fn message_of(&self) -> Seq<char> {
        self.message@
    }

    /// The answer to a request that failed authentication with `err`:
    /// unauthorized, with the error's message.
    pub fn from(err: AuthError) -> (r: Self)
        ensures
            r.status_of() == UNAUTHORIZED,
            r.message_of() == err@.text(),
    {
        AuthRejection { status: UNAUTHORIZED, message: err.to_string() }
    }

    /// The status of the answer.
    pub fn status(&self) -> (r: u16)
        ensures
            r == self.status_of(),
    {
        self.status
    }

    /// The text of the answer.
    pub fn message(&self) -> (r: &str)
        ensures
            r@ == self.message_of(),
    {
        self.message.as_str()
    }
}

/// The `Authorization` header of a request, as far as it can be read.
#[derive(Debug)]
pub enum AuthorizationHeader {
    /// The request has no such header.
    Missing,
    /// The header is no text.
    Unreadable,
    /// The header's text.
    Text(String),
}

/// The prefix of a bearer token in an `Authorization` header.
pub open spec fn bearer_prefix() -> Seq<char> {
    seq!['B', 'e', 'a', 'r', 'e', 'r', ' ']
}

/// The bearer token of a header's text: what follows `Bearer `, where
/// the text begins so and something follows.
pub open spec fn token_of(text: Seq<char>) -> Option<Seq<char>> {
    if text.len() > 7 && text.subrange(0, 7) == bearer_prefix() {
        Some(text.subrange(7, text.len() as int))
    } else {
        None
    }
}

/// The bearer token of a request.
pub fn bearer_token(header: &AuthorizationHeader) -> (r: Result<String, AuthError>)
    ensures
        match header {
            AuthorizationHeader::Missing => r matches Err(e) && e@
                == AuthErrorModel::MissingAuthorization,
            AuthorizationHeader::Unreadable => r matches Err(e) && e@
                == AuthErrorModel::InvalidAuthorization,
            AuthorizationHeader::Text(text) => match token_of(text@) {
                Some(token) => r matches Ok(t) && t@ == token,
                None => r matches Err(e) && e@ == AuthErrorModel::InvalidAuthorization,
            },
        },
{
    let text = match header {
        AuthorizationHeader::Missing => {
            return Err(AuthError::MissingAuthorization);
        },
        AuthorizationHeader::Unreadable => {
            return Err(AuthError::InvalidAuthorization);
        },
        AuthorizationHeader::Text(text) => text,
    };
    let chars = chars_of(text.as_str());
    if chars.len() <= 7 {
        return Err(AuthError::InvalidAuthorization);
    }
    let ghost head = chars@.subrange(0, 7);
    if chars[0] == 'B' && chars[1] == 'e' && chars[2] == 'a' && chars[3] == 'r' && chars[4] == 'e'
        && chars[5] == 'r' && chars[6] == ' ' {
        assert(head =~= bearer_prefix());
        Ok(string_of(&chars, 7, chars.len()))
    } else {
        assert(head != bearer_prefix()) by {
            if head == bearer_prefix() {
                assert(head[0] == 'B' && head[1] == 'e' && head[2] == 'a' && head[3] == 'r'
                    && head[4] == 'e' && head[5] == 'r' && head[6] == ' ');
            }
        }
        Err(AuthError::InvalidAuthorization)
    }
}

impl AuthContext {
    /// The context of a tenant and a principal.
    pub fn new(tenant: TenantId, principal: PrincipalId) -> (r: Self)
        ensures
            r.tenant@ == tenant@,
            r.principal@ == principal@,
    {
        AuthContext { tenant, principal }
    }

    /// The context that the identifiers of a token's claims stand for.
    /// Each is validated; the tenant comes first.
    pub fn from_claims(tenant_id: &str, principal_id: &str) -> (r: Result<Self, AuthError>)
        ensures
            match (
                checked_name(tenant_id@, "tenant id"@),
                checked_name(principal_id@, "principal id"@),
            ) {
                (Ok(t), Ok(p)) => r matches Ok(c) && c.tenant@ == t && c.principal@ == p,
                (Err(m), _) => r matches Err(e) && e@ == AuthErrorModel::InvalidId(
                    "invalid id: "@ + m,
                ),
                (Ok(_), Err(m)) => r matches Err(e) && e@ == AuthErrorModel::InvalidId(
                    "invalid id: "@ + m,
                ),
            },
    {
        let tenant = match TenantId::new(tenant_id) {
            Ok(t) => t,
            Err(err) => {
                return Err(AuthError::InvalidId(err.to_string()));
            },
        };
        let principal = match PrincipalId::new(principal_id) {
            Ok(p) => p,
            Err(err) => {
                return Err(AuthError::InvalidId(err.to_string()));
            },
        };
        Ok(AuthContext::new(tenant, principal))
    }
}

/// Default claims of a token: the tenant and the principal, beside the
/// standard subject and expiration.
#[derive(Debug, Clone)]
pub struct DefaultClaims {
    /// Tenant identifier.
    pub tenant_id: String,
    /// Principal identifier.
    pub principal_id: String,
    /// Standard subject.
    pub sub: Option<String>,
    /// Standard expiration.
    pub exp: Option<usize>,
}

impl DefaultClaims {
    /// The tenant identifier of the claims.
    pub fn tenant_id(&self) -> (r: &str)
        ensures
            r@ == self.tenant_id@,
    {
        self.tenant_id.as_str()
    }

    /// The principal identifier of the claims.
    pub fn principal_id(&self) -> (r: &str)
        ensures
            r@ == self.principal_id@,
    {
        self.principal_id.as_str()
    }
}

/// What an authorizing layer does with a request.
#[derive(Debug)]
pub enum Passage {
    /// The request goes on to the inner service.
    Proceed,
    /// The request is answered with a status and a text.
    Refuse { status: u16, body: String },
}

/// A [`Passage`] as plain values.
pub enum PassageModel {
    Proceed,
    Refuse { status: u16, body: Seq<char> },
}

impl View for Passage {
    type V = PassageModel;

    open spec fn view(&self) -> PassageModel {
        match self {
            Passage::Proceed => PassageModel::Proceed,
            Passage::Refuse { status, body } => PassageModel::Refuse {
                status: *status,
                body: body@,
            },
        }
    }
}

/// The answer to a request that carries no context.
pub fn missing_context() -> (r: Passage)
    ensures
        r@ == (PassageModel::Refuse { status: UNAUTHORIZED, body: "missing auth context"@ }),
{
    Passage::Refuse { status: UNAUTHORIZED, body: String::from_str("missing auth context") }
}

/// What follows from the engine's result for a request: an allowed one
/// goes on, a denied one is forbidden, and a failure of the
/// authorization is an internal error, which never lets a request
/// through.
pub fn passage(result: &Result<Decision, Error>) -> (r: Passage)
    ensures
        r@ == match result {
            Ok(Decision::Allow) => PassageModel::Proceed,
            Ok(Decision::Deny) => PassageModel::Refuse { status: FORBIDDEN, body: "forbidden"@ },
            Err(_) => PassageModel::Refuse { status: INTERNAL_SERVER_ERROR, body: "auth error"@ },
        },
{
    match result {
        Ok(Decision::Allow) => Passage::Proceed,
        Ok(Decision::Deny) => Passage::Refuse {
            status: FORBIDDEN,
            body: String::from_str("forbidden"),
        },
        Err(_) => Passage::Refuse {
            status: INTERNAL_SERVER_ERROR,
            body: String::from_str("auth error"),
        },
    }
}

} // verus!
