//! The errors of this crate.

use crate::text::decimal;
use crate::text::decimal_string;
use crate::types::RoleId;
use crate::types::TenantId;
use vstd::prelude::*;
use vstd::std_specs::convert::FromSpecImpl;
use vstd::string::StringExecFns;

verus! {

/// A failure reported by a store backend. It carries the backend's
/// message and nothing else.
#[derive(Debug)]
pub struct StoreError {
    message: String,
}

impl View for StoreError {
    type V = Seq<char>;

    closed spec fn view(&self) -> Seq<char> {
        self.message@
    }
}

impl StoreError {
    /// A store failure with the given message.
    pub fn new(message: String) -> (r: Self)
        ensures
            r@ == message@,
    {
        StoreError { message }
    }

    /// The backend's message.
    pub fn message(&self) -> (r: &str)
        ensures
            r@ == self@,
    {
        self.message.as_str()
    }

    /// The backend's message, owned.
    pub fn to_string(&self) -> (r: String)
        ensures
            r@ == self@,
    {
        self.message.clone()
    }
}

/// Errors returned by this crate.
#[derive(Debug)]
pub enum Error {
    /// A store backend failed.
    Store(StoreError),
    /// Invalid identifier input.
    InvalidId(String),
    /// Invalid permission input.
    InvalidPermission(String),
    /// Role inheritance cycle detected.
    RoleCycleDetected { tenant: TenantId, role: RoleId },
    /// Role inheritance depth exceeded.
    RoleDepthExceeded { tenant: TenantId, role: RoleId, max_depth: usize },
}

/// What an [`Error`] holds, as plain values.
pub enum ErrorModel {
    Store(Seq<char>),
    InvalidId(Seq<char>),
    InvalidPermission(Seq<char>),
    RoleCycleDetected { tenant: Seq<char>, role: Seq<char> },
    RoleDepthExceeded { tenant: Seq<char>, role: Seq<char>, max_depth: usize },
}

impl ErrorModel {
    /// The message that describes the error.
    pub open spec fn text(self) -> Seq<char> {
        match self {
            ErrorModel::Store(m) => "store error: "@ + m,
            ErrorModel::InvalidId(m) => "invalid id: "@ + m,
            ErrorModel::InvalidPermission(m) => "invalid permission: "@ + m,
            ErrorModel::RoleCycleDetected { tenant, role } => "role cycle detected for tenant "@
                + tenant + " at role "@ + role,
            ErrorModel::RoleDepthExceeded { tenant, role, max_depth } =>
                "role inheritance depth exceeded for tenant "@ + tenant + " at role "@ + role
                    + "; max depth "@ + decimal(max_depth as nat),
        }
    }
}

impl View for Error {
    type V = ErrorModel;

    open spec fn view(&self) -> ErrorModel {
        match self {
            Error::Store(e) => ErrorModel::Store(e@),
            Error::InvalidId(m) => ErrorModel::InvalidId(m@),
            Error::InvalidPermission(m) => ErrorModel::InvalidPermission(m@),
            Error::RoleCycleDetected { tenant, role } => ErrorModel::RoleCycleDetected {
                tenant: tenant@,
                role: role@,
            },
            Error::RoleDepthExceeded { tenant, role, max_depth } => ErrorModel::RoleDepthExceeded {
                tenant: tenant@,
                role: role@,
                max_depth: *max_depth,
            },
        }
    }
}

impl Error {
    /// The message that describes the error.
    pub fn to_string(&self) -> (r: String)
        ensures
            r@ == self@.text(),
    {
        match self {
            Error::Store(e) => String::from_str("store error: ").concat(e.message()),
            Error::InvalidId(m) => String::from_str("invalid id: ").concat(m.as_str()),
            Error::InvalidPermission(m) => String::from_str("invalid permission: ").concat(
                m.as_str(),
            ),
            Error::RoleCycleDetected { tenant, role } => String::from_str(
                "role cycle detected for tenant ",
            ).concat(tenant.as_str()).concat(" at role ").concat(role.as_str()),
            Error::RoleDepthExceeded { tenant, role, max_depth } => {
                let depth = decimal_string(*max_depth);
                String::from_str("role inheritance depth exceeded for tenant ").concat(
                    tenant.as_str(),
                ).concat(" at role ").concat(role.as_str()).concat("; max depth ").concat(
                    depth.as_str(),
                )
            },
        }
    }
}

impl From<StoreError> for Error {
    fn from(error: StoreError) -> (r: Self)
        ensures
            r@ == ErrorModel::Store(error@),
    {
        Error::Store(error)
    }
}

/// The conversion wraps the store's failure as it is.
impl FromSpecImpl<StoreError> for Error {
    open spec fn obeys_from_spec() -> bool {
        true
    }

    open spec fn from_spec(v: StoreError) -> Self {
        Error::Store(v)
    }
}

} // verus!
