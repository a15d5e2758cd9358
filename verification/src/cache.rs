//! The cache that an engine may keep its results in.

use crate::permission::Permission;
use crate::types::PrincipalId;
use crate::types::RoleId;
use crate::types::TenantId;
use vstd::prelude::*;

verus! {

/// Cache interface for effective permissions. An entry is whatever was
/// set last for the tenant and principal; a cache may drop any entry at
/// any time.
pub trait Cache: Send + Sync {
    /// Gets the cached entry for a tenant and principal.
    fn get_permissions(&self, tenant: &TenantId, principal: &PrincipalId) -> Option<
        Vec<Permission>,
    >;

    /// Sets the cached entry for a tenant and principal.
    fn set_permissions(&self, tenant: &TenantId, principal: &PrincipalId, perms: Vec<Permission>);

    /// Drops the entry of a principal.
    fn invalidate_principal(&self, tenant: &TenantId, principal: &PrincipalId);

    /// Drops every entry that may depend on a role.
    fn invalidate_role(&self, tenant: &TenantId, role: &RoleId);

    /// Drops every entry of a tenant.
    fn invalidate_tenant(&self, tenant: &TenantId);
}

/// The cache that holds nothing.
#[derive(Debug, Default, Clone, Copy)]
pub struct NoCache;

impl Cache for NoCache {
    fn get_permissions(&self, _tenant: &TenantId, _principal: &PrincipalId) -> (r: Option<
        Vec<Permission>,
    >)
        ensures
            r is None,
    {
        None
    }

    fn set_permissions(
        &self,
        _tenant: &TenantId,
        _principal: &PrincipalId,
        _perms: Vec<Permission>,
    ) {
    }

    fn invalidate_principal(&self, _tenant: &TenantId, _principal: &PrincipalId) {
    }

    fn invalidate_role(&self, _tenant: &TenantId, _role: &RoleId) {
    }

    fn invalidate_tenant(&self, _tenant: &TenantId) {
    }
}

} // verus!
