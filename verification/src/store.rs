//! The store that an engine reads: activation flags, role assignments,
//! role permissions and inheritance edges. A store is read-only to the
//! engine and may fail on any call.

use crate::error::StoreError;
use crate::permission::Permission;
use crate::types::GlobalRoleId;
use crate::types::PrincipalId;
use crate::types::RoleId;
use crate::types::TenantId;
use vstd::prelude::*;

verus! {

/// Store interface for tenant and principal activation.
pub trait TenantStore {
    /// Returns whether a tenant is active.
    fn tenant_active(&self, tenant: TenantId) -> Result<bool, StoreError>;

    /// Returns whether a tenant is active, by reference. Unless a store
    /// does it otherwise, this is what [`TenantStore::tenant_active`]
    /// gives for a copy of the tenant.
    fn tenant_active_ref(&self, tenant: &TenantId) -> (r: Result<bool, StoreError>)
        default_ensures
            exists|owned: TenantId|
                owned@ == tenant@ && #[trigger] call_ensures(
                    Self::tenant_active,
                    (self, owned),
                    r,
                ),
    {
        self.tenant_active(tenant.clone())
    }

    /// Returns whether a principal is active within a tenant.
    fn principal_active(&self, tenant: TenantId, principal: PrincipalId) -> Result<
        bool,
        StoreError,
    >;

    /// Returns whether a principal is active within a tenant, by
    /// reference. Unless a store does it otherwise, this is what
    /// [`TenantStore::principal_active`] gives for copies of the tenant
    /// and the principal.
    fn principal_active_ref(&self, tenant: &TenantId, principal: &PrincipalId) -> (r: Result<
        bool,
        StoreError,
    >)
        default_ensures
            exists|t: TenantId, p: PrincipalId|
                t@ == tenant@ && p@ == principal@ && #[trigger] call_ensures(
                    Self::principal_active,
                    (self, t, p),
                    r,
                ),
    {
        self.principal_active(tenant.clone(), principal.clone())
    }
}

/// Store interface for tenant-scoped roles.
pub trait RoleStore {
    /// Returns the roles assigned to a principal within a tenant.
    fn principal_roles(&self, tenant: TenantId, principal: PrincipalId) -> Result<
        Vec<RoleId>,
        StoreError,
    >;

    /// Returns the roles assigned to a principal, by reference. Unless a
    /// store does it otherwise, this is what
    /// [`RoleStore::principal_roles`] gives for copies of the tenant and
    /// the principal.
    fn principal_roles_ref(&self, tenant: &TenantId, principal: &PrincipalId) -> (r: Result<
        Vec<RoleId>,
        StoreError,
    >)
        default_ensures
            exists|t: TenantId, p: PrincipalId|
                t@ == tenant@ && p@ == principal@ && #[trigger] call_ensures(
                    Self::principal_roles,
                    (self, t, p),
                    r,
                ),
    {
        self.principal_roles(tenant.clone(), principal.clone())
    }

    /// Returns the permissions bound to a role within a tenant.
    fn role_permissions(&self, tenant: TenantId, role: RoleId) -> Result<
        Vec<Permission>,
        StoreError,
    >;

    /// Returns the permissions bound to a role, by reference. Unless a
    /// store does it otherwise, this is what
    /// [`RoleStore::role_permissions`] gives for copies of the tenant and
    /// the role.
    fn role_permissions_ref(&self, tenant: &TenantId, role: &RoleId) -> (r: Result<
        Vec<Permission>,
        StoreError,
    >)
        default_ensures
            exists|t: TenantId, p: RoleId|
                t@ == tenant@ && p@ == role@ && #[trigger] call_ensures(
                    Self::role_permissions,
                    (self, t, p),
                    r,
                ),
    {
        self.role_permissions(tenant.clone(), role.clone())
    }

    /// Returns the direct parents of a role, for the traversal of the
    /// hierarchy.
    fn role_inherits(&self, tenant: TenantId, role: RoleId) -> Result<Vec<RoleId>, StoreError>;

    /// Returns the direct parents of a role, by reference. Unless a
    /// store does it otherwise, this is what [`RoleStore::role_inherits`]
    /// gives for copies of the tenant and the role.
    fn role_inherits_ref(&self, tenant: &TenantId, role: &RoleId) -> (r: Result<
        Vec<RoleId>,
        StoreError,
    >)
        default_ensures
            exists|t: TenantId, p: RoleId|
                t@ == tenant@ && p@ == role@ && #[trigger] call_ensures(
                    Self::role_inherits,
                    (self, t, p),
                    r,
                ),
    {
        self.role_inherits(tenant.clone(), role.clone())
    }
}

/// Store interface for global roles.
pub trait GlobalRoleStore {
    /// Returns the global roles assigned to a principal.
    fn global_roles(&self, principal: PrincipalId) -> Result<Vec<GlobalRoleId>, StoreError>;

    /// Returns the global roles assigned to a principal, by reference.
    /// Unless a store does it otherwise, this is what
    /// [`GlobalRoleStore::global_roles`] gives for a copy of the
    /// principal.
    fn global_roles_ref(&self, principal: &PrincipalId) -> (r: Result<
        Vec<GlobalRoleId>,
        StoreError,
    >)
        default_ensures
            exists|owned: PrincipalId|
                owned@ == principal@ && #[trigger] call_ensures(
                    Self::global_roles,
                    (self, owned),
                    r,
                ),
    {
        self.global_roles(principal.clone())
    }

    /// Returns the permissions bound to a global role.
    fn global_role_permissions(&self, role: GlobalRoleId) -> Result<Vec<Permission>, StoreError>;

    /// Returns the permissions bound to a global role, by reference.
    /// Unless a store does it otherwise, this is what
    /// [`GlobalRoleStore::global_role_permissions`] gives for a copy of
    /// the role.
    fn global_role_permissions_ref(&self, role: &GlobalRoleId) -> (r: Result<
        Vec<Permission>,
        StoreError,
    >)
        default_ensures
            exists|owned: GlobalRoleId|
                owned@ == role@ && #[trigger] call_ensures(
                    Self::global_role_permissions,
                    (self, owned),
                    r,
                ),
    {
        self.global_role_permissions(role.clone())
    }

    /// Returns whether a principal is a platform-level super
    /// administrator. Unless a store says otherwise, nobody is: the
    /// answer is `Ok(false)`.
    fn is_super_admin(&self, _principal: PrincipalId) -> (r: Result<bool, StoreError>)
        default_ensures
            r matches Ok(admin) && !admin,
    {
        Ok(false)
    }

    /// Returns whether a principal is a platform-level super
    /// administrator, by reference. Unless a store does it otherwise,
    /// this is what [`GlobalRoleStore::is_super_admin`] gives for a copy
    /// of the principal.
    fn is_super_admin_ref(&self, principal: &PrincipalId) -> (r: Result<bool, StoreError>)
        default_ensures
            exists|owned: PrincipalId|
                owned@ == principal@ && #[trigger] call_ensures(
                    Self::is_super_admin,
                    (self, owned),
                    r,
                ),
    {
        self.is_super_admin(principal.clone())
    }
}

/// Composite store trait.
pub trait Store: TenantStore + RoleStore + GlobalRoleStore + Send + Sync {

}

impl<T> Store for T where T: TenantStore + RoleStore + GlobalRoleStore + Send + Sync {

}

} // verus!
