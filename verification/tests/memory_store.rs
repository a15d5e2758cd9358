use rs_tenant::Decision;
use rs_tenant::EngineBuilder;
use rs_tenant::GlobalRoleId;
use rs_tenant::GlobalRoleStore;
use rs_tenant::MemoryStore;
use rs_tenant::Permission;
use rs_tenant::PrincipalId;
use rs_tenant::RoleId;
use rs_tenant::RoleStore;
use rs_tenant::TenantId;
use rs_tenant::TenantStore;

#[test]
fn memory_store_should_support_basic_flow() {
    let store = MemoryStore::new();
    let tenant = TenantId::try_from("tenant_1").unwrap();
    let principal = PrincipalId::try_from("user_1").unwrap();
    let role = RoleId::try_from("role_a").unwrap();
    let perm = Permission::try_from("invoice:read").unwrap();

    store.set_tenant_active(tenant.clone(), true);
    store.set_principal_active(tenant.clone(), principal.clone(), true);
    store.add_principal_role(tenant.clone(), principal.clone(), role.clone());
    store.add_role_permission(tenant.clone(), role, perm.clone());

    let engine = EngineBuilder::new(store).build();
    let decision = engine.authorize(tenant, principal, perm).unwrap();

    assert_eq!(decision, Decision::Allow);
}

#[test]
fn memory_store_should_default_to_inactive_and_empty() {
    let store = MemoryStore::new();
    let tenant = TenantId::try_from("tenant_1").unwrap();
    let principal = PrincipalId::try_from("user_1").unwrap();
    let role = RoleId::try_from("role_a").unwrap();
    assert!(!store.tenant_active(tenant.clone()).unwrap());
    assert!(!store.principal_active(tenant.clone(), principal.clone()).unwrap());
    assert!(store.principal_roles(tenant.clone(), principal.clone()).unwrap().is_empty());
    assert!(store.role_permissions(tenant.clone(), role.clone()).unwrap().is_empty());
    assert!(store.role_inherits(tenant, role).unwrap().is_empty());
    assert!(store.global_roles(principal.clone()).unwrap().is_empty());
    assert!(!store.is_super_admin(principal).unwrap());
}

#[test]
fn memory_store_should_keep_what_was_set() {
    let store = MemoryStore::new();
    let shared = store.clone();
    let tenant = TenantId::try_from("tenant_1").unwrap();
    let other = TenantId::try_from("tenant_2").unwrap();
    let principal = PrincipalId::try_from("user_1").unwrap();
    let role = RoleId::try_from("role_a").unwrap();
    let parent = RoleId::try_from("role_b").unwrap();
    let global = GlobalRoleId::try_from("global_admin").unwrap();
    let read = Permission::try_from("invoice:read").unwrap();
    let write = Permission::try_from("invoice:write").unwrap();

    store.set_tenant_active(tenant.clone(), true);
    store.set_tenant_active(other.clone(), true);
    store.set_tenant_active(other.clone(), false);
    store.set_principal_active(tenant.clone(), principal.clone(), true);
    store.add_principal_role(tenant.clone(), principal.clone(), role.clone());
    store.add_principal_role(tenant.clone(), principal.clone(), role.clone());
    store.add_role_permission(tenant.clone(), role.clone(), read.clone());
    store.add_role_permission(tenant.clone(), role.clone(), write.clone());
    store.add_role_inherit(tenant.clone(), role.clone(), parent.clone());
    store.add_global_role(principal.clone(), global.clone());
    store.add_global_role_permission(global.clone(), read.clone());

    assert!(shared.tenant_active_ref(&tenant).unwrap());
    assert!(!shared.tenant_active(other.clone()).unwrap());
    assert!(shared.principal_active_ref(&tenant, &principal).unwrap());
    assert!(!shared.principal_active(other.clone(), principal.clone()).unwrap());
    assert_eq!(
        shared.principal_roles_ref(&tenant, &principal).unwrap(),
        vec![role.clone()]
    );
    assert!(shared.principal_roles(other.clone(), principal.clone()).unwrap().is_empty());
    assert_eq!(
        shared.role_permissions_ref(&tenant, &role).unwrap(),
        vec![read.clone(), write]
    );
    assert_eq!(shared.role_inherits_ref(&tenant, &role).unwrap(), vec![parent]);
    assert_eq!(shared.global_roles_ref(&principal).unwrap(), vec![global.clone()]);
    assert_eq!(shared.global_role_permissions_ref(&global).unwrap(), vec![read]);
    assert!(!shared.is_super_admin_ref(&principal).unwrap());
}
