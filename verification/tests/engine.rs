use rs_tenant::Decision;
use rs_tenant::EngineBuilder;
use rs_tenant::Error;
use rs_tenant::GlobalRoleId;
use rs_tenant::GlobalRoleStore;
use rs_tenant::MemoryCache;
use rs_tenant::Permission;
use rs_tenant::PrincipalId;
use rs_tenant::ResourceName;
use rs_tenant::RoleId;
use rs_tenant::RoleStore;
use rs_tenant::Scope;
use rs_tenant::StoreError;
use rs_tenant::TenantId;
use rs_tenant::TenantStore;
use std::collections::HashMap;

#[derive(Default, Clone)]
struct TestStore {
    tenant_active: bool,
    principal_active: bool,
    roles: Vec<RoleId>,
    role_permissions: HashMap<RoleId, Vec<Permission>>,
    role_inherits: HashMap<RoleId, Vec<RoleId>>,
    global_roles: HashMap<PrincipalId, Vec<GlobalRoleId>>,
    global_role_permissions: HashMap<GlobalRoleId, Vec<Permission>>,
}

fn active_store() -> TestStore {
    TestStore {
        tenant_active: true,
        principal_active: true,
        ..TestStore::default()
    }
}

impl TenantStore for TestStore {
    fn tenant_active(&self, _tenant: TenantId) -> Result<bool, StoreError> {
        Ok(self.tenant_active)
    }

    fn principal_active(
        &self,
        _tenant: TenantId,
        _principal: PrincipalId,
    ) -> Result<bool, StoreError> {
        Ok(self.principal_active)
    }
}

impl RoleStore for TestStore {
    fn principal_roles(
        &self,
        _tenant: TenantId,
        _principal: PrincipalId,
    ) -> Result<Vec<RoleId>, StoreError> {
        Ok(self.roles.clone())
    }

    fn role_permissions(
        &self,
        _tenant: TenantId,
        role: RoleId,
    ) -> Result<Vec<Permission>, StoreError> {
        Ok(self
            .role_permissions
            .get(&role)
            .cloned()
            .unwrap_or_default())
    }

    fn role_inherits(&self, _tenant: TenantId, role: RoleId) -> Result<Vec<RoleId>, StoreError> {
        Ok(self.role_inherits.get(&role).cloned().unwrap_or_default())
    }
}

impl GlobalRoleStore for TestStore {
    fn global_roles(&self, principal: PrincipalId) -> Result<Vec<GlobalRoleId>, StoreError> {
        Ok(self
            .global_roles
            .get(&principal)
            .cloned()
            .unwrap_or_default())
    }

    fn global_role_permissions(&self, role: GlobalRoleId) -> Result<Vec<Permission>, StoreError> {
        Ok(self
            .global_role_permissions
            .get(&role)
            .cloned()
            .unwrap_or_default())
    }
}

struct FailingStore;

impl TenantStore for FailingStore {
    fn tenant_active(&self, _tenant: TenantId) -> Result<bool, StoreError> {
        Err(StoreError::new(String::from("backend down")))
    }

    fn principal_active(
        &self,
        _tenant: TenantId,
        _principal: PrincipalId,
    ) -> Result<bool, StoreError> {
        Ok(true)
    }
}

impl RoleStore for FailingStore {
    fn principal_roles(
        &self,
        _tenant: TenantId,
        _principal: PrincipalId,
    ) -> Result<Vec<RoleId>, StoreError> {
        Ok(Vec::new())
    }

    fn role_permissions(
        &self,
        _tenant: TenantId,
        _role: RoleId,
    ) -> Result<Vec<Permission>, StoreError> {
        Ok(Vec::new())
    }

    fn role_inherits(&self, _tenant: TenantId, _role: RoleId) -> Result<Vec<RoleId>, StoreError> {
        Ok(Vec::new())
    }
}

impl GlobalRoleStore for FailingStore {
    fn global_roles(&self, _principal: PrincipalId) -> Result<Vec<GlobalRoleId>, StoreError> {
        Ok(Vec::new())
    }

    fn global_role_permissions(&self, _role: GlobalRoleId) -> Result<Vec<Permission>, StoreError> {
        Ok(Vec::new())
    }
}

fn tenant() -> TenantId {
    TenantId::try_from("tenant_1").unwrap()
}

fn user() -> PrincipalId {
    PrincipalId::try_from("user_1").unwrap()
}

fn perm(value: &str) -> Permission {
    Permission::try_from(value).unwrap()
}

fn chain_store(depth: usize) -> TestStore {
    let mut store = active_store();
    store.roles = vec![RoleId::try_from("role_0").unwrap()];
    for i in 0..depth {
        let current = RoleId::try_from(format!("role_{i}").as_str()).unwrap();
        let next = RoleId::try_from(format!("role_{}", i + 1).as_str()).unwrap();
        store.role_inherits.insert(current, vec![next]);
    }
    let tail = RoleId::try_from(format!("role_{depth}").as_str()).unwrap();
    store.role_permissions.insert(tail, vec![perm("invoice:read")]);
    store
}

#[test]
fn authorize_should_allow_exact_permission() {
    let mut store = active_store();

    let role = RoleId::try_from("role_a").unwrap();
    store.roles = vec![role.clone()];
    store
        .role_permissions
        .insert(role, vec![Permission::try_from("invoice:read").unwrap()]);

    let engine = EngineBuilder::new(store).build();
    let decision = engine
        .authorize(
            TenantId::try_from("tenant_1").unwrap(),
            PrincipalId::try_from("user_1").unwrap(),
            Permission::try_from("invoice:read").unwrap(),
        )
        .unwrap();

    assert_eq!(decision, Decision::Allow);
}

#[test]
fn authorize_should_deny_when_tenant_inactive() {
    let store = TestStore {
        tenant_active: false,
        principal_active: true,
        ..TestStore::default()
    };

    let engine = EngineBuilder::new(store).build();
    let decision = engine
        .authorize(
            TenantId::try_from("tenant_1").unwrap(),
            PrincipalId::try_from("user_1").unwrap(),
            Permission::try_from("invoice:read").unwrap(),
        )
        .unwrap();

    assert_eq!(decision, Decision::Deny);
}

#[test]
fn authorize_should_allow_with_wildcard_when_enabled() {
    let mut store = active_store();

    let role = RoleId::try_from("role_a").unwrap();
    store.roles = vec![role.clone()];
    store
        .role_permissions
        .insert(role, vec![Permission::try_from("invoice:*").unwrap()]);

    let engine = EngineBuilder::new(store).enable_wildcard(true).build();
    let decision = engine
        .authorize(
            TenantId::try_from("tenant_1").unwrap(),
            PrincipalId::try_from("user_1").unwrap(),
            Permission::try_from("invoice:read").unwrap(),
        )
        .unwrap();

    assert_eq!(decision, Decision::Allow);
}

#[test]
fn authorize_should_deny_wildcard_when_disabled() {
    let mut store = active_store();

    let role = RoleId::try_from("role_a").unwrap();
    store.roles = vec![role.clone()];
    store
        .role_permissions
        .insert(role, vec![Permission::try_from("invoice:*").unwrap()]);

    let engine = EngineBuilder::new(store).build();
    let decision = engine
        .authorize(
            TenantId::try_from("tenant_1").unwrap(),
            PrincipalId::try_from("user_1").unwrap(),
            Permission::try_from("invoice:read").unwrap(),
        )
        .unwrap();

    assert_eq!(decision, Decision::Deny);
}

#[test]
fn authorize_should_allow_via_global_role() {
    let mut store = active_store();

    let principal = PrincipalId::try_from("user_1").unwrap();
    let global_role = GlobalRoleId::try_from("global_admin").unwrap();
    store
        .global_roles
        .insert(principal.clone(), vec![global_role.clone()]);
    store.global_role_permissions.insert(
        global_role,
        vec![Permission::try_from("invoice:read").unwrap()],
    );

    let engine = EngineBuilder::new(store).build();
    let decision = engine
        .authorize(
            TenantId::try_from("tenant_1").unwrap(),
            principal,
            Permission::try_from("invoice:read").unwrap(),
        )
        .unwrap();

    assert_eq!(decision, Decision::Allow);
}

#[test]
fn scope_should_return_tenant_only_when_resource_matches() {
    let mut store = active_store();

    let role = RoleId::try_from("role_a").unwrap();
    store.roles = vec![role.clone()];
    store
        .role_permissions
        .insert(role, vec![Permission::try_from("invoice:read").unwrap()]);

    let engine = EngineBuilder::new(store).build();
    let scope = engine
        .scope(
            TenantId::try_from("tenant_1").unwrap(),
            PrincipalId::try_from("user_1").unwrap(),
            ResourceName::try_from("invoice").unwrap(),
        )
        .unwrap();

    assert!(matches!(scope, Scope::TenantOnly { .. }));
}

#[test]
fn scope_should_return_none_when_resource_not_allowed() {
    let mut store = active_store();

    let role = RoleId::try_from("role_a").unwrap();
    store.roles = vec![role.clone()];
    store
        .role_permissions
        .insert(role, vec![Permission::try_from("invoice:read").unwrap()]);

    let engine = EngineBuilder::new(store).build();
    let scope = engine
        .scope(
            TenantId::try_from("tenant_1").unwrap(),
            PrincipalId::try_from("user_1").unwrap(),
            ResourceName::try_from("customer").unwrap(),
        )
        .unwrap();

    assert_eq!(scope, Scope::NoAccess);
}

#[test]
fn scope_should_ignore_wildcard_permission_when_disabled() {
    let mut store = active_store();

    let role = RoleId::try_from("role_a").unwrap();
    store.roles = vec![role.clone()];
    store
        .role_permissions
        .insert(role, vec![Permission::try_from("invoice:*").unwrap()]);

    let engine = EngineBuilder::new(store).build();
    let scope = engine
        .scope(
            TenantId::try_from("tenant_1").unwrap(),
            PrincipalId::try_from("user_1").unwrap(),
            ResourceName::try_from("invoice").unwrap(),
        )
        .unwrap();

    assert_eq!(scope, Scope::NoAccess);
}

#[test]
fn shared_cache_should_isolate_different_engine_configs() {
    let mut store = active_store();

    let role = RoleId::try_from("role_a").unwrap();
    store.roles = vec![role.clone()];
    store
        .role_permissions
        .insert(role, vec![Permission::try_from("invoice:*").unwrap()]);

    let cache = MemoryCache::new(8);
    let wildcard_engine = EngineBuilder::new(store.clone())
        .enable_wildcard(true)
        .cache(cache.clone())
        .build();
    let strict_engine = EngineBuilder::new(store).cache(cache).build();

    let tenant = TenantId::try_from("tenant_1").unwrap();
    let principal = PrincipalId::try_from("user_1").unwrap();
    let required = Permission::try_from("invoice:read").unwrap();

    let wildcard_decision = wildcard_engine
        .authorize(tenant.clone(), principal.clone(), required.clone())
        .unwrap();
    assert_eq!(wildcard_decision, Decision::Allow);

    let strict_decision = strict_engine
        .authorize(tenant, principal, required)
        .unwrap();
    assert_eq!(strict_decision, Decision::Deny);
}

#[test]
fn role_cycle_should_return_error() {
    let mut store = active_store();

    let role_a = RoleId::try_from("role_a").unwrap();
    let role_b = RoleId::try_from("role_b").unwrap();
    store.roles = vec![role_a.clone()];
    store.role_permissions.insert(
        role_a.clone(),
        vec![Permission::try_from("invoice:read").unwrap()],
    );
    store
        .role_inherits
        .insert(role_a.clone(), vec![role_b.clone()]);
    store.role_inherits.insert(role_b, vec![role_a.clone()]);

    let engine = EngineBuilder::new(store)
        .enable_role_hierarchy(true)
        .build();
    let result = engine.authorize(
        TenantId::try_from("tenant_1").unwrap(),
        PrincipalId::try_from("user_1").unwrap(),
        Permission::try_from("invoice:read").unwrap(),
    );

    assert!(matches!(result, Err(Error::RoleCycleDetected { .. })));
}

#[test]
fn role_depth_should_return_error_when_exceeded() {
    let mut store = active_store();

    let role_a = RoleId::try_from("role_a").unwrap();
    let role_b = RoleId::try_from("role_b").unwrap();
    let role_c = RoleId::try_from("role_c").unwrap();
    store.roles = vec![role_a.clone()];
    store
        .role_inherits
        .insert(role_a.clone(), vec![role_b.clone()]);
    store.role_inherits.insert(role_b, vec![role_c]);

    let engine = EngineBuilder::new(store)
        .enable_role_hierarchy(true)
        .max_inherit_depth(1)
        .build();
    let result = engine.authorize(
        TenantId::try_from("tenant_1").unwrap(),
        PrincipalId::try_from("user_1").unwrap(),
        Permission::try_from("invoice:read").unwrap(),
    );

    assert!(matches!(result, Err(Error::RoleDepthExceeded { .. })));
}

#[test]
fn no_roles_should_deny_and_give_no_scope() {
    let engine = EngineBuilder::new(active_store())
        .enable_wildcard(true)
        .enable_role_hierarchy(true)
        .build();
    let decision = engine
        .authorize(tenant(), user(), perm("invoice:read"))
        .unwrap();
    assert_eq!(decision, Decision::Deny);
    let scope = engine
        .scope(tenant(), user(), ResourceName::try_from("invoice").unwrap())
        .unwrap();
    assert_eq!(scope, Scope::NoAccess);
}

#[test]
fn inactive_principal_should_deny() {
    let mut store = active_store();
    store.principal_active = false;
    let role = RoleId::try_from("role_a").unwrap();
    store.roles = vec![role.clone()];
    store.role_permissions.insert(role, vec![perm("invoice:read")]);
    let engine = EngineBuilder::new(store).build();
    assert_eq!(
        engine.authorize(tenant(), user(), perm("invoice:read")).unwrap(),
        Decision::Deny
    );
    assert_eq!(
        engine
            .scope(tenant(), user(), ResourceName::try_from("invoice").unwrap())
            .unwrap(),
        Scope::NoAccess
    );
}

#[test]
fn inactive_tenant_should_deny_whatever_the_roles() {
    let mut store = active_store();
    store.tenant_active = false;
    let role = RoleId::try_from("role_a").unwrap();
    store.roles = vec![role.clone()];
    store.role_permissions.insert(role, vec![perm("*:*")]);
    let engine = EngineBuilder::new(store).enable_wildcard(true).build();
    assert_eq!(
        engine.authorize(tenant(), user(), perm("invoice:read")).unwrap(),
        Decision::Deny
    );
}

#[test]
fn store_failure_should_surface_as_error() {
    let engine = EngineBuilder::new(FailingStore).build();
    let result = engine.authorize(tenant(), user(), perm("invoice:read"));
    match result {
        Err(Error::Store(e)) => assert_eq!(e.message(), "backend down"),
        other => panic!("unexpected result: {other:?}"),
    }
    let result = engine.scope(tenant(), user(), ResourceName::try_from("invoice").unwrap());
    assert!(matches!(result, Err(Error::Store(_))));
}

#[test]
fn wildcard_grant_should_follow_the_engine_setting() {
    let mut store = active_store();
    let role = RoleId::try_from("role_a").unwrap();
    store.roles = vec![role.clone()];
    store.role_permissions.insert(role, vec![perm("invoice:*")]);

    let strict = EngineBuilder::new(store.clone()).enable_wildcard(false).build();
    assert_eq!(
        strict.authorize(tenant(), user(), perm("invoice:read")).unwrap(),
        Decision::Deny
    );
    assert_eq!(
        strict
            .scope(tenant(), user(), ResourceName::try_from("invoice").unwrap())
            .unwrap(),
        Scope::NoAccess
    );

    let open = EngineBuilder::new(store).enable_wildcard(true).build();
    assert_eq!(
        open.authorize(tenant(), user(), perm("invoice:read")).unwrap(),
        Decision::Allow
    );
    assert_eq!(
        open.scope(tenant(), user(), ResourceName::try_from("invoice").unwrap())
            .unwrap(),
        Scope::TenantOnly { tenant: tenant() }
    );
}

#[test]
fn role_chain_should_be_reachable_within_the_depth_limit() {
    for depth in 0..6usize {
        let engine = EngineBuilder::new(chain_store(depth))
            .enable_role_hierarchy(true)
            .max_inherit_depth(depth)
            .build();
        assert_eq!(
            engine.authorize(tenant(), user(), perm("invoice:read")).unwrap(),
            Decision::Allow
        );
        let engine = EngineBuilder::new(chain_store(depth))
            .enable_role_hierarchy(true)
            .max_inherit_depth(depth + 3)
            .build();
        assert_eq!(
            engine.authorize(tenant(), user(), perm("invoice:read")).unwrap(),
            Decision::Allow
        );
    }
}

#[test]
fn role_chain_should_fail_one_below_its_length() {
    for depth in 1..6usize {
        let engine = EngineBuilder::new(chain_store(depth))
            .enable_role_hierarchy(true)
            .max_inherit_depth(depth - 1)
            .build();
        let result = engine.authorize(tenant(), user(), perm("invoice:read"));
        match result {
            Err(Error::RoleDepthExceeded { tenant: t, role, max_depth }) => {
                assert_eq!(t, tenant());
                assert_eq!(role.as_str(), format!("role_{depth}"));
                assert_eq!(max_depth, depth - 1);
            }
            other => panic!("unexpected result: {other:?}"),
        }
    }
}

#[test]
fn role_chain_should_be_ignored_without_hierarchy() {
    let engine = EngineBuilder::new(chain_store(2)).build();
    assert_eq!(
        engine.authorize(tenant(), user(), perm("invoice:read")).unwrap(),
        Decision::Deny
    );
}

#[test]
fn back_edge_should_give_cycle_error() {
    for target in 0..4usize {
        for limit in [3usize, 4, 16] {
            let mut store = chain_store(3);
            let tail = RoleId::try_from("role_3").unwrap();
            let back = RoleId::try_from(format!("role_{target}").as_str()).unwrap();
            store.role_inherits.insert(tail, vec![back]);
            let engine = EngineBuilder::new(store)
                .enable_role_hierarchy(true)
                .max_inherit_depth(limit)
                .build();
            let result = engine.authorize(tenant(), user(), perm("invoice:read"));
            match result {
                Err(Error::RoleCycleDetected { tenant: t, role }) => {
                    assert_eq!(t, tenant());
                    assert_eq!(role.as_str(), format!("role_{target}"));
                }
                other => panic!("unexpected result for limit {limit}: {other:?}"),
            }
        }
    }
}

#[test]
fn role_cycle_should_return_error_at_the_depth_limit() {
    let mut store = active_store();
    let role_a = RoleId::try_from("role_a").unwrap();
    let role_b = RoleId::try_from("role_b").unwrap();
    store.roles = vec![role_a.clone()];
    store
        .role_inherits
        .insert(role_a.clone(), vec![role_b.clone()]);
    store.role_inherits.insert(role_b, vec![role_a.clone()]);
    let engine = EngineBuilder::new(store)
        .enable_role_hierarchy(true)
        .max_inherit_depth(1)
        .build();
    let result = engine.authorize(tenant(), user(), perm("invoice:read"));
    match result {
        Err(Error::RoleCycleDetected { tenant: t, role }) => {
            assert_eq!(t, tenant());
            assert_eq!(role, role_a);
        }
        other => panic!("unexpected result: {other:?}"),
    }
}

#[test]
fn diamond_should_count_each_role_once() {
    let mut store = active_store();
    let a = RoleId::try_from("a").unwrap();
    let b = RoleId::try_from("b").unwrap();
    let c = RoleId::try_from("c").unwrap();
    let d = RoleId::try_from("d").unwrap();
    store.roles = vec![a.clone(), d.clone(), a.clone()];
    store.role_inherits.insert(a, vec![b.clone(), c.clone()]);
    store.role_inherits.insert(b, vec![d.clone()]);
    store.role_inherits.insert(c, vec![d.clone()]);
    store.role_permissions.insert(d, vec![perm("invoice:read")]);
    let engine = EngineBuilder::new(store)
        .enable_role_hierarchy(true)
        .max_inherit_depth(2)
        .build();
    assert_eq!(
        engine.authorize(tenant(), user(), perm("invoice:read")).unwrap(),
        Decision::Allow
    );
}

#[test]
fn error_messages_should_name_what_failed() {
    let cycle = Error::RoleCycleDetected {
        tenant: tenant(),
        role: RoleId::try_from("role_a").unwrap(),
    };
    assert_eq!(
        cycle.to_string(),
        "role cycle detected for tenant tenant_1 at role role_a"
    );
    let depth = Error::RoleDepthExceeded {
        tenant: tenant(),
        role: RoleId::try_from("role_b").unwrap(),
        max_depth: 16,
    };
    assert_eq!(
        depth.to_string(),
        "role inheritance depth exceeded for tenant tenant_1 at role role_b; max depth 16"
    );
    let store = Error::from(StoreError::new(String::from("down")));
    assert_eq!(store.to_string(), "store error: down");
    assert_eq!(
        Error::InvalidId(String::from("x")).to_string(),
        "invalid id: x"
    );
    assert_eq!(
        Error::InvalidPermission(String::from("y")).to_string(),
        "invalid permission: y"
    );
}

#[test]
fn cached_entry_should_carry_the_signature() {
    let engine = EngineBuilder::new(active_store())
        .enable_role_hierarchy(true)
        .max_inherit_depth(7)
        .permission_normalize(false)
        .build();
    let entry = engine.encode_cached_permissions(vec![perm("invoice:read")]);
    assert_eq!(entry.len(), 2);
    assert_eq!(
        entry[0].as_str(),
        "__rs_tenant_cache_sig__=rh:1;wc:0;depth:7;norm:0"
    );
    assert_eq!(entry[1].as_str(), "invoice:read");
    let decoded = engine.decode_cached_permissions(entry.clone()).unwrap();
    assert_eq!(decoded, vec![perm("invoice:read")]);

    let other = EngineBuilder::new(active_store()).build();
    assert!(other.decode_cached_permissions(entry).is_none());
    assert!(other.decode_cached_permissions(Vec::new()).is_none());
}
