use rs_tenant::resolution::decode_cached_permissions;
use rs_tenant::resolution::encode_cached_permissions;
use rs_tenant::resolution::holds_permission;
use rs_tenant::resolution::holds_role;
use rs_tenant::resolution::merge_permissions;
use rs_tenant::resolution::Answer;
use rs_tenant::resolution::Outcome;
use rs_tenant::resolution::Phase;
use rs_tenant::resolution::Query;
use rs_tenant::resolution::Resolution;
use rs_tenant::Error;
use rs_tenant::GlobalRoleId;
use rs_tenant::Permission;
use rs_tenant::PrincipalId;
use rs_tenant::RoleId;
use rs_tenant::StoreError;
use rs_tenant::TenantId;

fn perm(value: &str) -> Permission {
    Permission::try_from(value).unwrap()
}

fn role(value: &str) -> RoleId {
    RoleId::try_from(value).unwrap()
}

fn marker() -> Permission {
    Permission::from_string(String::from("sig"))
}

fn begun(hierarchy: bool, max_depth: usize) -> Resolution {
    let (state, query) = Resolution::begin(
        TenantId::try_from("tenant_1").unwrap(),
        PrincipalId::try_from("user_1").unwrap(),
        marker(),
        hierarchy,
        max_depth,
    );
    assert!(matches!(query, Query::TenantActive));
    assert_eq!(state.phase(), Phase::Tenant);
    assert_eq!(state.tenant().as_str(), "tenant_1");
    assert_eq!(state.principal().as_str(), "user_1");
    state
}

fn at_roles(hierarchy: bool, max_depth: usize) -> Resolution {
    let mut state = begun(hierarchy, max_depth);
    assert!(matches!(state.advance(Answer::Flag(true)), Query::PrincipalActive));
    assert!(matches!(state.advance(Answer::Flag(true)), Query::CachedPermissions));
    assert!(matches!(state.advance(Answer::Cached(None)), Query::PrincipalRoles));
    state
}

#[test]
fn flat_resolution_should_ask_in_order() {
    let mut state = at_roles(false, 16);
    let query = state.advance(Answer::Roles(vec![role("a"), role("b")]));
    assert!(matches!(query, Query::RolePermissions(r) if r.as_str() == "a"));
    let query = state.advance(Answer::Permissions(vec![perm("x:read"), perm("y:read")]));
    assert!(matches!(query, Query::RolePermissions(r) if r.as_str() == "b"));
    let query = state.advance(Answer::Permissions(vec![perm("y:read"), perm("z:read")]));
    assert!(matches!(query, Query::GlobalRoles));
    let query = state.advance(Answer::GlobalRoles(vec![GlobalRoleId::try_from("g").unwrap()]));
    assert!(matches!(query, Query::GlobalRolePermissions(r) if r.as_str() == "g"));
    let query = state.advance(Answer::Permissions(vec![perm("x:read"), perm("w:read")]));
    let expected = vec![perm("x:read"), perm("y:read"), perm("z:read"), perm("w:read")];
    match query {
        Query::StorePermissions(entry) => {
            assert_eq!(entry[0], marker());
            assert_eq!(entry[1..], expected[..]);
        }
        other => panic!("unexpected query: {other:?}"),
    }
    assert_eq!(state.phase(), Phase::Store);
    match state.advance(Answer::Stored) {
        Query::Finished(Outcome::Permissions(found)) => assert_eq!(found, expected),
        other => panic!("unexpected query: {other:?}"),
    }
    assert_eq!(state.phase(), Phase::Done);
    assert!(!state.accepts(&Answer::Nothing));
}

#[test]
fn cache_hit_should_end_the_resolution() {
    let mut state = begun(true, 16);
    state.advance(Answer::Flag(true));
    state.advance(Answer::Flag(true));
    let entry = vec![marker(), perm("x:read")];
    match state.advance(Answer::Cached(Some(entry))) {
        Query::Finished(Outcome::Permissions(found)) => assert_eq!(found, vec![perm("x:read")]),
        other => panic!("unexpected query: {other:?}"),
    }
}

#[test]
fn foreign_or_empty_entry_should_be_a_miss() {
    for entry in [vec![perm("x:read")], Vec::new(), vec![perm("x:read"), marker()]] {
        let mut state = begun(false, 16);
        state.advance(Answer::Flag(true));
        state.advance(Answer::Flag(true));
        assert!(matches!(
            state.advance(Answer::Cached(Some(entry))),
            Query::PrincipalRoles
        ));
    }
}

#[test]
fn inactive_flags_should_end_the_resolution() {
    let mut state = begun(false, 16);
    assert!(matches!(
        state.advance(Answer::Flag(false)),
        Query::Finished(Outcome::Inactive)
    ));
    let mut state = begun(false, 16);
    state.advance(Answer::Flag(true));
    assert!(matches!(
        state.advance(Answer::Flag(false)),
        Query::Finished(Outcome::Inactive)
    ));
}

#[test]
fn store_failure_should_end_the_resolution() {
    let mut state = at_roles(true, 16);
    assert!(state.accepts(&Answer::Failed(StoreError::new(String::from("down")))));
    match state.advance(Answer::Failed(StoreError::new(String::from("down")))) {
        Query::Finished(Outcome::Failed(Error::Store(e))) => assert_eq!(e.message(), "down"),
        other => panic!("unexpected query: {other:?}"),
    }
}

#[test]
fn walk_should_visit_in_depth_first_order() {
    let mut state = at_roles(true, 16);
    let query = state.advance(Answer::Roles(vec![role("a"), role("d"), role("a")]));
    assert!(matches!(query, Query::RoleInherits(r) if r.as_str() == "a"));
    assert_eq!(state.phase(), Phase::Parents);
    assert!(!state.accepts(&Answer::Nothing));
    let query = state.advance(Answer::Roles(vec![role("b"), role("c")]));
    assert!(matches!(query, Query::RoleInherits(r) if r.as_str() == "b"));
    let query = state.advance(Answer::Roles(vec![role("d")]));
    assert!(matches!(query, Query::RoleInherits(r) if r.as_str() == "d"));
    let mut query = state.advance(Answer::Roles(Vec::new()));
    let mut moves = 0;
    while matches!(query, Query::Continue) {
        assert_eq!(state.phase(), Phase::Walk);
        assert!(state.accepts(&Answer::Nothing));
        query = state.advance(Answer::Nothing);
        moves += 1;
    }
    assert_eq!(moves, 2);
    assert!(matches!(query, Query::RoleInherits(r) if r.as_str() == "c"));
    let mut query = state.advance(Answer::Roles(vec![role("d")]));
    let mut order = Vec::new();
    loop {
        match query {
            Query::Continue => query = state.advance(Answer::Nothing),
            Query::RolePermissions(r) => {
                order.push(r.to_string());
                query = state.advance(Answer::Permissions(Vec::new()));
            }
            Query::GlobalRoles => break,
            other => panic!("unexpected query: {other:?}"),
        }
    }
    assert_eq!(order, ["a", "b", "d", "c"]);
}

#[test]
fn self_loop_should_be_a_cycle() {
    let mut state = at_roles(true, 16);
    state.advance(Answer::Roles(vec![role("a")]));
    match state.advance(Answer::Roles(vec![role("a")])) {
        Query::Finished(Outcome::Failed(Error::RoleCycleDetected { tenant, role })) => {
            assert_eq!(tenant.as_str(), "tenant_1");
            assert_eq!(role.as_str(), "a");
        }
        other => panic!("unexpected query: {other:?}"),
    }
}

#[test]
fn cycle_should_be_found_at_the_depth_limit() {
    for limit in [1usize, 2, 16] {
        let mut state = at_roles(true, limit);
        state.advance(Answer::Roles(vec![role("a")]));
        state.advance(Answer::Roles(vec![role("b")]));
        match state.advance(Answer::Roles(vec![role("a")])) {
            Query::Finished(Outcome::Failed(Error::RoleCycleDetected { tenant, role })) => {
                assert_eq!(tenant.as_str(), "tenant_1");
                assert_eq!(role.as_str(), "a");
            }
            other => panic!("unexpected query for limit {limit}: {other:?}"),
        }
    }
    let mut state = at_roles(true, 0);
    state.advance(Answer::Roles(vec![role("a")]));
    assert!(matches!(
        state.advance(Answer::Roles(vec![role("a")])),
        Query::Finished(Outcome::Failed(Error::RoleCycleDetected { .. }))
    ));
}

#[test]
fn depth_should_end_a_walk_beyond_the_limit() {
    let mut state = at_roles(true, 1);
    state.advance(Answer::Roles(vec![role("a")]));
    state.advance(Answer::Roles(vec![role("b")]));
    match state.advance(Answer::Roles(vec![role("c")])) {
        Query::Finished(Outcome::Failed(Error::RoleDepthExceeded { role, max_depth, .. })) => {
            assert_eq!(role.as_str(), "c");
            assert_eq!(max_depth, 1);
        }
        other => panic!("unexpected query: {other:?}"),
    }
    let mut state = at_roles(true, 0);
    state.advance(Answer::Roles(vec![role("a")]));
    assert!(matches!(
        state.advance(Answer::Roles(vec![role("b")])),
        Query::Finished(Outcome::Failed(Error::RoleDepthExceeded { .. }))
    ));
}

#[test]
fn helpers_should_merge_and_frame_lists() {
    let mut acc = vec![perm("a:a")];
    merge_permissions(&mut acc, &vec![perm("b:b"), perm("a:a"), perm("b:b"), perm("c:c")]);
    assert_eq!(acc, vec![perm("a:a"), perm("b:b"), perm("c:c")]);
    assert!(holds_permission(&acc, &perm("b:b")));
    assert!(!holds_permission(&acc, &perm("d:d")));
    assert!(holds_role(&vec![role("a"), role("b")], &role("b")));
    assert!(!holds_role(&vec![role("a"), role("b")], &role("c")));
    let entry = encode_cached_permissions(&marker(), &acc);
    assert_eq!(entry.len(), 4);
    assert_eq!(decode_cached_permissions(&marker(), &entry), Some(acc));
    assert_eq!(decode_cached_permissions(&perm("x:y"), &entry), None);
}
