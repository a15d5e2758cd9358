use rs_tenant::memory_cache::distribute_capacity;
use rs_tenant::memory_cache::default_shard_count;
use rs_tenant::memory_cache::hash_key;
use rs_tenant::memory_cache::normalize_shard_count;
use rs_tenant::Cache;
use rs_tenant::MemoryCache;
use rs_tenant::NoCache;
use rs_tenant::Permission;
use rs_tenant::PrincipalId;
use rs_tenant::RoleId;
use rs_tenant::TenantId;
use std::time::Duration;

fn tenant() -> TenantId {
    TenantId::try_from("tenant_1").unwrap()
}

fn principal(value: &str) -> PrincipalId {
    PrincipalId::try_from(value).unwrap()
}

fn perm(value: &str) -> Permission {
    Permission::try_from(value).unwrap()
}

#[test]
fn lru_should_evict_least_recently_used() {
    let cache = MemoryCache::new(2);
    let tenant = tenant();
    let principal_a = principal("user_a");
    let principal_b = principal("user_b");
    let principal_c = principal("user_c");

    cache.set_permissions(&tenant, &principal_a, vec![perm("invoice:read")]);
    cache.set_permissions(&tenant, &principal_b, vec![perm("invoice:write")]);
    let _ = cache.get_permissions(&tenant, &principal_a);
    cache.set_permissions(&tenant, &principal_c, vec![perm("invoice:delete")]);

    assert!(cache.get_permissions(&tenant, &principal_b).is_none());
    assert!(cache.get_permissions(&tenant, &principal_a).is_some());
    assert!(cache.get_permissions(&tenant, &principal_c).is_some());
}

#[test]
fn ttl_should_expire_entries() {
    let cache = MemoryCache::new(1).with_ttl(Duration::from_millis(10));
    let tenant = tenant();
    let principal = principal("user_a");

    cache.set_permissions_at(&tenant, &principal, vec![perm("invoice:read")], 0);
    let later = Duration::from_millis(20).as_nanos();

    assert!(cache.get_permissions_at(&tenant, &principal, later).is_none());
}

#[test]
fn invalidate_tenant_should_clear_entries() {
    let cache = MemoryCache::new(2);
    let tenant = tenant();
    let principal_a = principal("user_a");
    let principal_b = principal("user_b");

    cache.set_permissions(&tenant, &principal_a, vec![perm("invoice:read")]);
    cache.set_permissions(&tenant, &principal_b, vec![perm("invoice:write")]);
    cache.invalidate_tenant(&tenant);

    assert!(cache.get_permissions(&tenant, &principal_a).is_none());
    assert!(cache.get_permissions(&tenant, &principal_b).is_none());
}

#[test]
fn with_shards_should_enable_sharding_for_large_cache() {
    let cache = MemoryCache::new(1024).with_shards(8);
    assert_eq!(cache.shard_count(), 8);
    assert_eq!(cache.shard_capacities().iter().sum::<usize>(), 1024);
}

#[test]
fn ttl_should_keep_entries_until_they_expire() {
    let cache = MemoryCache::new(4).with_ttl_nanos(100);
    assert_eq!(cache.ttl_nanos(), Some(100));
    let tenant = tenant();
    let user = principal("user_a");
    cache.set_permissions_at(&tenant, &user, vec![perm("invoice:read")], 1_000);
    assert_eq!(
        cache.get_permissions_at(&tenant, &user, 1_100),
        Some(vec![perm("invoice:read")])
    );
    assert_eq!(
        cache.get_permissions_at(&tenant, &user, 900),
        Some(vec![perm("invoice:read")])
    );
    assert!(cache.get_permissions_at(&tenant, &user, 1_101).is_none());
    assert!(cache.get_permissions_at(&tenant, &user, 1_000).is_none());
}

#[test]
fn write_should_prune_expired_entries_of_the_shard() {
    let cache = MemoryCache::new(2).with_ttl_nanos(10);
    let tenant = tenant();
    cache.set_permissions_at(&tenant, &principal("user_a"), vec![perm("a:a")], 0);
    cache.set_permissions_at(&tenant, &principal("user_b"), vec![perm("b:b")], 5);
    cache.set_permissions_at(&tenant, &principal("user_c"), vec![perm("c:c")], 12);
    assert!(cache.get_permissions_at(&tenant, &principal("user_a"), 12).is_none());
    assert!(cache.get_permissions_at(&tenant, &principal("user_b"), 12).is_some());
    assert!(cache.get_permissions_at(&tenant, &principal("user_c"), 12).is_some());
}

#[test]
fn time_to_live_should_come_from_the_duration() {
    let cache = MemoryCache::new(1).with_ttl(Duration::from_millis(10));
    assert_eq!(cache.ttl_nanos(), Some(10_000_000));
    assert_eq!(cache.capacity(), 1);
}

#[test]
fn overwrite_should_replace_and_refresh() {
    let cache = MemoryCache::new(2);
    let tenant = tenant();
    let a = principal("user_a");
    let b = principal("user_b");
    let c = principal("user_c");
    cache.set_permissions(&tenant, &a, vec![perm("a:one")]);
    cache.set_permissions(&tenant, &b, vec![perm("b:one")]);
    cache.set_permissions(&tenant, &a, vec![perm("a:two")]);
    cache.set_permissions(&tenant, &c, vec![perm("c:one")]);
    assert_eq!(cache.get_permissions(&tenant, &a), Some(vec![perm("a:two")]));
    assert!(cache.get_permissions(&tenant, &b).is_none());
    assert_eq!(cache.get_permissions(&tenant, &c), Some(vec![perm("c:one")]));
}

#[test]
fn zero_capacity_should_disable_caching() {
    let cache = MemoryCache::new(0);
    assert_eq!(cache.shard_count(), 1);
    let tenant = tenant();
    let user = principal("user_a");
    cache.set_permissions(&tenant, &user, vec![perm("invoice:read")]);
    assert!(cache.get_permissions(&tenant, &user).is_none());
}

#[test]
fn invalidate_principal_should_drop_one_entry() {
    let cache = MemoryCache::new(4);
    let tenant = tenant();
    let a = principal("user_a");
    let b = principal("user_b");
    cache.set_permissions(&tenant, &a, vec![perm("invoice:read")]);
    cache.set_permissions(&tenant, &b, vec![perm("invoice:write")]);
    cache.invalidate_principal(&tenant, &a);
    assert!(cache.get_permissions(&tenant, &a).is_none());
    assert!(cache.get_permissions(&tenant, &b).is_some());
}

#[test]
fn invalidate_role_should_clear_the_tenant_only() {
    let cache = MemoryCache::new(1024).with_shards(8);
    let tenant = tenant();
    let other = TenantId::try_from("tenant_2").unwrap();
    for i in 0..20 {
        let user = principal(format!("user_{i}").as_str());
        cache.set_permissions(&tenant, &user, vec![perm("invoice:read")]);
        cache.set_permissions(&other, &user, vec![perm("invoice:read")]);
    }
    cache.invalidate_role(&tenant, &RoleId::try_from("role_a").unwrap());
    for i in 0..20 {
        let user = principal(format!("user_{i}").as_str());
        assert!(cache.get_permissions(&tenant, &user).is_none());
        assert!(cache.get_permissions(&other, &user).is_some());
    }
}

#[test]
fn clone_should_share_entries() {
    let cache = MemoryCache::new(4);
    let twin = cache.clone();
    let tenant = tenant();
    let user = principal("user_a");
    cache.set_permissions(&tenant, &user, vec![perm("invoice:read")]);
    assert_eq!(
        twin.get_permissions(&tenant, &user),
        Some(vec![perm("invoice:read")])
    );
}

#[test]
fn shard_counts_should_follow_the_rules() {
    assert_eq!(normalize_shard_count(0, 8), 1);
    assert_eq!(normalize_shard_count(10, 0), 1);
    assert_eq!(normalize_shard_count(10, 16), 10);
    assert_eq!(normalize_shard_count(10, 4), 4);
    assert_eq!(default_shard_count(127, Some(8)), 1);
    assert_eq!(default_shard_count(128, Some(8)), 8);
    assert_eq!(default_shard_count(128, Some(64)), 16);
    assert_eq!(default_shard_count(128, None), 4);
    assert_eq!(MemoryCache::new(127).shard_count(), 1);
    assert_eq!(MemoryCache::new(4096).shard_count(), 4);
    assert_eq!(MemoryCache::with_parallelism(4096, Some(12)).shard_count(), 12);
}

#[test]
fn capacity_should_be_spread_with_the_remainder_first() {
    assert_eq!(distribute_capacity(10, 4), vec![3, 3, 2, 2]);
    assert_eq!(distribute_capacity(8, 4), vec![2, 2, 2, 2]);
    assert_eq!(distribute_capacity(3, 1), vec![3]);
    assert_eq!(distribute_capacity(5, 0), Vec::<usize>::new());
    assert_eq!(MemoryCache::new(1024).with_shards(3).shard_capacities(), vec![342, 341, 341]);
}

#[test]
fn key_hash_should_be_stable_and_tell_keys_apart() {
    let tenant = tenant();
    let a = principal("user_a");
    assert_eq!(hash_key(&tenant, &a), hash_key(&tenant.clone(), &a.clone()));
    assert_ne!(hash_key(&tenant, &a), hash_key(&tenant, &principal("user_b")));
    let empty_tenant = TenantId::from_string(String::new());
    let empty_principal = PrincipalId::from_string(String::new());
    assert_eq!(hash_key(&empty_tenant, &empty_principal), 0xaf64724c8602eb6e);
    let cache = MemoryCache::new(1024).with_shards(8);
    assert_eq!(
        cache.shard_index(&tenant, &a),
        (hash_key(&tenant, &a) % 8) as usize
    );
}

#[test]
fn no_cache_should_hold_nothing() {
    let cache = NoCache;
    let tenant = tenant();
    let user = principal("user_a");
    cache.set_permissions(&tenant, &user, vec![perm("invoice:read")]);
    assert!(cache.get_permissions(&tenant, &user).is_none());
    cache.invalidate_principal(&tenant, &user);
    cache.invalidate_role(&tenant, &RoleId::try_from("role_a").unwrap());
    cache.invalidate_tenant(&tenant);
}
