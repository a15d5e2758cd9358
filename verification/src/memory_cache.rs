//! A process-local cache of effective permissions: sharded, each shard
//! an LRU list with an optional time to live.
//!
//! A shard keeps its entries in the order of their last use, the least
//! recently used first, and holds no key twice. Time is counted in
//! nanoseconds since the cache was made.

use crate::cache::Cache;
use crate::permission::Permission;
use crate::resolution::clone_permissions;
use crate::types::PrincipalId;
use crate::types::RoleId;
use crate::types::TenantId;
use std::sync::Arc;
use std::sync::Mutex;
use std::sync::MutexGuard;
use std::time::Duration;
use std::time::Instant;
use vstd::prelude::*;

verus! {

/// Below this capacity a cache has one shard, so that the order of use
/// is kept over all its entries.
pub const SMALL_CACHE_SHARD_THRESHOLD: usize = 128;

/// The most shards that a cache gets unless it is told otherwise.
pub const MAX_DEFAULT_SHARDS: usize = 16;

/// The number of shards taken where the machine's parallelism is unknown.
pub const FALLBACK_PARALLELISM: usize = 4;

/// One entry of a shard.
#[derive(Debug)]
pub struct CacheEntry {
    tenant: TenantId,
    principal: PrincipalId,
    perms: Vec<Permission>,
    updated_at: u128,
}

/// A [`CacheEntry`] as plain values.
pub struct EntryModel {
    pub tenant: Seq<char>,
    pub principal: Seq<char>,
    pub perms: Seq<Seq<char>>,
    pub updated_at: u128,
}

impl DeepView for CacheEntry {
    type V = EntryModel;

    closed spec fn deep_view(&self) -> EntryModel {
        EntryModel {
            tenant: self.tenant@,
            principal: self.principal@,
            perms: self.perms.deep_view(),
            updated_at: self.updated_at,
        }
    }
}

/// The entries of one shard, the least recently used first. No key occurs
/// twice: that is the type's invariant, which every operation keeps.
#[derive(Debug)]
pub struct CacheState {
    entries: Vec<CacheEntry>,
}

impl View for CacheState {
    type V = Seq<EntryModel>;

    closed spec fn view(&self) -> Seq<EntryModel> {
        self.entries.deep_view()
    }
}

/// Whether the entry is the one of the tenant and principal.
pub open spec fn keyed(e: EntryModel, tenant: Seq<char>, principal: Seq<char>) -> bool {
    e.tenant == tenant && e.principal == principal
}

/// Whether the entry is older than `ttl` at the time `now`. An entry
/// written after `now` has the age zero.
pub open spec fn expired(e: EntryModel, ttl: u128, now: u128) -> bool {
    now > e.updated_at && now - e.updated_at > ttl
}

/// No key occurs twice.
pub open spec fn distinct(s: Seq<EntryModel>) -> bool {
    forall|i: int, j: int|
        0 <= i < j < s.len() ==> !keyed(#[trigger] s[i], (#[trigger] s[j]).tenant, s[j].principal)
}

/// The place of the first entry of the tenant and principal.
pub open spec fn position(s: Seq<EntryModel>, tenant: Seq<char>, principal: Seq<char>) -> Option<
    int,
>
    decreases s.len(),
{
    if s.len() == 0 {
        None
    } else {
        match position(s.drop_last(), tenant, principal) {
            Some(i) => Some(i),
            None => if keyed(s.last(), tenant, principal) {
                Some(s.len() - 1)
            } else {
                None
            },
        }
    }
}

/// `s` without the entry of the tenant and principal.
pub open spec fn without_key(s: Seq<EntryModel>, tenant: Seq<char>, principal: Seq<char>) -> Seq<
    EntryModel,
> {
    match position(s, tenant, principal) {
        Some(i) => s.remove(i),
        None => s,
    }
}

/// `s` with the entry of the tenant and principal moved to the end, as
/// the most recently used.
pub open spec fn touched(s: Seq<EntryModel>, tenant: Seq<char>, principal: Seq<char>) -> Seq<
    EntryModel,
> {
    match position(s, tenant, principal) {
        Some(i) => s.remove(i).push(s[i]),
        None => s,
    }
}

/// `s` without the entries that are expired at `now`.
pub open spec fn pruned(s: Seq<EntryModel>, ttl: u128, now: u128) -> Seq<EntryModel>
    decreases s.len(),
{
    if s.len() == 0 {
        s
    } else if expired(s.last(), ttl, now) {
        pruned(s.drop_last(), ttl, now)
    } else {
        pruned(s.drop_last(), ttl, now).push(s.last())
    }
}

/// `s` without the entries of the tenant.
pub open spec fn without_tenant(s: Seq<EntryModel>, tenant: Seq<char>) -> Seq<EntryModel>
    decreases s.len(),
{
    if s.len() == 0 {
        s
    } else if s.last().tenant == tenant {
        without_tenant(s.drop_last(), tenant)
    } else {
        without_tenant(s.drop_last(), tenant).push(s.last())
    }
}

/// The `capacity` most recently used entries of `s`; all of `s` where it
/// holds no more.
pub open spec fn evicted(s: Seq<EntryModel>, capacity: nat) -> Seq<EntryModel> {
    if s.len() > capacity {
        s.subrange(s.len() - capacity, s.len() as int)
    } else {
        s
    }
}

/// `s` after the time to live has been applied, where there is one.
pub open spec fn fresh(s: Seq<EntryModel>, ttl: Option<u128>, now: u128) -> Seq<EntryModel> {
    match ttl {
        Some(t) => pruned(s, t, now),
        None => s,
    }
}

/// The shard after a write at `now`: the expired entries are dropped, the
/// entry is put last with the time `now`, and the least recently used
/// entries leave until at most `capacity` are held.
pub open spec fn inserted(
    s: Seq<EntryModel>,
    tenant: Seq<char>,
    principal: Seq<char>,
    perms: Seq<Seq<char>>,
    ttl: Option<u128>,
    now: u128,
    capacity: nat,
) -> Seq<EntryModel> {
    evicted(
        without_key(fresh(s, ttl, now), tenant, principal).push(
            EntryModel { tenant, principal, perms, updated_at: now },
        ),
        capacity,
    )
}

/// The shard after a read at `now`, and what the read gives: an entry
/// that is expired is dropped and reported absent; any other is moved to
/// the end and its permissions are handed out.
pub open spec fn looked_up(
    s: Seq<EntryModel>,
    tenant: Seq<char>,
    principal: Seq<char>,
    ttl: Option<u128>,
    now: u128,
) -> (Seq<EntryModel>, Option<Seq<Seq<char>>>) {
    match position(s, tenant, principal) {
        None => (s, None),
        Some(i) => if ttl matches Some(t) && expired(s[i], t, now) {
            (s.remove(i), None)
        } else {
            (s.remove(i).push(s[i]), Some(s[i].perms))
        },
    }
}

/// The share of the shard `index` in a capacity spread over `shards`
/// shards: the shares differ by one at most, the larger come first.
pub open spec fn share(capacity: nat, shards: nat, index: nat) -> nat {
    if shards == 0 {
        0
    } else {
        capacity / shards + if index < capacity % shards {
            1nat
        } else {
            0nat
        }
    }
}

/// The sum of the shares of the first `count` shards.
pub open spec fn shares(capacity: nat, shards: nat, count: nat) -> nat
    decreases count,
{
    if count == 0 {
        0
    } else {
        shares(capacity, shards, (count - 1) as nat) + share(capacity, shards, (count - 1) as nat)
    }
}

/// The number of shards for a capacity and a requested number: one for
/// the capacity zero, else the request, raised to one and cut to the
/// capacity.
pub open spec fn normal_shards(capacity: nat, requested: nat) -> nat {
    if capacity == 0 {
        1
    } else if requested < 1 {
        1
    } else if requested > capacity {
        capacity
    } else {
        requested
    }
}

/// The number of shards of a new cache: one below the threshold, else the
/// machine's parallelism, four where it is unknown, sixteen at most.
pub open spec fn default_shards(capacity: nat, parallelism: Option<nat>) -> nat {
    if capacity < SMALL_CACHE_SHARD_THRESHOLD {
        1
    } else {
        let wanted = match parallelism {
            Some(n) => n,
            None => FALLBACK_PARALLELISM as nat,
        };
        normal_shards(
            capacity,
            if wanted > MAX_DEFAULT_SHARDS {
                MAX_DEFAULT_SHARDS as nat
            } else {
                wanted
            },
        )
    }
}

/// One step of the hash of a key: FNV-1a over the characters.
pub open spec fn mix(h: u64, c: u64) -> u64 {
    (((h ^ c) as int * 0x100000001b3) % 0x1_0000_0000_0000_0000) as u64
}

/// The hash of `s`, taken up from `h`.
pub open spec fn hashed(h: u64, s: Seq<char>) -> u64
    decreases s.len(),
{
    if s.len() == 0 {
        h
    } else {
        mix(hashed(h, s.drop_last()), s.last() as u64)
    }
}

/// The hash of a key: over the tenant, a separator and the principal.
pub open spec fn key_hash(tenant: Seq<char>, principal: Seq<char>) -> u64 {
    hashed(mix(hashed(0xcbf29ce484222325, tenant), 0xff), principal)
}

/// The shares of all the shards make up the capacity.
pub proof fn lemma_shares_total(capacity: nat, shards: nat)
    requires
        shards > 0,
    ensures
        shares(capacity, shards, shards) == capacity,
{
    lemma_shares_upto(capacity, shards, shards);
    assert(capacity == shards * (capacity / shards) + capacity % shards) by (nonlinear_arith)
        requires
            shards > 0,
    ;
    assert(capacity % shards < shards) by (nonlinear_arith)
        requires
            shards > 0,
    ;
}

proof fn lemma_shares_upto(capacity: nat, shards: nat, count: nat)
    requires
        shards > 0,
        count <= shards,
    ensures
        shares(capacity, shards, count) == count * (capacity / shards) + (if count < capacity
            % shards {
            count
        } else {
            capacity % shards
        }),
    decreases count,
{
    let base = capacity / shards;
    if count > 0 {
        let prev = (count - 1) as nat;
        lemma_shares_upto(capacity, shards, prev);
        assert(prev * base + base == count * base) by (nonlinear_arith)
            requires
                prev + 1 == count,
        ;
    } else {
        assert(count * base == 0) by (nonlinear_arith)
            requires
                count == 0,
        ;
    }
}

/// The first entry of a key in a prefix is the first in the whole.
pub proof fn lemma_position_prefix(
    s: Seq<EntryModel>,
    tenant: Seq<char>,
    principal: Seq<char>,
    k: int,
)
    requires
        0 <= k <= s.len(),
        position(s.take(k), tenant, principal) is Some,
    ensures
        position(s, tenant, principal) == position(s.take(k), tenant, principal),
    decreases s.len() - k,
{
    if k < s.len() {
        assert(s.take(k + 1).drop_last() =~= s.take(k));
        lemma_position_prefix(s, tenant, principal, k + 1);
    } else {
        assert(s.take(k) =~= s);
    }
}

/// What `position` finds is an entry of the key, and none stands before
/// it; where it finds nothing, no entry has the key.
pub proof fn lemma_position(s: Seq<EntryModel>, tenant: Seq<char>, principal: Seq<char>)
    ensures
        match position(s, tenant, principal) {
            Some(i) => 0 <= i < s.len() && keyed(s[i], tenant, principal) && forall|j: int|
                0 <= j < i ==> !keyed(#[trigger] s[j], tenant, principal),
            None => forall|j: int| 0 <= j < s.len() ==> !keyed(#[trigger] s[j], tenant, principal),
        },
    decreases s.len(),
{
    if s.len() > 0 {
        let t = s.drop_last();
        lemma_position(t, tenant, principal);
        match position(t, tenant, principal) {
            Some(i) => {
                assert(t[i] == s[i]);
                assert forall|j: int| 0 <= j < i implies !keyed(
                    #[trigger] s[j],
                    tenant,
                    principal,
                ) by {
                    assert(t[j] == s[j]);
                }
            },
            None => {
                assert forall|j: int| 0 <= j < s.len() - 1 implies !keyed(
                    #[trigger] s[j],
                    tenant,
                    principal,
                ) by {
                    assert(t[j] == s[j]);
                }
            },
        }
    }
}

/// After a write, a read of the same key before the entry expires gives
/// what was written, where the shard may hold anything at all.
pub proof fn lemma_read_after_write(
    s: Seq<EntryModel>,
    tenant: Seq<char>,
    principal: Seq<char>,
    perms: Seq<Seq<char>>,
    ttl: Option<u128>,
    now: u128,
    later: u128,
    capacity: nat,
)
    requires
        capacity > 0,
        distinct(s),
        ttl matches Some(t) ==> !(later > now && later - now > t),
    ensures
        looked_up(
            inserted(s, tenant, principal, perms, ttl, now, capacity),
            tenant,
            principal,
            ttl,
            later,
        ).1 == Some(perms),
{
    let entry = EntryModel { tenant, principal, perms, updated_at: now };
    let base = without_key(fresh(s, ttl, now), tenant, principal);
    lemma_fresh_distinct(s, ttl, now);
    lemma_without_key(fresh(s, ttl, now), tenant, principal);
    let full = base.push(entry);
    let after = evicted(full, capacity);
    assert(after.len() > 0);
    assert(after.last() == entry);
    assert forall|j: int| 0 <= j < after.len() - 1 implies !keyed(
        #[trigger] after[j],
        tenant,
        principal,
    ) by {
        if full.len() > capacity {
            assert(after[j] == full[j + full.len() - capacity]);
            assert(after[j] == base[j + full.len() - capacity]);
        } else {
            assert(after[j] == base[j]);
        }
    }
    lemma_position(after, tenant, principal);
}

/// No entry outlives its time to live: what a read hands out is the
/// permissions of an entry of the key that is not expired at the time of
/// the read.
pub proof fn lemma_read_is_fresh(
    s: Seq<EntryModel>,
    tenant: Seq<char>,
    principal: Seq<char>,
    ttl: u128,
    now: u128,
)
    ensures
        looked_up(s, tenant, principal, Some(ttl), now).1 matches Some(p) ==> exists|i: int|
            0 <= i < s.len() && keyed(#[trigger] s[i], tenant, principal) && !expired(
                s[i],
                ttl,
                now,
            ) && s[i].perms == p,
{
    lemma_position(s, tenant, principal);
}

/// After a write, a read of the same key later than the time to live
/// reports the entry absent.
pub proof fn lemma_read_after_expiry(
    s: Seq<EntryModel>,
    tenant: Seq<char>,
    principal: Seq<char>,
    perms: Seq<Seq<char>>,
    ttl: u128,
    now: u128,
    later: u128,
    capacity: nat,
)
    requires
        distinct(s),
        later > now && later - now > ttl,
    ensures
        looked_up(
            inserted(s, tenant, principal, perms, Some(ttl), now, capacity),
            tenant,
            principal,
            Some(ttl),
            later,
        ).1 is None,
{
    let entry = EntryModel { tenant, principal, perms, updated_at: now };
    let base = without_key(fresh(s, Some(ttl), now), tenant, principal);
    lemma_fresh_distinct(s, Some(ttl), now);
    lemma_without_key(fresh(s, Some(ttl), now), tenant, principal);
    let full = base.push(entry);
    let after = evicted(full, capacity);
    lemma_position(after, tenant, principal);
    match position(after, tenant, principal) {
        Some(i) => {
            if full.len() > capacity {
                assert(after[i] == full[i + full.len() - capacity]);
            } else {
                assert(after[i] == full[i]);
            }
            if after[i] != entry {
                assert(after[i] == base[if full.len() > capacity {
                    i + full.len() - capacity
                } else {
                    i
                }]);
            }
        },
        None => {},
    }
}

/// The least recently used entry is the one that leaves: in an empty
/// shard of the capacity two without a time to live, after writes for
/// `a` and `b`, a read of `a` and a write for `c`, the entry of `b` is
/// gone and those of `a` and `c` are read as they were written.
pub proof fn lemma_least_recently_used_leaves(
    tenant: Seq<char>,
    a: Seq<char>,
    b: Seq<char>,
    c: Seq<char>,
    pa: Seq<Seq<char>>,
    pb: Seq<Seq<char>>,
    pc: Seq<Seq<char>>,
    t1: u128,
    t2: u128,
    t3: u128,
    t4: u128,
    t5: u128,
)
    requires
        a != b,
        a != c,
        b != c,
    ensures
        ({
            let s1 = inserted(Seq::empty(), tenant, a, pa, None, t1, 2);
            let s2 = inserted(s1, tenant, b, pb, None, t2, 2);
            let (s3, read) = looked_up(s2, tenant, a, None, t3);
            let s4 = inserted(s3, tenant, c, pc, None, t4, 2);
            &&& read == Some(pa)
            &&& looked_up(s4, tenant, b, None, t5).1 is None
            &&& looked_up(s4, tenant, a, None, t5).1 == Some(pa)
            &&& looked_up(s4, tenant, c, None, t5).1 == Some(pc)
        }),
{
    let ea = EntryModel { tenant, principal: a, perms: pa, updated_at: t1 };
    let eb = EntryModel { tenant, principal: b, perms: pb, updated_at: t2 };
    let ec = EntryModel { tenant, principal: c, perms: pc, updated_at: t4 };
    let none = Seq::<EntryModel>::empty();
    let s1 = inserted(none, tenant, a, pa, None, t1, 2);
    assert(s1 =~= seq![ea]);
    lemma_position(s1, tenant, b);
    let s2 = inserted(s1, tenant, b, pb, None, t2, 2);
    assert(s2 =~= seq![ea, eb]);
    lemma_position(s2, tenant, a);
    assert(position(s2, tenant, a) == Some(0int));
    let (s3, read) = looked_up(s2, tenant, a, None, t3);
    assert(s3 =~= seq![eb, ea]);
    lemma_position(s3, tenant, c);
    let s4 = inserted(s3, tenant, c, pc, None, t4, 2);
    assert(s3.push(ec) =~= seq![eb, ea, ec]);
    assert(s4 =~= seq![ea, ec]);
    lemma_position(s4, tenant, a);
    lemma_position(s4, tenant, b);
    lemma_position(s4, tenant, c);
    assert(position(s4, tenant, a) == Some(0int));
    assert(position(s4, tenant, c) == Some(1int));
}

/// Without its entry of a key, a shard that held no key twice holds no
/// entry of that key, and still no key twice.
pub proof fn lemma_without_key(s: Seq<EntryModel>, tenant: Seq<char>, principal: Seq<char>)
    requires
        distinct(s),
    ensures
        distinct(without_key(s, tenant, principal)),
        forall|j: int|
            0 <= j < without_key(s, tenant, principal).len() ==> !keyed(
                #[trigger] without_key(s, tenant, principal)[j],
                tenant,
                principal,
            ),
{
    lemma_position(s, tenant, principal);
    let r = without_key(s, tenant, principal);
    match position(s, tenant, principal) {
        Some(i) => {
            assert forall|j: int| 0 <= j < r.len() implies !keyed(
                #[trigger] r[j],
                tenant,
                principal,
            ) by {
                if j < i {
                    assert(r[j] == s[j]);
                } else {
                    assert(r[j] == s[j + 1]);
                    assert(!keyed(s[i], s[j + 1].tenant, s[j + 1].principal));
                }
            }
            assert forall|a: int, b: int| 0 <= a < b < r.len() implies !keyed(
                #[trigger] r[a],
                (#[trigger] r[b]).tenant,
                r[b].principal,
            ) by {
                let a0 = if a < i {
                    a
                } else {
                    a + 1
                };
                let b0 = if b < i {
                    b
                } else {
                    b + 1
                };
                assert(r[a] == s[a0] && r[b] == s[b0]);
                assert(!keyed(s[a0], s[b0].tenant, s[b0].principal));
            }
        },
        None => {},
    }
}

/// Pruning keeps entries of the shard only, and no key twice where the
/// shard held none twice.
proof fn lemma_pruned_distinct(s: Seq<EntryModel>, ttl: u128, now: u128)
    requires
        distinct(s),
    ensures
        distinct(pruned(s, ttl, now)),
        forall|j: int|
            0 <= j < pruned(s, ttl, now).len() ==> s.contains(#[trigger] pruned(s, ttl, now)[j]),
    decreases s.len(),
{
    if s.len() > 0 {
        let t = s.drop_last();
        assert forall|a: int, b: int| 0 <= a < b < t.len() implies !keyed(
            #[trigger] t[a],
            (#[trigger] t[b]).tenant,
            t[b].principal,
        ) by {
            assert(t[a] == s[a] && t[b] == s[b]);
        }
        lemma_pruned_distinct(t, ttl, now);
        let r0 = pruned(t, ttl, now);
        let r = pruned(s, ttl, now);
        assert forall|j: int| 0 <= j < r0.len() implies s.contains(#[trigger] r0[j]) by {
            assert(t.contains(r0[j]));
            let i = choose|i: int| 0 <= i < t.len() && t[i] == r0[j];
            assert(s[i] == r0[j]);
        }
        if !expired(s.last(), ttl, now) {
            assert forall|j: int| 0 <= j < r.len() implies s.contains(#[trigger] r[j]) by {
                if j < r0.len() {
                    assert(r[j] == r0[j]);
                } else {
                    assert(s[s.len() - 1] == r[j]);
                }
            }
            assert forall|a: int, b: int| 0 <= a < b < r.len() implies !keyed(
                #[trigger] r[a],
                (#[trigger] r[b]).tenant,
                r[b].principal,
            ) by {
                if b < r0.len() {
                    assert(r[a] == r0[a] && r[b] == r0[b]);
                } else {
                    assert(r[a] == r0[a]);
                    assert(t.contains(r0[a]));
                    let i = choose|i: int| 0 <= i < t.len() && t[i] == r0[a];
                    assert(s[i] == r0[a]);
                    assert(!keyed(s[i], s[s.len() - 1].tenant, s[s.len() - 1].principal));
                }
            }
        }
    }
}

/// Applying the time to live to a shard that held no key twice leaves
/// one that holds no key twice.
pub proof fn lemma_fresh_distinct(s: Seq<EntryModel>, ttl: Option<u128>, now: u128)
    requires
        distinct(s),
    ensures
        distinct(fresh(s, ttl, now)),
{
    if let Some(t) = ttl {
        lemma_pruned_distinct(s, t, now);
    }
}

/// Dropping the entries of a tenant keeps entries of the shard only, and
/// no key twice where the shard held none twice.
proof fn lemma_without_tenant_distinct(s: Seq<EntryModel>, tenant: Seq<char>)
    requires
        distinct(s),
    ensures
        distinct(without_tenant(s, tenant)),
        forall|j: int|
            0 <= j < without_tenant(s, tenant).len() ==> s.contains(
                #[trigger] without_tenant(s, tenant)[j],
            ) && without_tenant(s, tenant)[j].tenant != tenant,
    decreases s.len(),
{
    if s.len() > 0 {
        let t = s.drop_last();
        assert forall|a: int, b: int| 0 <= a < b < t.len() implies !keyed(
            #[trigger] t[a],
            (#[trigger] t[b]).tenant,
            t[b].principal,
        ) by {
            assert(t[a] == s[a] && t[b] == s[b]);
        }
        lemma_without_tenant_distinct(t, tenant);
        let r0 = without_tenant(t, tenant);
        let r = without_tenant(s, tenant);
        assert forall|j: int| 0 <= j < r0.len() implies s.contains(#[trigger] r0[j]) by {
            assert(t.contains(r0[j]));
            let i = choose|i: int| 0 <= i < t.len() && t[i] == r0[j];
            assert(s[i] == r0[j]);
        }
        if s.last().tenant != tenant {
            assert forall|j: int| 0 <= j < r.len() implies s.contains(#[trigger] r[j])
                && r[j].tenant != tenant by {
                if j < r0.len() {
                    assert(r[j] == r0[j]);
                } else {
                    assert(s[s.len() - 1] == r[j]);
                }
            }
            assert forall|a: int, b: int| 0 <= a < b < r.len() implies !keyed(
                #[trigger] r[a],
                (#[trigger] r[b]).tenant,
                r[b].principal,
            ) by {
                if b < r0.len() {
                    assert(r[a] == r0[a] && r[b] == r0[b]);
                } else {
                    assert(r[a] == r0[a]);
                    assert(t.contains(r0[a]));
                    let i = choose|i: int| 0 <= i < t.len() && t[i] == r0[a];
                    assert(s[i] == r0[a]);
                    assert(!keyed(s[i], s[s.len() - 1].tenant, s[s.len() - 1].principal));
                }
            }
        }
    }
}

/// A shard that holds no key twice holds none twice after any of its
/// operations; a write leaves it within its capacity, and the
/// invalidation of a tenant leaves no entry of the tenant. An empty shard
/// holds no key twice, so no shard of a cache ever does.
pub proof fn lemma_shard_stays_distinct(
    s: Seq<EntryModel>,
    tenant: Seq<char>,
    principal: Seq<char>,
    perms: Seq<Seq<char>>,
    ttl: Option<u128>,
    now: u128,
    capacity: nat,
)
    requires
        distinct(s),
    ensures
        distinct(Seq::<EntryModel>::empty()),
        distinct(inserted(s, tenant, principal, perms, ttl, now, capacity)),
        inserted(s, tenant, principal, perms, ttl, now, capacity).len() <= capacity,
        distinct(looked_up(s, tenant, principal, ttl, now).0),
        distinct(without_key(s, tenant, principal)),
        distinct(without_tenant(s, tenant)),
        forall|j: int|
            0 <= j < without_tenant(s, tenant).len() ==> (#[trigger] without_tenant(
                s,
                tenant,
            )[j]).tenant != tenant,
{
    lemma_without_tenant_distinct(s, tenant);
    lemma_without_key(s, tenant, principal);
    lemma_fresh_distinct(s, ttl, now);
    let f = fresh(s, ttl, now);
    lemma_without_key(f, tenant, principal);
    let base = without_key(f, tenant, principal);
    let entry = EntryModel { tenant, principal, perms, updated_at: now };
    let full = base.push(entry);
    assert forall|a: int, b: int| 0 <= a < b < full.len() implies !keyed(
        #[trigger] full[a],
        (#[trigger] full[b]).tenant,
        full[b].principal,
    ) by {
        assert(full[a] == base[a]);
        if b < base.len() {
            assert(full[b] == base[b]);
        }
    }
    let kept = evicted(full, capacity);
    assert forall|a: int, b: int| 0 <= a < b < kept.len() implies !keyed(
        #[trigger] kept[a],
        (#[trigger] kept[b]).tenant,
        kept[b].principal,
    ) by {
        if full.len() > capacity {
            let shift = full.len() - capacity;
            assert(kept[a] == full[a + shift] && kept[b] == full[b + shift]);
        }
    }
    lemma_position(s, tenant, principal);
    match position(s, tenant, principal) {
        Some(i) => {
            let rest = s.remove(i);
            let moved = rest.push(s[i]);
            assert(rest == without_key(s, tenant, principal));
            assert forall|a: int, b: int| 0 <= a < b < moved.len() implies !keyed(
                #[trigger] moved[a],
                (#[trigger] moved[b]).tenant,
                moved[b].principal,
            ) by {
                assert(moved[a] == rest[a]);
                if b < rest.len() {
                    assert(moved[b] == rest[b]);
                } else {
                    assert(moved[b] == s[i]);
                    assert(!keyed(rest[a], tenant, principal));
                }
            }
        },
        None => {},
    }
}

impl CacheEntry {
    /// Whether the entry is the one of the tenant and principal.
    fn has_key(&self, tenant: &TenantId, principal: &PrincipalId) -> (r: bool)
        ensures
            r == keyed(self.deep_view(), tenant@, principal@),
    {
        self.tenant == *tenant && self.principal == *principal
    }
}

/// Eviction keeps entries of the shard only: what stays holds no key
/// twice where the shard held none twice.
pub proof fn lemma_evicted_distinct(s: Seq<EntryModel>, capacity: nat)
    requires
        distinct(s),
    ensures
        distinct(evicted(s, capacity)),
{
    let kept = evicted(s, capacity);
    assert forall|a: int, b: int| 0 <= a < b < kept.len() implies !keyed(
        #[trigger] kept[a],
        (#[trigger] kept[b]).tenant,
        kept[b].principal,
    ) by {
        if s.len() > capacity {
            let shift = s.len() - capacity;
            assert(kept[a] == s[a + shift] && kept[b] == s[b + shift]);
        }
    }
}

impl CacheState {
    /// No key occurs twice in a shard.
    #[verifier::type_invariant]
    spec fn keys_distinct(self) -> bool {
        distinct(self@)
    }

    /// An empty shard.
    pub fn new() -> (r: Self)
        ensures
            r@ == Seq::<EntryModel>::empty(),
    {
        let r = CacheState { entries: Vec::new() };
        assert(r@ =~= Seq::<EntryModel>::empty());
        r
    }

    /// The number of entries held.
    pub fn len(&self) -> (r: usize)
        ensures
            r == self@.len(),
    {
        self.entries.len()
    }

    /// Takes the entries out of the shard, which is left empty.
    fn take_entries(&mut self) -> (r: Vec<CacheEntry>)
        ensures
            r.deep_view() == old(self)@,
            distinct(r.deep_view()),
            final(self)@ == Seq::<EntryModel>::empty(),
    {
        proof {
            use_type_invariant(&*self);
        }
        let mut entries: Vec<CacheEntry> = Vec::new();
        assert(entries.deep_view() =~= Seq::<EntryModel>::empty());
        std::mem::swap(&mut entries, &mut self.entries);
        entries
    }

    /// Puts entries into the shard in place of those that it holds.
    fn put_entries(&mut self, entries: Vec<CacheEntry>)
        requires
            distinct(entries.deep_view()),
        ensures
            final(self)@ == entries.deep_view(),
    {
        self.entries = entries;
    }
}

/// The place of the entry of the tenant and principal in a list of entries.
fn find_in(entries: &Vec<CacheEntry>, tenant: &TenantId, principal: &PrincipalId) -> (r: Option<
usize,
>)
    ensures
        match r {
            Some(i) => position(entries.deep_view(), tenant@, principal@) == Some(i as int) && i
                < entries.len(),
            None => position(entries.deep_view(), tenant@, principal@) is None,
        },
{
    let ghost s = entries.deep_view();
    let mut i: usize = 0;
    assert(s.take(0) =~= Seq::<EntryModel>::empty());
    while i < entries.len()
        invariant
            i <= entries.len(),
            s == entries.deep_view(),
            position(s.take(i as int), tenant@, principal@) is None,
        decreases entries.len() - i,
    {
        proof {
            assert(s.take(i + 1).drop_last() =~= s.take(i as int));
            assert(s.take(i + 1).last() == entries@[i as int].deep_view());
        }
        if entries[i].has_key(tenant, principal) {
            proof {
                lemma_position_prefix(s, tenant@, principal@, i + 1);
            }
            return Some(i);
        }
        i += 1;
    }
    assert(s.take(i as int) =~= s);
    None
}

/// Drops the entry of the tenant and principal from a list of entries.
fn drop_key(entries: &mut Vec<CacheEntry>, tenant: &TenantId, principal: &PrincipalId)
    ensures
        final(entries).deep_view() == without_key(old(entries).deep_view(), tenant@, principal@),
{
    let ghost s = entries.deep_view();
    if let Some(i) = find_in(entries, tenant, principal) {
        entries.remove(i);
        assert(entries.deep_view() =~= s.remove(i as int));
    }
}

/// Moves the entry of the tenant and principal to the end of a list.
fn move_last(entries: &mut Vec<CacheEntry>, tenant: &TenantId, principal: &PrincipalId)
    ensures
        final(entries).deep_view() == touched(old(entries).deep_view(), tenant@, principal@),
{
    let ghost s = entries.deep_view();
    if let Some(i) = find_in(entries, tenant, principal) {
        let entry = entries.remove(i);
        entries.push(entry);
        assert(entries.deep_view() =~= s.remove(i as int).push(s[i as int]));
    }
}

/// Whether the entry is older than `ttl` at the time `now`.
pub fn is_expired(entry: &CacheEntry, ttl: u128, now: u128) -> (r: bool)
    ensures
        r == expired(entry.deep_view(), ttl, now),
{
    now.saturating_sub(entry.updated_at) > ttl
}

/// Drops the entries of a list that are expired at `now`.
fn drop_expired(entries: &mut Vec<CacheEntry>, ttl: u128, now: u128)
    ensures
        final(entries).deep_view() == pruned(old(entries).deep_view(), ttl, now),
{
    let ghost s = entries.deep_view();
    let ghost mut k: int = 0;
    let mut i: usize = 0;
    assert(s.take(0) =~= Seq::<EntryModel>::empty());
    assert(s.skip(0) =~= s);
    while i < entries.len()
        invariant
            0 <= k <= s.len(),
            i <= entries.len(),
            i == pruned(s.take(k), ttl, now).len(),
            entries.deep_view() == pruned(s.take(k), ttl, now) + s.skip(k),
        decreases s.len() - k,
    {
        let ghost before = entries.deep_view();
        proof {
            assert(before[i as int] == s.skip(k)[0]);
            assert(s.take(k + 1).drop_last() =~= s.take(k));
            assert(s.take(k + 1).last() == s[k]);
            assert(entries@[i as int].deep_view() == before[i as int]);
        }
        if is_expired(&entries[i], ttl, now) {
            entries.remove(i);
            proof {
                assert(entries.deep_view() =~= before.remove(i as int));
                assert(before.remove(i as int) =~= pruned(s.take(k + 1), ttl, now) + s.skip(k + 1));
            }
        } else {
            i += 1;
            proof {
                assert(before =~= pruned(s.take(k + 1), ttl, now) + s.skip(k + 1));
            }
        }
        proof {
            k = k + 1;
        }
    }
    proof {
        assert(k == s.len());
        assert(s.take(k) =~= s);
        assert(entries.deep_view() =~= pruned(s, ttl, now));
    }
}

/// Drops entries from the front of a list until it holds at most
/// `shard_capacity`.
fn drop_oldest(entries: &mut Vec<CacheEntry>, shard_capacity: usize)
    ensures
        final(entries).deep_view() == evicted(old(entries).deep_view(), shard_capacity as nat),
        final(entries).deep_view().len() <= shard_capacity,
{
    let ghost s = entries.deep_view();
    if shard_capacity == 0 {
        entries.clear();
        assert(entries.deep_view() =~= evicted(s, 0));
        return ;
    }
    let ghost mut k: int = 0;
    assert(s.skip(0) =~= s);
    while entries.len() > shard_capacity
        invariant
            0 <= k <= s.len(),
            entries.deep_view() == s.skip(k),
            entries.deep_view().len() == entries.len(),
            s.len() - k >= shard_capacity || k == 0,
        decreases entries.len(),
    {
        let ghost before = entries.deep_view();
        entries.remove(0);
        proof {
            assert(entries.deep_view() =~= before.remove(0));
            assert(before.remove(0) =~= s.skip(k + 1));
            k = k + 1;
        }
    }
    proof {
        if s.len() > shard_capacity {
            assert(s.skip(k) =~= s.subrange(s.len() - shard_capacity, s.len() as int));
        }
    }
}

/// Drops the entries of the tenant from a list.
fn drop_tenant(entries: &mut Vec<CacheEntry>, tenant: &TenantId)
    ensures
        final(entries).deep_view() == without_tenant(old(entries).deep_view(), tenant@),
{
    let ghost s = entries.deep_view();
    let ghost mut k: int = 0;
    let mut i: usize = 0;
    assert(s.take(0) =~= Seq::<EntryModel>::empty());
    assert(s.skip(0) =~= s);
    while i < entries.len()
        invariant
            0 <= k <= s.len(),
            i <= entries.len(),
            i == without_tenant(s.take(k), tenant@).len(),
            entries.deep_view() == without_tenant(s.take(k), tenant@) + s.skip(k),
        decreases s.len() - k,
    {
        let ghost before = entries.deep_view();
        proof {
            assert(before[i as int] == s.skip(k)[0]);
            assert(s.take(k + 1).drop_last() =~= s.take(k));
            assert(s.take(k + 1).last() == s[k]);
            assert(entries@[i as int].deep_view() == before[i as int]);
        }
        if entries[i].tenant == *tenant {
            entries.remove(i);
            proof {
                assert(entries.deep_view() =~= before.remove(i as int));
                assert(before.remove(i as int) =~= without_tenant(s.take(k + 1), tenant@) + s.skip(
                    k + 1,
                ));
            }
        } else {
            i += 1;
            proof {
                assert(before =~= without_tenant(s.take(k + 1), tenant@) + s.skip(k + 1));
            }
        }
        proof {
            k = k + 1;
        }
    }
    proof {
        assert(k == s.len());
        assert(s.take(k) =~= s);
        assert(entries.deep_view() =~= without_tenant(s, tenant@));
    }
}

/// Reads the entry of the tenant and principal in a list at the time `now`.
fn read_entry(
    entries: &mut Vec<CacheEntry>,
    tenant: &TenantId,
    principal: &PrincipalId,
    ttl: Option<u128>,
    now: u128,
) -> (r: Option<Vec<Permission>>)
    ensures
        final(entries).deep_view() == looked_up(old(entries).deep_view(), tenant@, principal@, ttl, now).0,
        match looked_up(old(entries).deep_view(), tenant@, principal@, ttl, now).1 {
            Some(p) => r matches Some(v) && v.deep_view() == p,
            None => r is None,
        },
{
    let ghost s = entries.deep_view();
    match find_in(entries, tenant, principal) {
        None => None,
        Some(i) => {
            assert(entries@[i as int].deep_view() == s[i as int]);
            let stale = match ttl {
                Some(t) => is_expired(&entries[i], t, now),
                None => false,
            };
            if stale {
                drop_key(entries, tenant, principal);
                None
            } else {
                let perms = clone_permissions(&entries[i].perms);
                move_last(entries, tenant, principal);
                Some(perms)
            }
        },
    }
}

/// Writes the entry of the tenant and principal to a list at the time `now`.
fn write_entry(
    entries: &mut Vec<CacheEntry>,
    tenant: &TenantId,
    principal: &PrincipalId,
    perms: Vec<Permission>,
    ttl: Option<u128>,
    now: u128,
    shard_capacity: usize,
)
    ensures
        final(entries).deep_view() == inserted(
            old(entries).deep_view(),
            tenant@,
            principal@,
            perms.deep_view(),
            ttl,
            now,
            shard_capacity as nat,
        ),
        final(entries).deep_view().len() <= shard_capacity,
{
    if let Some(t) = ttl {
        drop_expired(entries, t, now);
    }
    drop_key(entries, tenant, principal);
    let ghost before = entries.deep_view();
    let entry = CacheEntry {
        tenant: tenant.clone(),
        principal: principal.clone(),
        perms,
        updated_at: now,
    };
    entries.push(entry);
    assert(entries.deep_view() =~= before.push(entry.deep_view()));
    drop_oldest(entries, shard_capacity);
}

/// Drops the entry of the tenant and principal, where there is one.
pub fn remove_key(state: &mut CacheState, tenant: &TenantId, principal: &PrincipalId)
    ensures
        final(state)@ == without_key(old(state)@, tenant@, principal@),
        distinct(old(state)@),
        distinct(final(state)@),
{
    let mut entries = state.take_entries();
    proof {
        lemma_without_key(entries.deep_view(), tenant@, principal@);
    }
    drop_key(&mut entries, tenant, principal);
    state.put_entries(entries);
}

/// Marks the entry of the tenant and principal as the most recently used.
pub fn touch(state: &mut CacheState, tenant: &TenantId, principal: &PrincipalId)
    ensures
        final(state)@ == touched(old(state)@, tenant@, principal@),
        distinct(old(state)@),
        distinct(final(state)@),
{
    let mut entries = state.take_entries();
    proof {
        lemma_shard_stays_distinct(
            entries.deep_view(),
            tenant@,
            principal@,
            Seq::empty(),
            None,
            0,
            0,
        );
    }
    move_last(&mut entries, tenant, principal);
    state.put_entries(entries);
}

/// Drops the entries that are expired at `now`.
pub fn prune_expired(state: &mut CacheState, ttl: u128, now: u128)
    ensures
        final(state)@ == pruned(old(state)@, ttl, now),
        distinct(old(state)@),
        distinct(final(state)@),
{
    let mut entries = state.take_entries();
    proof {
        lemma_fresh_distinct(entries.deep_view(), Some(ttl), now);
    }
    drop_expired(&mut entries, ttl, now);
    state.put_entries(entries);
}

/// Drops the least recently used entries until the shard holds at most
/// `shard_capacity`; a shard of the capacity zero is cleared.
pub fn evict_if_needed(state: &mut CacheState, shard_capacity: usize)
    ensures
        final(state)@ == evicted(old(state)@, shard_capacity as nat),
        final(state)@.len() <= shard_capacity,
        distinct(old(state)@),
        distinct(final(state)@),
{
    let mut entries = state.take_entries();
    proof {
        lemma_evicted_distinct(entries.deep_view(), shard_capacity as nat);
    }
    drop_oldest(&mut entries, shard_capacity);
    state.put_entries(entries);
}

/// Drops the entries of the tenant.
pub fn invalidate_tenant_inner(state: &mut CacheState, tenant: &TenantId)
    ensures
        final(state)@ == without_tenant(old(state)@, tenant@),
        distinct(old(state)@),
        distinct(final(state)@),
{
    let mut entries = state.take_entries();
    proof {
        lemma_without_tenant_distinct(entries.deep_view(), tenant@);
    }
    drop_tenant(&mut entries, tenant);
    state.put_entries(entries);
}

/// Reads the entry of the tenant and principal at the time `now`.
pub fn lookup(
    state: &mut CacheState,
    tenant: &TenantId,
    principal: &PrincipalId,
    ttl: Option<u128>,
    now: u128,
) -> (r: Option<Vec<Permission>>)
    ensures
        final(state)@ == looked_up(old(state)@, tenant@, principal@, ttl, now).0,
        match looked_up(old(state)@, tenant@, principal@, ttl, now).1 {
            Some(p) => r matches Some(v) && v.deep_view() == p,
            None => r is None,
        },
        distinct(old(state)@),
        distinct(final(state)@),
{
    let mut entries = state.take_entries();
    proof {
        lemma_shard_stays_distinct(
            entries.deep_view(),
            tenant@,
            principal@,
            Seq::empty(),
            ttl,
            now,
            0,
        );
    }
    let r = read_entry(&mut entries, tenant, principal, ttl, now);
    state.put_entries(entries);
    r
}

/// Writes the entry of the tenant and principal at the time `now`.
pub fn insert(
    state: &mut CacheState,
    tenant: &TenantId,
    principal: &PrincipalId,
    perms: Vec<Permission>,
    ttl: Option<u128>,
    now: u128,
    shard_capacity: usize,
)
    ensures
        final(state)@ == inserted(
            old(state)@,
            tenant@,
            principal@,
            perms.deep_view(),
            ttl,
            now,
            shard_capacity as nat,
        ),
        final(state)@.len() <= shard_capacity,
        distinct(old(state)@),
        distinct(final(state)@),
{
    let mut entries = state.take_entries();
    proof {
        lemma_shard_stays_distinct(
            entries.deep_view(),
            tenant@,
            principal@,
            perms.deep_view(),
            ttl,
            now,
            shard_capacity as nat,
        );
    }
    write_entry(&mut entries, tenant, principal, perms, ttl, now, shard_capacity);
    state.put_entries(entries);
}

/// The number of shards for a capacity and a requested number.
pub fn normalize_shard_count(capacity: usize, requested: usize) -> (r: usize)
    ensures
        r == normal_shards(capacity as nat, requested as nat),
        r >= 1,
{
    if capacity == 0 {
        return 1;
    }
    let wanted = if requested < 1 {
        1
    } else {
        requested
    };
    if wanted > capacity {
        capacity
    } else {
        wanted
    }
}

/// The number of shards of a new cache, for the machine's parallelism
/// where it is known.
pub fn default_shard_count(capacity: usize, parallelism: Option<usize>) -> (r: usize)
    ensures
        r == default_shards(
            capacity as nat,
            match parallelism {
                Some(n) => Some(n as nat),
                None => None,
            },
        ),
        r >= 1,
{
    if capacity < SMALL_CACHE_SHARD_THRESHOLD {
        return 1;
    }
    let wanted = match parallelism {
        Some(n) => n,
        None => FALLBACK_PARALLELISM,
    };
    let capped = if wanted > MAX_DEFAULT_SHARDS {
        MAX_DEFAULT_SHARDS
    } else {
        wanted
    };
    normalize_shard_count(capacity, capped)
}

/// The capacities of the shards: the capacity spread as evenly as it
/// goes, the remainder over the first shards.
pub fn distribute_capacity(capacity: usize, shard_count: usize) -> (r: Vec<usize>)
    ensures
        r.len() == shard_count,
        forall|i: int|
            0 <= i < shard_count ==> r[i] == share(capacity as nat, shard_count as nat, i as nat),
{
    let mut r: Vec<usize> = Vec::new();
    if shard_count == 0 {
        return r;
    }
    let base: usize = capacity / shard_count;
    let remainder: usize = capacity % shard_count;
    let mut idx: usize = 0;
    while idx < shard_count
        invariant
            idx <= shard_count,
            shard_count > 0,
            base == capacity / shard_count,
            remainder == capacity % shard_count,
            r.len() == idx,
            forall|i: int|
                0 <= i < idx ==> r[i] == share(capacity as nat, shard_count as nat, i as nat),
        decreases shard_count - idx,
    {
        let extra: usize = if idx < remainder {
            1
        } else {
            0
        };
        proof {
            if remainder > 0 {
                assert(base < usize::MAX) by (nonlinear_arith)
                    requires
                        base == capacity / shard_count,
                        remainder == capacity % shard_count,
                        remainder > 0,
                        shard_count > 0,
                        capacity <= usize::MAX,
                ;
            }
        }
        r.push(base + extra);
        idx += 1;
    }
    r
}

/// The hash of the tenant and principal.
pub fn hash_key(tenant: &TenantId, principal: &PrincipalId) -> (h: u64)
    ensures
        h == key_hash(tenant@, principal@),
{
    let h = hash_text(0xcbf29ce484222325, tenant.as_str());
    let h = hash_step(h, 0xff);
    hash_text(h, principal.as_str())
}

fn hash_step(h: u64, c: u64) -> (r: u64)
    ensures
        r == mix(h, c),
{
    let x: u64 = h ^ c;
    let wide: u128 = (x as u128) * 0x100000001b3u128;
    (wide % 0x1_0000_0000_0000_0000u128) as u64
}

fn hash_text(h: u64, text: &str) -> (r: u64)
    ensures
        r == hashed(h, text@),
{
    let chars = crate::text::chars_of(text);
    let mut acc = h;
    let mut i: usize = 0;
    assert(chars@.take(0) =~= Seq::<char>::empty());
    while i < chars.len()
        invariant
            i <= chars.len(),
            acc == hashed(h, chars@.take(i as int)),
        decreases chars.len() - i,
    {
        assert(chars@.take(i + 1).drop_last() =~= chars@.take(i as int));
        acc = hash_step(acc, chars[i] as u64);
        i += 1;
    }
    assert(chars@.take(chars.len() as int) =~= chars@);
    acc
}

/// The shard of a key in a cache of `count` shards.
pub open spec fn shard_of(tenant: Seq<char>, principal: Seq<char>, count: nat) -> nat {
    (key_hash(tenant, principal) as nat) % count
}

#[verifier::external_type_specification]
#[verifier::external_body]
#[verifier::reject_recursive_types(T)]
pub struct ExMutex<T: ?Sized>(Mutex<T>);

#[verifier::external_type_specification]
#[verifier::external_body]
#[verifier::reject_recursive_types(T)]
pub struct ExMutexGuard<'a, T: ?Sized + 'a>(MutexGuard<'a, T>);

#[verifier::external_type_specification]
#[verifier::external_body]
pub struct ExInstant(Instant);

/// `Arc::clone` of the shards: another handle to the same locks.
#[verifier::external_body]
fn share_shards(shards: &Arc<Vec<Mutex<CacheState>>>) -> (r: Arc<Vec<Mutex<CacheState>>>)
    ensures
        r == *shards,
{
    Arc::clone(shards)
}

/// `Arc::clone` of the capacities: another handle to the same list.
#[verifier::external_body]
fn share_capacities(capacities: &Arc<Vec<usize>>) -> (r: Arc<Vec<usize>>)
    ensures
        r == *capacities,
{
    Arc::clone(capacities)
}

/// `Mutex::new`: a lock around `state`. Nothing is claimed of it.
#[verifier::external_body]
fn new_mutex(state: CacheState) -> Mutex<CacheState> {
    Mutex::new(state)
}

/// `Mutex::lock`: waits for the shard. Where a holder of the lock has
/// panicked, `PoisonError::into_inner` takes the shard as that holder
/// left it. Nothing is claimed of what the shard holds: other threads
/// write to it. A thread must not hold the lock already; no function of
/// this module takes a lock while it holds one.
#[verifier::external_body]
fn lock_shard<'a>(shard: &'a Mutex<CacheState>) -> MutexGuard<'a, CacheState> {
    match shard.lock() {
        Ok(guard) => guard,
        Err(poisoned) => poisoned.into_inner(),
    }
}

/// `DerefMut::deref_mut` of the guard: the shard behind the lock.
#[verifier::external_body]
fn guard_state<'a, 'b>(guard: &'a mut MutexGuard<'b, CacheState>) -> &'a mut CacheState {
    &mut **guard
}

/// `Instant::now`: the moment from which a cache counts its time.
#[verifier::external_body]
fn start_instant() -> Instant {
    Instant::now()
}

/// `Instant::elapsed`, in nanoseconds: the time since `epoch`. Nothing
/// is claimed of it.
#[verifier::external_body]
fn elapsed_nanos(epoch: &Instant) -> u128 {
    epoch.elapsed().as_nanos()
}

/// The length of a duration in whole nanoseconds, as `Duration::as_nanos`
/// gives it.
pub uninterp spec fn nanos_of(d: Duration) -> u128;

/// `Duration::as_nanos`: the length of `d` in whole nanoseconds, a value
/// of the duration alone.
#[verifier::external_body]
fn duration_nanos(d: Duration) -> (r: u128)
    ensures
        r == nanos_of(d),
{
    d.as_nanos()
}

/// In-memory cache for effective permissions.
///
/// The keys are spread over shards, each behind a lock of its own and
/// with its own order of use and time to live. A clone shares the
/// entries of the cache that it was made from.
#[derive(Debug)]
pub struct MemoryCache {
    shards: Arc<Vec<Mutex<CacheState>>>,
    shard_capacities: Arc<Vec<usize>>,
    shard_count: usize,
    capacity: usize,
    ttl: Option<u128>,
    epoch: Instant,
}

impl MemoryCache {
    #[verifier::type_invariant]
    spec fn consistent(self) -> bool {
        &&& self.shard_count >= 1
        &&& self.shards.len() == self.shard_count
        &&& self.shard_capacities.len() == self.shard_count
        &&& forall|i: int|
            0 <= i < self.shard_count ==> self.shard_capacities[i] == share(
                self.capacity as nat,
                self.shard_count as nat,
                i as nat,
            )
    }

    /// The total capacity.
    pub closed spec fn capacity_of(&self) -> usize {
        self.capacity
    }

    /// The number of shards.
    pub closed spec fn shards_of(&self) -> usize {
        self.shard_count
    }

    /// The time to live in nanoseconds, where there is one.
    pub closed spec fn ttl_of(&self) -> Option<u128> {
        self.ttl
    }

    /// Creates a new cache with the given capacity. A capacity of zero
    /// disables caching. The number of shards is that for a machine of
    /// unknown parallelism.
    pub fn new(capacity: usize) -> (r: Self)
        ensures
            r.capacity_of() == capacity,
            r.shards_of() == default_shards(capacity as nat, None),
            r.ttl_of() is None,
    {
        MemoryCache::with_parallelism(capacity, None)
    }

    /// Creates a new cache with the given capacity for a machine with
    /// the given parallelism.
    pub fn with_parallelism(capacity: usize, parallelism: Option<usize>) -> (r: Self)
        ensures
            r.capacity_of() == capacity,
            r.shards_of() == default_shards(
                capacity as nat,
                match parallelism {
                    Some(n) => Some(n as nat),
                    None => None,
                },
            ),
            r.ttl_of() is None,
    {
        let shard_count = default_shard_count(capacity, parallelism);
        MemoryCache::build(capacity, shard_count)
    }

    /// Overrides the number of shards. The cache starts empty again.
    pub fn with_shards(self, shards: usize) -> (r: Self)
        ensures
            r.capacity_of() == self.capacity_of(),
            r.shards_of() == normal_shards(self.capacity_of() as nat, shards as nat),
            r.ttl_of() == self.ttl_of(),
    {
        let shard_count = normalize_shard_count(self.capacity, shards);
        MemoryCache {
            shards: Arc::new(MemoryCache::new_shards(shard_count)),
            shard_capacities: Arc::new(distribute_capacity(self.capacity, shard_count)),
            shard_count,
            capacity: self.capacity,
            ttl: self.ttl,
            epoch: self.epoch,
        }
    }

    /// Configures a time to live for cache entries: the length of `ttl`
    /// in nanoseconds.
    pub fn with_ttl(self, ttl: Duration) -> (r: Self)
        ensures
            r.capacity_of() == self.capacity_of(),
            r.shards_of() == self.shards_of(),
            r.ttl_of() == Some(nanos_of(ttl)),
    {
        let nanos = duration_nanos(ttl);
        self.with_ttl_nanos(nanos)
    }

    /// Configures a time to live of `nanos` nanoseconds.
    pub fn with_ttl_nanos(self, nanos: u128) -> (r: Self)
        ensures
            r.capacity_of() == self.capacity_of(),
            r.shards_of() == self.shards_of(),
            r.ttl_of() == Some(nanos),
    {
        proof {
            use_type_invariant(&self);
        }
        MemoryCache {
            shards: self.shards,
            shard_capacities: self.shard_capacities,
            shard_count: self.shard_count,
            capacity: self.capacity,
            ttl: Some(nanos),
            epoch: self.epoch,
        }
    }

    fn build(capacity: usize, shard_count: usize) -> (r: Self)
        requires
            shard_count >= 1,
        ensures
            r.capacity_of() == capacity,
            r.shards_of() == shard_count,
            r.ttl_of() is None,
    {
        MemoryCache {
            shards: Arc::new(MemoryCache::new_shards(shard_count)),
            shard_capacities: Arc::new(distribute_capacity(capacity, shard_count)),
            shard_count,
            capacity,
            ttl: None,
            epoch: start_instant(),
        }
    }

    fn new_shards(shard_count: usize) -> (r: Vec<Mutex<CacheState>>)
        ensures
            r.len() == shard_count,
    {
        let mut r: Vec<Mutex<CacheState>> = Vec::new();
        let mut i: usize = 0;
        while i < shard_count
            invariant
                i <= shard_count,
                r.len() == i,
            decreases shard_count - i,
        {
            r.push(new_mutex(CacheState::new()));
            i += 1;
        }
        r
    }

    /// The total capacity.
    pub fn capacity(&self) -> (r: usize)
        ensures
            r == self.capacity_of(),
    {
        self.capacity
    }

    /// The number of shards.
    pub fn shard_count(&self) -> (r: usize)
        ensures
            r == self.shards_of(),
            r >= 1,
    {
        proof {
            use_type_invariant(self);
        }
        self.shard_count
    }

    /// The capacities of the shards: the capacity spread as evenly as it
    /// goes, the remainder over the first shards.
    pub fn shard_capacities(&self) -> (r: Vec<usize>)
        ensures
            r.len() == self.shards_of(),
            forall|i: int|
                0 <= i < r.len() ==> r[i] == share(
                    self.capacity_of() as nat,
                    self.shards_of() as nat,
                    i as nat,
                ),
    {
        proof {
            use_type_invariant(self);
        }
        let mut r: Vec<usize> = Vec::new();
        let mut i: usize = 0;
        while i < self.shard_count
            invariant
                i <= self.shard_count,
                self.shard_capacities.len() == self.shard_count,
                r.len() == i,
                forall|j: int| 0 <= j < i ==> r[j] == self.shard_capacities[j],
            decreases self.shard_count - i,
        {
            r.push(self.shard_capacities[i]);
            i += 1;
        }
        r
    }

    /// The time to live in nanoseconds, where there is one.
    pub fn ttl_nanos(&self) -> (r: Option<u128>)
        ensures
            r == self.ttl_of(),
    {
        self.ttl
    }

    /// The shard of the tenant and principal.
    pub fn shard_index(&self, tenant: &TenantId, principal: &PrincipalId) -> (r: usize)
        ensures
            r == shard_of(tenant@, principal@, self.shards_of() as nat),
            r < self.shards_of(),
    {
        proof {
            use_type_invariant(self);
        }
        let h = hash_key(tenant, principal);
        (h % (self.shard_count as u64)) as usize
    }

    /// Reads the entry of the tenant and principal at the time `now`,
    /// counted in nanoseconds since the cache was made. A cache of the
    /// capacity zero holds nothing.
    pub fn get_permissions_at(&self, tenant: &TenantId, principal: &PrincipalId, now: u128) -> (r:
        Option<Vec<Permission>>)
        ensures
            self.capacity_of() == 0 ==> r is None,
    {
        proof {
            use_type_invariant(self);
        }
        if self.capacity == 0 {
            return None;
        }
        let index = self.shard_index(tenant, principal);
        let mut guard = lock_shard(&self.shards[index]);
        let state = guard_state(&mut guard);
        lookup(state, tenant, principal, self.ttl, now)
    }

    /// Writes the entry of the tenant and principal at the time `now`,
    /// counted in nanoseconds since the cache was made. A cache of the
    /// capacity zero takes nothing.
    pub fn set_permissions_at(
        &self,
        tenant: &TenantId,
        principal: &PrincipalId,
        perms: Vec<Permission>,
        now: u128,
    ) {
        proof {
            use_type_invariant(self);
        }
        if self.capacity == 0 {
            return ;
        }
        let index = self.shard_index(tenant, principal);
        let shard_capacity = self.shard_capacities[index];
        let mut guard = lock_shard(&self.shards[index]);
        let state = guard_state(&mut guard);
        insert(state, tenant, principal, perms, self.ttl, now, shard_capacity);
    }

    fn clear_tenant(&self, tenant: &TenantId) {
        proof {
            use_type_invariant(self);
        }
        let mut index: usize = 0;
        while index < self.shard_count
            invariant
                index <= self.shard_count,
                self.shards.len() == self.shard_count,
            decreases self.shard_count - index,
        {
            let mut guard = lock_shard(&self.shards[index]);
            let state = guard_state(&mut guard);
            invalidate_tenant_inner(state, tenant);
            index += 1;
        }
    }
}

impl Clone for MemoryCache {
    /// Another handle to the same cache: both see the same entries.
    fn clone(&self) -> (r: Self)
        ensures
            r.capacity_of() == self.capacity_of(),
            r.shards_of() == self.shards_of(),
            r.ttl_of() == self.ttl_of(),
    {
        proof {
            use_type_invariant(self);
        }
        MemoryCache {
            shards: share_shards(&self.shards),
            shard_capacities: share_capacities(&self.shard_capacities),
            shard_count: self.shard_count,
            capacity: self.capacity,
            ttl: self.ttl,
            epoch: self.epoch,
        }
    }
}

impl Cache for MemoryCache {
    fn get_permissions(&self, tenant: &TenantId, principal: &PrincipalId) -> (r: Option<
        Vec<Permission>,
    >)
        ensures
            self.capacity_of() == 0 ==> r is None,
    {
        let now = elapsed_nanos(&self.epoch);
        self.get_permissions_at(tenant, principal, now)
    }

    fn set_permissions(&self, tenant: &TenantId, principal: &PrincipalId, perms: Vec<Permission>) {
        let now = elapsed_nanos(&self.epoch);
        self.set_permissions_at(tenant, principal, perms, now)
    }

    fn invalidate_principal(&self, tenant: &TenantId, principal: &PrincipalId) {
        proof {
            use_type_invariant(self);
        }
        let index = self.shard_index(tenant, principal);
        let mut guard = lock_shard(&self.shards[index]);
        let state = guard_state(&mut guard);
        remove_key(state, tenant, principal);
    }

    /// The cache does not know which principals hold a role, so every
    /// entry of the tenant goes.
    fn invalidate_role(&self, tenant: &TenantId, _role: &RoleId) {
        self.clear_tenant(tenant)
    }

    fn invalidate_tenant(&self, tenant: &TenantId) {
        self.clear_tenant(tenant)
    }
}

} // verus!
