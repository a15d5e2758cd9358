//! The engine: configuration, the signature that guards cached results,
//! and the decisions rendered from a principal's effective permissions.

use crate::cache::Cache;
use crate::cache::NoCache;
use crate::error::Error;
use crate::error::ErrorModel;
use crate::permission::grants;
use crate::permission::grants_resource;
use crate::permission::Permission;
use crate::permission::permission_matches;
use crate::permission::resource_matches;
use crate::resolution::Answer;
use crate::resolution::AnswerModel;
use crate::resolution::awaited;
use crate::resolution::decoded;
use crate::resolution::effort;
use crate::resolution::encoded;
use crate::resolution::initial;
use crate::resolution::lemma_failures;
use crate::resolution::lemma_flat_step;
use crate::resolution::orderly;
use crate::resolution::Outcome;
use crate::resolution::OutcomeModel;
use crate::resolution::Phase;
use crate::resolution::Query;
use crate::resolution::QueryModel;
use crate::resolution::Resolution;
use crate::resolution::ResolutionModel;
use crate::resolution::resolves;
use crate::resolution::run;
use crate::resolution::step;
use crate::store::Store;
use crate::text::decimal;
use crate::text::decimal_string;
use crate::text::lemma_decimal_injective;
use crate::types::PrincipalId;
use crate::types::ResourceName;
use crate::types::TenantId;
use vstd::prelude::*;
use vstd::string::StringExecFns;

verus! {

/// Authorization decision.
#[derive(Debug, Clone, Copy, PartialEq, Eq, Structural)]
pub enum Decision {
    /// Permission is granted.
    Allow,
    /// Permission is denied.
    Deny,
}

/// Scope result for resource filtering.
#[derive(Debug, Clone, PartialEq, Eq)]
pub enum Scope {
    /// No access to the resource.
    NoAccess,
    /// Access limited to a tenant.
    TenantOnly { tenant: TenantId },
}

/// A [`Scope`] as plain values.
pub enum ScopeModel {
    NoAccess,
    TenantOnly { tenant: Seq<char> },
}

impl View for Scope {
    type V = ScopeModel;

    open spec fn view(&self) -> ScopeModel {
        match self {
            Scope::NoAccess => ScopeModel::NoAccess,
            Scope::TenantOnly { tenant } => ScopeModel::TenantOnly { tenant: tenant@ },
        }
    }
}

/// The settings of an engine.
pub struct Config {
    /// Whether role inheritance is followed.
    pub enable_role_hierarchy: bool,
    /// Whether wildcard segments of granted permissions count.
    pub enable_wildcard: bool,
    /// The greatest depth at which an inherited role may stand.
    pub max_inherit_depth: usize,
    /// Whether permissions are compared in lower case.
    pub permission_normalize: bool,
}

/// The settings of a new builder: no inheritance, no wildcards, depth 16,
/// comparison in lower case.
pub open spec fn default_config() -> Config {
    Config {
        enable_role_hierarchy: false,
        enable_wildcard: false,
        max_inherit_depth: 16,
        permission_normalize: true,
    }
}

/// How a flag stands in a signature.
pub open spec fn bit(on: bool) -> Seq<char> {
    if on {
        seq!['1']
    } else {
        seq!['0']
    }
}

/// The signature of a configuration: the text that opens every cache
/// entry which an engine with these settings writes.
pub open spec fn signature(c: Config) -> Seq<char> {
    "__rs_tenant_cache_sig__=rh:"@ + bit(c.enable_role_hierarchy) + ";wc:"@ + bit(
        c.enable_wildcard,
    ) + ";depth:"@ + decimal(c.max_inherit_depth as nat) + ";norm:"@ + bit(c.permission_normalize)
}

/// Whether one of `permissions` covers `required`.
pub open spec fn any_grants(
    permissions: Seq<Seq<char>>,
    required: Seq<char>,
    wildcard: bool,
    normalize: bool,
) -> bool {
    exists|i: int|
        0 <= i < permissions.len() && grants(#[trigger] permissions[i], required, wildcard, normalize)
}

/// Whether one of `permissions` gives access to `resource`.
pub open spec fn any_grants_resource(
    permissions: Seq<Seq<char>>,
    resource: Seq<char>,
    wildcard: bool,
    normalize: bool,
) -> bool {
    exists|i: int|
        0 <= i < permissions.len() && grants_resource(
            #[trigger] permissions[i],
            resource,
            wildcard,
            normalize,
        )
}

/// The decision on `required` that follows from the outcome of a
/// resolution: `Deny` for an inactive tenant or principal, `Allow` iff
/// one of the effective permissions covers `required`, and the error of
/// a resolution that failed.
pub open spec fn decision(
    outcome: OutcomeModel,
    required: Seq<char>,
    c: Config,
) -> Result<Decision, ErrorModel> {
    match outcome {
        OutcomeModel::Inactive => Ok(Decision::Deny),
        OutcomeModel::Permissions(p) => if any_grants(
            p,
            required,
            c.enable_wildcard,
            c.permission_normalize,
        ) {
            Ok(Decision::Allow)
        } else {
            Ok(Decision::Deny)
        },
        OutcomeModel::Failed(e) => Err(e),
    }
}

/// The scope for `resource` that follows from the outcome of a
/// resolution: none for an inactive tenant or principal, the tenant iff
/// one of the effective permissions gives access to `resource`, and the
/// error of a resolution that failed.
pub open spec fn scoping(
    outcome: OutcomeModel,
    tenant: Seq<char>,
    resource: Seq<char>,
    c: Config,
) -> Result<ScopeModel, ErrorModel> {
    match outcome {
        OutcomeModel::Inactive => Ok(ScopeModel::NoAccess),
        OutcomeModel::Permissions(p) => if any_grants_resource(
            p,
            resource,
            c.enable_wildcard,
            c.permission_normalize,
        ) {
            Ok(ScopeModel::TenantOnly { tenant })
        } else {
            Ok(ScopeModel::NoAccess)
        },
        OutcomeModel::Failed(e) => Err(e),
    }
}

/// The failures that a resolution for `tenant` under the settings `c` can
/// end with: a failure of the store, or, where inheritance is followed,
/// a cycle or an exceeded depth within that tenant and at that limit.
pub open spec fn failure_allowed(e: ErrorModel, tenant: Seq<char>, c: Config) -> bool {
    match e {
        ErrorModel::Store(_) => true,
        ErrorModel::RoleCycleDetected { tenant: t, role } => c.enable_role_hierarchy && t
            == tenant,
        ErrorModel::RoleDepthExceeded { tenant: t, role, max_depth } => c.enable_role_hierarchy
            && t == tenant && max_depth == c.max_inherit_depth,
        _ => false,
    }
}

/// A decision or its error, as plain values.
pub open spec fn decision_model(r: Result<Decision, Error>) -> Result<Decision, ErrorModel> {
    match r {
        Ok(d) => Ok(d),
        Err(e) => Err(e@),
    }
}

/// A scope or its error, as plain values.
pub open spec fn scope_model(r: Result<Scope, Error>) -> Result<ScopeModel, ErrorModel> {
    match r {
        Ok(s) => Ok(s@),
        Err(e) => Err(e@),
    }
}

/// Two configurations with the same signature are the same
/// configuration: no engine takes the cache entry of an engine that is
/// set up otherwise for its own.
pub proof fn lemma_signature_injective(a: Config, b: Config)
    requires
        signature(a) == signature(b),
    ensures
        a == b,
{
    reveal_strlit("__rs_tenant_cache_sig__=rh:");
    reveal_strlit(";wc:");
    reveal_strlit(";depth:");
    reveal_strlit(";norm:");
    let x = signature(a);
    let y = signature(b);
    let da = decimal(a.max_inherit_depth as nat);
    let db = decimal(b.max_inherit_depth as nat);
    assert(x.len() == 47 + da.len());
    assert(y.len() == 47 + db.len());
    assert(x[27] == bit(a.enable_role_hierarchy)[0]);
    assert(y[27] == bit(b.enable_role_hierarchy)[0]);
    assert(x[32] == bit(a.enable_wildcard)[0]);
    assert(y[32] == bit(b.enable_wildcard)[0]);
    assert(x[x.len() - 1] == bit(a.permission_normalize)[0]);
    assert(y[y.len() - 1] == bit(b.permission_normalize)[0]);
    assert(x.subrange(40, 40 + da.len() as int) =~= da);
    assert(y.subrange(40, 40 + db.len() as int) =~= db);
    lemma_decimal_injective(a.max_inherit_depth as nat, b.max_inherit_depth as nat);
}

/// An entry that an engine with the settings `a` wrote is a miss for an
/// engine with other settings `b`: each engine takes from a shared cache
/// only what an engine set up like itself has put there.
pub proof fn lemma_foreign_entry_is_a_miss(a: Config, b: Config, permissions: Seq<Seq<char>>)
    requires
        a != b,
    ensures
        decoded(
            signature(b),
            encoded(signature(a), permissions),
        ) is None,
        decoded(
            signature(a),
            encoded(signature(a), permissions),
        ) == Some(permissions),
        forall|s: ResolutionModel|
            s.marker == signature(b) ==> (#[trigger] step(
                s,
                AnswerModel::Cached(
                    Some(encoded(signature(a), permissions)),
                ),
            )).1 == QueryModel::PrincipalRoles,
        forall|s: ResolutionModel|
            s.marker == signature(a) ==> (#[trigger] step(
                s,
                AnswerModel::Cached(
                    Some(encoded(signature(a), permissions)),
                ),
            )).1 == QueryModel::Finished(OutcomeModel::Permissions(permissions)),
{
    if signature(a) == signature(b) {
        lemma_signature_injective(a, b);
    }
    let entry = encoded(signature(a), permissions);
    assert(entry[0] == signature(a));
    assert(entry.subrange(1, entry.len() as int) =~= permissions);
}

/// Where the tenant is not active, the resolution ends at once, and the
/// decision is `Deny` and the scope is none, whatever roles there are.
pub proof fn lemma_inactive_tenant_denies(
    s: ResolutionModel,
    required: Seq<char>,
    resource: Seq<char>,
    c: Config,
)
    requires
        s.phase == Phase::Tenant,
    ensures
        step(s, AnswerModel::Flag(false)).1 == QueryModel::Finished(
            OutcomeModel::Inactive,
        ),
        decision(OutcomeModel::Inactive, required, c) == Ok::<Decision, ErrorModel>(Decision::Deny),
        scoping(OutcomeModel::Inactive, s.tenant, resource, c) == Ok::<ScopeModel, ErrorModel>(
            ScopeModel::NoAccess,
        ),
{
}

/// A principal with no roles and no global roles has no permissions:
/// after a miss of the cache the resolution ends with the empty list,
/// with and without inheritance, and the decision is `Deny` and the scope
/// is none.
pub proof fn lemma_no_roles_denies(
    s: ResolutionModel,
    required: Seq<char>,
    resource: Seq<char>,
    c: Config,
)
    requires
        s.phase == Phase::Roles,
        s.stack.len() == 0,
        s.output.len() == 0,
        s.permissions.len() == 0,
    ensures
        ({
            let none = Seq::<Seq<char>>::empty();
            let (s1, q1) = step(s, AnswerModel::Roles(none));
            let (s2, q2) = step(s1, AnswerModel::GlobalRoles(none));
            let (s3, q3) = step(s2, AnswerModel::Stored);
            &&& q1 == QueryModel::GlobalRoles
            &&& q2 == QueryModel::StorePermissions(encoded(s.marker, none))
            &&& q3 == QueryModel::Finished(OutcomeModel::Permissions(none))
            &&& decision(OutcomeModel::Permissions(none), required, c) == Ok::<
                Decision,
                ErrorModel,
            >(Decision::Deny)
            &&& scoping(OutcomeModel::Permissions(none), s.tenant, resource, c) == Ok::<
                ScopeModel,
                ErrorModel,
            >(ScopeModel::NoAccess)
        }),
{
    let none = Seq::<Seq<char>>::empty();
    let (s1, q1) = step(s, AnswerModel::Roles(none));
    assert(s1.permissions =~= none);
    let (s2, q2) = step(s1, AnswerModel::GlobalRoles(none));
    assert(s2.permissions =~= none);
}

/// RBAC engine with pluggable store and optional cache.
#[derive(Debug)]
pub struct Engine<S, C = NoCache> {
    store: S,
    cache: C,
    cache_signature_marker: Permission,
    enable_role_hierarchy: bool,
    enable_wildcard: bool,
    max_inherit_depth: usize,
    permission_normalize: bool,
}

/// Builder for [`Engine`].
pub struct EngineBuilder<S, C = NoCache> {
    store: S,
    cache: C,
    enable_role_hierarchy: bool,
    enable_wildcard: bool,
    max_inherit_depth: usize,
    permission_normalize: bool,
}

impl<S> EngineBuilder<S, NoCache> {
    /// Creates a new builder with the default configuration and no cache.
    pub fn new(store: S) -> (r: Self)
        ensures
            r.config() == default_config(),
            r.store() == store,
    {
        EngineBuilder {
            store,
            cache: NoCache,
            enable_role_hierarchy: false,
            enable_wildcard: false,
            max_inherit_depth: 16,
            permission_normalize: true,
        }
    }
}

impl<S, C> EngineBuilder<S, C> {
    /// The settings chosen so far.
    pub closed spec fn config(&self) -> Config {
        Config {
            enable_role_hierarchy: self.enable_role_hierarchy,
            enable_wildcard: self.enable_wildcard,
            max_inherit_depth: self.max_inherit_depth,
            permission_normalize: self.permission_normalize,
        }
    }

    /// The store that the engine will read.
    pub closed spec fn store(&self) -> S {
        self.store
    }

    /// The cache that the engine will use.
    pub closed spec fn cache_of(&self) -> C {
        self.cache
    }

    /// Enables or disables role inheritance.
    pub fn enable_role_hierarchy(self, on: bool) -> (r: Self)
        ensures
            r.config() == (Config { enable_role_hierarchy: on, ..self.config() }),
            r.store() == self.store(),
            r.cache_of() == self.cache_of(),
    {
        let mut b = self;
        b.enable_role_hierarchy = on;
        b
    }

    /// Enables or disables wildcard permission matching.
    pub fn enable_wildcard(self, on: bool) -> (r: Self)
        ensures
            r.config() == (Config { enable_wildcard: on, ..self.config() }),
            r.store() == self.store(),
            r.cache_of() == self.cache_of(),
    {
        let mut b = self;
        b.enable_wildcard = on;
        b
    }

    /// Sets the maximum inheritance depth.
    pub fn max_inherit_depth(self, depth: usize) -> (r: Self)
        ensures
            r.config() == (Config { max_inherit_depth: depth, ..self.config() }),
            r.store() == self.store(),
            r.cache_of() == self.cache_of(),
    {
        let mut b = self;
        b.max_inherit_depth = depth;
        b
    }

    /// Enables or disables permission normalization for matching.
    pub fn permission_normalize(self, on: bool) -> (r: Self)
        ensures
            r.config() == (Config { permission_normalize: on, ..self.config() }),
            r.store() == self.store(),
            r.cache_of() == self.cache_of(),
    {
        let mut b = self;
        b.permission_normalize = on;
        b
    }

    /// Sets the cache implementation.
    pub fn cache<C2: Cache>(self, cache: C2) -> (r: EngineBuilder<S, C2>)
        ensures
            r.config() == self.config(),
            r.store() == self.store(),
            r.cache_of() == cache,
    {
        EngineBuilder {
            store: self.store,
            cache,
            enable_role_hierarchy: self.enable_role_hierarchy,
            enable_wildcard: self.enable_wildcard,
            max_inherit_depth: self.max_inherit_depth,
            permission_normalize: self.permission_normalize,
        }
    }

    /// Builds the engine. Its signature is that of the settings chosen.
    pub fn build(self) -> (e: Engine<S, C>)
        ensures
            e.config() == self.config(),
            e.marker() == signature(self.config()),
            e.store_of() == self.store(),
            e.cache_of() == self.cache_of(),
    {
        let text = String::from_str("__rs_tenant_cache_sig__=rh:").concat(
            flag(self.enable_role_hierarchy),
        ).concat(";wc:").concat(flag(self.enable_wildcard)).concat(";depth:").concat(
            decimal_string(self.max_inherit_depth).as_str(),
        ).concat(";norm:").concat(flag(self.permission_normalize));
        let cache_signature_marker = Permission::from_string(text);
        Engine {
            store: self.store,
            cache: self.cache,
            cache_signature_marker,
            enable_role_hierarchy: self.enable_role_hierarchy,
            enable_wildcard: self.enable_wildcard,
            max_inherit_depth: self.max_inherit_depth,
            permission_normalize: self.permission_normalize,
        }
    }
}

/// How a flag stands in a signature.
fn flag(on: bool) -> (r: &'static str)
    ensures
        r@ == bit(on),
{
    proof {
        reveal_strlit("1");
        reveal_strlit("0");
    }
    if on {
        let r = "1";
        assert(r@ =~= bit(on));
        r
    } else {
        let r = "0";
        assert(r@ =~= bit(on));
        r
    }
}

/// Whether one of `permissions` covers `required`.
pub fn any_permission_matches(
    permissions: &Vec<Permission>,
    required: &Permission,
    enable_wildcard: bool,
    normalize: bool,
) -> (r: bool)
    ensures
        r == any_grants(permissions.deep_view(), required@, enable_wildcard, normalize),
{
    let mut i: usize = 0;
    while i < permissions.len()
        invariant
            i <= permissions.len(),
            forall|j: int|
                0 <= j < i ==> !grants(
                    #[trigger] permissions.deep_view()[j],
                    required@,
                    enable_wildcard,
                    normalize,
                ),
        decreases permissions.len() - i,
    {
        if permission_matches(&permissions[i], required, enable_wildcard, normalize) {
            assert(permissions.deep_view()[i as int] == permissions@[i as int]@);
            return true;
        }
        assert(permissions.deep_view()[i as int] == permissions@[i as int]@);
        i += 1;
    }
    false
}

/// Whether one of `permissions` gives access to `resource`.
pub fn any_resource_matches(
    permissions: &Vec<Permission>,
    resource: &ResourceName,
    enable_wildcard: bool,
    normalize: bool,
) -> (r: bool)
    ensures
        r == any_grants_resource(permissions.deep_view(), resource@, enable_wildcard, normalize),
{
    let mut i: usize = 0;
    while i < permissions.len()
        invariant
            i <= permissions.len(),
            forall|j: int|
                0 <= j < i ==> !grants_resource(
                    #[trigger] permissions.deep_view()[j],
                    resource@,
                    enable_wildcard,
                    normalize,
                ),
        decreases permissions.len() - i,
    {
        if resource_matches(&permissions[i], resource, enable_wildcard, normalize) {
            assert(permissions.deep_view()[i as int] == permissions@[i as int]@);
            return true;
        }
        assert(permissions.deep_view()[i as int] == permissions@[i as int]@);
        i += 1;
    }
    false
}

impl<S, C> Engine<S, C> {
    /// The settings of the engine.
    pub closed spec fn config(&self) -> Config {
        Config {
            enable_role_hierarchy: self.enable_role_hierarchy,
            enable_wildcard: self.enable_wildcard,
            max_inherit_depth: self.max_inherit_depth,
            permission_normalize: self.permission_normalize,
        }
    }

    /// The signature under which the engine writes to its cache.
    pub closed spec fn marker(&self) -> Seq<char> {
        self.cache_signature_marker@
    }

    /// The store that the engine reads.
    pub closed spec fn store_of(&self) -> S {
        self.store
    }

    /// The cache that the engine uses.
    pub closed spec fn cache_of(&self) -> C {
        self.cache
    }

    /// The state in which the engine begins to resolve the permissions of
    /// `principal` within `tenant`.
    pub open spec fn start(&self, tenant: Seq<char>, principal: Seq<char>) -> ResolutionModel {
        initial(
            tenant,
            principal,
            self.marker(),
            self.config().enable_role_hierarchy,
            self.config().max_inherit_depth,
        )
    }

    /// The store that the engine reads.
    pub fn store(&self) -> (r: &S)
        ensures
            *r == self.store_of(),
    {
        &self.store
    }

    /// The cache that the engine uses.
    pub fn cache(&self) -> (r: &C)
        ensures
            *r == self.cache_of(),
    {
        &self.cache
    }

    /// Begins the resolution of `principal`'s effective permissions within
    /// `tenant`, for a driver to carry on.
    pub fn begin(&self, tenant: &TenantId, principal: &PrincipalId) -> (r: (Resolution, Query))
        ensures
            r.0@ == self.start(tenant@, principal@),
            r.1@ == QueryModel::TenantActive,
            r.0.wf(),
    {
        Resolution::begin(
            tenant.clone(),
            principal.clone(),
            self.cache_signature_marker.clone(),
            self.enable_role_hierarchy,
            self.max_inherit_depth,
        )
    }

    /// The cache entry for `perms` under the engine's signature.
    pub fn encode_cached_permissions(&self, perms: Vec<Permission>) -> (r: Vec<Permission>)
        ensures
            r.deep_view() == encoded(self.marker(), perms.deep_view()),
    {
        crate::resolution::encode_cached_permissions(&self.cache_signature_marker, &perms)
    }

    /// The permissions of the cache entry `cached`, where it carries the
    /// engine's signature.
    pub fn decode_cached_permissions(&self, cached: Vec<Permission>) -> (r: Option<
        Vec<Permission>,
    >)
        ensures
            match decoded(self.marker(), cached.deep_view()) {
                Some(p) => r matches Some(v) && v.deep_view() == p,
                None => r is None,
            },
    {
        crate::resolution::decode_cached_permissions(&self.cache_signature_marker, &cached)
    }

    /// The decision on `permission` that follows from the outcome of a
    /// resolution.
    pub fn decide(&self, outcome: Outcome, permission: &Permission) -> (r: Result<Decision, Error>)
        ensures
            decision_model(r) == decision(outcome@, permission@, self.config()),
    {
        match outcome {
            Outcome::Inactive => Ok(Decision::Deny),
            Outcome::Permissions(permissions) => {
                if any_permission_matches(
                    &permissions,
                    permission,
                    self.enable_wildcard,
                    self.permission_normalize,
                ) {
                    Ok(Decision::Allow)
                } else {
                    Ok(Decision::Deny)
                }
            },
            Outcome::Failed(e) => Err(e),
        }
    }

    /// The scope for `resource` that follows from the outcome of a
    /// resolution within `tenant`.
    pub fn scope_of(&self, outcome: Outcome, tenant: TenantId, resource: &ResourceName) -> (r:
        Result<Scope, Error>)
        ensures
            scope_model(r) == scoping(outcome@, tenant@, resource@, self.config()),
    {
        match outcome {
            Outcome::Inactive => Ok(Scope::NoAccess),
            Outcome::Permissions(permissions) => {
                if any_resource_matches(
                    &permissions,
                    resource,
                    self.enable_wildcard,
                    self.permission_normalize,
                ) {
                    Ok(Scope::TenantOnly { tenant })
                } else {
                    Ok(Scope::NoAccess)
                }
            },
            Outcome::Failed(e) => Err(e),
        }
    }
}

impl<S, C> Engine<S, C> where S: Store, C: Cache {
    /// Authorizes a principal for a permission within a tenant.
    ///
    /// The result is the decision that follows from an outcome which the
    /// resolution reaches on what the store and the cache answer.
    pub fn authorize(&self, tenant: TenantId, principal: PrincipalId, permission: Permission) -> (r:
        Result<Decision, Error>)
        ensures
            exists|o: OutcomeModel| #[trigger]
                resolves(self.start(tenant@, principal@), o) && decision_model(r) == decision(
                    o,
                    permission@,
                    self.config(),
                ),
            r matches Err(e) ==> failure_allowed(e@, tenant@, self.config()),
    {
        let outcome = self.effective_permissions(&tenant, &principal);
        self.decide(outcome, &permission)
    }

    /// Computes the scope for a resource within a tenant.
    ///
    /// The result is the scope that follows from an outcome which the
    /// resolution reaches on what the store and the cache answer.
    pub fn scope(&self, tenant: TenantId, principal: PrincipalId, resource: ResourceName) -> (r:
        Result<Scope, Error>)
        ensures
            exists|o: OutcomeModel| #[trigger]
                resolves(self.start(tenant@, principal@), o) && scope_model(r) == scoping(
                    o,
                    tenant@,
                    resource@,
                    self.config(),
                ),
            r matches Err(e) ==> failure_allowed(e@, tenant@, self.config()),
    {
        let outcome = self.effective_permissions(&tenant, &principal);
        self.scope_of(outcome, tenant, &resource)
    }

    /// Resolves the effective permissions of a principal within a tenant:
    /// drives a resolution by asking the store and the cache what it asks
    /// for, one query after the other, until it ends.
    pub fn effective_permissions(&self, tenant: &TenantId, principal: &PrincipalId) -> (o: Outcome)
        ensures
            resolves(self.start(tenant@, principal@), o@),
            o@ matches OutcomeModel::Failed(e) ==> failure_allowed(e, tenant@, self.config()),
    {
        let ghost start = self.start(tenant@, principal@);
        let (mut state, mut query) = self.begin(tenant, principal);
        let ghost mut trace: Seq<AnswerModel> = Seq::empty();
        loop
            invariant
                state.wf(),
                state@.phase == awaited(query@),
                start == self.start(tenant@, principal@),
                orderly(start, trace),
                run(start, trace) == (state@, query@),
                state@.tenant == tenant@,
                state@.max_depth == self.config().max_inherit_depth,
                state@.hierarchy == self.config().enable_role_hierarchy,
                !state@.hierarchy ==> state@.phase != Phase::Walk
                    && state@.phase != Phase::Parents,
                query@ matches QueryModel::Finished(OutcomeModel::Failed(e)) ==> failure_allowed(
                    e,
                    tenant@,
                    self.config(),
                ),
            decreases
                    effort(state@).0,
                    effort(state@).1,
                    effort(state@).2,
        {
            let answer = match query {
                Query::Finished(outcome) => {
                    return outcome;
                },
                Query::Continue => Answer::Nothing,
                Query::TenantActive => match self.store.tenant_active(tenant.clone()) {
                    Ok(active) => Answer::Flag(active),
                    Err(e) => Answer::Failed(e),
                },
                Query::PrincipalActive => match self.store.principal_active(
                    tenant.clone(),
                    principal.clone(),
                ) {
                    Ok(active) => Answer::Flag(active),
                    Err(e) => Answer::Failed(e),
                },
                Query::CachedPermissions => Answer::Cached(
                    self.cache.get_permissions(tenant, principal),
                ),
                Query::PrincipalRoles => match self.store.principal_roles(
                    tenant.clone(),
                    principal.clone(),
                ) {
                    Ok(roles) => {
                        assert(roles.deep_view().len() == roles.len());
                        Answer::Roles(roles)
                    },
                    Err(e) => Answer::Failed(e),
                },
                Query::RoleInherits(role) => match self.store.role_inherits(tenant.clone(), role) {
                    Ok(roles) => {
                        assert(roles.deep_view().len() == roles.len());
                        Answer::Roles(roles)
                    },
                    Err(e) => Answer::Failed(e),
                },
                Query::RolePermissions(role) => match self.store.role_permissions(
                    tenant.clone(),
                    role,
                ) {
                    Ok(permissions) => Answer::Permissions(permissions),
                    Err(e) => Answer::Failed(e),
                },
                Query::GlobalRoles => match self.store.global_roles(principal.clone()) {
                    Ok(roles) => Answer::GlobalRoles(roles),
                    Err(e) => Answer::Failed(e),
                },
                Query::GlobalRolePermissions(role) => match self.store.global_role_permissions(
                    role,
                ) {
                    Ok(permissions) => Answer::Permissions(permissions),
                    Err(e) => Answer::Failed(e),
                },
                Query::StorePermissions(entry) => {
                    self.cache.set_permissions(tenant, principal, entry);
                    Answer::Stored
                },
            };
            proof {
                let longer = trace.push(answer@);
                assert(longer.drop_last() =~= trace);
                trace = longer;
                lemma_failures(state@, answer@);
                if !state@.hierarchy {
                    lemma_flat_step(state@, answer@);
                }
            }
            query = state.advance(answer);
        }
    }
}

} // verus!
