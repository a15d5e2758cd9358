//! The resolution of a principal's effective permissions, as a machine
//! that asks its driver one question at a time.
//!
//! A driver starts with [`Resolution::begin`], performs the query that it
//! is handed against the store or the cache, and gives the answer to
//! [`Resolution::advance`], which hands back the next query, until the
//! query is [`Query::Finished`]. The machine decides; the driver only
//! fetches. What the machine does is stated by [`step`], a function from
//! state and answer to next state and query.

use crate::error::Error;
use crate::error::ErrorModel;
use crate::error::StoreError;
use crate::permission::Permission;
use crate::types::GlobalRoleId;
use crate::types::PrincipalId;
use crate::types::RoleId;
use crate::types::TenantId;
use vstd::prelude::*;

verus! {

/// Where a resolution stands: which answer it waits for.
#[derive(Debug, Clone, Copy, PartialEq, Eq, Structural)]
pub enum Phase {
    /// Waits for the tenant's activation flag.
    Tenant,
    /// Waits for the principal's activation flag.
    Principal,
    /// Waits for what the cache holds.
    Cache,
    /// Waits for the principal's direct roles.
    Roles,
    /// Walks the role hierarchy; waits for nothing.
    Walk,
    /// Waits for the direct parents of the pending role.
    Parents,
    /// Waits for the permissions of the role in turn.
    RolePermissions,
    /// Waits for the principal's global roles.
    GlobalRoles,
    /// Waits for the permissions of the global role in turn.
    GlobalPermissions,
    /// Waits for the cache to take the result.
    Store,
    /// Finished; waits for nothing.
    Done,
}

/// A role on the active path of the traversal, with its direct parents
/// and how many of them have been looked at.
pub struct Frame {
    role: RoleId,
    depth: usize,
    parents: Vec<RoleId>,
    next: usize,
}

/// A [`Frame`] as plain values.
pub struct FrameModel {
    pub role: Seq<char>,
    pub depth: nat,
    pub parents: Seq<Seq<char>>,
    pub next: nat,
}

impl DeepView for Frame {
    type V = FrameModel;

    closed spec fn deep_view(&self) -> FrameModel {
        FrameModel {
            role: self.role@,
            depth: self.depth as nat,
            parents: self.parents.deep_view(),
            next: self.next as nat,
        }
    }
}

/// What the driver is to do next.
#[derive(Debug)]
pub enum Query {
    /// Call the machine again, with [`Answer::Nothing`].
    Continue,
    /// Ask the store whether the tenant is active.
    TenantActive,
    /// Ask the store whether the principal is active within the tenant.
    PrincipalActive,
    /// Ask the cache for the entry of the tenant and principal.
    CachedPermissions,
    /// Ask the store for the principal's roles within the tenant.
    PrincipalRoles,
    /// Ask the store for the direct parents of the role.
    RoleInherits(RoleId),
    /// Ask the store for the permissions of the role.
    RolePermissions(RoleId),
    /// Ask the store for the principal's global roles.
    GlobalRoles,
    /// Ask the store for the permissions of the global role.
    GlobalRolePermissions(GlobalRoleId),
    /// Write the entry to the cache for the tenant and principal.
    StorePermissions(Vec<Permission>),
    /// Nothing more: the resolution has ended this way.
    Finished(Outcome),
}

/// How a resolution ended.
#[derive(Debug)]
pub enum Outcome {
    /// The tenant, or the principal within it, is not active.
    Inactive,
    /// The principal's effective permissions.
    Permissions(Vec<Permission>),
    /// The resolution failed; nothing was decided.
    Failed(Error),
}

/// What the driver got for the last query.
#[derive(Debug)]
pub enum Answer {
    /// For [`Query::Continue`].
    Nothing,
    /// For [`Query::TenantActive`] and [`Query::PrincipalActive`].
    Flag(bool),
    /// For [`Query::CachedPermissions`].
    Cached(Option<Vec<Permission>>),
    /// For [`Query::PrincipalRoles`] and [`Query::RoleInherits`].
    Roles(Vec<RoleId>),
    /// For [`Query::RolePermissions`] and
    /// [`Query::GlobalRolePermissions`].
    Permissions(Vec<Permission>),
    /// For [`Query::GlobalRoles`].
    GlobalRoles(Vec<GlobalRoleId>),
    /// For [`Query::StorePermissions`].
    Stored,
    /// The store failed on the last query.
    Failed(StoreError),
}

/// A [`Query`] as plain values.
pub enum QueryModel {
    Continue,
    TenantActive,
    PrincipalActive,
    CachedPermissions,
    PrincipalRoles,
    RoleInherits(Seq<char>),
    RolePermissions(Seq<char>),
    GlobalRoles,
    GlobalRolePermissions(Seq<char>),
    StorePermissions(Seq<Seq<char>>),
    Finished(OutcomeModel),
}

/// An [`Outcome`] as plain values.
pub enum OutcomeModel {
    Inactive,
    Permissions(Seq<Seq<char>>),
    Failed(ErrorModel),
}

/// An [`Answer`] as plain values.
pub enum AnswerModel {
    Nothing,
    Flag(bool),
    Cached(Option<Seq<Seq<char>>>),
    Roles(Seq<Seq<char>>),
    Permissions(Seq<Seq<char>>),
    GlobalRoles(Seq<Seq<char>>),
    Stored,
    Failed(Seq<char>),
}

impl View for Outcome {
    type V = OutcomeModel;

    open spec fn view(&self) -> OutcomeModel {
        match self {
            Outcome::Inactive => OutcomeModel::Inactive,
            Outcome::Permissions(p) => OutcomeModel::Permissions(p.deep_view()),
            Outcome::Failed(e) => OutcomeModel::Failed(e@),
        }
    }
}

impl View for Query {
    type V = QueryModel;

    open spec fn view(&self) -> QueryModel {
        match self {
            Query::Continue => QueryModel::Continue,
            Query::TenantActive => QueryModel::TenantActive,
            Query::PrincipalActive => QueryModel::PrincipalActive,
            Query::CachedPermissions => QueryModel::CachedPermissions,
            Query::PrincipalRoles => QueryModel::PrincipalRoles,
            Query::RoleInherits(r) => QueryModel::RoleInherits(r@),
            Query::RolePermissions(r) => QueryModel::RolePermissions(r@),
            Query::GlobalRoles => QueryModel::GlobalRoles,
            Query::GlobalRolePermissions(r) => QueryModel::GlobalRolePermissions(r@),
            Query::StorePermissions(p) => QueryModel::StorePermissions(p.deep_view()),
            Query::Finished(o) => QueryModel::Finished(o@),
        }
    }
}

impl View for Answer {
    type V = AnswerModel;

    open spec fn view(&self) -> AnswerModel {
        match self {
            Answer::Nothing => AnswerModel::Nothing,
            Answer::Flag(b) => AnswerModel::Flag(*b),
            Answer::Cached(c) => AnswerModel::Cached(
                match c {
                    Some(p) => Some(p.deep_view()),
                    None => None,
                },
            ),
            Answer::Roles(r) => AnswerModel::Roles(r.deep_view()),
            Answer::Permissions(p) => AnswerModel::Permissions(p.deep_view()),
            Answer::GlobalRoles(r) => AnswerModel::GlobalRoles(r.deep_view()),
            Answer::Stored => AnswerModel::Stored,
            Answer::Failed(e) => AnswerModel::Failed(e@),
        }
    }
}

/// The state of a resolution, as plain values.
pub struct ResolutionModel {
    /// The tenant within which permissions are resolved.
    pub tenant: Seq<char>,
    /// The principal whose permissions are resolved.
    pub principal: Seq<char>,
    /// The signature of the engine's configuration.
    pub marker: Seq<char>,
    /// Whether role inheritance is followed.
    pub hierarchy: bool,
    /// The greatest depth at which an inherited role may stand.
    pub max_depth: usize,
    /// Which answer the machine waits for.
    pub phase: Phase,
    /// The principal's direct roles, where inheritance is followed.
    pub roots: Seq<Seq<char>>,
    /// How many of the direct roles the traversal has taken up.
    pub next_root: nat,
    /// The roles found so far, each once, in the order of discovery.
    pub output: Seq<Seq<char>>,
    /// The active path of the traversal, from a direct role down.
    pub stack: Seq<FrameModel>,
    /// The role whose parents were asked for.
    pub pending_role: Seq<char>,
    /// The depth at which the pending role stands.
    pub pending_depth: nat,
    /// The roles whose permissions are collected.
    pub roles: Seq<Seq<char>>,
    /// How many of the roles have given their permissions.
    pub next_role: nat,
    /// The principal's global roles.
    pub globals: Seq<Seq<char>>,
    /// How many of the global roles have given their permissions.
    pub next_global: nat,
    /// The permissions collected so far, each once.
    pub permissions: Seq<Seq<char>>,
}

/// Whether `role` is on the active path: it is being visited, and meeting
/// it again as a parent closes a cycle.
pub open spec fn on_path(stack: Seq<FrameModel>, role: Seq<char>) -> bool {
    exists|k: int| 0 <= k < stack.len() && (#[trigger] stack[k]).role == role
}

/// `acc` with those of `more` added that it does not hold yet, in order.
pub open spec fn merged(acc: Seq<Seq<char>>, more: Seq<Seq<char>>) -> Seq<Seq<char>>
    decreases more.len(),
{
    if more.len() == 0 {
        acc
    } else {
        let head = merged(acc, more.drop_last());
        if head.contains(more.last()) {
            head
        } else {
            head.push(more.last())
        }
    }
}

/// A list of permissions as the cache holds it: the signature of the
/// configuration that produced it, then the permissions.
pub open spec fn encoded(marker: Seq<char>, permissions: Seq<Seq<char>>) -> Seq<Seq<char>> {
    seq![marker] + permissions
}

/// The permissions of a cache entry, where the entry opens with the
/// signature `marker`; `None` for an empty entry or another signature.
pub open spec fn decoded(marker: Seq<char>, cached: Seq<Seq<char>>) -> Option<Seq<Seq<char>>> {
    if cached.len() > 0 && cached[0] == marker {
        Some(cached.subrange(1, cached.len() as int))
    } else {
        None
    }
}

/// Whether `answer` is one that the machine takes in the phase `phase`.
/// A failure of the store is taken wherever the store was asked.
pub open spec fn expects(phase: Phase, answer: AnswerModel) -> bool {
    match phase {
        Phase::Tenant | Phase::Principal => answer is Flag || answer is Failed,
        Phase::Cache => answer is Cached,
        Phase::Roles | Phase::Parents => (answer matches AnswerModel::Roles(r) && r.len()
            <= usize::MAX) || answer is Failed,
        Phase::Walk => answer is Nothing,
        Phase::RolePermissions | Phase::GlobalPermissions => answer is Permissions
            || answer is Failed,
        Phase::GlobalRoles => answer is GlobalRoles || answer is Failed,
        Phase::Store => answer is Stored,
        Phase::Done => false,
    }
}

/// The state in which a resolution begins. Its first query is
/// [`Query::TenantActive`].
pub open spec fn initial(
    tenant: Seq<char>,
    principal: Seq<char>,
    marker: Seq<char>,
    hierarchy: bool,
    max_depth: usize,
) -> ResolutionModel {
    ResolutionModel {
        tenant,
        principal,
        marker,
        hierarchy,
        max_depth,
        phase: Phase::Tenant,
        roots: Seq::empty(),
        next_root: 0,
        output: Seq::empty(),
        stack: Seq::empty(),
        pending_role: Seq::empty(),
        pending_depth: 0,
        roles: Seq::empty(),
        next_role: 0,
        globals: Seq::empty(),
        next_global: 0,
        permissions: Seq::empty(),
    }
}

/// The end of a resolution with the outcome `outcome`.
pub open spec fn finish(s: ResolutionModel, outcome: OutcomeModel) -> (ResolutionModel, QueryModel) {
    (ResolutionModel { phase: Phase::Done, ..s }, QueryModel::Finished(outcome))
}

/// One move of the traversal of the role hierarchy.
///
/// With an empty path, the next direct role is taken up: one that was
/// found already is passed over, for any other its parents are asked for;
/// when no direct role is left, the roles found are those whose
/// permissions are collected. With a role on the path, its next parent is
/// looked at: one that is on the path closes a cycle and fails the
/// resolution, whatever the limit; any other that would stand deeper than
/// the limit fails it; one that was found already is passed over, and for
/// any other its parents are asked for. A role whose parents have all been
/// looked at leaves the path.
pub open spec fn walk(s: ResolutionModel) -> (ResolutionModel, QueryModel) {
    if s.stack.len() == 0 {
        if s.next_root >= s.roots.len() {
            collect(ResolutionModel { roles: s.output, next_role: 0, ..s })
        } else {
            let role = s.roots[s.next_root as int];
            let t = ResolutionModel { next_root: s.next_root + 1, ..s };
            if s.output.contains(role) {
                (ResolutionModel { phase: Phase::Walk, ..t }, QueryModel::Continue)
            } else {
                (
                    ResolutionModel {
                        phase: Phase::Parents,
                        pending_role: role,
                        pending_depth: 0,
                        ..t
                    },
                    QueryModel::RoleInherits(role),
                )
            }
        }
    } else {
        let top = s.stack.last();
        if top.next < top.parents.len() {
            let parent = top.parents[top.next as int];
            let t = ResolutionModel {
                stack: s.stack.drop_last().push(FrameModel { next: top.next + 1, ..top }),
                ..s
            };
            if on_path(s.stack, parent) {
                finish(
                    t,
                    OutcomeModel::Failed(
                        ErrorModel::RoleCycleDetected { tenant: s.tenant, role: parent },
                    ),
                )
            } else if top.depth >= s.max_depth {
                finish(
                    t,
                    OutcomeModel::Failed(
                        ErrorModel::RoleDepthExceeded {
                            tenant: s.tenant,
                            role: parent,
                            max_depth: s.max_depth,
                        },
                    ),
                )
            } else if s.output.contains(parent) {
                (ResolutionModel { phase: Phase::Walk, ..t }, QueryModel::Continue)
            } else {
                (
                    ResolutionModel {
                        phase: Phase::Parents,
                        pending_role: parent,
                        pending_depth: top.depth + 1,
                        ..t
                    },
                    QueryModel::RoleInherits(parent),
                )
            }
        } else {
            (
                ResolutionModel { phase: Phase::Walk, stack: s.stack.drop_last(), ..s },
                QueryModel::Continue,
            )
        }
    }
}

/// Asks for the permissions of the role in turn, or, when every role has
/// given its permissions, for the principal's global roles.
pub open spec fn collect(s: ResolutionModel) -> (ResolutionModel, QueryModel) {
    if s.next_role < s.roles.len() {
        (
            ResolutionModel { phase: Phase::RolePermissions, ..s },
            QueryModel::RolePermissions(s.roles[s.next_role as int]),
        )
    } else {
        (ResolutionModel { phase: Phase::GlobalRoles, ..s }, QueryModel::GlobalRoles)
    }
}

/// Asks for the permissions of the global role in turn, or, when every
/// global role has given its permissions, hands the result to the cache.
pub open spec fn collect_global(s: ResolutionModel) -> (ResolutionModel, QueryModel) {
    if s.next_global < s.globals.len() {
        (
            ResolutionModel { phase: Phase::GlobalPermissions, ..s },
            QueryModel::GlobalRolePermissions(s.globals[s.next_global as int]),
        )
    } else {
        (
            ResolutionModel { phase: Phase::Store, ..s },
            QueryModel::StorePermissions(encoded(s.marker, s.permissions)),
        )
    }
}

/// What the machine does with `answer` in the state `s`: the next state
/// and the next query.
///
/// An inactive tenant or principal ends the resolution at once. A cache
/// entry that opens with the configuration's signature is the result;
/// any other entry, or none, is a miss. After a miss the direct roles are
/// fetched and, where inheritance is followed, expanded by [`walk`]; the
/// permissions of every role found and of every global role are merged,
/// each once; the result goes to the cache under the signature and is
/// handed out. A failure of the store ends the resolution with that
/// failure.
pub open spec fn step(s: ResolutionModel, answer: AnswerModel) -> (ResolutionModel, QueryModel) {
    match answer {
        AnswerModel::Failed(e) => finish(s, OutcomeModel::Failed(ErrorModel::Store(e))),
        AnswerModel::Nothing => walk(s),
        AnswerModel::Flag(active) => if !active {
            finish(s, OutcomeModel::Inactive)
        } else if s.phase == Phase::Tenant {
            (ResolutionModel { phase: Phase::Principal, ..s }, QueryModel::PrincipalActive)
        } else {
            (ResolutionModel { phase: Phase::Cache, ..s }, QueryModel::CachedPermissions)
        },
        AnswerModel::Cached(entry) => match entry {
            Some(cached) => match decoded(s.marker, cached) {
                Some(permissions) => finish(s, OutcomeModel::Permissions(permissions)),
                None => (ResolutionModel { phase: Phase::Roles, ..s }, QueryModel::PrincipalRoles),
            },
            None => (ResolutionModel { phase: Phase::Roles, ..s }, QueryModel::PrincipalRoles),
        },
        AnswerModel::Roles(roles) => if s.phase == Phase::Roles {
            if s.hierarchy {
                walk(ResolutionModel { roots: roles, next_root: 0, ..s })
            } else {
                collect(ResolutionModel { roles, next_role: 0, ..s })
            }
        } else {
            walk(
                ResolutionModel {
                    output: s.output.push(s.pending_role),
                    stack: s.stack.push(
                        FrameModel {
                            role: s.pending_role,
                            depth: s.pending_depth,
                            parents: roles,
                            next: 0,
                        },
                    ),
                    ..s
                },
            )
        },
        AnswerModel::Permissions(more) => if s.phase == Phase::RolePermissions {
            collect(
                ResolutionModel {
                    permissions: merged(s.permissions, more),
                    next_role: s.next_role + 1,
                    ..s
                },
            )
        } else {
            collect_global(
                ResolutionModel {
                    permissions: merged(s.permissions, more),
                    next_global: s.next_global + 1,
                    ..s
                },
            )
        },
        AnswerModel::GlobalRoles(globals) => collect_global(
            ResolutionModel { globals, next_global: 0, ..s },
        ),
        AnswerModel::Stored => finish(s, OutcomeModel::Permissions(s.permissions)),
    }
}

/// The bounds that every state keeps: each counter within its list, the
/// roles on the path at depths within the limit, one below the other.
pub open spec fn steady(s: ResolutionModel) -> bool {
    &&& s.next_root <= s.roots.len()
    &&& s.next_role <= s.roles.len()
    &&& s.next_global <= s.globals.len()
    &&& s.pending_depth <= s.max_depth
    &&& forall|k: int|
        0 <= k < s.stack.len() ==> (#[trigger] s.stack[k]).depth == k && s.stack[k].depth
            <= s.max_depth && s.stack[k].next <= s.stack[k].parents.len()
            && s.stack[k].parents.len() <= usize::MAX
}

/// The bounds that a state keeps between two steps: those of [`steady`],
/// and what the phase says of the item in turn.
pub open spec fn bounded(s: ResolutionModel) -> bool {
    &&& steady(s)
    &&& s.phase == Phase::Parents ==> s.pending_depth == s.stack.len()
    &&& s.phase == Phase::RolePermissions ==> s.next_role < s.roles.len()
    &&& s.phase == Phase::GlobalPermissions ==> s.next_global < s.globals.len()
}

/// What a state keeps of its lists: no role is found twice, no
/// permission is collected twice, and a role whose parents are asked for
/// has not been found before.
pub open spec fn tidy(s: ResolutionModel) -> bool {
    &&& s.output.no_duplicates()
    &&& s.permissions.no_duplicates()
    &&& s.phase == Phase::Parents ==> !s.output.contains(s.pending_role)
}

/// A list without duplicates stays so when something new is put behind
/// it.
pub proof fn lemma_push_fresh(list: Seq<Seq<char>>, item: Seq<char>)
    requires
        list.no_duplicates(),
        !list.contains(item),
    ensures
        list.push(item).no_duplicates(),
{
    let longer = list.push(item);
    assert forall|i: int, j: int| 0 <= i < longer.len() && 0 <= j < longer.len() && i != j implies longer[i]
        != longer[j] by {
        if i < list.len() && j < list.len() {
            assert(longer[i] == list[i] && longer[j] == list[j]);
        } else if i < list.len() {
            assert(list.contains(list[i]));
        } else {
            assert(list.contains(list[j]));
        }
    }
}

/// Merging adds what is new and nothing else: the merged list holds
/// exactly what either list holds, and nothing twice where the first
/// held nothing twice.
pub proof fn lemma_merged(acc: Seq<Seq<char>>, more: Seq<Seq<char>>)
    ensures
        forall|x: Seq<char>|
            #[trigger] merged(acc, more).contains(x) <==> acc.contains(x) || more.contains(x),
        acc.no_duplicates() ==> merged(acc, more).no_duplicates(),
        merged(acc, more).len() >= acc.len(),
        merged(acc, more).take(acc.len() as int) == acc,
    decreases more.len(),
{
    if more.len() == 0 {
        assert(acc.take(acc.len() as int) =~= acc);
        assert forall|x: Seq<char>| !more.contains(x) by {
            if more.contains(x) {
                let i = choose|i: int| 0 <= i < more.len() && more[i] == x;
            }
        }
    } else {
        let front = more.drop_last();
        let head = merged(acc, front);
        let last = more.last();
        lemma_merged(acc, front);
        let all = merged(acc, more);
        assert forall|x: Seq<char>| #[trigger] all.contains(x) <==> acc.contains(x)
            || more.contains(x) by {
            if more.contains(x) {
                let i = choose|i: int| 0 <= i < more.len() && more[i] == x;
                if i < front.len() {
                    assert(front[i] == x);
                    assert(front.contains(x));
                }
            }
            if front.contains(x) {
                let i = choose|i: int| 0 <= i < front.len() && front[i] == x;
                assert(more[i] == x);
            }
            if !head.contains(last) {
                if all.contains(x) {
                    let i = choose|i: int| 0 <= i < all.len() && all[i] == x;
                    if i < head.len() {
                        assert(head[i] == x);
                        assert(head.contains(x));
                    } else {
                        assert(more[more.len() - 1] == x);
                    }
                }
                if head.contains(x) {
                    let i = choose|i: int| 0 <= i < head.len() && head[i] == x;
                    assert(all[i] == x);
                }
                if x == last {
                    assert(all[all.len() - 1] == x);
                }
            } else {
                if x == last {
                    assert(head.contains(x));
                }
            }
            assert(more[more.len() - 1] == last);
        }
        if !head.contains(last) {
            if acc.no_duplicates() {
                lemma_push_fresh(head, last);
            }
            assert(all.take(acc.len() as int) =~= head.take(acc.len() as int));
        }
    }
}

/// A step keeps the lists of a state tidy.
pub proof fn lemma_step_tidy(s: ResolutionModel, answer: AnswerModel)
    requires
        tidy(s),
        expects(s.phase, answer),
    ensures
        tidy(step(s, answer).0),
{
    match answer {
        AnswerModel::Roles(roles) => {
            if s.phase != Phase::Roles {
                lemma_push_fresh(s.output, s.pending_role);
            }
        },
        AnswerModel::Permissions(more) => {
            lemma_merged(s.permissions, more);
        },
        _ => {},
    }
}

/// The permissions that a resolution computes hold nothing twice: every
/// outcome of a step from a tidy state, unless it is taken from the
/// cache, is a list without duplicates.
pub proof fn lemma_outcome_distinct(s: ResolutionModel, answer: AnswerModel)
    requires
        tidy(s),
        expects(s.phase, answer),
        !(answer is Cached),
    ensures
        step(s, answer).1 matches QueryModel::Finished(OutcomeModel::Permissions(p))
            ==> p.no_duplicates(),
{
    lemma_step_tidy(s, answer);
}

/// A step from a bounded state in which the answer is expected leads to a
/// bounded state.
pub proof fn lemma_step_bounded(s: ResolutionModel, answer: AnswerModel)
    requires
        bounded(s),
        expects(s.phase, answer),
    ensures
        bounded(step(s, answer).0),
{
    let t = step(s, answer).0;
    match answer {
        AnswerModel::Nothing => {
            lemma_walk_bounded(s);
        },
        AnswerModel::Roles(roles) => {
            if s.phase == Phase::Roles {
                if s.hierarchy {
                    lemma_walk_bounded(ResolutionModel { roots: roles, next_root: 0, ..s });
                }
            } else {
                let u = ResolutionModel {
                    output: s.output.push(s.pending_role),
                    stack: s.stack.push(
                        FrameModel {
                            role: s.pending_role,
                            depth: s.pending_depth,
                            parents: roles,
                            next: 0,
                        },
                    ),
                    ..s
                };
                assert forall|k: int| 0 <= k < u.stack.len() implies (#[trigger] u.stack[k]).depth
                    == k && u.stack[k].depth <= u.max_depth && u.stack[k].next
                    <= u.stack[k].parents.len() && u.stack[k].parents.len() <= usize::MAX by {
                    if k < s.stack.len() {
                        assert(u.stack[k] == s.stack[k]);
                    }
                }
                lemma_walk_bounded(u);
            }
        },
        _ => {},
    }
}

/// A move of the traversal keeps the bounds.
pub proof fn lemma_walk_bounded(s: ResolutionModel)
    requires
        steady(s),
    ensures
        bounded(walk(s).0),
{
    let t = walk(s).0;
    if s.stack.len() > 0 {
        let top = s.stack.last();
        assert(top == s.stack[s.stack.len() - 1]);
        if top.next < top.parents.len() {
            let bumped = s.stack.drop_last().push(FrameModel { next: top.next + 1, ..top });
            assert forall|k: int| 0 <= k < bumped.len() implies (#[trigger] bumped[k]).depth == k
                && bumped[k].depth <= s.max_depth && bumped[k].next <= bumped[k].parents.len()
                && bumped[k].parents.len() <= usize::MAX by {
                if k < bumped.len() - 1 {
                    assert(bumped[k] == s.stack[k]);
                }
            }
        } else {
            let popped = s.stack.drop_last();
            assert forall|k: int| 0 <= k < popped.len() implies (#[trigger] popped[k]).depth == k
                && popped[k].depth <= s.max_depth && popped[k].next <= popped[k].parents.len()
                && popped[k].parents.len() <= usize::MAX by {
                assert(popped[k] == s.stack[k]);
            }
        }
    }
}


/// The state and the query that the machine reaches from the state `s`
/// on the answers `answers`, one after the other. Before any answer the
/// query is whether the tenant is active.
pub open spec fn run(s: ResolutionModel, answers: Seq<AnswerModel>) -> (ResolutionModel, QueryModel)
    decreases answers.len(),
{
    if answers.len() == 0 {
        (s, QueryModel::TenantActive)
    } else {
        step(run(s, answers.drop_last()).0, answers.last())
    }
}

/// Every one of `answers` is an answer that the machine expects where it
/// stands when the answer comes.
pub open spec fn orderly(s: ResolutionModel, answers: Seq<AnswerModel>) -> bool
    decreases answers.len(),
{
    answers.len() > 0 ==> orderly(s, answers.drop_last()) && expects(
        run(s, answers.drop_last()).0.phase,
        answers.last(),
    )
}

/// The machine, begun in the state `s`, can end with `outcome`: there are
/// answers of a store and a cache on which it does.
pub open spec fn resolves(s: ResolutionModel, outcome: OutcomeModel) -> bool {
    exists|answers: Seq<AnswerModel>| #[trigger]
        orderly(s, answers) && run(s, answers).1 == QueryModel::Finished(outcome)
}

/// The failures of a resolution: a step fails with the failure of the
/// store that it was given, or, in the traversal of the hierarchy, with a
/// cycle or an exceeded depth that names the resolution's tenant and its
/// limit. No step invents another error, and none turns a failure into a
/// decision.
pub proof fn lemma_failures(s: ResolutionModel, answer: AnswerModel)
    ensures
        answer matches AnswerModel::Failed(e) ==> step(s, answer).1 == QueryModel::Finished(
            OutcomeModel::Failed(ErrorModel::Store(e)),
        ),
        step(s, answer).1 matches QueryModel::Finished(OutcomeModel::Failed(e)) ==> match e {
            ErrorModel::Store(m) => answer == AnswerModel::Failed(m),
            ErrorModel::RoleCycleDetected { tenant, role } => tenant == s.tenant,
            ErrorModel::RoleDepthExceeded { tenant, role, max_depth } => tenant == s.tenant
                && max_depth == s.max_depth,
            _ => false,
        },
{
}

/// Without inheritance there is no traversal: a resolution that does not
/// follow inheritance never walks, and fails only where the store fails.
pub proof fn lemma_flat_step(s: ResolutionModel, answer: AnswerModel)
    requires
        !s.hierarchy,
        expects(s.phase, answer),
        s.phase != Phase::Walk && s.phase != Phase::Parents,
    ensures
        !step(s, answer).0.hierarchy,
        step(s, answer).0.phase != Phase::Walk && step(s, answer).0.phase != Phase::Parents,
        step(s, answer).1 matches QueryModel::Finished(OutcomeModel::Failed(e)) ==> e is Store,
{
}

/// The phase in which the machine stands after it has handed out `q`.
pub open spec fn awaited(q: QueryModel) -> Phase {
    match q {
        QueryModel::Continue => Phase::Walk,
        QueryModel::TenantActive => Phase::Tenant,
        QueryModel::PrincipalActive => Phase::Principal,
        QueryModel::CachedPermissions => Phase::Cache,
        QueryModel::PrincipalRoles => Phase::Roles,
        QueryModel::RoleInherits(_) => Phase::Parents,
        QueryModel::RolePermissions(_) => Phase::RolePermissions,
        QueryModel::GlobalRoles => Phase::GlobalRoles,
        QueryModel::GlobalRolePermissions(_) => Phase::GlobalPermissions,
        QueryModel::StorePermissions(_) => Phase::Store,
        QueryModel::Finished(_) => Phase::Done,
    }
}

/// The query that a step hands out tells the phase of the state that it
/// leads to.
pub proof fn lemma_step_awaited(s: ResolutionModel, answer: AnswerModel)
    ensures
        step(s, answer).0.phase == awaited(step(s, answer).1),
{
}

/// The weight of one level of the hierarchy against the next: more than
/// any role's parents can bring.
pub open spec fn base() -> nat {
    2 * (usize::MAX as nat) + 3
}

/// The weight of a parent that is still to be looked at, `e` levels above
/// the deepest level that the limit admits.
pub open spec fn unit(e: nat) -> nat
    decreases e,
{
    if e == 0 {
        1
    } else {
        base() * unit((e - 1) as nat)
    }
}

/// What is left to do below one role on the path.
pub open spec fn frame_weight(f: FrameModel, max: nat) -> nat {
    ((2 * (f.parents.len() - f.next) + 1) * unit((max - f.depth) as nat)) as nat
}

/// What is left to do below the roles on the path.
pub open spec fn path_weight(stack: Seq<FrameModel>, max: nat) -> nat
    decreases stack.len(),
{
    if stack.len() == 0 {
        0
    } else {
        path_weight(stack.drop_last(), max) + frame_weight(stack.last(), max)
    }
}

/// How far a phase is from the end.
pub open spec fn rank(phase: Phase) -> nat {
    match phase {
        Phase::Tenant => 9,
        Phase::Principal => 8,
        Phase::Cache => 7,
        Phase::Roles => 6,
        Phase::Walk | Phase::Parents => 5,
        Phase::RolePermissions => 4,
        Phase::GlobalRoles => 3,
        Phase::GlobalPermissions => 2,
        Phase::Store => 1,
        Phase::Done => 0,
    }
}

/// A measure of what a resolution has left to do. Every step makes it
/// smaller in the order of [`precedes`], which is why a driver's loop ends.
pub open spec fn effort(s: ResolutionModel) -> (nat, nat, nat) {
    match s.phase {
        Phase::Walk => (
            5,
            (s.roots.len() - s.next_root) as nat,
            path_weight(s.stack, s.max_depth as nat),
        ),
        Phase::Parents => (
            5,
            (s.roots.len() - s.next_root) as nat,
            path_weight(s.stack, s.max_depth as nat) + unit(
                (s.max_depth - s.pending_depth + 1) as nat,
            ),
        ),
        Phase::RolePermissions => (4, (s.roles.len() - s.next_role) as nat, 0),
        Phase::GlobalPermissions => (2, (s.globals.len() - s.next_global) as nat, 0),
        _ => (rank(s.phase), 0, 0),
    }
}

/// `a` comes before `b` in the lexicographic order.
pub open spec fn precedes(a: (nat, nat, nat), b: (nat, nat, nat)) -> bool {
    a.0 < b.0 || (a.0 == b.0 && (a.1 < b.1 || (a.1 == b.1 && a.2 < b.2)))
}

proof fn lemma_unit_positive(e: nat)
    ensures
        unit(e) > 0,
    decreases e,
{
    if e > 0 {
        lemma_unit_positive((e - 1) as nat);
        assert(base() * unit((e - 1) as nat) > 0) by (nonlinear_arith)
            requires
                base() > 0,
                unit((e - 1) as nat) > 0,
        ;
    }
}

proof fn lemma_frame_below_unit(f: FrameModel, max: nat)
    requires
        f.depth <= max,
        f.next <= f.parents.len() <= usize::MAX,
    ensures
        frame_weight(f, max) < unit((max - f.depth + 1) as nat),
        frame_weight(f, max) > 0,
{
    let u = unit((max - f.depth) as nat);
    let n = (2 * (f.parents.len() - f.next) + 1) as nat;
    lemma_unit_positive((max - f.depth) as nat);
    assert(n < base());
    assert(n * u < base() * u) by (nonlinear_arith)
        requires
            n < base(),
            u > 0,
    ;
    assert(n * u > 0) by (nonlinear_arith)
        requires
            n > 0,
            u > 0,
    ;
}

proof fn lemma_frame_bumped(f: FrameModel, max: nat)
    requires
        f.depth <= max,
        f.next < f.parents.len(),
    ensures
        frame_weight(FrameModel { next: f.next + 1, ..f }, max) + 2 * unit((max - f.depth) as nat)
            == frame_weight(f, max),
{
    let u = unit((max - f.depth) as nat);
    let r = f.parents.len() - f.next;
    assert((2 * (r - 1) + 1) * u + 2 * u == (2 * r + 1) * u) by (nonlinear_arith);
    lemma_unit_positive((max - f.depth) as nat);
    assert((2 * (r - 1) + 1) * u >= 0) by (nonlinear_arith)
        requires
            r >= 1,
            u > 0,
    ;
    assert((2 * r + 1) * u >= 0) by (nonlinear_arith)
        requires
            r >= 1,
            u > 0,
    ;
}

/// A move of the traversal leaves less to do than there was with the
/// path and the direct roles as they stood.
pub proof fn lemma_walk_decreases(s: ResolutionModel)
    requires
        steady(s),
    ensures
        precedes(
            effort(walk(s).0),
            (5, (s.roots.len() - s.next_root) as nat, path_weight(s.stack, s.max_depth as nat)),
        ),
{
    let max = s.max_depth as nat;
    if s.stack.len() > 0 {
        let top = s.stack.last();
        let rest = s.stack.drop_last();
        assert(top == s.stack[s.stack.len() - 1]);
        lemma_unit_positive((max - top.depth) as nat);
        if top.next < top.parents.len() {
            let f = FrameModel { next: top.next + 1, ..top };
            let bumped = rest.push(f);
            assert(bumped.drop_last() =~= rest);
            assert(bumped.last() == f);
            lemma_frame_bumped(top, max);
            assert(path_weight(bumped, max) + 2 * unit((max - top.depth) as nat) == path_weight(
                s.stack,
                max,
            ));
        } else {
            lemma_frame_below_unit(top, max);
        }
    }
}

/// Every step that the machine takes on an answer that it expects leaves
/// less to do.
pub proof fn lemma_step_decreases(s: ResolutionModel, answer: AnswerModel)
    requires
        bounded(s),
        expects(s.phase, answer),
    ensures
        precedes(effort(step(s, answer).0), effort(s)),
{
    let max = s.max_depth as nat;
    match answer {
        AnswerModel::Nothing => {
            lemma_walk_decreases(s);
        },
        AnswerModel::Roles(roles) => {
            if s.phase == Phase::Roles {
                if s.hierarchy {
                    let u = ResolutionModel { roots: roles, next_root: 0, ..s };
                    lemma_walk_decreases(u);
                }
            } else {
                let f = FrameModel {
                    role: s.pending_role,
                    depth: s.pending_depth,
                    parents: roles,
                    next: 0,
                };
                let u = ResolutionModel {
                    output: s.output.push(s.pending_role),
                    stack: s.stack.push(f),
                    ..s
                };
                assert(u.stack.drop_last() =~= s.stack);
                assert(u.stack.last() == f);
                lemma_frame_below_unit(f, max);
                assert forall|k: int| 0 <= k < u.stack.len() implies (#[trigger] u.stack[k]).depth
                    == k && u.stack[k].depth <= u.max_depth && u.stack[k].next
                    <= u.stack[k].parents.len() && u.stack[k].parents.len() <= usize::MAX by {
                    if k < s.stack.len() {
                        assert(u.stack[k] == s.stack[k]);
                    }
                }
                lemma_walk_decreases(u);
            }
        },
        _ => {},
    }
}

/// Whether `v` holds the role `role`.
pub fn holds_role(v: &Vec<RoleId>, role: &RoleId) -> (r: bool)
    ensures
        r == v.deep_view().contains(role@),
{
    let mut i: usize = 0;
    while i < v.len()
        invariant
            i <= v.len(),
            forall|j: int| 0 <= j < i ==> v.deep_view()[j] != role@,
        decreases v.len() - i,
    {
        if v[i] == *role {
            assert(v.deep_view()[i as int] == role@);
            return true;
        }
        i += 1;
    }
    false
}

/// Whether `v` holds the permission `permission`.
pub fn holds_permission(v: &Vec<Permission>, permission: &Permission) -> (r: bool)
    ensures
        r == v.deep_view().contains(permission@),
{
    let mut i: usize = 0;
    while i < v.len()
        invariant
            i <= v.len(),
            forall|j: int| 0 <= j < i ==> v.deep_view()[j] != permission@,
        decreases v.len() - i,
    {
        if v[i] == *permission {
            assert(v.deep_view()[i as int] == permission@);
            return true;
        }
        i += 1;
    }
    false
}

/// Whether `role` is the role of a frame of `stack`.
fn on_stack(stack: &Vec<Frame>, role: &RoleId) -> (r: bool)
    ensures
        r == on_path(stack.deep_view(), role@),
{
    let mut i: usize = 0;
    while i < stack.len()
        invariant
            i <= stack.len(),
            forall|j: int| 0 <= j < i ==> (#[trigger] stack.deep_view()[j]).role != role@,
        decreases stack.len() - i,
    {
        if stack[i].role == *role {
            assert(stack.deep_view()[i as int].role == role@);
            return true;
        }
        i += 1;
    }
    false
}

/// A copy of the roles `v`.
pub fn clone_roles(v: &Vec<RoleId>) -> (r: Vec<RoleId>)
    ensures
        r.deep_view() == v.deep_view(),
{
    let mut r: Vec<RoleId> = Vec::new();
    let mut i: usize = 0;
    while i < v.len()
        invariant
            i <= v.len(),
            r.len() == i,
            forall|j: int| 0 <= j < i ==> r@[j]@ == v@[j]@,
        decreases v.len() - i,
    {
        r.push(v[i].clone());
        i += 1;
    }
    assert(r.deep_view() =~= v.deep_view());
    r
}

/// A copy of the permissions `v`.
pub fn clone_permissions(v: &Vec<Permission>) -> (r: Vec<Permission>)
    ensures
        r.deep_view() == v.deep_view(),
{
    let mut r: Vec<Permission> = Vec::new();
    let mut i: usize = 0;
    while i < v.len()
        invariant
            i <= v.len(),
            r.len() == i,
            forall|j: int| 0 <= j < i ==> r@[j]@ == v@[j]@,
        decreases v.len() - i,
    {
        r.push(v[i].clone());
        i += 1;
    }
    assert(r.deep_view() =~= v.deep_view());
    r
}

/// Adds to `acc` those of `more` that it does not hold yet, in order.
pub fn merge_permissions(acc: &mut Vec<Permission>, more: &Vec<Permission>)
    ensures
        final(acc).deep_view() == merged(old(acc).deep_view(), more.deep_view()),
{
    let ghost start = acc.deep_view();
    let ghost all = more.deep_view();
    let mut i: usize = 0;
    assert(all.take(0) =~= Seq::<Seq<char>>::empty());
    while i < more.len()
        invariant
            i <= more.len(),
            all == more.deep_view(),
            acc.deep_view() == merged(start, all.take(i as int)),
        decreases more.len() - i,
    {
        let ghost before = acc.deep_view();
        proof {
            assert(all.take(i + 1).drop_last() =~= all.take(i as int));
            assert(all.take(i + 1).last() == more@[i as int]@);
        }
        if !holds_permission(acc, &more[i]) {
            acc.push(more[i].clone());
            assert(acc.deep_view() =~= before.push(more@[i as int]@));
        }
        i += 1;
    }
    assert(all.take(more.len() as int) =~= all);
}

/// The cache entry for `permissions`: the signature `marker`, then the
/// permissions.
pub fn encode_cached_permissions(marker: &Permission, permissions: &Vec<Permission>) -> (r: Vec<
    Permission,
>)
    ensures
        r.deep_view() == encoded(marker@, permissions.deep_view()),
{
    let mut r: Vec<Permission> = Vec::new();
    r.push(marker.clone());
    let mut i: usize = 0;
    while i < permissions.len()
        invariant
            i <= permissions.len(),
            r.len() == i + 1,
            r@[0]@ == marker@,
            forall|j: int| 0 <= j < i ==> r@[j + 1]@ == permissions@[j]@,
        decreases permissions.len() - i,
    {
        r.push(permissions[i].clone());
        i += 1;
    }
    assert(r.deep_view() =~= encoded(marker@, permissions.deep_view()));
    r
}

/// The permissions of the cache entry `cached`, where it opens with the
/// signature `marker`; `None` for an empty entry or another signature.
pub fn decode_cached_permissions(marker: &Permission, cached: &Vec<Permission>) -> (r: Option<
    Vec<Permission>,
>)
    ensures
        match decoded(marker@, cached.deep_view()) {
            Some(p) => r matches Some(v) && v.deep_view() == p,
            None => r is None,
        },
{
    if cached.len() == 0 {
        return None;
    }
    assert(cached.deep_view()[0] == cached@[0]@);
    if cached[0] != *marker {
        return None;
    }
    let mut r: Vec<Permission> = Vec::new();
    let mut i: usize = 1;
    while i < cached.len()
        invariant
            1 <= i <= cached.len(),
            r.len() == i - 1,
            forall|j: int| 0 <= j < i - 1 ==> r@[j]@ == cached@[j + 1]@,
        decreases cached.len() - i,
    {
        r.push(cached[i].clone());
        i += 1;
    }
    assert(r.deep_view() =~= cached.deep_view().subrange(1, cached.len() as int));
    Some(r)
}

/// A resolution under way. It is made by [`Resolution::begin`] and moved
/// by [`Resolution::advance`].
pub struct Resolution {
    tenant: TenantId,
    principal: PrincipalId,
    marker: Permission,
    hierarchy: bool,
    max_depth: usize,
    phase: Phase,
    roots: Vec<RoleId>,
    next_root: usize,
    output: Vec<RoleId>,
    stack: Vec<Frame>,
    pending_role: RoleId,
    pending_depth: usize,
    roles: Vec<RoleId>,
    next_role: usize,
    globals: Vec<GlobalRoleId>,
    next_global: usize,
    permissions: Vec<Permission>,
}

impl View for Resolution {
    type V = ResolutionModel;

    closed spec fn view(&self) -> ResolutionModel {
        ResolutionModel {
            tenant: self.tenant@,
            principal: self.principal@,
            marker: self.marker@,
            hierarchy: self.hierarchy,
            max_depth: self.max_depth,
            phase: self.phase,
            roots: self.roots.deep_view(),
            next_root: self.next_root as nat,
            output: self.output.deep_view(),
            stack: self.stack.deep_view(),
            pending_role: self.pending_role@,
            pending_depth: self.pending_depth as nat,
            roles: self.roles.deep_view(),
            next_role: self.next_role as nat,
            globals: self.globals.deep_view(),
            next_global: self.next_global as nat,
            permissions: self.permissions.deep_view(),
        }
    }
}

impl Resolution {
    /// Whether the state keeps its bounds. Every state that `begin` and
    /// `advance` hand out does.
    pub open spec fn wf(&self) -> bool {
        bounded(self@) && tidy(self@)
    }

    /// Begins the resolution of `principal`'s permissions within `tenant`
    /// for an engine with the signature `marker`. The first query is
    /// whether the tenant is active.
    pub fn begin(
        tenant: TenantId,
        principal: PrincipalId,
        marker: Permission,
        hierarchy: bool,
        max_depth: usize,
    ) -> (r: (Resolution, Query))
        ensures
            r.0@ == initial(tenant@, principal@, marker@, hierarchy, max_depth),
            r.1@ == QueryModel::TenantActive,
            r.0.wf(),
    {
        let state = Resolution {
            tenant,
            principal,
            marker,
            hierarchy,
            max_depth,
            phase: Phase::Tenant,
            roots: Vec::new(),
            next_root: 0,
            output: Vec::new(),
            stack: Vec::new(),
            pending_role: RoleId::from_string(String::new()),
            pending_depth: 0,
            roles: Vec::new(),
            next_role: 0,
            globals: Vec::new(),
            next_global: 0,
            permissions: Vec::new(),
        };
        proof {
            let m = initial(tenant@, principal@, marker@, hierarchy, max_depth);
            assert(state.roots.deep_view() =~= m.roots);
            assert(state.output.deep_view() =~= m.output);
            assert(state.stack.deep_view() =~= m.stack);
            assert(state.roles.deep_view() =~= m.roles);
            assert(state.globals.deep_view() =~= m.globals);
            assert(state.permissions.deep_view() =~= m.permissions);
            assert(state.pending_role@ =~= m.pending_role);
        }
        (state, Query::TenantActive)
    }

    /// The phase in which the resolution stands.
    pub fn phase(&self) -> (r: Phase)
        ensures
            r == self@.phase,
    {
        self.phase
    }

    /// The tenant within which permissions are resolved.
    pub fn tenant(&self) -> (r: &TenantId)
        ensures
            r@ == self@.tenant,
    {
        &self.tenant
    }

    /// The principal whose permissions are resolved.
    pub fn principal(&self) -> (r: &PrincipalId)
        ensures
            r@ == self@.principal,
    {
        &self.principal
    }

    /// Whether `answer` is one that the machine takes where it stands.
    pub fn accepts(&self, answer: &Answer) -> (r: bool)
        ensures
            r == expects(self@.phase, answer@),
    {
        match self.phase {
            Phase::Tenant | Phase::Principal => matches!(answer, Answer::Flag(_) | Answer::Failed(_)),
            Phase::Cache => matches!(answer, Answer::Cached(_)),
            Phase::Roles | Phase::Parents => {
                if let Answer::Roles(r) = answer {
                    assert(r.deep_view().len() == r.len());
                }
                matches!(answer, Answer::Roles(_) | Answer::Failed(_))
            },
            Phase::Walk => matches!(answer, Answer::Nothing),
            Phase::RolePermissions | Phase::GlobalPermissions => matches!(
                answer,
                Answer::Permissions(_) | Answer::Failed(_)
            ),
            Phase::GlobalRoles => matches!(answer, Answer::GlobalRoles(_) | Answer::Failed(_)),
            Phase::Store => matches!(answer, Answer::Stored),
            Phase::Done => false,
        }
    }

    /// Takes the answer to the last query and hands back the next query,
    /// as [`step`] states it.
    pub fn advance(&mut self, answer: Answer) -> (q: Query)
        requires
            old(self).wf(),
            expects(old(self)@.phase, answer@),
        ensures
            (final(self)@, q@) == step(old(self)@, answer@),
            final(self).wf(),
            final(self)@.phase == awaited(q@),
            precedes(effort(final(self)@), effort(old(self)@)),
    {
        proof {
            lemma_step_bounded(self@, answer@);
            lemma_step_tidy(self@, answer@);
            lemma_step_decreases(self@, answer@);
        }
        match answer {
            Answer::Failed(e) => self.finish(Outcome::Failed(Error::Store(e))),
            Answer::Nothing => self.walk(),
            Answer::Flag(active) => {
                if !active {
                    self.finish(Outcome::Inactive)
                } else if self.phase == Phase::Tenant {
                    self.phase = Phase::Principal;
                    Query::PrincipalActive
                } else {
                    self.phase = Phase::Cache;
                    Query::CachedPermissions
                }
            },
            Answer::Cached(entry) => {
                match entry {
                    Some(cached) => match decode_cached_permissions(&self.marker, &cached) {
                        Some(permissions) => self.finish(Outcome::Permissions(permissions)),
                        None => {
                            self.phase = Phase::Roles;
                            Query::PrincipalRoles
                        },
                    },
                    None => {
                        self.phase = Phase::Roles;
                        Query::PrincipalRoles
                    },
                }
            },
            Answer::Roles(roles) => {
                if self.phase == Phase::Roles {
                    if self.hierarchy {
                        self.roots = roles;
                        self.next_root = 0;
                        self.walk()
                    } else {
                        self.roles = roles;
                        self.next_role = 0;
                        self.collect()
                    }
                } else {
                    let ghost before = self.output.deep_view();
                    let ghost path = self.stack.deep_view();
                    let frame = Frame {
                        role: self.pending_role.clone(),
                        depth: self.pending_depth,
                        parents: roles,
                        next: 0,
                    };
                    self.output.push(self.pending_role.clone());
                    self.stack.push(frame);
                    proof {
                        assert(self.output.deep_view() =~= before.push(self.pending_role@));
                        assert(self.stack.deep_view() =~= path.push(frame.deep_view()));
                    }
                    self.walk()
                }
            },
            Answer::Permissions(more) => {
                merge_permissions(&mut self.permissions, &more);
                assert(self.roles.deep_view().len() == self.roles.len());
                assert(self.globals.deep_view().len() == self.globals.len());
                if self.phase == Phase::RolePermissions {
                    self.next_role = self.next_role + 1;
                    self.collect()
                } else {
                    self.next_global = self.next_global + 1;
                    self.collect_global()
                }
            },
            Answer::GlobalRoles(globals) => {
                self.globals = globals;
                self.next_global = 0;
                self.collect_global()
            },
            Answer::Stored => {
                let permissions = clone_permissions(&self.permissions);
                self.finish(Outcome::Permissions(permissions))
            },
        }
    }

    fn finish(&mut self, outcome: Outcome) -> (q: Query)
        requires
            steady(old(self)@),
        ensures
            (final(self)@, q@) == finish(old(self)@, outcome@),
            bounded(final(self)@),
    {
        self.phase = Phase::Done;
        assert(self@.stack == old(self)@.stack);
        Query::Finished(outcome)
    }

    fn collect(&mut self) -> (q: Query)
        requires
            steady(old(self)@),
        ensures
            (final(self)@, q@) == collect(old(self)@),
            bounded(final(self)@),
    {
        if self.next_role < self.roles.len() {
            self.phase = Phase::RolePermissions;
            Query::RolePermissions(self.roles[self.next_role].clone())
        } else {
            self.phase = Phase::GlobalRoles;
            Query::GlobalRoles
        }
    }

    fn collect_global(&mut self) -> (q: Query)
        requires
            steady(old(self)@),
        ensures
            (final(self)@, q@) == collect_global(old(self)@),
            bounded(final(self)@),
    {
        if self.next_global < self.globals.len() {
            self.phase = Phase::GlobalPermissions;
            Query::GlobalRolePermissions(self.globals[self.next_global].clone())
        } else {
            self.phase = Phase::Store;
            Query::StorePermissions(encode_cached_permissions(&self.marker, &self.permissions))
        }
    }

    fn walk(&mut self) -> (q: Query)
        requires
            steady(old(self)@),
        ensures
            (final(self)@, q@) == walk(old(self)@),
            bounded(final(self)@),
    {
        proof {
            lemma_walk_bounded(self@);
        }
        let ghost path = self.stack.deep_view();
        if self.stack.len() == 0 {
            if self.next_root >= self.roots.len() {
                self.roles = clone_roles(&self.output);
                self.next_role = 0;
                self.collect()
            } else {
                let role = self.roots[self.next_root].clone();
                self.next_root = self.next_root + 1;
                if holds_role(&self.output, &role) {
                    self.phase = Phase::Walk;
                    Query::Continue
                } else {
                    self.phase = Phase::Parents;
                    self.pending_role = role.clone();
                    self.pending_depth = 0;
                    Query::RoleInherits(role)
                }
            }
        } else {
            let last = self.stack.len() - 1;
            assert(path.last() == self.stack@[last as int].deep_view());
            if self.stack[last].next < self.stack[last].parents.len() {
                let cyclic;
                let parent;
                let depth;
                {
                    let top = &self.stack[last];
                    parent = top.parents[top.next].clone();
                    depth = top.depth;
                    cyclic = on_stack(&self.stack, &parent);
                }
                let top = self.stack.pop().unwrap();
                let bumped = Frame {
                    role: top.role,
                    depth: top.depth,
                    parents: top.parents,
                    next: top.next + 1,
                };
                self.stack.push(bumped);
                proof {
                    let f = path.last();
                    assert(self.stack.deep_view() =~= path.drop_last().push(
                        FrameModel { next: f.next + 1, ..f },
                    ));
                }
                if cyclic {
                    let error = Error::RoleCycleDetected {
                        tenant: self.tenant.clone(),
                        role: parent,
                    };
                    self.finish(Outcome::Failed(error))
                } else if depth >= self.max_depth {
                    let error = Error::RoleDepthExceeded {
                        tenant: self.tenant.clone(),
                        role: parent,
                        max_depth: self.max_depth,
                    };
                    self.finish(Outcome::Failed(error))
                } else if holds_role(&self.output, &parent) {
                    self.phase = Phase::Walk;
                    Query::Continue
                } else {
                    self.phase = Phase::Parents;
                    self.pending_role = parent.clone();
                    self.pending_depth = depth + 1;
                    Query::RoleInherits(parent)
                }
            } else {
                self.stack.pop();
                assert(self.stack.deep_view() =~= path.drop_last());
                self.phase = Phase::Walk;
                Query::Continue
            }
        }
    }
}

} // verus!
