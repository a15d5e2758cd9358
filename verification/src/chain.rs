//! The traversal of a chain of roles, each the only parent of the one
//! before: how far the depth limit lets it go, and what a back-edge does.
//!
//! A chain is a list of distinct roles `r0, r1, .., rD`; the principal
//! holds `r0`, and the store names `r(i+1)` as the only parent of `ri`.
//! Its length is `D`, the number of its edges.

use crate::engine::any_grants;
use crate::engine::decision;
use crate::engine::signature;
use crate::engine::Config;
use crate::engine::Decision;
use crate::error::ErrorModel;
use crate::permission::grants;
use crate::resolution::initial;
use crate::resolution::merged;
use crate::resolution::on_path;
use crate::resolution::run;
use crate::resolution::step;
use crate::resolution::walk;
use crate::resolution::AnswerModel;
use crate::resolution::FrameModel;
use crate::resolution::OutcomeModel;
use crate::resolution::Phase;
use crate::resolution::QueryModel;
use crate::resolution::ResolutionModel;
use vstd::prelude::*;

verus! {

/// No role occurs twice in `chain`.
pub open spec fn distinct_roles(chain: Seq<Seq<char>>) -> bool {
    forall|i: int, j: int| 0 <= i < j < chain.len() ==> chain[i] != chain[j]
}

/// The role `chain[i]` on the path, its one parent looked at.
pub open spec fn link(chain: Seq<Seq<char>>, i: int) -> FrameModel {
    FrameModel { role: chain[i], depth: i as nat, parents: seq![chain[i + 1]], next: 1 }
}

/// The first `k` roles of the chain on the path.
pub open spec fn links(chain: Seq<Seq<char>>, k: nat) -> Seq<FrameModel> {
    Seq::new(k, |i: int| link(chain, i))
}

/// The state in which the traversal waits for the parents of `chain[k]`,
/// the roles before it on the path.
pub open spec fn waiting(base: ResolutionModel, chain: Seq<Seq<char>>, k: nat) -> ResolutionModel {
    ResolutionModel {
        phase: Phase::Parents,
        roots: seq![chain[0]],
        next_root: 1,
        output: chain.take(k as int),
        stack: links(chain, k),
        pending_role: chain[k as int],
        pending_depth: k,
        ..base
    }
}

/// The state in which the whole chain has been found and its first `j`
/// roles are still on the path.
pub open spec fn unwinding(base: ResolutionModel, chain: Seq<Seq<char>>, j: nat) -> ResolutionModel {
    ResolutionModel {
        phase: Phase::Walk,
        roots: seq![chain[0]],
        next_root: 1,
        output: chain,
        stack: links(chain, j),
        pending_role: chain.last(),
        pending_depth: (chain.len() - 1) as nat,
        ..base
    }
}

/// What the store answers along the chain: for each of the first `n`
/// roles its one parent.
pub open spec fn descent(chain: Seq<Seq<char>>, n: nat) -> Seq<AnswerModel> {
    Seq::new(n, |k: int| AnswerModel::Roles(seq![chain[k as int + 1]]))
}

/// What the machine is given for a whole chain: the parent of each role
/// but the last, no parent for the last, and then nothing `m` times.
pub open spec fn ascent(chain: Seq<Seq<char>>, m: nat) -> Seq<AnswerModel> {
    descent(chain, (chain.len() - 1) as nat).push(AnswerModel::Roles(Seq::empty())) + Seq::new(
        m,
        |i: int| AnswerModel::Nothing,
    )
}

/// The traversal begins with the chain's first role: with inheritance
/// on, the direct role `chain[0]` leads to the question for its parents.
pub proof fn lemma_chain_begins(base: ResolutionModel, chain: Seq<Seq<char>>)
    requires
        chain.len() >= 1,
        base.phase == Phase::Roles,
        base.hierarchy,
        base.output.len() == 0,
        base.stack.len() == 0,
    ensures
        step(base, AnswerModel::Roles(seq![chain[0]])) == (
            waiting(base, chain, 0),
            QueryModel::RoleInherits(chain[0]),
        ),
{
    let s = ResolutionModel { roots: seq![chain[0]], next_root: 0, ..base };
    assert(!s.output.contains(chain[0]));
    let w = waiting(base, chain, 0);
    assert(w.output =~= base.output);
    assert(w.stack =~= base.stack);
}

/// Within the limit, the answer for `chain[k]` leads to the question for
/// `chain[k + 1]`, one level deeper.
pub proof fn lemma_chain_descends(base: ResolutionModel, chain: Seq<Seq<char>>, k: nat)
    requires
        distinct_roles(chain),
        k + 1 < chain.len(),
        k < base.max_depth,
    ensures
        step(waiting(base, chain, k), AnswerModel::Roles(seq![chain[k as int + 1]])) == (
            waiting(base, chain, k + 1),
            QueryModel::RoleInherits(chain[k as int + 1]),
        ),
{
    let s = waiting(base, chain, k);
    let parent = chain[k as int + 1];
    let frame = FrameModel { role: chain[k as int], depth: k, parents: seq![parent], next: 0 };
    let u = ResolutionModel {
        output: s.output.push(s.pending_role),
        stack: s.stack.push(frame),
        ..s
    };
    assert(u.stack.last() == frame);
    let t = ResolutionModel {
        stack: u.stack.drop_last().push(FrameModel { next: 1, ..frame }),
        ..u
    };
    assert(t.stack =~= links(chain, k + 1));
    assert(u.output =~= chain.take(k as int + 1));
    assert(!on_path(u.stack, parent)) by {
        assert forall|i: int| 0 <= i < u.stack.len() implies (#[trigger] u.stack[i]).role
            != parent by {
            assert(u.stack[i].role == chain[i]);
        }
    }
    assert(!u.output.contains(parent)) by {
        assert forall|i: int| 0 <= i < u.output.len() implies u.output[i] != parent by {
            assert(u.output[i] == chain[i]);
        }
    }
    assert(walk(u) == (
        ResolutionModel {
            phase: Phase::Parents,
            pending_role: parent,
            pending_depth: k + 1,
            ..t
        },
        QueryModel::RoleInherits(parent),
    ));
}

/// At the limit, the answer for `chain[k]` fails the resolution: its
/// parent would stand deeper than the limit admits.
pub proof fn lemma_chain_too_deep(base: ResolutionModel, chain: Seq<Seq<char>>, k: nat)
    requires
        distinct_roles(chain),
        k + 1 < chain.len(),
        k >= base.max_depth,
    ensures
        step(waiting(base, chain, k), AnswerModel::Roles(seq![chain[k as int + 1]])).1
            == QueryModel::Finished(
            OutcomeModel::Failed(
                ErrorModel::RoleDepthExceeded {
                    tenant: base.tenant,
                    role: chain[k as int + 1],
                    max_depth: base.max_depth,
                },
            ),
        ),
{
    let s = waiting(base, chain, k);
    let frame = FrameModel {
        role: chain[k as int],
        depth: k,
        parents: seq![chain[k as int + 1]],
        next: 0,
    };
    let u = ResolutionModel {
        output: s.output.push(s.pending_role),
        stack: s.stack.push(frame),
        ..s
    };
    assert(u.stack.last() == frame);
    assert(!on_path(u.stack, chain[k as int + 1])) by {
        assert forall|i: int| 0 <= i < u.stack.len() implies (#[trigger] u.stack[i]).role
            != chain[k as int + 1] by {
            assert(u.stack[i].role == chain[i]);
        }
    }
}

/// A back-edge from a role of the chain to any role before it, or to
/// itself, is a cycle, whatever the limit: the answer for `chain[k]` that
/// names `chain[target]` fails the resolution with that role.
pub proof fn lemma_chain_back_edge(
    base: ResolutionModel,
    chain: Seq<Seq<char>>,
    k: nat,
    target: nat,
)
    requires
        k < chain.len(),
        target <= k,
    ensures
        step(waiting(base, chain, k), AnswerModel::Roles(seq![chain[target as int]])).1
            == QueryModel::Finished(
            OutcomeModel::Failed(
                ErrorModel::RoleCycleDetected { tenant: base.tenant, role: chain[target as int] },
            ),
        ),
{
    let s = waiting(base, chain, k);
    let parent = chain[target as int];
    let frame = FrameModel { role: chain[k as int], depth: k, parents: seq![parent], next: 0 };
    let u = ResolutionModel {
        output: s.output.push(s.pending_role),
        stack: s.stack.push(frame),
        ..s
    };
    assert(u.stack.last() == frame);
    assert(u.stack[target as int].role == parent);
    assert(on_path(u.stack, parent));
}

/// A chain with a back-edge ends in the cycle error for every limit that
/// lets the traversal reach the role which holds the back-edge, the limit
/// that is just the depth of that role among them: after the store's
/// answers along the chain, the answer that names a role of the path
/// fails the resolution with that role.
pub proof fn lemma_chain_cycle(
    base: ResolutionModel,
    chain: Seq<Seq<char>>,
    k: nat,
    target: nat,
)
    requires
        distinct_roles(chain),
        k < chain.len(),
        target <= k,
        k <= base.max_depth,
    ensures
        run(
            waiting(base, chain, 0),
            descent(chain, k).push(AnswerModel::Roles(seq![chain[target as int]])),
        ).1 == QueryModel::Finished(
            OutcomeModel::Failed(
                ErrorModel::RoleCycleDetected { tenant: base.tenant, role: chain[target as int] },
            ),
        ),
{
    let all = descent(chain, k).push(AnswerModel::Roles(seq![chain[target as int]]));
    assert(all.drop_last() =~= descent(chain, k));
    lemma_chain_descent(base, chain, k);
    lemma_chain_back_edge(base, chain, k, target);
}

/// The last role of the chain has no parent: the answer for it ends the
/// descent, every role of the chain found.
pub proof fn lemma_chain_tops(base: ResolutionModel, chain: Seq<Seq<char>>)
    requires
        chain.len() >= 1,
    ensures
        step(
            waiting(base, chain, (chain.len() - 1) as nat),
            AnswerModel::Roles(Seq::empty()),
        ) == (unwinding(base, chain, (chain.len() - 1) as nat), QueryModel::Continue),
{
    let k = (chain.len() - 1) as nat;
    let s = waiting(base, chain, k);
    let frame = FrameModel {
        role: chain[k as int],
        depth: k,
        parents: Seq::<Seq<char>>::empty(),
        next: 0,
    };
    let u = ResolutionModel {
        output: s.output.push(s.pending_role),
        stack: s.stack.push(frame),
        ..s
    };
    assert(u.stack.last() == frame);
    assert(u.stack.drop_last() =~= links(chain, k));
    assert(u.output =~= chain);
}

/// On the way back, each move takes the last role off the path.
pub proof fn lemma_chain_unwinds(base: ResolutionModel, chain: Seq<Seq<char>>, j: nat)
    requires
        0 < j < chain.len(),
    ensures
        step(unwinding(base, chain, j), AnswerModel::Nothing) == (
            unwinding(base, chain, (j - 1) as nat),
            QueryModel::Continue,
        ),
{
    let s = unwinding(base, chain, j);
    assert(s.stack.last() == link(chain, j - 1));
    assert(s.stack.drop_last() =~= links(chain, (j - 1) as nat));
}

/// The state in which the permissions of the chain's roles are
/// collected: `i` of them have given theirs, and `found` is what was
/// collected.
pub open spec fn gathering(
    base: ResolutionModel,
    chain: Seq<Seq<char>>,
    i: nat,
    found: Seq<Seq<char>>,
) -> ResolutionModel {
    ResolutionModel {
        phase: Phase::RolePermissions,
        roles: chain,
        next_role: i,
        permissions: found,
        ..unwinding(base, chain, 0)
    }
}

/// With the path empty again, the roles of the chain are those whose
/// permissions are collected, the first of them in turn.
pub proof fn lemma_chain_ends(base: ResolutionModel, chain: Seq<Seq<char>>)
    requires
        chain.len() >= 1,
    ensures
        step(unwinding(base, chain, 0), AnswerModel::Nothing) == (
            gathering(base, chain, 0, base.permissions),
            QueryModel::RolePermissions(chain[0]),
        ),
{
    let s = unwinding(base, chain, 0);
    assert(s.stack.len() == 0);
}

/// After the answers for its first `n` roles, within the limit, the
/// traversal waits for the parents of `chain[n]`.
pub proof fn lemma_chain_descent(base: ResolutionModel, chain: Seq<Seq<char>>, n: nat)
    requires
        distinct_roles(chain),
        n < chain.len(),
        n <= base.max_depth,
    ensures
        run(waiting(base, chain, 0), descent(chain, n)).0 == waiting(base, chain, n),
    decreases n,
{
    if n > 0 {
        let before = descent(chain, (n - 1) as nat);
        assert(descent(chain, n).drop_last() =~= before);
        assert(descent(chain, n).last() == AnswerModel::Roles(seq![chain[n as int]]));
        lemma_chain_descent(base, chain, (n - 1) as nat);
        lemma_chain_descends(base, chain, (n - 1) as nat);
    }
}

/// A chain longer than the limit cannot be resolved: the answer that
/// names the first role beyond the limit fails the resolution with that
/// role and the limit. In particular a limit of one below the length of
/// the chain fails at its last role.
pub proof fn lemma_chain_exceeds(base: ResolutionModel, chain: Seq<Seq<char>>)
    requires
        distinct_roles(chain),
        base.max_depth + 1 < chain.len(),
    ensures
        run(waiting(base, chain, 0), descent(chain, (base.max_depth + 1) as nat)).1
            == QueryModel::Finished(
            OutcomeModel::Failed(
                ErrorModel::RoleDepthExceeded {
                    tenant: base.tenant,
                    role: chain[base.max_depth + 1],
                    max_depth: base.max_depth,
                },
            ),
        ),
{
    let max = base.max_depth as nat;
    let all = descent(chain, max + 1);
    assert(all.drop_last() =~= descent(chain, max));
    assert(all.last() == AnswerModel::Roles(seq![chain[max as int + 1]]));
    lemma_chain_descent(base, chain, max);
    lemma_chain_too_deep(base, chain, max);
}

proof fn lemma_chain_ascent(base: ResolutionModel, chain: Seq<Seq<char>>, m: nat)
    requires
        distinct_roles(chain),
        chain.len() >= 1,
        chain.len() - 1 <= base.max_depth,
        m < chain.len(),
    ensures
        run(waiting(base, chain, 0), ascent(chain, m)).0 == unwinding(
            base,
            chain,
            (chain.len() - 1 - m) as nat,
        ),
    decreases m,
{
    let d = (chain.len() - 1) as nat;
    if m == 0 {
        assert(ascent(chain, 0) =~= descent(chain, d).push(AnswerModel::Roles(Seq::empty())));
        assert(ascent(chain, 0).drop_last() =~= descent(chain, d));
        lemma_chain_descent(base, chain, d);
        lemma_chain_tops(base, chain);
    } else {
        assert(ascent(chain, m).drop_last() =~= ascent(chain, (m - 1) as nat));
        assert(ascent(chain, m).last() == AnswerModel::Nothing);
        lemma_chain_ascent(base, chain, (m - 1) as nat);
        lemma_chain_unwinds(base, chain, (d - (m - 1)) as nat);
    }
}

/// A chain within the limit is resolved whole: after the store's answers
/// along the chain, the roles whose permissions are collected are those
/// of the chain, its last role among them, and the first is in turn.
pub proof fn lemma_chain_resolves(base: ResolutionModel, chain: Seq<Seq<char>>)
    requires
        distinct_roles(chain),
        chain.len() >= 1,
        chain.len() - 1 <= base.max_depth,
    ensures
        run(waiting(base, chain, 0), ascent(chain, chain.len())) == (
            gathering(base, chain, 0, base.permissions),
            QueryModel::RolePermissions(chain[0]),
        ),
{
    let d = (chain.len() - 1) as nat;
    let all = ascent(chain, chain.len());
    assert(all.drop_last() =~= ascent(chain, d));
    assert(all.last() == AnswerModel::Nothing);
    lemma_chain_ascent(base, chain, d);
    lemma_chain_ends(base, chain);
}

/// The permissions of one role of the chain are merged into what was
/// collected; the next role is in turn, or, after the last, the
/// principal's global roles are asked for.
pub proof fn lemma_chain_gathers(
    base: ResolutionModel,
    chain: Seq<Seq<char>>,
    i: nat,
    found: Seq<Seq<char>>,
    more: Seq<Seq<char>>,
)
    requires
        i < chain.len(),
    ensures
        step(gathering(base, chain, i, found), AnswerModel::Permissions(more)) == (if i + 1
            < chain.len() {
            (
                gathering(base, chain, i + 1, merged(found, more)),
                QueryModel::RolePermissions(chain[i as int + 1]),
            )
        } else {
            (
                ResolutionModel {
                    phase: Phase::GlobalRoles,
                    ..gathering(base, chain, i + 1, merged(found, more))
                },
                QueryModel::GlobalRoles,
            )
        }),
{
}

/// Roles without permissions, one after the other: `n` answers that hold
/// no permission.
pub open spec fn quiet(n: nat) -> Seq<AnswerModel> {
    Seq::new(n, |i: int| AnswerModel::Permissions(Seq::empty()))
}

/// Roles without permissions add nothing to what was collected.
pub proof fn lemma_chain_quiet(
    base: ResolutionModel,
    chain: Seq<Seq<char>>,
    found: Seq<Seq<char>>,
    n: nat,
)
    requires
        n < chain.len(),
    ensures
        run(gathering(base, chain, 0, found), quiet(n)).0 == gathering(base, chain, n, found),
    decreases n,
{
    if n > 0 {
        assert(quiet(n).drop_last() =~= quiet((n - 1) as nat));
        lemma_chain_quiet(base, chain, found, (n - 1) as nat);
        lemma_chain_gathers(base, chain, (n - 1) as nat, found, Seq::empty());
    }
}

/// Answers given one after the other: the run on `a` and then `b` is the
/// run on `b` from where the run on `a` ends.
pub proof fn lemma_run_append(s: ResolutionModel, a: Seq<AnswerModel>, b: Seq<AnswerModel>)
    requires
        b.len() > 0,
    ensures
        run(s, a + b) == run(run(s, a).0, b),
    decreases b.len(),
{
    assert((a + b).last() == b.last());
    if b.len() == 1 {
        assert((a + b).drop_last() =~= a);
        assert(b.drop_last() =~= Seq::<AnswerModel>::empty());
    } else {
        assert((a + b).drop_last() =~= a + b.drop_last());
        lemma_run_append(s, a, b.drop_last());
    }
}

/// One more answer: the run on `a` and then `x` is the step on `x` from
/// where the run on `a` ends.
pub proof fn lemma_run_push(s: ResolutionModel, a: Seq<AnswerModel>, x: AnswerModel)
    ensures
        run(s, a.push(x)) == step(run(s, a).0, x),
{
    assert(a.push(x).drop_last() =~= a);
}

/// What an active tenant and principal, a miss of the cache and the one
/// direct role `chain[0]` come to: the answers up to the first question
/// for a role's parents.
pub open spec fn opening(chain: Seq<Seq<char>>) -> Seq<AnswerModel> {
    Seq::<AnswerModel>::empty().push(AnswerModel::Flag(true)).push(AnswerModel::Flag(true)).push(
        AnswerModel::Cached(None),
    ).push(AnswerModel::Roles(seq![chain[0]]))
}

/// The answers of a store that holds the chain, with the permissions
/// `last` bound to the chain's last role and to no other, and with no
/// global role for the principal; the cache holds nothing and takes the
/// result.
pub open spec fn whole(chain: Seq<Seq<char>>, last: Seq<Seq<char>>) -> Seq<AnswerModel> {
    (opening(chain) + ascent(chain, chain.len()) + quiet((chain.len() - 1) as nat)).push(
        AnswerModel::Permissions(last),
    ).push(AnswerModel::GlobalRoles(Seq::empty())).push(AnswerModel::Stored)
}

/// The state of a resolution that follows inheritance when it asks for
/// the direct roles.
pub open spec fn asking(
    tenant: Seq<char>,
    principal: Seq<char>,
    marker: Seq<char>,
    max_depth: usize,
) -> ResolutionModel {
    ResolutionModel { phase: Phase::Roles, ..initial(tenant, principal, marker, true, max_depth) }
}

/// The answers up to the direct role lead to the question for the
/// parents of the chain's first role.
pub proof fn lemma_chain_opens(
    tenant: Seq<char>,
    principal: Seq<char>,
    marker: Seq<char>,
    max_depth: usize,
    chain: Seq<Seq<char>>,
)
    requires
        chain.len() >= 1,
    ensures
        run(initial(tenant, principal, marker, true, max_depth), opening(chain)) == (
            waiting(asking(tenant, principal, marker, max_depth), chain, 0),
            QueryModel::RoleInherits(chain[0]),
        ),
{
    let start = initial(tenant, principal, marker, true, max_depth);
    let none = Seq::<AnswerModel>::empty();
    let a1 = none.push(AnswerModel::Flag(true));
    let a2 = a1.push(AnswerModel::Flag(true));
    let a3 = a2.push(AnswerModel::Cached(None));
    lemma_run_push(start, none, AnswerModel::Flag(true));
    lemma_run_push(start, a1, AnswerModel::Flag(true));
    lemma_run_push(start, a2, AnswerModel::Cached(None));
    lemma_run_push(start, a3, AnswerModel::Roles(seq![chain[0]]));
    assert(run(start, a3).0 == asking(tenant, principal, marker, max_depth));
    lemma_chain_begins(asking(tenant, principal, marker, max_depth), chain);
}

/// A role chain of the length `D` with a permission at its last role
/// only: the permission is reached exactly when the limit is at least
/// `D`.
///
/// Against a store that holds the chain, an engine with a limit of at
/// least `D` resolves the principal's permissions to those of the last
/// role, and the decision on a requirement is `Allow` exactly when one of
/// them covers it. With a limit below `D` the resolution fails at the
/// first role beyond the limit with the exceeded depth, and the decision
/// is that error, never `Deny`.
pub proof fn lemma_chain_decision(
    tenant: Seq<char>,
    principal: Seq<char>,
    max_depth: usize,
    chain: Seq<Seq<char>>,
    last: Seq<Seq<char>>,
    required: Seq<char>,
    c: Config,
)
    requires
        distinct_roles(chain),
        chain.len() >= 1,
        c.enable_role_hierarchy,
        c.max_inherit_depth == max_depth,
    ensures
        chain.len() - 1 <= max_depth ==> {
            let end = run(
                initial(tenant, principal, signature(c), true, max_depth),
                whole(chain, last),
            ).1;
            &&& end == QueryModel::Finished(
                OutcomeModel::Permissions(merged(Seq::empty(), last)),
            )
            &&& decision(OutcomeModel::Permissions(merged(Seq::empty(), last)), required, c) == (
            if any_grants(
                merged(Seq::empty(), last),
                required,
                c.enable_wildcard,
                c.permission_normalize,
            ) {
                Ok::<Decision, ErrorModel>(Decision::Allow)
            } else {
                Ok::<Decision, ErrorModel>(Decision::Deny)
            })
        },
        chain.len() - 1 > max_depth ==> {
            let failure = ErrorModel::RoleDepthExceeded {
                tenant,
                role: chain[max_depth + 1],
                max_depth,
            };
            &&& run(
                initial(tenant, principal, signature(c), true, max_depth),
                opening(chain) + descent(chain, (max_depth + 1) as nat),
            ).1 == QueryModel::Finished(OutcomeModel::Failed(failure))
            &&& decision(OutcomeModel::Failed(failure), required, c) == Err::<
                Decision,
                ErrorModel,
            >(failure)
        },
{
    let marker = signature(c);
    let start = initial(tenant, principal, marker, true, max_depth);
    let base = asking(tenant, principal, marker, max_depth);
    let none = Seq::<Seq<char>>::empty();
    lemma_chain_opens(tenant, principal, marker, max_depth, chain);
    if chain.len() - 1 <= max_depth {
        let d = (chain.len() - 1) as nat;
        let head = opening(chain);
        let mid = head + ascent(chain, chain.len());
        let low = mid + quiet(d);
        lemma_run_append(start, head, ascent(chain, chain.len()));
        lemma_chain_resolves(base, chain);
        assert(run(start, mid).0 == gathering(base, chain, 0, none));
        lemma_chain_quiet(base, chain, none, d);
        if d == 0 {
            assert(low =~= mid);
        } else {
            lemma_run_append(start, mid, quiet(d));
        }
        assert(run(start, low).0 == gathering(base, chain, d, none));
        let found = merged(none, last);
        lemma_run_push(start, low, AnswerModel::Permissions(last));
        lemma_chain_gathers(base, chain, d, none, last);
        let a1 = low.push(AnswerModel::Permissions(last));
        lemma_run_push(start, a1, AnswerModel::GlobalRoles(Seq::empty()));
        let a2 = a1.push(AnswerModel::GlobalRoles(Seq::empty()));
        lemma_run_push(start, a2, AnswerModel::Stored);
    } else {
        lemma_run_append(start, opening(chain), descent(chain, (max_depth + 1) as nat));
        lemma_chain_exceeds(base, chain);
    }
}

/// A permission that the last role of a chain holds alone is the one
/// permission that the principal has: for a requirement, the decision is
/// `Allow` exactly when that permission covers it.
pub proof fn lemma_chain_allows(
    tenant: Seq<char>,
    principal: Seq<char>,
    max_depth: usize,
    chain: Seq<Seq<char>>,
    permission: Seq<char>,
    required: Seq<char>,
    c: Config,
)
    requires
        distinct_roles(chain),
        chain.len() >= 1,
        chain.len() - 1 <= max_depth,
        c.enable_role_hierarchy,
        c.max_inherit_depth == max_depth,
    ensures
        run(
            initial(tenant, principal, signature(c), true, max_depth),
            whole(chain, seq![permission]),
        ).1 == QueryModel::Finished(OutcomeModel::Permissions(seq![permission])),
        decision(OutcomeModel::Permissions(seq![permission]), required, c) == (if grants(
            permission,
            required,
            c.enable_wildcard,
            c.permission_normalize,
        ) {
            Ok::<Decision, ErrorModel>(Decision::Allow)
        } else {
            Ok::<Decision, ErrorModel>(Decision::Deny)
        }),
{
    lemma_chain_decision(tenant, principal, max_depth, chain, seq![permission], required, c);
    let one = seq![permission];
    let none = Seq::<Seq<char>>::empty();
    assert(one.drop_last() =~= none);
    assert(merged(none, one.drop_last()) == none);
    assert(!none.contains(permission));
    assert(merged(none, one) =~= one);
    assert(one[0] == permission);
    if any_grants(one, required, c.enable_wildcard, c.permission_normalize) {
        let i = choose|i: int|
            0 <= i < one.len() && grants(
                #[trigger] one[i],
                required,
                c.enable_wildcard,
                c.permission_normalize,
            );
        assert(one[i] == permission);
    }
}

/// A back-edge in a chain is a cycle error regardless of the depth
/// limit, as long as the limit lets the traversal reach the role that
/// holds the back-edge: against a store in which `chain[k]` names
/// `chain[target]`, a role of the path, as its parent, the resolution
/// fails with the cycle at that role, and the decision is that error,
/// never a decision and never the exceeded depth.
pub proof fn lemma_chain_cycle_decision(
    tenant: Seq<char>,
    principal: Seq<char>,
    max_depth: usize,
    chain: Seq<Seq<char>>,
    k: nat,
    target: nat,
    required: Seq<char>,
    c: Config,
)
    requires
        distinct_roles(chain),
        k < chain.len(),
        target <= k,
        k <= max_depth,
        c.enable_role_hierarchy,
        c.max_inherit_depth == max_depth,
    ensures
        ({
            let failure = ErrorModel::RoleCycleDetected { tenant, role: chain[target as int] };
            &&& run(
                initial(tenant, principal, signature(c), true, max_depth),
                opening(chain) + descent(chain, k).push(
                    AnswerModel::Roles(seq![chain[target as int]]),
                ),
            ).1 == QueryModel::Finished(OutcomeModel::Failed(failure))
            &&& decision(OutcomeModel::Failed(failure), required, c) == Err::<
                Decision,
                ErrorModel,
            >(failure)
        }),
{
    let marker = signature(c);
    let start = initial(tenant, principal, marker, true, max_depth);
    let base = asking(tenant, principal, marker, max_depth);
    lemma_chain_opens(tenant, principal, marker, max_depth, chain);
    lemma_run_append(
        start,
        opening(chain),
        descent(chain, k).push(AnswerModel::Roles(seq![chain[target as int]])),
    );
    lemma_chain_cycle(base, chain, k, target);
}

} // verus!
