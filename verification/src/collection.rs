//! What a resolution collects, for a store that answers each question
//! for permissions from fixed bindings: when the resolution hands its
//! result to the cache, the result holds exactly the permissions that
//! are bound to one of the roles or to one of the global roles.

use crate::hierarchy::complete;
use crate::hierarchy::faithful_run;
use crate::hierarchy::lemma_run_explored;
use crate::hierarchy::reachable;
use crate::resolution::bounded;
use crate::resolution::expects;
use crate::resolution::initial;
use crate::resolution::lemma_merged;
use crate::resolution::lemma_step_bounded;
use crate::resolution::lemma_step_tidy;
use crate::resolution::orderly;
use crate::resolution::run;
use crate::resolution::step;
use crate::resolution::tidy;
use crate::resolution::AnswerModel;
use crate::resolution::OutcomeModel;
use crate::resolution::Phase;
use crate::resolution::QueryModel;
use crate::resolution::ResolutionModel;
use vstd::prelude::*;

verus! {

/// The permission `x` is bound to the `i`-th role, which has given its
/// permissions.
pub open spec fn from_role(
    s: ResolutionModel,
    bound: spec_fn(Seq<char>) -> Seq<Seq<char>>,
    i: int,
    x: Seq<char>,
) -> bool {
    0 <= i < s.next_role && i < s.roles.len() && bound(s.roles[i]).contains(x)
}

/// The permission `x` is bound to the `j`-th global role, which has
/// given its permissions.
pub open spec fn from_global(
    s: ResolutionModel,
    bound: spec_fn(Seq<char>) -> Seq<Seq<char>>,
    j: int,
    x: Seq<char>,
) -> bool {
    0 <= j < s.next_global && j < s.globals.len() && bound(s.globals[j]).contains(x)
}

/// The permission `x` is bound to a role or a global role that has given
/// its permissions.
pub open spec fn granted(
    s: ResolutionModel,
    roles: spec_fn(Seq<char>) -> Seq<Seq<char>>,
    globals: spec_fn(Seq<char>) -> Seq<Seq<char>>,
    x: Seq<char>,
) -> bool {
    (exists|i: int| from_role(s, roles, i, x)) || (exists|j: int| from_global(s, globals, j, x))
}

/// The permissions collected are exactly those bound to the roles and
/// global roles that have given theirs.
pub open spec fn gathered(
    s: ResolutionModel,
    roles: spec_fn(Seq<char>) -> Seq<Seq<char>>,
    globals: spec_fn(Seq<char>) -> Seq<Seq<char>>,
) -> bool {
    forall|x: Seq<char>| #[trigger] s.permissions.contains(x) <==> granted(s, roles, globals, x)
}

/// What holds of the collection by the phase: nothing is collected
/// before the roles are known; then the permissions are those of the
/// roles that have had their turn; the global roles follow when every
/// role has had its turn; and the cache is handed the result when every
/// global role has had its turn.
pub open spec fn collecting(
    s: ResolutionModel,
    roles: spec_fn(Seq<char>) -> Seq<Seq<char>>,
    globals: spec_fn(Seq<char>) -> Seq<Seq<char>>,
) -> bool {
    match s.phase {
        Phase::Tenant | Phase::Principal | Phase::Cache | Phase::Roles | Phase::Walk
        | Phase::Parents => s.permissions.len() == 0 && s.next_role == 0 && s.next_global == 0,
        Phase::RolePermissions => gathered(s, roles, globals) && s.next_global == 0,
        Phase::GlobalRoles => gathered(s, roles, globals) && s.next_global == 0 && s.next_role
            == s.roles.len(),
        Phase::GlobalPermissions => gathered(s, roles, globals) && s.next_role == s.roles.len(),
        Phase::Store => gathered(s, roles, globals) && s.next_role == s.roles.len()
            && s.next_global == s.globals.len(),
        Phase::Done => true,
    }
}

/// Whether `answer` is what a store with the given bindings gives in the
/// state `s`, where permissions are asked for.
pub open spec fn truthful(
    s: ResolutionModel,
    answer: AnswerModel,
    roles: spec_fn(Seq<char>) -> Seq<Seq<char>>,
    globals: spec_fn(Seq<char>) -> Seq<Seq<char>>,
) -> bool {
    answer matches AnswerModel::Permissions(p) ==> (s.phase == Phase::RolePermissions ==> p
        == roles(s.roles[s.next_role as int])) && (s.phase == Phase::GlobalPermissions ==> p
        == globals(s.globals[s.next_global as int]))
}

/// Every one of `answers` is what a store with the given bindings gives
/// where the answer comes.
pub open spec fn truthful_run(
    s: ResolutionModel,
    answers: Seq<AnswerModel>,
    roles: spec_fn(Seq<char>) -> Seq<Seq<char>>,
    globals: spec_fn(Seq<char>) -> Seq<Seq<char>>,
) -> bool
    decreases answers.len(),
{
    answers.len() > 0 ==> truthful_run(s, answers.drop_last(), roles, globals) && truthful(
        run(s, answers.drop_last()).0,
        answers.last(),
        roles,
        globals,
    )
}

proof fn lemma_empty_gathered(
    s: ResolutionModel,
    roles: spec_fn(Seq<char>) -> Seq<Seq<char>>,
    globals: spec_fn(Seq<char>) -> Seq<Seq<char>>,
)
    requires
        s.permissions.len() == 0,
        s.next_role == 0,
        s.next_global == 0,
    ensures
        gathered(s, roles, globals),
{
    assert forall|x: Seq<char>| #[trigger] s.permissions.contains(x) <==> granted(
        s,
        roles,
        globals,
        x,
    ) by {
        if s.permissions.contains(x) {
            let i = choose|i: int| 0 <= i < s.permissions.len() && s.permissions[i] == x;
        }
    }
}

/// Every step keeps the collection as [`collecting`] says, where the
/// store answers from the given bindings.
pub proof fn lemma_step_collecting(
    s: ResolutionModel,
    answer: AnswerModel,
    roles: spec_fn(Seq<char>) -> Seq<Seq<char>>,
    globals: spec_fn(Seq<char>) -> Seq<Seq<char>>,
)
    requires
        bounded(s),
        expects(s.phase, answer),
        truthful(s, answer, roles, globals),
        collecting(s, roles, globals),
    ensures
        collecting(step(s, answer).0, roles, globals),
{
    let t = step(s, answer).0;
    match answer {
        AnswerModel::Permissions(more) => {
            lemma_merged(s.permissions, more);
            if s.phase == Phase::RolePermissions {
                let n = s.next_role as int;
                assert forall|x: Seq<char>| #[trigger] t.permissions.contains(x) <==> granted(
                    t,
                    roles,
                    globals,
                    x,
                ) by {
                    if s.permissions.contains(x) {
                        assert(granted(s, roles, globals, x));
                        let i = choose|i: int| from_role(s, roles, i, x);
                        assert(from_role(t, roles, i, x));
                    }
                    if more.contains(x) {
                        assert(from_role(t, roles, n, x));
                    }
                    if granted(t, roles, globals, x) {
                        let i = choose|i: int| from_role(t, roles, i, x);
                        if i < n {
                            assert(from_role(s, roles, i, x));
                        }
                    }
                }
            } else {
                let n = s.next_global as int;
                assert forall|x: Seq<char>| #[trigger] t.permissions.contains(x) <==> granted(
                    t,
                    roles,
                    globals,
                    x,
                ) by {
                    if s.permissions.contains(x) {
                        assert(granted(s, roles, globals, x));
                        if exists|i: int| from_role(s, roles, i, x) {
                            let i = choose|i: int| from_role(s, roles, i, x);
                            assert(from_role(t, roles, i, x));
                        } else {
                            let j = choose|j: int| from_global(s, globals, j, x);
                            assert(from_global(t, globals, j, x));
                        }
                    }
                    if more.contains(x) {
                        assert(from_global(t, globals, n, x));
                    }
                    if granted(t, roles, globals, x) {
                        if exists|i: int| from_role(t, roles, i, x) {
                            let i = choose|i: int| from_role(t, roles, i, x);
                            assert(from_role(s, roles, i, x));
                        } else {
                            let j = choose|j: int| from_global(t, globals, j, x);
                            if j < n {
                                assert(from_global(s, globals, j, x));
                            }
                        }
                    }
                }
            }
        },
        AnswerModel::GlobalRoles(list) => {
            assert forall|x: Seq<char>| #[trigger] t.permissions.contains(x) <==> granted(
                t,
                roles,
                globals,
                x,
            ) by {
                if s.permissions.contains(x) {
                    assert(granted(s, roles, globals, x));
                    let i = choose|i: int| from_role(s, roles, i, x);
                    assert(from_role(t, roles, i, x));
                }
                if granted(t, roles, globals, x) {
                    let i = choose|i: int| from_role(t, roles, i, x);
                    assert(from_role(s, roles, i, x));
                }
            }
        },
        AnswerModel::Roles(list) => {
            if t.phase == Phase::RolePermissions || t.phase == Phase::GlobalRoles {
                lemma_empty_gathered(t, roles, globals);
            }
        },
        AnswerModel::Nothing => {
            if t.phase == Phase::RolePermissions || t.phase == Phase::GlobalRoles {
                lemma_empty_gathered(t, roles, globals);
            }
        },
        _ => {},
    }
}

/// A resolution against a store with the given bindings collects as
/// [`collecting`] says wherever it stands: what it hands to the cache
/// holds exactly the permissions bound to one of its roles or to one of
/// the principal's global roles.
pub proof fn lemma_run_collecting(
    start: ResolutionModel,
    answers: Seq<AnswerModel>,
    roles: spec_fn(Seq<char>) -> Seq<Seq<char>>,
    globals: spec_fn(Seq<char>) -> Seq<Seq<char>>,
)
    requires
        start == initial(
            start.tenant,
            start.principal,
            start.marker,
            start.hierarchy,
            start.max_depth,
        ),
        orderly(start, answers),
        truthful_run(start, answers, roles, globals),
    ensures
        collecting(run(start, answers).0, roles, globals),
        bounded(run(start, answers).0),
    decreases answers.len(),
{
    if answers.len() > 0 {
        let before = answers.drop_last();
        lemma_run_collecting(start, before, roles, globals);
        let s = run(start, before).0;
        lemma_step_bounded(s, answers.last());
        lemma_step_collecting(s, answers.last(), roles, globals);
    }
}

/// The permission `x` is bound to `role`, and `role` can be reached from
/// one of `roots` in the graph `g`.
pub open spec fn inherited(
    g: spec_fn(Seq<char>) -> Seq<Seq<char>>,
    roots: Seq<Seq<char>>,
    bound: spec_fn(Seq<char>) -> Seq<Seq<char>>,
    role: Seq<char>,
    x: Seq<char>,
) -> bool {
    reachable(g, roots, role) && bound(role).contains(x)
}

/// The permission `x` is bound to the `j`-th of the global roles `list`.
pub open spec fn global_grant(
    list: Seq<Seq<char>>,
    bound: spec_fn(Seq<char>) -> Seq<Seq<char>>,
    j: int,
    x: Seq<char>,
) -> bool {
    0 <= j < list.len() && bound(list[j]).contains(x)
}

/// The effective permissions, with inheritance: against a store with the
/// graph `g` and the given bindings, the result that a resolution hands
/// to the cache, and then hands out, holds exactly the permissions bound
/// to a role that can be reached from the principal's direct roles, or
/// to one of the principal's global roles.
pub proof fn lemma_effective_permissions(
    tenant: Seq<char>,
    principal: Seq<char>,
    marker: Seq<char>,
    max_depth: usize,
    answers: Seq<AnswerModel>,
    g: spec_fn(Seq<char>) -> Seq<Seq<char>>,
    roles: spec_fn(Seq<char>) -> Seq<Seq<char>>,
    globals: spec_fn(Seq<char>) -> Seq<Seq<char>>,
)
    requires
        orderly(initial(tenant, principal, marker, true, max_depth), answers),
        faithful_run(initial(tenant, principal, marker, true, max_depth), answers, g),
        truthful_run(initial(tenant, principal, marker, true, max_depth), answers, roles, globals),
        run(initial(tenant, principal, marker, true, max_depth), answers).0.phase == Phase::Store,
    ensures
        ({
            let s = run(initial(tenant, principal, marker, true, max_depth), answers).0;
            &&& step(s, AnswerModel::Stored).1 == QueryModel::Finished(
                OutcomeModel::Permissions(s.permissions),
            )
            &&& s.permissions.no_duplicates()
            &&& forall|x: Seq<char>| #[trigger]
                s.permissions.contains(x) <==> (exists|role: Seq<char>|
                    inherited(g, s.roots, roles, role, x)) || (exists|j: int|
                    global_grant(s.globals, globals, j, x))
        }),
{
    let start = initial(tenant, principal, marker, true, max_depth);
    let s = run(start, answers).0;
    lemma_run_explored(tenant, principal, marker, max_depth, answers, g);
    lemma_run_collecting(start, answers, roles, globals);
    lemma_run_tidy(start, answers);
    assert(complete(g, s.roots, s.roles));
    assert forall|x: Seq<char>| #[trigger] s.permissions.contains(x) <==> (exists|role: Seq<char>|
        inherited(g, s.roots, roles, role, x)) || (exists|j: int|
        global_grant(s.globals, globals, j, x)) by {
        if s.permissions.contains(x) {
            assert(granted(s, roles, globals, x));
            if exists|i: int| from_role(s, roles, i, x) {
                let i = choose|i: int| from_role(s, roles, i, x);
                assert(s.roles.contains(s.roles[i]));
                assert(inherited(g, s.roots, roles, s.roles[i], x));
            } else {
                let j = choose|j: int| from_global(s, globals, j, x);
                assert(global_grant(s.globals, globals, j, x));
            }
        }
        if exists|role: Seq<char>| inherited(g, s.roots, roles, role, x) {
            let role = choose|role: Seq<char>| inherited(g, s.roots, roles, role, x);
            assert(s.roles.contains(role));
            let i = choose|i: int| 0 <= i < s.roles.len() && s.roles[i] == role;
            assert(from_role(s, roles, i, x));
        }
        if exists|j: int| global_grant(s.globals, globals, j, x) {
            let j = choose|j: int| global_grant(s.globals, globals, j, x);
            assert(from_global(s, globals, j, x));
        }
    }
}

/// A resolution keeps its lists tidy wherever it stands: no role is
/// found twice and no permission is collected twice.
pub proof fn lemma_run_tidy(start: ResolutionModel, answers: Seq<AnswerModel>)
    requires
        start == initial(
            start.tenant,
            start.principal,
            start.marker,
            start.hierarchy,
            start.max_depth,
        ),
        orderly(start, answers),
    ensures
        tidy(run(start, answers).0),
    decreases answers.len(),
{
    if answers.len() > 0 {
        lemma_run_tidy(start, answers.drop_last());
        lemma_step_tidy(run(start, answers.drop_last()).0, answers.last());
    }
}

} // verus!
