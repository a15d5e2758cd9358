//! What the traversal of the role hierarchy finds, for a store that
//! answers each question for a role's parents from one graph: when the
//! traversal ends without error, the roles that it has found are exactly
//! those that can be reached from the principal's direct roles.

use crate::resolution::bounded;
use crate::resolution::expects;
use crate::resolution::initial;
use crate::resolution::lemma_step_bounded;
use crate::resolution::orderly;
use crate::resolution::run;
use crate::resolution::on_path;
use crate::resolution::steady;
use crate::resolution::step;
use crate::resolution::walk;
use crate::resolution::AnswerModel;
use crate::resolution::FrameModel;
use crate::resolution::Phase;
use crate::resolution::ResolutionModel;
use vstd::prelude::*;

verus! {

/// `path` leads from one of `roots` along inheritance edges of the
/// graph `g`, which names the parents of each role: it begins with a
/// direct role, and each further role is a parent of the one before.
pub open spec fn is_path(
    g: spec_fn(Seq<char>) -> Seq<Seq<char>>,
    roots: Seq<Seq<char>>,
    path: Seq<Seq<char>>,
) -> bool {
    &&& path.len() >= 1
    &&& roots.contains(path[0])
    &&& forall|i: int| 0 <= i < path.len() - 1 ==> g(#[trigger] path[i]).contains(path[i + 1])
}

/// `role` can be reached from one of `roots` in the graph `g`.
pub open spec fn reachable(
    g: spec_fn(Seq<char>) -> Seq<Seq<char>>,
    roots: Seq<Seq<char>>,
    role: Seq<char>,
) -> bool {
    exists|path: Seq<Seq<char>>| #[trigger] is_path(g, roots, path) && path.last() == role
}

/// `found` holds every parent of `role`.
pub open spec fn closed_at(
    g: spec_fn(Seq<char>) -> Seq<Seq<char>>,
    found: Seq<Seq<char>>,
    role: Seq<char>,
) -> bool {
    forall|j: int| 0 <= j < g(role).len() ==> found.contains(#[trigger] g(role)[j])
}

/// `found` holds exactly the roles that can be reached from `roots`.
pub open spec fn complete(
    g: spec_fn(Seq<char>) -> Seq<Seq<char>>,
    roots: Seq<Seq<char>>,
    found: Seq<Seq<char>>,
) -> bool {
    forall|role: Seq<char>| #[trigger] found.contains(role) <==> reachable(g, roots, role)
}

/// What holds of a traversal in every state: the roles on the path carry
/// the parents that the graph names and have been found, every role that
/// was found and has left the path has all its parents found, and every
/// role that was found can be reached from a direct role.
pub open spec fn grounded(s: ResolutionModel, g: spec_fn(Seq<char>) -> Seq<Seq<char>>) -> bool {
    &&& forall|k: int|
        0 <= k < s.stack.len() ==> (#[trigger] s.stack[k]).parents == g(s.stack[k].role)
            && s.output.contains(s.stack[k].role)
    &&& forall|role: Seq<char>| #[trigger]
        s.output.contains(role) ==> on_path(s.stack, role) || closed_at(g, s.output, role)
    &&& forall|role: Seq<char>| #[trigger]
        s.output.contains(role) ==> reachable(g, s.roots, role)
}

/// What holds of a traversal between two moves: beside [`grounded`],
/// every direct role that was taken up and every parent that was looked
/// at has been found.
pub open spec fn settled(s: ResolutionModel, g: spec_fn(Seq<char>) -> Seq<Seq<char>>) -> bool {
    &&& grounded(s, g)
    &&& forall|i: int| 0 <= i < s.next_root ==> s.output.contains(#[trigger] s.roots[i])
    &&& forall|k: int, i: int|
        0 <= k < s.stack.len() && 0 <= i < s.stack[k].next ==> s.output.contains(
            #[trigger] s.stack[k].parents[i],
        )
}

/// What holds of a traversal that waits for the parents of a role: as
/// [`settled`], but that the role waited for, the direct role or the
/// parent looked at last, has not been found yet; it can be reached.
pub open spec fn pending(s: ResolutionModel, g: spec_fn(Seq<char>) -> Seq<Seq<char>>) -> bool {
    &&& grounded(s, g)
    &&& reachable(g, s.roots, s.pending_role)
    &&& forall|i: int|
        0 <= i < s.next_root ==> s.output.contains(#[trigger] s.roots[i]) || (s.stack.len() == 0
            && i == s.next_root - 1 && s.roots[i] == s.pending_role)
    &&& forall|k: int, i: int|
        0 <= k < s.stack.len() && 0 <= i < s.stack[k].next ==> s.output.contains(
            #[trigger] s.stack[k].parents[i],
        ) || (k == s.stack.len() - 1 && i == s.stack[k].next - 1 && s.stack[k].parents[i]
            == s.pending_role)
}

/// What holds of a resolution that follows inheritance, by its phase:
/// during the traversal what [`settled`] and [`pending`] say, after it
/// that the roles whose permissions are collected are exactly those that
/// can be reached from the direct roles.
pub open spec fn explored(s: ResolutionModel, g: spec_fn(Seq<char>) -> Seq<Seq<char>>) -> bool {
    match s.phase {
        Phase::Walk => settled(s, g),
        Phase::Parents => pending(s, g),
        Phase::RolePermissions | Phase::GlobalRoles | Phase::GlobalPermissions | Phase::Store =>
            complete(g, s.roots, s.roles),
        _ => true,
    }
}

/// Whether `answer` is what a store with the graph `g` gives in the
/// state `s`: where the parents of a role are asked for, those that the
/// graph names.
pub open spec fn faithful(
    s: ResolutionModel,
    answer: AnswerModel,
    g: spec_fn(Seq<char>) -> Seq<Seq<char>>,
) -> bool {
    s.phase == Phase::Parents ==> (answer matches AnswerModel::Roles(parents) ==> parents == g(
        s.pending_role,
    ))
}

/// A direct role can be reached.
pub proof fn lemma_root_reachable(
    g: spec_fn(Seq<char>) -> Seq<Seq<char>>,
    roots: Seq<Seq<char>>,
    role: Seq<char>,
)
    requires
        roots.contains(role),
    ensures
        reachable(g, roots, role),
{
    let path = seq![role];
    assert(path[0] == role);
    assert(is_path(g, roots, path) && path.last() == role);
}

/// A parent of a role that can be reached can be reached.
pub proof fn lemma_parent_reachable(
    g: spec_fn(Seq<char>) -> Seq<Seq<char>>,
    roots: Seq<Seq<char>>,
    child: Seq<char>,
    role: Seq<char>,
)
    requires
        reachable(g, roots, child),
        g(child).contains(role),
    ensures
        reachable(g, roots, role),
{
    let path = choose|path: Seq<Seq<char>>| #[trigger]
        is_path(g, roots, path) && path.last() == child;
    let longer = path.push(role);
    assert(longer[0] == path[0]);
    assert forall|i: int| 0 <= i < longer.len() - 1 implies g(#[trigger] longer[i]).contains(
        longer[i + 1],
    ) by {
        if i < path.len() - 1 {
            assert(longer[i] == path[i] && longer[i + 1] == path[i + 1]);
            assert(g(path[i]).contains(path[i + 1]));
        } else {
            assert(longer[i] == child && longer[i + 1] == role);
        }
    }
    assert(is_path(g, roots, longer) && longer.last() == role);
}

/// A list that holds the direct roles and, with each role, its parents,
/// holds the end of every path.
pub proof fn lemma_closed_holds_path(
    g: spec_fn(Seq<char>) -> Seq<Seq<char>>,
    roots: Seq<Seq<char>>,
    found: Seq<Seq<char>>,
    path: Seq<Seq<char>>,
)
    requires
        forall|i: int| 0 <= i < roots.len() ==> found.contains(#[trigger] roots[i]),
        forall|r: Seq<char>| #[trigger] found.contains(r) ==> closed_at(g, found, r),
        is_path(g, roots, path),
    ensures
        found.contains(path.last()),
    decreases path.len(),
{
    if path.len() == 1 {
        let i = choose|i: int| 0 <= i < roots.len() && roots[i] == path[0];
        assert(found.contains(roots[i]));
    } else {
        let shorter = path.drop_last();
        assert(shorter[0] == path[0]);
        assert forall|i: int| 0 <= i < shorter.len() - 1 implies g(
            #[trigger] shorter[i],
        ).contains(shorter[i + 1]) by {
            assert(shorter[i] == path[i] && shorter[i + 1] == path[i + 1]);
            assert(g(path[i]).contains(path[i + 1]));
        }
        lemma_closed_holds_path(g, roots, found, shorter);
        let child = shorter.last();
        assert(child == path[path.len() - 2]);
        assert(g(path[path.len() - 2]).contains(path[path.len() - 2 + 1]));
        assert(closed_at(g, found, child));
        let named = g(child);
        let j = choose|j: int| 0 <= j < named.len() && named[j] == path.last();
        assert(found.contains(g(child)[j]));
    }
}

/// A settled traversal with nothing left on the path and no direct role
/// left has found exactly the roles that can be reached.
pub proof fn lemma_settled_complete(s: ResolutionModel, g: spec_fn(Seq<char>) -> Seq<Seq<char>>)
    requires
        settled(s, g),
        s.stack.len() == 0,
        s.next_root >= s.roots.len(),
    ensures
        complete(g, s.roots, s.output),
{
    assert forall|r: Seq<char>| #[trigger] s.output.contains(r) implies closed_at(
        g,
        s.output,
        r,
    ) by {
        assert(!on_path(s.stack, r));
    }
    assert forall|role: Seq<char>| reachable(g, s.roots, role) implies s.output.contains(
        role,
    ) by {
        let path = choose|path: Seq<Seq<char>>| #[trigger]
            is_path(g, s.roots, path) && path.last() == role;
        lemma_closed_holds_path(g, s.roots, s.output, path);
    }
}

/// A move of a settled traversal leaves it explored: settled or pending
/// again, or, at its end, complete.
pub proof fn lemma_walk_explored(s: ResolutionModel, g: spec_fn(Seq<char>) -> Seq<Seq<char>>)
    requires
        steady(s),
        settled(s, g),
    ensures
        explored(walk(s).0, g),
{
    let t = walk(s).0;
    if s.stack.len() == 0 {
        if s.next_root >= s.roots.len() {
            lemma_settled_complete(s, g);
        } else {
            let role = s.roots[s.next_root as int];
            assert(s.roots.contains(role));
            lemma_root_reachable(g, s.roots, role);
            assert(t.output == s.output && t.stack == s.stack && t.roots == s.roots);
        }
    } else {
        let last = s.stack.len() - 1;
        let top = s.stack[last];
        assert(s.stack.last() == top);
        if top.next < top.parents.len() {
            let parent = top.parents[top.next as int];
            let bumped = s.stack.drop_last().push(FrameModel { next: top.next + 1, ..top });
            assert(g(top.role).contains(parent));
            assert(s.output.contains(top.role));
            lemma_parent_reachable(g, s.roots, top.role, parent);
            if top.depth < s.max_depth && !on_path(s.stack, parent) {
                assert(t.stack == bumped && t.output == s.output && t.roots == s.roots);
                assert forall|k: int| 0 <= k < bumped.len() implies (#[trigger] bumped[k]).parents
                    == g(bumped[k].role) && s.output.contains(bumped[k].role) by {
                    if k < last {
                        assert(bumped[k] == s.stack[k]);
                    }
                }
                assert forall|role: Seq<char>| #[trigger] s.output.contains(role) implies on_path(
                    bumped,
                    role,
                ) || closed_at(g, s.output, role) by {
                    if on_path(s.stack, role) {
                        let k = choose|k: int|
                            0 <= k < s.stack.len() && (#[trigger] s.stack[k]).role == role;
                        assert(bumped[k].role == role);
                    }
                }
                assert forall|k: int, i: int|
                    0 <= k < bumped.len() && 0 <= i < bumped[k].next implies s.output.contains(
                    #[trigger] bumped[k].parents[i],
                ) || (k == bumped.len() - 1 && i == bumped[k].next - 1 && bumped[k].parents[i]
                    == parent) by {
                    if k < last {
                        assert(bumped[k] == s.stack[k]);
                        assert(s.output.contains(s.stack[k].parents[i]));
                    } else if i < top.next {
                        assert(s.output.contains(s.stack[k].parents[i]));
                    }
                }
            }
        } else {
            let popped = s.stack.drop_last();
            assert(t.stack == popped && t.output == s.output && t.roots == s.roots);
            assert forall|k: int| 0 <= k < popped.len() implies (#[trigger] popped[k]).parents
                == g(popped[k].role) && s.output.contains(popped[k].role) by {
                assert(popped[k] == s.stack[k]);
            }
            assert forall|k: int, i: int|
                0 <= k < popped.len() && 0 <= i < popped[k].next implies s.output.contains(
                #[trigger] popped[k].parents[i],
            ) by {
                assert(popped[k] == s.stack[k]);
                assert(s.output.contains(s.stack[k].parents[i]));
            }
            assert forall|role: Seq<char>| #[trigger] s.output.contains(role) implies on_path(
                popped,
                role,
            ) || closed_at(g, s.output, role) by {
                if on_path(s.stack, role) && !closed_at(g, s.output, role) {
                    let k = choose|k: int|
                        0 <= k < s.stack.len() && (#[trigger] s.stack[k]).role == role;
                    if k == last {
                        assert forall|j: int| 0 <= j < g(role).len() implies s.output.contains(
                            #[trigger] g(role)[j],
                        ) by {
                            assert(s.output.contains(s.stack[last].parents[j]));
                        }
                    } else {
                        assert(popped[k].role == role);
                    }
                }
            }
        }
    }
}

/// The answer of the graph for the role waited for leaves the traversal
/// settled, the role found and on the path.
pub proof fn lemma_answer_settles(
    s: ResolutionModel,
    parents: Seq<Seq<char>>,
    g: spec_fn(Seq<char>) -> Seq<Seq<char>>,
)
    requires
        pending(s, g),
        parents == g(s.pending_role),
    ensures
        settled(
            ResolutionModel {
                output: s.output.push(s.pending_role),
                stack: s.stack.push(
                    FrameModel {
                        role: s.pending_role,
                        depth: s.pending_depth,
                        parents,
                        next: 0,
                    },
                ),
                ..s
            },
            g,
        ),
{
    let frame = FrameModel { role: s.pending_role, depth: s.pending_depth, parents, next: 0 };
    let u = ResolutionModel {
        output: s.output.push(s.pending_role),
        stack: s.stack.push(frame),
        ..s
    };
    let n = s.stack.len() as int;
    assert(u.output[s.output.len() as int] == s.pending_role);
    assert(u.output.contains(s.pending_role));
    assert forall|role: Seq<char>| s.output.contains(role) implies u.output.contains(role) by {
        let i = choose|i: int| 0 <= i < s.output.len() && s.output[i] == role;
        assert(u.output[i] == role);
    }
    assert forall|role: Seq<char>| #[trigger] u.output.contains(role) implies s.output.contains(
        role,
    ) || role == s.pending_role by {
        let i = choose|i: int| 0 <= i < u.output.len() && u.output[i] == role;
        if i < s.output.len() {
            assert(s.output[i] == role);
        }
    }
    assert forall|k: int| 0 <= k < u.stack.len() implies (#[trigger] u.stack[k]).parents == g(
        u.stack[k].role,
    ) && u.output.contains(u.stack[k].role) by {
        if k < n {
            assert(u.stack[k] == s.stack[k]);
        }
    }
    assert forall|role: Seq<char>| #[trigger] u.output.contains(role) implies on_path(
        u.stack,
        role,
    ) || closed_at(g, u.output, role) by {
        if role == s.pending_role {
            assert(u.stack[n].role == role);
        } else if on_path(s.stack, role) {
            let k = choose|k: int| 0 <= k < s.stack.len() && (#[trigger] s.stack[k]).role == role;
            assert(u.stack[k].role == role);
        } else {
            assert(closed_at(g, s.output, role));
            assert forall|j: int| 0 <= j < g(role).len() implies u.output.contains(
                #[trigger] g(role)[j],
            ) by {
                assert(s.output.contains(g(role)[j]));
            }
        }
    }
    assert forall|i: int| 0 <= i < u.next_root implies u.output.contains(
        #[trigger] u.roots[i],
    ) by {
        if !s.output.contains(s.roots[i]) {
            assert(s.roots[i] == s.pending_role);
        }
    }
    assert forall|k: int, i: int|
        0 <= k < u.stack.len() && 0 <= i < u.stack[k].next implies u.output.contains(
        #[trigger] u.stack[k].parents[i],
    ) by {
        if k < n {
            assert(u.stack[k] == s.stack[k]);
            if !s.output.contains(s.stack[k].parents[i]) {
                assert(s.stack[k].parents[i] == s.pending_role);
            }
        }
    }
}

/// The traversal begins settled: with the direct roles given and nothing
/// found yet.
pub proof fn lemma_fresh_settled(s: ResolutionModel, g: spec_fn(Seq<char>) -> Seq<Seq<char>>)
    requires
        s.output.len() == 0,
        s.stack.len() == 0,
        s.next_root == 0,
    ensures
        settled(s, g),
{
    assert forall|role: Seq<char>| !s.output.contains(role) by {
        if s.output.contains(role) {
            let i = choose|i: int| 0 <= i < s.output.len() && s.output[i] == role;
        }
    }
}

/// Before the direct roles are known, nothing has been found and
/// nothing is on the path.
pub open spec fn unspoiled(s: ResolutionModel) -> bool {
    s.phase == Phase::Tenant || s.phase == Phase::Principal || s.phase == Phase::Cache || s.phase
        == Phase::Roles ==> s.output.len() == 0 && s.stack.len() == 0
}

/// Every step of a resolution that follows inheritance keeps it
/// explored, where the store answers from the graph `g`.
///
/// So a resolution that reaches the collection of permissions has found
/// exactly the roles that can be reached from the principal's direct
/// roles: each of them, and no other.
pub proof fn lemma_step_explored(
    s: ResolutionModel,
    answer: AnswerModel,
    g: spec_fn(Seq<char>) -> Seq<Seq<char>>,
)
    requires
        bounded(s),
        s.hierarchy,
        expects(s.phase, answer),
        faithful(s, answer, g),
        explored(s, g),
        unspoiled(s),
    ensures
        explored(step(s, answer).0, g),
        unspoiled(step(s, answer).0),
        step(s, answer).0.hierarchy,
{
    match answer {
        AnswerModel::Nothing => {
            lemma_walk_explored(s, g);
        },
        AnswerModel::Roles(roles) => {
            if s.phase == Phase::Roles {
                let u = ResolutionModel { roots: roles, next_root: 0, ..s };
                lemma_fresh_settled(u, g);
                lemma_walk_explored(u, g);
            } else {
                let frame = FrameModel {
                    role: s.pending_role,
                    depth: s.pending_depth,
                    parents: roles,
                    next: 0,
                };
                let u = ResolutionModel {
                    output: s.output.push(s.pending_role),
                    stack: s.stack.push(frame),
                    ..s
                };
                lemma_answer_settles(s, roles, g);
                assert forall|k: int| 0 <= k < u.stack.len() implies (#[trigger] u.stack[k]).depth
                    == k && u.stack[k].depth <= u.max_depth && u.stack[k].next
                    <= u.stack[k].parents.len() && u.stack[k].parents.len() <= usize::MAX by {
                    if k < s.stack.len() {
                        assert(u.stack[k] == s.stack[k]);
                    }
                }
                lemma_walk_explored(u, g);
            }
        },
        _ => {},
    }
}

/// Every one of `answers` is what a store with the graph `g` gives where
/// the answer comes.
pub open spec fn faithful_run(
    s: ResolutionModel,
    answers: Seq<AnswerModel>,
    g: spec_fn(Seq<char>) -> Seq<Seq<char>>,
) -> bool
    decreases answers.len(),
{
    answers.len() > 0 ==> faithful_run(s, answers.drop_last(), g) && faithful(
        run(s, answers.drop_last()).0,
        answers.last(),
        g,
    )
}

/// A resolution that follows inheritance against a store with the graph
/// `g` is explored wherever it stands: once it collects permissions, the
/// roles that it collects them for are exactly those that can be reached
/// from the principal's direct roles.
pub proof fn lemma_run_explored(
    tenant: Seq<char>,
    principal: Seq<char>,
    marker: Seq<char>,
    max_depth: usize,
    answers: Seq<AnswerModel>,
    g: spec_fn(Seq<char>) -> Seq<Seq<char>>,
)
    requires
        orderly(initial(tenant, principal, marker, true, max_depth), answers),
        faithful_run(initial(tenant, principal, marker, true, max_depth), answers, g),
    ensures
        explored(run(initial(tenant, principal, marker, true, max_depth), answers).0, g),
        bounded(run(initial(tenant, principal, marker, true, max_depth), answers).0),
        run(initial(tenant, principal, marker, true, max_depth), answers).0.hierarchy,
        unspoiled(run(initial(tenant, principal, marker, true, max_depth), answers).0),
    decreases answers.len(),
{
    let start = initial(tenant, principal, marker, true, max_depth);
    if answers.len() > 0 {
        let before = answers.drop_last();
        lemma_run_explored(tenant, principal, marker, max_depth, before, g);
        let s = run(start, before).0;
        lemma_step_bounded(s, answers.last());
        lemma_step_explored(s, answers.last(), g);
    }
}

} // verus!
