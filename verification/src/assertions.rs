//! What a closed tableau means for assertions about individuals.
//!
//! A model gives every atomic concept its members, every role the pairs it
//! relates, and every individual an element. A concept stated of an
//! individual is true in it when the element of the individual belongs to
//! the concept; a role assertion is true when the role relates the elements
//! of the two individuals, or, for a negated assertion, does not.
//!
//! The search is sound on such assertions: where every branch closes, no
//! model makes all of them true.

use crate::formula::lemma_exist_holds;
use crate::formula::lemma_forall_holds;
use crate::formula::lemma_negated_is_complement;
use crate::formula::Formula;
use crate::formula::Interpretation;
use crate::formula::Statement;
use crate::formula::BOTTOM;
use crate::formula::TOP;
use crate::tableau::assert_on_branch;
use crate::tableau::expand;
use crate::tableau::expand_concept;
use crate::tableau::instances;
use crate::tableau::last_clashes;
use crate::tableau::lemma_search_spends;
use crate::tableau::role_matches;
use crate::tableau::role_targets;
use crate::tableau::search;
use crate::tableau::with_body;
use vstd::prelude::*;

verus! {

/// The meaning of the concepts and roles, and the element that each
/// individual stands for.
pub struct Model {
    pub meaning: Interpretation,
    pub elements: spec_fn(nat) -> nat,
}

/// Whether `s` is a concept stated of an individual, or a role assertion,
/// about individuals below `symbols`.
pub open spec fn assertion(s: Statement, symbols: nat) -> bool {
    match s {
        Statement::Member(a, _) => a < symbols,
        Statement::Role(_, _, x, y) => x < symbols && y < symbols,
        Statement::Concept(_) => false,
    }
}

/// Whether every one of `stmts` is an assertion about individuals below
/// `symbols`.
pub open spec fn all_assertions(stmts: Seq<Statement>, symbols: nat) -> bool {
    forall|i: int| 0 <= i < stmts.len() ==> assertion(#[trigger] stmts[i], symbols)
}

/// Whether the assertion `s` is true in `m`.
pub open spec fn true_in(s: Statement, m: Model) -> bool {
    match s {
        Statement::Member(a, f) => f.holds(m.meaning, (m.elements)(a)),
        Statement::Role(p, r, x, y) => (m.meaning.roles)(r, (m.elements)(x), (m.elements)(y)) == p,
        Statement::Concept(_) => false,
    }
}

/// Whether every one of `stmts` is true in `m`.
pub open spec fn models(m: Model, stmts: Seq<Statement>) -> bool {
    forall|i: int| 0 <= i < stmts.len() ==> true_in(#[trigger] stmts[i], m)
}

/// The model `m` with the individual `symbols` standing for `x` and the
/// next one for `y`.
pub open spec fn with_two(m: Model, symbols: nat, x: nat, y: nat) -> Model {
    Model {
        meaning: m.meaning,
        elements: |i: nat|
            if i == symbols {
                x
            } else if i == symbols + 1 {
                y
            } else {
                (m.elements)(i)
            },
    }
}

proof fn lemma_models_parts(m: Model, work: Seq<Statement>, symbols: nat)
    requires
        work.len() > 0,
    ensures
        models(m, work) == (models(m, work.drop_last()) && true_in(work.last(), m)),
        all_assertions(work, symbols) ==> all_assertions(work.drop_last(), symbols) && assertion(
            work.last(),
            symbols,
        ),
{
    let rest = work.drop_last();
    if models(m, work) {
        assert forall|i: int| 0 <= i < rest.len() implies true_in(#[trigger] rest[i], m) by {
            assert(rest[i] == work[i]);
        }
        assert(true_in(work[work.len() - 1], m));
    }
    if models(m, rest) && true_in(work.last(), m) {
        assert forall|i: int| 0 <= i < work.len() implies true_in(#[trigger] work[i], m) by {
            if i < rest.len() {
                assert(rest[i] == work[i]);
            }
        }
    }
    if all_assertions(work, symbols) {
        assert forall|i: int| 0 <= i < rest.len() implies assertion(
            #[trigger] rest[i],
            symbols,
        ) by {
            assert(rest[i] == work[i]);
        }
        assert(assertion(work[work.len() - 1], symbols));
    }
}

proof fn lemma_models_push(m: Model, work: Seq<Statement>, s: Statement, symbols: nat)
    ensures
        models(m, work.push(s)) == (models(m, work) && true_in(s, m)),
        all_assertions(work, symbols) && assertion(s, symbols) ==> all_assertions(
            work.push(s),
            symbols,
        ),
{
    let longer = work.push(s);
    assert(longer.drop_last() =~= work);
    lemma_models_parts(m, longer, symbols);
    if all_assertions(work, symbols) && assertion(s, symbols) {
        assert forall|i: int| 0 <= i < longer.len() implies assertion(
            #[trigger] longer[i],
            symbols,
        ) by {
            if i < work.len() {
                assert(longer[i] == work[i]);
            }
        }
    }
}

proof fn lemma_models_add(m: Model, a: Seq<Statement>, b: Seq<Statement>, symbols: nat)
    ensures
        models(m, a + b) == (models(m, a) && models(m, b)),
        all_assertions(a, symbols) && all_assertions(b, symbols) ==> all_assertions(
            a + b,
            symbols,
        ),
{
    let both = a + b;
    if models(m, both) {
        assert forall|i: int| 0 <= i < a.len() implies true_in(#[trigger] a[i], m) by {
            assert(both[i] == a[i]);
        }
        assert forall|i: int| 0 <= i < b.len() implies true_in(#[trigger] b[i], m) by {
            assert(both[a.len() + i] == b[i]);
        }
    }
    if models(m, a) && models(m, b) {
        assert forall|i: int| 0 <= i < both.len() implies true_in(#[trigger] both[i], m) by {
            if i < a.len() {
                assert(both[i] == a[i]);
            } else {
                assert(both[i] == b[i - a.len()]);
            }
        }
    }
    if all_assertions(a, symbols) && all_assertions(b, symbols) {
        assert forall|i: int| 0 <= i < both.len() implies assertion(
            #[trigger] both[i],
            symbols,
        ) by {
            if i < a.len() {
                assert(both[i] == a[i]);
            } else {
                assert(both[i] == b[i - a.len()]);
            }
        }
    }
}

/// Assertions about individuals below `symbols` are about individuals below
/// any larger number.
proof fn lemma_assertions_below(stmts: Seq<Statement>, symbols: nat, more: nat)
    requires
        all_assertions(stmts, symbols),
        symbols <= more,
    ensures
        all_assertions(stmts, more),
{
    assert forall|i: int| 0 <= i < stmts.len() implies assertion(#[trigger] stmts[i], more) by {
        assert(assertion(stmts[i], symbols));
    }
}

/// What is true of individuals below `symbols` stays true when two new
/// individuals are given elements.
proof fn lemma_new_individuals(m: Model, stmts: Seq<Statement>, symbols: nat, x: nat, y: nat)
    requires
        all_assertions(stmts, symbols),
        models(m, stmts),
    ensures
        models(with_two(m, symbols, x, y), stmts),
{
    let n = with_two(m, symbols, x, y);
    assert forall|i: int| 0 <= i < stmts.len() implies true_in(#[trigger] stmts[i], n) by {
        assert(assertion(stmts[i], symbols));
        assert(true_in(stmts[i], m));
    }
}

/// Two assertions that contradict each other are not both true.
pub proof fn lemma_clash_excludes(p: Statement, q: Statement, m: Model)
    requires
        p.clashes(q),
        !(p is Concept),
        !(q is Concept),
    ensures
        !(true_in(p, m) && true_in(q, m)),
{
    match (p, q) {
        (Statement::Member(a, f), Statement::Member(b, g)) => {
            let e = (m.elements)(a);
            lemma_literal_holds(f, m.meaning, e);
            lemma_literal_holds(g, m.meaning, e);
        },
        _ => {},
    }
}

/// An element belongs to a literal exactly when its belonging to the atom
/// is as the sign of the literal says.
proof fn lemma_literal_holds(f: Formula, i: Interpretation, e: nat)
    requires
        f.literal() is Some,
    ensures
        f.holds(i, e) == (Formula::Atom(f.literal().unwrap().1).holds(i, e)
            == f.literal().unwrap().0),
{
    match f {
        Formula::Not(x) => {
            assert(f.holds(i, e) == !x.holds(i, e));
        },
        _ => {},
    }
}

/// Every individual that a universal restriction of `anchor` follows a
/// role to is one that an assertion on the branch says the role leads to
/// from `anchor`.
proof fn lemma_target_is_related(branch: Seq<Statement>, role: nat, anchor: nat, k: int) -> (j: int)
    requires
        0 <= k < role_targets(branch, true, role, Some(anchor)).len(),
    ensures
        0 <= j < branch.len(),
        branch[j] == Statement::Role(
            true,
            role,
            anchor,
            role_targets(branch, true, role, Some(anchor))[k],
        ),
    decreases branch.len(),
{
    let earlier = role_targets(branch.drop_last(), true, role, Some(anchor));
    if role_matches(branch.last(), true, role, Some(anchor)) {
        if k == 0 {
            (branch.len() - 1) as int
        } else {
            let j = lemma_target_is_related(branch.drop_last(), role, anchor, k - 1);
            assert(branch.drop_last()[j] == branch[j]);
            j
        }
    } else {
        let j = lemma_target_is_related(branch.drop_last(), role, anchor, k);
        assert(branch.drop_last()[j] == branch[j]);
        j
    }
}

/// Where a universal restriction of the individual `a` is true and the
/// branch is, its body is true of every individual that it follows a role
/// to.
proof fn lemma_instances_true(
    m: Model,
    branch: Seq<Statement>,
    a: nat,
    role: nat,
    body: Formula,
    symbols: nat,
)
    requires
        all_assertions(branch, symbols),
        models(m, branch),
        Formula::ForAll(role, Box::new(body)).holds(m.meaning, (m.elements)(a)),
    ensures
        models(m, instances(body, role_targets(branch, true, role, Some(a)))),
        all_assertions(instances(body, role_targets(branch, true, role, Some(a))), symbols),
{
    let targets = role_targets(branch, true, role, Some(a));
    let made = instances(body, targets);
    lemma_forall_holds(role, body, m.meaning, (m.elements)(a));
    assert forall|k: int| 0 <= k < made.len() implies true_in(#[trigger] made[k], m) && assertion(
        made[k],
        symbols,
    ) by {
        let j = lemma_target_is_related(branch, role, a, k);
        assert(true_in(branch[j], m));
        assert(assertion(branch[j], symbols));
        assert((m.meaning.roles)(role, (m.elements)(a), (m.elements)(targets[k])));
    }
}

/// The search is sound on assertions: where every branch closes, no model
/// makes the assertions on the branch and the assertions to expand all
/// true.
pub proof fn lemma_closed_has_no_model(
    branch: Seq<Statement>,
    work: Seq<Statement>,
    symbols: nat,
    steps: nat,
    m: Model,
)
    requires
        all_assertions(branch, symbols),
        all_assertions(work, symbols),
        search(branch, work, symbols, steps).verdict == Some(true),
    ensures
        !(models(m, branch) && models(m, work)),
    decreases steps, 0nat, 0nat,
{
    lemma_expand_closed(branch, work, Seq::empty(), symbols, (steps - 1) as nat, m);
}

proof fn lemma_assert_closed(
    branch: Seq<Statement>,
    p: Statement,
    work: Seq<Statement>,
    symbols: nat,
    steps: nat,
    m: Model,
)
    requires
        all_assertions(branch, symbols),
        assertion(p, symbols),
        all_assertions(work, symbols),
        assert_on_branch(branch, p, work, symbols, steps).verdict == Some(true),
    ensures
        !(models(m, branch) && true_in(p, m) && models(m, work)),
    decreases steps, 0nat, 1nat,
{
    let longer = branch.push(p);
    lemma_models_push(m, branch, p, symbols);
    if last_clashes(longer) {
        let j = choose|j: int| 0 <= j < longer.len() - 1 && (#[trigger] longer[j]).clashes(
            longer.last(),
        );
        assert(longer[j] == branch[j]);
        assert(assertion(branch[j], symbols));
        lemma_clash_excludes(branch[j], p, m);
        if models(m, branch) {
            assert(true_in(branch[j], m));
        }
    } else {
        lemma_closed_has_no_model(longer, work, symbols, steps, m);
    }
}

proof fn lemma_expand_closed(
    branch: Seq<Statement>,
    work: Seq<Statement>,
    deferred: Seq<Statement>,
    symbols: nat,
    steps: nat,
    m: Model,
)
    requires
        all_assertions(branch, symbols),
        all_assertions(work, symbols),
        all_assertions(deferred, symbols),
        expand(branch, work, deferred, symbols, steps).verdict == Some(true),
    ensures
        !(models(m, branch) && models(m, work) && models(m, deferred)),
    decreases steps, 1nat, 2 * work.len(),
{
    if work.len() > 0 {
        let p = work.last();
        let rest = work.drop_last();
        lemma_models_parts(m, work, symbols);
        lemma_models_add(m, rest, deferred, symbols);
        match p {
            Statement::Role(_, _, _, _) => {
                lemma_assert_closed(branch, p, rest + deferred, symbols, steps, m);
            },
            Statement::Member(a, f) => {
                lemma_expand_concept_closed(branch, p, a, f, rest, deferred, symbols, steps, m);
            },
            Statement::Concept(_) => {},
        }
    }
}

proof fn lemma_expand_concept_closed(
    branch: Seq<Statement>,
    p: Statement,
    a: nat,
    f: Formula,
    rest: Seq<Statement>,
    deferred: Seq<Statement>,
    symbols: nat,
    steps: nat,
    m: Model,
)
    requires
        all_assertions(branch, symbols),
        all_assertions(rest, symbols),
        all_assertions(deferred, symbols),
        p == Statement::Member(a, f),
        a < symbols,
        expand_concept(branch, p, f, rest, deferred, symbols, steps).verdict == Some(true),
    ensures
        !(models(m, branch) && true_in(p, m) && models(m, rest) && models(m, deferred)),
    decreases steps, 1nat, 2 * rest.len() + 1,
{
    let i = m.meaning;
    let e = (m.elements)(a);
    lemma_models_add(m, rest, deferred, symbols);
    match f {
        Formula::Atom(c) => {
            if c == TOP {
                lemma_expand_closed(branch, rest, deferred, symbols, steps, m);
            } else if c != BOTTOM {
                lemma_assert_closed(branch, p, rest + deferred, symbols, steps, m);
            }
        },
        Formula::Not(x) => match *x {
            Formula::Atom(c) => {
                assert(f.holds(i, e) == !x.holds(i, e));
                if c == BOTTOM {
                    lemma_expand_closed(branch, rest, deferred, symbols, steps, m);
                } else if c != TOP {
                    lemma_assert_closed(branch, p, rest + deferred, symbols, steps, m);
                }
            },
            _ => {
                let q = with_body(p, x.negated());
                lemma_negated_is_complement(*x, i, e);
                assert(f.holds(i, e) == !x.holds(i, e));
                lemma_models_push(m, rest, q, symbols);
                lemma_models_add(m, rest.push(q), deferred, symbols);
                lemma_closed_has_no_model(branch, rest.push(q) + deferred, symbols, steps, m);
            },
        },
        Formula::And(x, y) => {
            let qa = with_body(p, *x);
            let qb = with_body(p, *y);
            lemma_models_push(m, rest, qa, symbols);
            lemma_models_push(m, rest.push(qa), qb, symbols);
            lemma_models_add(m, rest.push(qa).push(qb), deferred, symbols);
            lemma_closed_has_no_model(
                branch,
                rest.push(qa).push(qb) + deferred,
                symbols,
                steps,
                m,
            );
        },
        Formula::Or(x, y) => {
            let qa = with_body(p, *x);
            let qb = with_body(p, *y);
            let first = rest.push(qa) + deferred;
            let second = rest.push(qb) + deferred;
            lemma_models_push(m, rest, qa, symbols);
            lemma_models_push(m, rest, qb, symbols);
            lemma_models_add(m, rest.push(qa), deferred, symbols);
            lemma_models_add(m, rest.push(qb), deferred, symbols);
            let left = search(branch, first, symbols, steps);
            lemma_search_spends(branch, first, symbols, steps);
            lemma_closed_has_no_model(branch, first, symbols, steps, m);
            lemma_assertions_below(branch, symbols, left.symbols);
            lemma_assertions_below(second, symbols, left.symbols);
            lemma_closed_has_no_model(branch, second, left.symbols, left.steps_left, m);
        },
        Formula::ForAll(r, b) => {
            let targets = role_targets(branch, true, r, Some(a));
            if targets.len() == 0 {
                lemma_models_push(m, deferred, p, symbols);
                lemma_expand_closed(branch, rest, deferred.push(p), symbols, steps, m);
            } else {
                let made = instances(*b, targets);
                if models(m, branch) && true_in(p, m) {
                    lemma_instances_true(m, branch, a, r, *b, symbols);
                }
                lemma_instances_below(branch, a, r, *b, symbols);
                lemma_models_add(m, rest, made, symbols);
                lemma_models_add(m, rest + made, deferred, symbols);
                lemma_closed_has_no_model(branch, rest + made + deferred, symbols, steps, m);
            }
        },
        Formula::Exist(r, b) => {
            let x = symbols;
            let y = symbols + 1;
            let link = Statement::Role(true, r, x, y);
            let body = Statement::Member(y, *b);
            let next = rest.push(link).push(body) + deferred;
            let more = symbols + 2;
            lemma_assertions_below(branch, symbols, more);
            lemma_assertions_below(rest, symbols, more);
            lemma_assertions_below(deferred, symbols, more);
            lemma_models_push(m, rest, link, more);
            lemma_models_push(m, rest.push(link), body, more);
            lemma_models_add(m, rest.push(link).push(body), deferred, more);
            if models(m, branch) && true_in(p, m) && models(m, rest) && models(m, deferred) {
                lemma_exist_holds(r, *b, i, e);
                let t = choose|t: nat| #[trigger] (i.roles)(r, e, t) && b.holds(i, t);
                let n = with_two(m, symbols, e, t);
                lemma_new_individuals(m, branch, symbols, e, t);
                lemma_new_individuals(m, rest, symbols, e, t);
                lemma_new_individuals(m, deferred, symbols, e, t);
                assert(true_in(link, n));
                assert(true_in(body, n));
                lemma_models_push(n, rest, link, more);
                lemma_models_push(n, rest.push(link), body, more);
                lemma_models_add(n, rest.push(link).push(body), deferred, more);
                lemma_closed_has_no_model(branch, next, more, steps, n);
            }
        },
    }
}

/// The instances of a universal restriction are about individuals that
/// stand on the branch.
proof fn lemma_instances_below(
    branch: Seq<Statement>,
    a: nat,
    role: nat,
    body: Formula,
    symbols: nat,
)
    requires
        all_assertions(branch, symbols),
    ensures
        all_assertions(instances(body, role_targets(branch, true, role, Some(a))), symbols),
{
    let targets = role_targets(branch, true, role, Some(a));
    let made = instances(body, targets);
    assert forall|k: int| 0 <= k < made.len() implies assertion(#[trigger] made[k], symbols) by {
        let j = lemma_target_is_related(branch, role, a, k);
        assert(assertion(branch[j], symbols));
    }
}

} // verus!
