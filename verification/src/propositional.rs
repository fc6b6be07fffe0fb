//! What a verdict means for sentences without role restrictions.
//!
//! On concept statements that are built from atoms with `!`, `&` and `|`
//! alone, the search decides satisfiability: every branch closes exactly
//! when no assignment of truth values to the atoms makes all the statements
//! true.

use crate::formula::lemma_negated_is_complement;
use crate::formula::Formula;
use crate::formula::Interpretation;
use crate::formula::Statement;
use crate::formula::BOTTOM;
use crate::formula::TOP;
use crate::tableau::assert_on_branch;
use crate::tableau::expand;
use crate::tableau::expand_concept;
use crate::tableau::last_clashes;
use crate::tableau::search;
use crate::tableau::with_body;
use vstd::prelude::*;

verus! {

/// The interpretation in which an atom has the members that `v` says it is
/// true of, and no role relates anything.
pub open spec fn assignment(v: spec_fn(nat) -> bool) -> Interpretation {
    Interpretation { concepts: |a: nat, e: nat| v(a), roles: |r: nat, x: nat, y: nat| false }
}

/// Whether `s` is a concept statement without role restrictions, stated of
/// no individual.
pub open spec fn propositional(s: Statement) -> bool {
    s matches Statement::Concept(f) && f.propositional()
}

/// Whether every one of `stmts` is propositional.
pub open spec fn all_propositional(stmts: Seq<Statement>) -> bool {
    forall|i: int| 0 <= i < stmts.len() ==> propositional(#[trigger] stmts[i])
}

/// Whether the concept statement `s` is true under `v`.
pub open spec fn true_under(s: Statement, v: spec_fn(nat) -> bool) -> bool {
    s.body() matches Some(f) && f.holds(assignment(v), 0)
}

/// Whether every one of `stmts` is true under `v`.
pub open spec fn satisfies(v: spec_fn(nat) -> bool, stmts: Seq<Statement>) -> bool {
    forall|i: int| 0 <= i < stmts.len() ==> true_under(#[trigger] stmts[i], v)
}

/// Whether `s` is an atom or a negated atom, of an atom other than the two
/// reserved ones.
pub open spec fn plain_literal(s: Statement) -> bool {
    s matches Statement::Concept(f) && (f.literal() matches Some(l) && l.1 != TOP && l.1 != BOTTOM)
}

/// Whether `branch` holds nothing but literals, no two of which contradict
/// each other.
pub open spec fn consistent(branch: Seq<Statement>) -> bool {
    &&& forall|i: int| 0 <= i < branch.len() ==> plain_literal(#[trigger] branch[i])
    &&& forall|i: int, j: int|
        0 <= i < j < branch.len() ==> !(#[trigger] branch[i]).clashes(#[trigger] branch[j])
}

/// One negation step keeps a formula free of role restrictions.
pub proof fn lemma_negated_propositional(f: Formula)
    requires
        f.propositional(),
    ensures
        f.negated().propositional(),
{
    match f {
        Formula::And(a, b) => {
            assert(Formula::Not(a).propositional());
            assert(Formula::Not(b).propositional());
        },
        Formula::Or(a, b) => {
            assert(Formula::Not(a).propositional());
            assert(Formula::Not(b).propositional());
        },
        _ => {},
    }
}

/// Two statements that contradict each other are not both true.
pub proof fn lemma_clash_excludes(p: Statement, q: Statement, v: spec_fn(nat) -> bool)
    requires
        p.clashes(q),
        p is Concept,
        q is Concept,
    ensures
        !(true_under(p, v) && true_under(q, v)),
{
    let f = p.body().unwrap();
    let g = q.body().unwrap();
    lemma_literal_value(f, v);
    lemma_literal_value(g, v);
}

/// A literal is true exactly when its atom has the truth value of its sign.
pub proof fn lemma_literal_value(f: Formula, v: spec_fn(nat) -> bool)
    requires
        f.literal() is Some,
    ensures
        f.holds(assignment(v), 0) == (Formula::Atom(f.literal().unwrap().1).holds(
            assignment(v),
            0,
        ) == f.literal().unwrap().0),
{
    match f {
        Formula::Atom(a) => {},
        Formula::Not(x) => {
            assert(f.holds(assignment(v), 0) == !x.holds(assignment(v), 0));
        },
        _ => {},
    }
}

proof fn lemma_satisfies_parts(v: spec_fn(nat) -> bool, work: Seq<Statement>)
    requires
        work.len() > 0,
    ensures
        satisfies(v, work) == (satisfies(v, work.drop_last()) && true_under(work.last(), v)),
        all_propositional(work) ==> all_propositional(work.drop_last()) && propositional(
            work.last(),
        ),
{
    let rest = work.drop_last();
    if satisfies(v, work) {
        assert forall|i: int| 0 <= i < rest.len() implies true_under(#[trigger] rest[i], v) by {
            assert(rest[i] == work[i]);
        }
        assert(true_under(work[work.len() - 1], v));
    }
    if satisfies(v, rest) && true_under(work.last(), v) {
        assert forall|i: int| 0 <= i < work.len() implies true_under(#[trigger] work[i], v) by {
            if i < rest.len() {
                assert(rest[i] == work[i]);
            }
        }
    }
    if all_propositional(work) {
        assert forall|i: int| 0 <= i < rest.len() implies propositional(#[trigger] rest[i]) by {
            assert(rest[i] == work[i]);
        }
        assert(propositional(work[work.len() - 1]));
    }
}

proof fn lemma_satisfies_push(v: spec_fn(nat) -> bool, work: Seq<Statement>, s: Statement)
    ensures
        satisfies(v, work.push(s)) == (satisfies(v, work) && true_under(s, v)),
{
    assert(work.push(s).drop_last() =~= work);
    lemma_satisfies_parts(v, work.push(s));
}

proof fn lemma_propositional_push(work: Seq<Statement>, s: Statement)
    requires
        all_propositional(work),
        propositional(s),
    ensures
        all_propositional(work.push(s)),
{
    let longer = work.push(s);
    assert forall|i: int| 0 <= i < longer.len() implies propositional(#[trigger] longer[i]) by {
        if i < work.len() {
            assert(longer[i] == work[i]);
        }
    }
}

/// Where every branch closes, no assignment makes the statements on the
/// branch and the statements to expand all true.
pub proof fn lemma_closed_is_unsatisfiable(
    branch: Seq<Statement>,
    work: Seq<Statement>,
    symbols: nat,
    steps: nat,
    v: spec_fn(nat) -> bool,
)
    requires
        all_propositional(branch),
        all_propositional(work),
        search(branch, work, symbols, steps).verdict == Some(true),
    ensures
        !(satisfies(v, branch) && satisfies(v, work)),
    decreases steps, 0nat, 0nat,
{
    lemma_expand_closed(branch, work, symbols, (steps - 1) as nat, v);
}

proof fn lemma_assert_closed(
    branch: Seq<Statement>,
    p: Statement,
    work: Seq<Statement>,
    symbols: nat,
    steps: nat,
    v: spec_fn(nat) -> bool,
)
    requires
        all_propositional(branch),
        propositional(p),
        all_propositional(work),
        assert_on_branch(branch, p, work, symbols, steps).verdict == Some(true),
    ensures
        !(satisfies(v, branch) && true_under(p, v) && satisfies(v, work)),
    decreases steps, 0nat, 1nat,
{
    let longer = branch.push(p);
    lemma_satisfies_push(v, branch, p);
    if last_clashes(longer) {
        let j = choose|j: int| 0 <= j < longer.len() - 1 && (#[trigger] longer[j]).clashes(
            longer.last(),
        );
        assert(longer[j] == branch[j]);
        assert(propositional(branch[j]));
        lemma_clash_excludes(branch[j], p, v);
        if satisfies(v, branch) {
            assert(true_under(branch[j], v));
        }
    } else {
        lemma_closed_is_unsatisfiable(longer, work, symbols, steps, v);
    }
}

proof fn lemma_expand_closed(
    branch: Seq<Statement>,
    work: Seq<Statement>,
    symbols: nat,
    steps: nat,
    v: spec_fn(nat) -> bool,
)
    requires
        all_propositional(branch),
        all_propositional(work),
        expand(branch, work, Seq::empty(), symbols, steps).verdict == Some(true),
    ensures
        !(satisfies(v, branch) && satisfies(v, work)),
    decreases steps, 1nat, 2 * work.len(),
{
    if work.len() > 0 {
        let p = work.last();
        let rest = work.drop_last();
        lemma_satisfies_parts(v, work);
        assert(rest + Seq::<Statement>::empty() =~= rest);
        match p {
            Statement::Concept(f) => {
                lemma_expand_concept_closed(branch, p, f, rest, symbols, steps, v);
            },
            _ => {},
        }
    }
}

proof fn lemma_expand_concept_closed(
    branch: Seq<Statement>,
    p: Statement,
    f: Formula,
    rest: Seq<Statement>,
    symbols: nat,
    steps: nat,
    v: spec_fn(nat) -> bool,
)
    requires
        all_propositional(branch),
        all_propositional(rest),
        p == Statement::Concept(f),
        f.propositional(),
        expand_concept(branch, p, f, rest, Seq::empty(), symbols, steps).verdict == Some(true),
    ensures
        !(satisfies(v, branch) && true_under(p, v) && satisfies(v, rest)),
    decreases steps, 1nat, 2 * rest.len() + 1,
{
    let none = Seq::<Statement>::empty();
    let i = assignment(v);
    assert(rest + none =~= rest);
    match f {
        Formula::Atom(a) => {
            if a == TOP {
                lemma_expand_closed(branch, rest, symbols, steps, v);
            } else if a != BOTTOM {
                lemma_assert_closed(branch, p, rest, symbols, steps, v);
            }
        },
        Formula::Not(x) => match *x {
            Formula::Atom(a) => {
                assert(f.holds(i, 0) == !x.holds(i, 0));
                if a == BOTTOM {
                    lemma_expand_closed(branch, rest, symbols, steps, v);
                } else if a != TOP {
                    lemma_assert_closed(branch, p, rest, symbols, steps, v);
                }
            },
            _ => {
                let q = with_body(p, x.negated());
                let next = rest.push(q);
                assert(next + none =~= next);
                lemma_negated_propositional(*x);
                lemma_negated_is_complement(*x, i, 0);
                assert(f.holds(i, 0) == !x.holds(i, 0));
                lemma_satisfies_push(v, rest, q);
                lemma_propositional_push(rest, q);
                lemma_closed_is_unsatisfiable(branch, next, symbols, steps, v);
            },
        },
        Formula::And(a, b) => {
            let qa = with_body(p, *a);
            let qb = with_body(p, *b);
            let next = rest.push(qa).push(qb);
            assert(next + none =~= next);
            lemma_satisfies_push(v, rest, qa);
            lemma_satisfies_push(v, rest.push(qa), qb);
            lemma_propositional_push(rest, qa);
            lemma_propositional_push(rest.push(qa), qb);
            lemma_closed_is_unsatisfiable(branch, next, symbols, steps, v);
        },
        Formula::Or(a, b) => {
            let qa = with_body(p, *a);
            let qb = with_body(p, *b);
            let first = rest.push(qa);
            let second = rest.push(qb);
            assert(first + none =~= first);
            assert(second + none =~= second);
            lemma_satisfies_push(v, rest, qa);
            lemma_satisfies_push(v, rest, qb);
            lemma_propositional_push(rest, qa);
            lemma_propositional_push(rest, qb);
            let left = search(branch, first, symbols, steps);
            crate::tableau::lemma_search_spends(branch, first, symbols, steps);
            lemma_closed_is_unsatisfiable(branch, first, symbols, steps, v);
            lemma_closed_is_unsatisfiable(branch, second, left.symbols, left.steps_left, v);
        },
        _ => {},
    }
}

/// The assignment that makes an atom true exactly when it stands on
/// `branch`.
pub open spec fn read_off(branch: Seq<Statement>) -> spec_fn(nat) -> bool {
    |a: nat|
        exists|i: int|
            0 <= i < branch.len() && #[trigger] branch[i] == Statement::Concept(Formula::Atom(a))
}

/// The literals of a consistent branch are all true under the assignment
/// read off it.
pub proof fn lemma_read_off(branch: Seq<Statement>)
    requires
        consistent(branch),
    ensures
        satisfies(read_off(branch), branch),
{
    let v = read_off(branch);
    assert forall|k: int| 0 <= k < branch.len() implies true_under(#[trigger] branch[k], v) by {
        assert(plain_literal(branch[k]));
        let f = branch[k].body().unwrap();
        lemma_literal_value(f, v);
        match f {
            Formula::Atom(a) => {
                assert(branch[k] == Statement::Concept(Formula::Atom(a)));
                assert(v(a));
            },
            Formula::Not(x) => {
                let a = f.literal().unwrap().1;
                if v(a) {
                    let i = choose|i: int|
                        0 <= i < branch.len() && #[trigger] branch[i] == Statement::Concept(
                            Formula::Atom(a),
                        );
                    assert(branch[i].clashes(branch[k]));
                    assert(branch[k].clashes(branch[i]));
                    if i < k {
                        assert(!branch[i].clashes(branch[k]));
                    } else if k < i {
                        assert(!branch[k].clashes(branch[i]));
                    }
                }
            },
            _ => {},
        }
    }
}

/// Where a branch stays open, some assignment makes the statements on the
/// branch and the statements to expand all true.
pub proof fn lemma_open_is_satisfiable(
    branch: Seq<Statement>,
    work: Seq<Statement>,
    symbols: nat,
    steps: nat,
) -> (v: spec_fn(nat) -> bool)
    requires
        consistent(branch),
        all_propositional(work),
        search(branch, work, symbols, steps).verdict == Some(false),
    ensures
        satisfies(v, branch),
        satisfies(v, work),
    decreases steps, 0nat, 0nat,
{
    lemma_expand_open(branch, work, symbols, (steps - 1) as nat)
}

proof fn lemma_assert_open(
    branch: Seq<Statement>,
    p: Statement,
    work: Seq<Statement>,
    symbols: nat,
    steps: nat,
) -> (v: spec_fn(nat) -> bool)
    requires
        consistent(branch),
        plain_literal(p),
        all_propositional(work),
        assert_on_branch(branch, p, work, symbols, steps).verdict == Some(false),
    ensures
        satisfies(v, branch),
        true_under(p, v),
        satisfies(v, work),
    decreases steps, 0nat, 1nat,
{
    let longer = branch.push(p);
    assert forall|i: int, j: int| 0 <= i < j < longer.len() implies !(#[trigger] longer[i]).clashes(
        #[trigger] longer[j],
    ) by {
        if j < branch.len() {
            assert(longer[i] == branch[i] && longer[j] == branch[j]);
        }
    }
    assert forall|i: int| 0 <= i < longer.len() implies plain_literal(#[trigger] longer[i]) by {
        if i < branch.len() {
            assert(longer[i] == branch[i]);
        }
    }
    let v = lemma_open_is_satisfiable(longer, work, symbols, steps);
    lemma_satisfies_push(v, branch, p);
    v
}

proof fn lemma_expand_open(
    branch: Seq<Statement>,
    work: Seq<Statement>,
    symbols: nat,
    steps: nat,
) -> (v: spec_fn(nat) -> bool)
    requires
        consistent(branch),
        all_propositional(work),
        expand(branch, work, Seq::empty(), symbols, steps).verdict == Some(false),
    ensures
        satisfies(v, branch),
        satisfies(v, work),
    decreases steps, 1nat, 2 * work.len(),
{
    if work.len() == 0 {
        lemma_read_off(branch);
        read_off(branch)
    } else {
        let p = work.last();
        let rest = work.drop_last();
        assert(propositional(work[work.len() - 1]));
        assert(rest + Seq::<Statement>::empty() =~= rest);
        let f = p.body().unwrap();
        let v = lemma_expand_concept_open(branch, p, f, rest, symbols, steps);
        lemma_satisfies_parts(v, work);
        v
    }
}

proof fn lemma_expand_concept_open(
    branch: Seq<Statement>,
    p: Statement,
    f: Formula,
    rest: Seq<Statement>,
    symbols: nat,
    steps: nat,
) -> (v: spec_fn(nat) -> bool)
    requires
        consistent(branch),
        all_propositional(rest.push(p)),
        p == Statement::Concept(f),
        f.propositional(),
        expand_concept(branch, p, f, rest, Seq::empty(), symbols, steps).verdict == Some(false),
    ensures
        satisfies(v, branch),
        true_under(p, v),
        satisfies(v, rest),
    decreases steps, 1nat, 2 * rest.len() + 1,
{
    let none = Seq::<Statement>::empty();
    assert(rest + none =~= rest);
    assert(rest.push(p).drop_last() =~= rest);
    assert(all_propositional(rest)) by {
        assert forall|k: int| 0 <= k < rest.len() implies propositional(#[trigger] rest[k]) by {
            assert(rest[k] == rest.push(p)[k]);
        }
    }
    match f {
        Formula::Atom(a) => {
            if a == TOP {
                lemma_expand_open(branch, rest, symbols, steps)
            } else {
                lemma_assert_open(branch, p, rest, symbols, steps)
            }
        },
        Formula::Not(x) => match *x {
            Formula::Atom(a) => {
                if a == BOTTOM {
                    let v = lemma_expand_open(branch, rest, symbols, steps);
                    assert(f.holds(assignment(v), 0) == !x.holds(assignment(v), 0));
                    v
                } else {
                    lemma_assert_open(branch, p, rest, symbols, steps)
                }
            },
            _ => {
                let q = with_body(p, x.negated());
                let next = rest.push(q);
                assert(next + none =~= next);
                lemma_negated_propositional(*x);
                lemma_propositional_push(rest, q);
                let v = lemma_open_is_satisfiable(branch, next, symbols, steps);
                lemma_satisfies_push(v, rest, q);
                lemma_negated_is_complement(*x, assignment(v), 0);
                assert(f.holds(assignment(v), 0) == !x.holds(assignment(v), 0));
                v
            },
        },
        Formula::And(a, b) => {
            let qa = with_body(p, *a);
            let qb = with_body(p, *b);
            let next = rest.push(qa).push(qb);
            assert(next + none =~= next);
            lemma_propositional_push(rest, qa);
            lemma_propositional_push(rest.push(qa), qb);
            let v = lemma_open_is_satisfiable(branch, next, symbols, steps);
            lemma_satisfies_push(v, rest, qa);
            lemma_satisfies_push(v, rest.push(qa), qb);
            v
        },
        Formula::Or(a, b) => {
            let qa = with_body(p, *a);
            let qb = with_body(p, *b);
            let first = rest.push(qa);
            let second = rest.push(qb);
            assert(first + none =~= first);
            assert(second + none =~= second);
            lemma_propositional_push(rest, qa);
            lemma_propositional_push(rest, qb);
            let left = search(branch, first, symbols, steps);
            crate::tableau::lemma_search_spends(branch, first, symbols, steps);
            if left.verdict == Some(true) {
                let v = lemma_open_is_satisfiable(branch, second, left.symbols, left.steps_left);
                lemma_satisfies_push(v, rest, qb);
                v
            } else {
                let v = lemma_open_is_satisfiable(branch, first, symbols, steps);
                lemma_satisfies_push(v, rest, qa);
                v
            }
        },
        _ => arbitrary(),
    }
}

/// On propositional statements a verdict decides satisfiability: every
/// branch closes if and only if no assignment makes all of `work` true.
pub proof fn lemma_verdict_decides(work: Seq<Statement>, symbols: nat, steps: nat)
    requires
        all_propositional(work),
        search(Seq::empty(), work, symbols, steps).verdict is Some,
    ensures
        search(Seq::empty(), work, symbols, steps).verdict == Some(true) <==> forall|
            v: spec_fn(nat) -> bool,
        |
            !satisfies(v, work),
{
    let none = Seq::<Statement>::empty();
    if search(none, work, symbols, steps).verdict == Some(true) {
        assert forall|v: spec_fn(nat) -> bool| !satisfies(v, work) by {
            lemma_closed_is_unsatisfiable(none, work, symbols, steps, v);
        }
    } else {
        let verdict = search(none, work, symbols, steps).verdict;
        assert(verdict.unwrap() == false);
        assert(verdict == Some(false));
        let v = lemma_open_is_satisfiable(none, work, symbols, steps);
        assert(satisfies(v, work));
    }
}

/// A bound on the frames it takes to expand `f`, or, where `negated` is
/// set, the negation of `f`, down to literals.
pub open spec fn weight(f: Formula, negated: bool) -> nat
    decreases f,
{
    match f {
        Formula::Not(x) => 1 + weight(*x, !negated),
        Formula::And(a, b) => weight(*a, negated) + weight(*b, negated) + if negated {
            3nat
        } else {
            1nat
        },
        Formula::Or(a, b) => weight(*a, negated) + weight(*b, negated) + if negated {
            3nat
        } else {
            1nat
        },
        _ => 1,
    }
}

/// The weights of the statements `work` together.
pub open spec fn total_weight(work: Seq<Statement>) -> nat
    decreases work.len(),
{
    if work.len() == 0 {
        0
    } else {
        total_weight(work.drop_last()) + match work.last().body() {
            Some(f) => weight(f, false),
            None => 1nat,
        }
    }
}

/// A budget that is enough for statements of the total weight `w`: one
/// less than twice the `w`th power of two.
pub open spec fn enough(w: nat) -> nat
    decreases w,
{
    if w == 0 {
        1
    } else {
        2 * enough((w - 1) as nat) + 1
    }
}

proof fn lemma_enough_grows(a: nat, b: nat)
    requires
        a <= b,
    ensures
        enough(a) <= enough(b),
    decreases b,
{
    if a < b {
        lemma_enough_grows(a, (b - 1) as nat);
    }
}

proof fn lemma_weight_negated(x: Formula)
    requires
        !(x is Atom),
    ensures
        weight(x.negated(), false) <= weight(x, true),
{
    match x {
        Formula::And(a, b) => {
            assert(weight(Formula::Not(a), false) == 1 + weight(*a, true));
            assert(weight(Formula::Not(b), false) == 1 + weight(*b, true));
        },
        Formula::Or(a, b) => {
            assert(weight(Formula::Not(a), false) == 1 + weight(*a, true));
            assert(weight(Formula::Not(b), false) == 1 + weight(*b, true));
        },
        Formula::ForAll(r, a) => {
            assert(weight(Formula::Not(a), false) == 1 + weight(*a, true));
        },
        Formula::Exist(r, a) => {
            assert(weight(Formula::Not(a), false) == 1 + weight(*a, true));
        },
        _ => {},
    }
}

proof fn lemma_total_weight_push(work: Seq<Statement>, f: Formula)
    ensures
        total_weight(work.push(Statement::Concept(f))) == total_weight(work) + weight(f, false),
{
    assert(work.push(Statement::Concept(f)).drop_last() =~= work);
}

/// With a budget that is enough for the weight of propositional
/// statements, the search reaches a verdict.
pub proof fn lemma_enough_steps(
    branch: Seq<Statement>,
    work: Seq<Statement>,
    symbols: nat,
    steps: nat,
)
    requires
        all_propositional(work),
        steps >= enough(total_weight(work)),
    ensures
        search(branch, work, symbols, steps).verdict is Some,
    decreases total_weight(work), 2nat,
{
    lemma_expand_enough(branch, work, symbols, (steps - 1) as nat);
}

proof fn lemma_assert_enough(
    branch: Seq<Statement>,
    p: Statement,
    work: Seq<Statement>,
    symbols: nat,
    steps: nat,
)
    requires
        all_propositional(work),
        steps >= enough(total_weight(work)),
    ensures
        assert_on_branch(branch, p, work, symbols, steps).verdict is Some,
    decreases total_weight(work), 3nat,
{
    if !last_clashes(branch.push(p)) {
        lemma_enough_steps(branch.push(p), work, symbols, steps);
    }
}

proof fn lemma_expand_enough(
    branch: Seq<Statement>,
    work: Seq<Statement>,
    symbols: nat,
    steps: nat,
)
    requires
        all_propositional(work),
        steps + 1 >= enough(total_weight(work)),
    ensures
        expand(branch, work, Seq::empty(), symbols, steps).verdict is Some,
    decreases total_weight(work), 1nat,
{
    if work.len() > 0 {
        let p = work.last();
        let rest = work.drop_last();
        assert(propositional(work[work.len() - 1]));
        assert(rest + Seq::<Statement>::empty() =~= rest);
        assert(rest.push(p) =~= work);
        let f = p.body().unwrap();
        lemma_expand_concept_enough(branch, p, f, rest, symbols, steps);
    }
}

proof fn lemma_expand_concept_enough(
    branch: Seq<Statement>,
    p: Statement,
    f: Formula,
    rest: Seq<Statement>,
    symbols: nat,
    steps: nat,
)
    requires
        all_propositional(rest.push(p)),
        p == Statement::Concept(f),
        f.propositional(),
        steps + 1 >= enough(total_weight(rest.push(p))),
    ensures
        expand_concept(branch, p, f, rest, Seq::empty(), symbols, steps).verdict is Some,
    decreases total_weight(rest.push(p)), 0nat,
{
    let none = Seq::<Statement>::empty();
    let w = total_weight(rest.push(p));
    let below = total_weight(rest);
    lemma_total_weight_push(rest, f);
    assert(rest + none =~= rest);
    assert(all_propositional(rest)) by {
        assert forall|k: int| 0 <= k < rest.len() implies propositional(#[trigger] rest[k]) by {
            assert(rest[k] == rest.push(p)[k]);
        }
    }
    assert(w >= 1 && steps >= 2 * enough((w - 1) as nat));
    lemma_enough_grows(below, (w - 1) as nat);
    match f {
        Formula::Atom(a) => {
            if a == TOP {
                lemma_expand_enough(branch, rest, symbols, steps);
            } else if a != BOTTOM {
                lemma_assert_enough(branch, p, rest, symbols, steps);
            }
        },
        Formula::Not(x) => match *x {
            Formula::Atom(a) => {
                if a == BOTTOM {
                    lemma_expand_enough(branch, rest, symbols, steps);
                } else if a != TOP {
                    lemma_assert_enough(branch, p, rest, symbols, steps);
                }
            },
            _ => {
                let q = with_body(p, x.negated());
                let next = rest.push(q);
                assert(next + none =~= next);
                lemma_negated_propositional(*x);
                lemma_propositional_push(rest, q);
                lemma_weight_negated(*x);
                lemma_total_weight_push(rest, x.negated());
                lemma_enough_grows(total_weight(next), (w - 1) as nat);
                lemma_enough_steps(branch, next, symbols, steps);
            },
        },
        Formula::And(a, b) => {
            let qa = with_body(p, *a);
            let qb = with_body(p, *b);
            let next = rest.push(qa).push(qb);
            assert(next + none =~= next);
            lemma_propositional_push(rest, qa);
            lemma_propositional_push(rest.push(qa), qb);
            lemma_total_weight_push(rest, *a);
            lemma_total_weight_push(rest.push(qa), *b);
            lemma_enough_grows(total_weight(next), (w - 1) as nat);
            lemma_enough_steps(branch, next, symbols, steps);
        },
        Formula::Or(a, b) => {
            let qa = with_body(p, *a);
            let qb = with_body(p, *b);
            let first = rest.push(qa);
            let second = rest.push(qb);
            assert(first + none =~= first);
            assert(second + none =~= second);
            lemma_propositional_push(rest, qa);
            lemma_propositional_push(rest, qb);
            lemma_total_weight_push(rest, *a);
            lemma_total_weight_push(rest, *b);
            let half = enough((w - 1) as nat);
            lemma_enough_grows(total_weight(first), (w - 1) as nat);
            lemma_enough_grows(total_weight(second), (w - 1) as nat);
            lemma_enough_steps(branch, first, symbols, half);
            crate::tableau::lemma_search_with_more_steps(
                branch,
                first,
                symbols,
                half,
                (steps - half) as nat,
            );
            let left = search(branch, first, symbols, steps);
            crate::tableau::lemma_search_spends(branch, first, symbols, steps);
            if left.verdict == Some(true) {
                lemma_enough_steps(branch, second, left.symbols, left.steps_left);
            }
        },
        _ => {},
    }
}

} // verus!
