//! The tableau search, stated on statements.
//!
//! A search works on one branch at a time. It holds the statements that have
//! been put on the branch, a list of statements still to be expanded, of
//! which the last is taken first, and a list of universal restrictions that
//! found no role to follow and wait for the next expansion. A branch closes
//! when a statement put on it contradicts an earlier one; it is open when
//! nothing is left to expand.
//!
//! The search is bounded: every expansion that opens a new frame costs one
//! step of a budget, and a search that runs out of steps has no verdict.

use crate::formula::Formula;
use crate::formula::Statement;
use crate::formula::BOTTOM;
use crate::formula::TOP;
use vstd::prelude::*;

verus! {

/// What a search came to.
pub struct Outcome {
    /// `Some(true)` where every branch closed, `Some(false)` where an open
    /// branch was found, `None` where the steps ran out first.
    pub verdict: Option<bool>,
    /// The steps that were not used.
    pub steps_left: nat,
    /// The number of symbols after the search.
    pub symbols: nat,
}

/// Whether the last statement of `branch` contradicts an earlier one.
pub open spec fn last_clashes(branch: Seq<Statement>) -> bool {
    exists|j: int| 0 <= j < branch.len() - 1 && (#[trigger] branch[j]).clashes(branch.last())
}

/// Whether `s` asserts the role `role` with polarity `positive`, and from
/// `anchor` where one is given.
pub open spec fn role_matches(
    s: Statement,
    positive: bool,
    role: nat,
    anchor: Option<nat>,
) -> bool {
    match s {
        Statement::Role(p, r, x, _) => p == positive && r == role && (anchor is None || anchor
            == Some(x)),
        _ => false,
    }
}

/// The individuals that the matching role assertions of `branch` lead to,
/// the one of the latest assertion first.
pub open spec fn role_targets(
    branch: Seq<Statement>,
    positive: bool,
    role: nat,
    anchor: Option<nat>,
) -> Seq<nat>
    decreases branch.len(),
{
    if branch.len() == 0 {
        Seq::empty()
    } else {
        let earlier = role_targets(branch.drop_last(), positive, role, anchor);
        match branch.last() {
            Statement::Role(_, _, _, y) => if role_matches(branch.last(), positive, role, anchor) {
                seq![y] + earlier
            } else {
                earlier
            },
            _ => earlier,
        }
    }
}

/// `body` stated of each of `targets`, in their order.
pub open spec fn instances(body: Formula, targets: Seq<nat>) -> Seq<Statement> {
    Seq::new(targets.len(), |i: int| Statement::Member(targets[i], body))
}

/// The concept statement `p` with `f` for its concept expression.
pub open spec fn with_body(p: Statement, f: Formula) -> Statement {
    match p {
        Statement::Member(a, _) => Statement::Member(a, f),
        _ => Statement::Concept(f),
    }
}

/// A search that ended with `verdict`.
pub open spec fn ended(verdict: bool, symbols: nat, steps: nat) -> Outcome {
    Outcome { verdict: Some(verdict), steps_left: steps, symbols }
}

/// The search from `branch` on for the statements `work`, with `steps` steps
/// to spend: no verdict where none is left, else one step for this frame and
/// the rest for the expansion.
pub open spec fn search(
    branch: Seq<Statement>,
    work: Seq<Statement>,
    symbols: nat,
    steps: nat,
) -> Outcome
    decreases steps, 0nat, 0nat,
{
    if steps == 0 {
        Outcome { verdict: None, steps_left: 0, symbols }
    } else {
        expand(branch, work, Seq::empty(), symbols, (steps - 1) as nat)
    }
}

/// Puts the role assertion or literal `p` on the branch: the branch closes
/// where `p` contradicts an earlier statement, else the search goes on below
/// `p` for `work`.
pub open spec fn assert_on_branch(
    branch: Seq<Statement>,
    p: Statement,
    work: Seq<Statement>,
    symbols: nat,
    steps: nat,
) -> Outcome
    decreases steps, 0nat, 1nat,
{
    if last_clashes(branch.push(p)) {
        ended(true, symbols, steps)
    } else {
        search(branch.push(p), work, symbols, steps)
    }
}

/// One frame of the search: takes statements from the end of `work` until
/// one of them decides the frame.
///
/// * Nothing left: the branch is open.
/// * A role assertion, an atom or a negated atom is put on the branch. The
///   two reserved atoms are not: `Top` and the negation of `Bottom` are
///   dropped, `Bottom` and the negation of `Top` close the branch.
/// * A conjunction is replaced by its two operands, the second to be taken
///   first.
/// * A disjunction forks: the branch closes where it closes with the first
///   operand and then with the second.
/// * Any other negation is replaced by its operand negated one step.
/// * A universal restriction is replaced by its body stated of every
///   individual that a matching role assertion on the branch leads to; with
///   no such assertion it is deferred, and the frame goes on.
/// * An existential restriction makes two new individuals, and is replaced
///   by the role assertion between them and its body stated of the second.
///
/// Whatever was deferred goes back to the end of `work` when a new frame
/// opens.
pub open spec fn expand(
    branch: Seq<Statement>,
    work: Seq<Statement>,
    deferred: Seq<Statement>,
    symbols: nat,
    steps: nat,
) -> Outcome
    decreases steps, 1nat, 2 * work.len(),
{
    if work.len() == 0 {
        ended(false, symbols, steps)
    } else {
        let p = work.last();
        let rest = work.drop_last();
        match p {
            Statement::Role(_, _, _, _) => assert_on_branch(
                branch,
                p,
                rest + deferred,
                symbols,
                steps,
            ),
            Statement::Concept(f) => expand_concept(branch, p, f, rest, deferred, symbols, steps),
            Statement::Member(_, f) => expand_concept(branch, p, f, rest, deferred, symbols, steps),
        }
    }
}

/// The frame of [`expand`] for the concept statement `p` with the concept
/// expression `f`, taken from a list of which `rest` is left.
pub open spec fn expand_concept(
    branch: Seq<Statement>,
    p: Statement,
    f: Formula,
    rest: Seq<Statement>,
    deferred: Seq<Statement>,
    symbols: nat,
    steps: nat,
) -> Outcome
    decreases steps, 1nat, 2 * rest.len() + 1,
{
    match f {
        Formula::Atom(a) => if a == TOP {
            expand(branch, rest, deferred, symbols, steps)
        } else if a == BOTTOM {
            ended(true, symbols, steps)
        } else {
            assert_on_branch(branch, p, rest + deferred, symbols, steps)
        },
        Formula::Not(x) => match *x {
            Formula::Atom(a) => if a == TOP {
                ended(true, symbols, steps)
            } else if a == BOTTOM {
                expand(branch, rest, deferred, symbols, steps)
            } else {
                assert_on_branch(branch, p, rest + deferred, symbols, steps)
            },
            _ => search(branch, rest.push(with_body(p, x.negated())) + deferred, symbols, steps),
        },
        Formula::And(a, b) => search(
            branch,
            rest.push(with_body(p, *a)).push(with_body(p, *b)) + deferred,
            symbols,
            steps,
        ),
        Formula::Or(a, b) => {
            let left = search(branch, rest.push(with_body(p, *a)) + deferred, symbols, steps);
            if left.verdict == Some(true) {
                search(
                    branch,
                    rest.push(with_body(p, *b)) + deferred,
                    left.symbols,
                    if left.steps_left <= steps {
                        left.steps_left
                    } else {
                        steps
                    },
                )
            } else {
                left
            }
        },
        Formula::ForAll(r, b) => {
            let targets = role_targets(branch, true, r, p.subject());
            if targets.len() == 0 {
                expand(branch, rest, deferred.push(p), symbols, steps)
            } else {
                search(branch, rest + instances(*b, targets) + deferred, symbols, steps)
            }
        },
        Formula::Exist(r, b) => search(
            branch,
            rest.push(Statement::Role(true, r, symbols, symbols + 1)).push(
                Statement::Member(symbols + 1, *b),
            ) + deferred,
            symbols + 2,
            steps,
        ),
    }
}

/// `outcome` with `more` steps more left over.
pub open spec fn with_more_steps(outcome: Outcome, more: nat) -> Outcome {
    Outcome {
        verdict: outcome.verdict,
        steps_left: outcome.steps_left + more,
        symbols: outcome.symbols,
    }
}

/// A search has no more steps left than it was given, and makes symbols
/// only.
pub proof fn lemma_search_spends(
    branch: Seq<Statement>,
    work: Seq<Statement>,
    symbols: nat,
    steps: nat,
)
    ensures
        search(branch, work, symbols, steps).steps_left <= steps,
        search(branch, work, symbols, steps).symbols >= symbols,
    decreases steps, 0nat, 0nat,
{
    if steps > 0 {
        lemma_expand_spends(branch, work, Seq::empty(), symbols, (steps - 1) as nat);
    }
}

proof fn lemma_assert_spends(
    branch: Seq<Statement>,
    p: Statement,
    work: Seq<Statement>,
    symbols: nat,
    steps: nat,
)
    ensures
        assert_on_branch(branch, p, work, symbols, steps).steps_left <= steps,
        assert_on_branch(branch, p, work, symbols, steps).symbols >= symbols,
    decreases steps, 0nat, 1nat,
{
    if !last_clashes(branch.push(p)) {
        lemma_search_spends(branch.push(p), work, symbols, steps);
    }
}

proof fn lemma_expand_spends(
    branch: Seq<Statement>,
    work: Seq<Statement>,
    deferred: Seq<Statement>,
    symbols: nat,
    steps: nat,
)
    ensures
        expand(branch, work, deferred, symbols, steps).steps_left <= steps,
        expand(branch, work, deferred, symbols, steps).symbols >= symbols,
    decreases steps, 1nat, 2 * work.len(),
{
    if work.len() > 0 {
        let p = work.last();
        let rest = work.drop_last();
        match p {
            Statement::Role(_, _, _, _) => {
                lemma_assert_spends(branch, p, rest + deferred, symbols, steps);
            },
            Statement::Concept(f) => {
                lemma_expand_concept_spends(branch, p, f, rest, deferred, symbols, steps);
            },
            Statement::Member(_, f) => {
                lemma_expand_concept_spends(branch, p, f, rest, deferred, symbols, steps);
            },
        }
    }
}

proof fn lemma_expand_concept_spends(
    branch: Seq<Statement>,
    p: Statement,
    f: Formula,
    rest: Seq<Statement>,
    deferred: Seq<Statement>,
    symbols: nat,
    steps: nat,
)
    ensures
        expand_concept(branch, p, f, rest, deferred, symbols, steps).steps_left <= steps,
        expand_concept(branch, p, f, rest, deferred, symbols, steps).symbols >= symbols,
    decreases steps, 1nat, 2 * rest.len() + 1,
{
    match f {
        Formula::Atom(a) => {
            if a == TOP {
                lemma_expand_spends(branch, rest, deferred, symbols, steps);
            } else if a != BOTTOM {
                lemma_assert_spends(branch, p, rest + deferred, symbols, steps);
            }
        },
        Formula::Not(x) => match *x {
            Formula::Atom(a) => {
                if a == BOTTOM {
                    lemma_expand_spends(branch, rest, deferred, symbols, steps);
                } else if a != TOP {
                    lemma_assert_spends(branch, p, rest + deferred, symbols, steps);
                }
            },
            _ => {
                lemma_search_spends(
                    branch,
                    rest.push(with_body(p, x.negated())) + deferred,
                    symbols,
                    steps,
                );
            },
        },
        Formula::And(a, b) => {
            lemma_search_spends(
                branch,
                rest.push(with_body(p, *a)).push(with_body(p, *b)) + deferred,
                symbols,
                steps,
            );
        },
        Formula::Or(a, b) => {
            let left = search(branch, rest.push(with_body(p, *a)) + deferred, symbols, steps);
            lemma_search_spends(branch, rest.push(with_body(p, *a)) + deferred, symbols, steps);
            if left.verdict == Some(true) {
                lemma_search_spends(
                    branch,
                    rest.push(with_body(p, *b)) + deferred,
                    left.symbols,
                    left.steps_left,
                );
            }
        },
        Formula::ForAll(r, b) => {
            let targets = role_targets(branch, true, r, p.subject());
            if targets.len() == 0 {
                lemma_expand_spends(branch, rest, deferred.push(p), symbols, steps);
            } else {
                lemma_search_spends(
                    branch,
                    rest + instances(*b, targets) + deferred,
                    symbols,
                    steps,
                );
            }
        },
        Formula::Exist(r, b) => {
            lemma_search_spends(
                branch,
                rest.push(Statement::Role(true, r, symbols, symbols + 1)).push(
                    Statement::Member(symbols + 1, *b),
                ) + deferred,
                symbols + 2,
                steps,
            );
        },
    }
}

/// The verdict of a search does not depend on the budget: a search that
/// reaches a verdict reaches the same one, and makes the same symbols,
/// with any larger budget, and has that many more steps left.
pub proof fn lemma_search_with_more_steps(
    branch: Seq<Statement>,
    work: Seq<Statement>,
    symbols: nat,
    steps: nat,
    more: nat,
)
    requires
        search(branch, work, symbols, steps).verdict is Some,
    ensures
        search(branch, work, symbols, steps + more) == with_more_steps(
            search(branch, work, symbols, steps),
            more,
        ),
    decreases steps, 0nat, 0nat,
{
    lemma_expand_with_more_steps(branch, work, Seq::empty(), symbols, (steps - 1) as nat, more);
}

proof fn lemma_assert_with_more_steps(
    branch: Seq<Statement>,
    p: Statement,
    work: Seq<Statement>,
    symbols: nat,
    steps: nat,
    more: nat,
)
    requires
        assert_on_branch(branch, p, work, symbols, steps).verdict is Some,
    ensures
        assert_on_branch(branch, p, work, symbols, steps + more) == with_more_steps(
            assert_on_branch(branch, p, work, symbols, steps),
            more,
        ),
    decreases steps, 0nat, 1nat,
{
    if !last_clashes(branch.push(p)) {
        lemma_search_with_more_steps(branch.push(p), work, symbols, steps, more);
    }
}

proof fn lemma_expand_with_more_steps(
    branch: Seq<Statement>,
    work: Seq<Statement>,
    deferred: Seq<Statement>,
    symbols: nat,
    steps: nat,
    more: nat,
)
    requires
        expand(branch, work, deferred, symbols, steps).verdict is Some,
    ensures
        expand(branch, work, deferred, symbols, steps + more) == with_more_steps(
            expand(branch, work, deferred, symbols, steps),
            more,
        ),
    decreases steps, 1nat, 2 * work.len(),
{
    if work.len() > 0 {
        let p = work.last();
        let rest = work.drop_last();
        match p {
            Statement::Role(_, _, _, _) => {
                lemma_assert_with_more_steps(branch, p, rest + deferred, symbols, steps, more);
            },
            Statement::Concept(f) => {
                lemma_expand_concept_with_more_steps(
                    branch,
                    p,
                    f,
                    rest,
                    deferred,
                    symbols,
                    steps,
                    more,
                );
            },
            Statement::Member(_, f) => {
                lemma_expand_concept_with_more_steps(
                    branch,
                    p,
                    f,
                    rest,
                    deferred,
                    symbols,
                    steps,
                    more,
                );
            },
        }
    }
}

proof fn lemma_expand_concept_with_more_steps(
    branch: Seq<Statement>,
    p: Statement,
    f: Formula,
    rest: Seq<Statement>,
    deferred: Seq<Statement>,
    symbols: nat,
    steps: nat,
    more: nat,
)
    requires
        expand_concept(branch, p, f, rest, deferred, symbols, steps).verdict is Some,
    ensures
        expand_concept(branch, p, f, rest, deferred, symbols, steps + more) == with_more_steps(
            expand_concept(branch, p, f, rest, deferred, symbols, steps),
            more,
        ),
    decreases steps, 1nat, 2 * rest.len() + 1,
{
    match f {
        Formula::Atom(a) => {
            if a == TOP {
                lemma_expand_with_more_steps(branch, rest, deferred, symbols, steps, more);
            } else if a != BOTTOM {
                lemma_assert_with_more_steps(branch, p, rest + deferred, symbols, steps, more);
            }
        },
        Formula::Not(x) => match *x {
            Formula::Atom(a) => {
                if a == BOTTOM {
                    lemma_expand_with_more_steps(branch, rest, deferred, symbols, steps, more);
                } else if a != TOP {
                    lemma_assert_with_more_steps(branch, p, rest + deferred, symbols, steps, more);
                }
            },
            _ => {
                lemma_search_with_more_steps(
                    branch,
                    rest.push(with_body(p, x.negated())) + deferred,
                    symbols,
                    steps,
                    more,
                );
            },
        },
        Formula::And(a, b) => {
            lemma_search_with_more_steps(
                branch,
                rest.push(with_body(p, *a)).push(with_body(p, *b)) + deferred,
                symbols,
                steps,
                more,
            );
        },
        Formula::Or(a, b) => {
            let first = rest.push(with_body(p, *a)) + deferred;
            let second = rest.push(with_body(p, *b)) + deferred;
            let left = search(branch, first, symbols, steps);
            lemma_search_spends(branch, first, symbols, steps);
            lemma_search_with_more_steps(branch, first, symbols, steps, more);
            if left.verdict == Some(true) {
                lemma_search_with_more_steps(branch, second, left.symbols, left.steps_left, more);
            }
        },
        Formula::ForAll(r, b) => {
            let targets = role_targets(branch, true, r, p.subject());
            if targets.len() == 0 {
                lemma_expand_with_more_steps(branch, rest, deferred.push(p), symbols, steps, more);
            } else {
                lemma_search_with_more_steps(
                    branch,
                    rest + instances(*b, targets) + deferred,
                    symbols,
                    steps,
                    more,
                );
            }
        },
        Formula::Exist(r, b) => {
            lemma_search_with_more_steps(
                branch,
                rest.push(Statement::Role(true, r, symbols, symbols + 1)).push(
                    Statement::Member(symbols + 1, *b),
                ) + deferred,
                symbols + 2,
                steps,
                more,
            );
        },
    }
}

} // verus!
