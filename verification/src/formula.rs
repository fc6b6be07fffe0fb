//! Concept expressions as trees, and what they mean.

use vstd::prelude::*;

verus! {

/// The symbol that stands for the concept every individual belongs to.
pub const TOP: usize = 0;

/// The symbol that stands for the concept no individual belongs to.
pub const BOTTOM: usize = 1;

/// A concept expression.
///
/// Atoms and roles are named by symbol numbers.
pub enum Formula {
    Atom(nat),
    Not(Box<Formula>),
    And(Box<Formula>, Box<Formula>),
    Or(Box<Formula>, Box<Formula>),
    ForAll(nat, Box<Formula>),
    Exist(nat, Box<Formula>),
}

impl Formula {
    /// The negation of `self` with the negation moved one step inwards:
    /// a double negation is dropped, a connective or a role restriction is
    /// replaced by its dual over negated operands, an atom gets a `Not`.
    pub open spec fn negated(self) -> Formula {
        match self {
            Formula::Not(x) => *x,
            Formula::Atom(a) => Formula::Not(Box::new(Formula::Atom(a))),
            Formula::And(a, b) => Formula::Or(
                Box::new(Formula::Not(a)),
                Box::new(Formula::Not(b)),
            ),
            Formula::Or(a, b) => Formula::And(
                Box::new(Formula::Not(a)),
                Box::new(Formula::Not(b)),
            ),
            Formula::Exist(r, a) => Formula::ForAll(r, Box::new(Formula::Not(a))),
            Formula::ForAll(r, a) => Formula::Exist(r, Box::new(Formula::Not(a))),
        }
    }

    /// The atom and its sign, if `self` is an atom or a negated atom.
    /// The sign is `true` for the bare atom.
    pub open spec fn literal(self) -> Option<(bool, nat)> {
        match self {
            Formula::Atom(a) => Some((true, a)),
            Formula::Not(x) => match *x {
                Formula::Atom(a) => Some((false, a)),
                _ => None,
            },
            _ => None,
        }
    }

    /// Whether `self` is free of role restrictions.
    pub open spec fn propositional(self) -> bool
        decreases self,
    {
        match self {
            Formula::Atom(_) => true,
            Formula::Not(x) => x.propositional(),
            Formula::And(a, b) => a.propositional() && b.propositional(),
            Formula::Or(a, b) => a.propositional() && b.propositional(),
            Formula::ForAll(_, _) => false,
            Formula::Exist(_, _) => false,
        }
    }

    /// Whether the element `e` belongs to the concept `self` under `i`.
    pub open spec fn holds(self, i: Interpretation, e: nat) -> bool
        decreases self,
    {
        match self {
            Formula::Atom(a) => if a == TOP {
                true
            } else if a == BOTTOM {
                false
            } else {
                (i.concepts)(a, e)
            },
            Formula::Not(x) => !x.holds(i, e),
            Formula::And(a, b) => a.holds(i, e) && b.holds(i, e),
            Formula::Or(a, b) => a.holds(i, e) || b.holds(i, e),
            Formula::ForAll(r, a) => forall|t: nat| #[trigger] (i.roles)(r, e, t) ==> a.holds(i, t),
            Formula::Exist(r, a) => exists|t: nat| #[trigger] (i.roles)(r, e, t) && a.holds(i, t),
        }
    }
}

/// An assignment of meaning: which elements belong to which atomic concept,
/// and which pairs of elements each role relates.
pub struct Interpretation {
    pub concepts: spec_fn(nat, nat) -> bool,
    pub roles: spec_fn(nat, nat, nat) -> bool,
}

/// What it means for a universal restriction to hold.
pub proof fn lemma_forall_holds(r: nat, g: Formula, i: Interpretation, e: nat)
    ensures
        Formula::ForAll(r, Box::new(g)).holds(i, e) == (forall|t: nat| #[trigger]
            (i.roles)(r, e, t) ==> g.holds(i, t)),
{
    let f = Formula::ForAll(r, Box::new(g));
    assert(f->ForAll_0 == r);
    assert(*f->ForAll_1 == g);
}

/// What it means for an existential restriction to hold.
pub proof fn lemma_exist_holds(r: nat, g: Formula, i: Interpretation, e: nat)
    ensures
        Formula::Exist(r, Box::new(g)).holds(i, e) == (exists|t: nat| #[trigger]
            (i.roles)(r, e, t) && g.holds(i, t)),
{
    let f = Formula::Exist(r, Box::new(g));
    assert(f->Exist_0 == r);
    assert(*f->Exist_1 == g);
}

proof fn lemma_forall_elim(r: nat, g: Formula, i: Interpretation, e: nat, t: nat)
    requires
        Formula::ForAll(r, Box::new(g)).holds(i, e),
        (i.roles)(r, e, t),
    ensures
        g.holds(i, t),
{
    lemma_forall_holds(r, g, i, e);
}

proof fn lemma_forall_intro(r: nat, g: Formula, i: Interpretation, e: nat)
    requires
        forall|t: nat| #[trigger] (i.roles)(r, e, t) ==> g.holds(i, t),
    ensures
        Formula::ForAll(r, Box::new(g)).holds(i, e),
{
    lemma_forall_holds(r, g, i, e);
}

proof fn lemma_exist_elim(r: nat, g: Formula, i: Interpretation, e: nat) -> (t: nat)
    requires
        Formula::Exist(r, Box::new(g)).holds(i, e),
    ensures
        (i.roles)(r, e, t),
        g.holds(i, t),
{
    lemma_exist_holds(r, g, i, e);
    choose|t: nat| #[trigger] (i.roles)(r, e, t) && g.holds(i, t)
}

proof fn lemma_exist_intro(r: nat, g: Formula, i: Interpretation, e: nat, t: nat)
    requires
        (i.roles)(r, e, t),
        g.holds(i, t),
    ensures
        Formula::Exist(r, Box::new(g)).holds(i, e),
{
    lemma_exist_holds(r, g, i, e);
}

/// One negation step is logical negation: an element belongs to
/// `f.negated()` exactly when it does not belong to `f`.
pub proof fn lemma_negated_is_complement(f: Formula, i: Interpretation, e: nat)
    ensures
        f.negated().holds(i, e) == !f.holds(i, e),
{
    match f {
        Formula::Exist(r, a) => {
            let g = Formula::Not(a);
            assert(f == Formula::Exist(r, Box::new(*a)));
            assert(f.negated() == Formula::ForAll(r, Box::new(g)));
            if f.holds(i, e) {
                let t = lemma_exist_elim(r, *a, i, e);
                if f.negated().holds(i, e) {
                    lemma_forall_elim(r, g, i, e, t);
                }
            } else {
                assert forall|t: nat| #[trigger] (i.roles)(r, e, t) implies g.holds(i, t) by {
                    if !g.holds(i, t) {
                        lemma_exist_intro(r, *a, i, e, t);
                    }
                }
                lemma_forall_intro(r, g, i, e);
            }
        },
        Formula::ForAll(r, a) => {
            let g = Formula::Not(a);
            assert(f == Formula::ForAll(r, Box::new(*a)));
            assert(f.negated() == Formula::Exist(r, Box::new(g)));
            if f.holds(i, e) {
                if f.negated().holds(i, e) {
                    let t = lemma_exist_elim(r, g, i, e);
                    lemma_forall_elim(r, *a, i, e, t);
                }
            } else {
                if !f.negated().holds(i, e) {
                    assert forall|t: nat| #[trigger] (i.roles)(r, e, t) implies a.holds(i, t) by {
                        if !a.holds(i, t) {
                            lemma_exist_intro(r, g, i, e, t);
                        }
                    }
                    lemma_forall_intro(r, *a, i, e);
                }
            }
        },
        Formula::Not(x) => {},
        Formula::Atom(x) => {},
        Formula::And(x, y) => {
            assert(f.negated().holds(i, e) == (Formula::Not(x).holds(i, e) || Formula::Not(
                y,
            ).holds(i, e)));
        },
        Formula::Or(x, y) => {
            assert(f.negated().holds(i, e) == (Formula::Not(x).holds(i, e) && Formula::Not(
                y,
            ).holds(i, e)));
        },
    }
}

/// Negating twice gives a concept with the same members.
pub proof fn lemma_double_negation(f: Formula, i: Interpretation, e: nat)
    ensures
        f.negated().negated().holds(i, e) == f.holds(i, e),
{
    lemma_negated_is_complement(f, i, e);
    lemma_negated_is_complement(f.negated(), i, e);
}

/// On an atom or a negated atom, negating twice gives the same expression
/// back.
pub proof fn lemma_negated_involution_on_literals(f: Formula)
    requires
        f.literal() is Some,
    ensures
        f.negated().negated() == f,
        f.negated().literal() is Some,
        f.negated().literal().unwrap().0 == !f.literal().unwrap().0,
        f.negated().literal().unwrap().1 == f.literal().unwrap().1,
{
}

} // verus!

verus! {

/// What one line of a knowledge base says.
pub enum Statement {
    /// A concept stated of no individual in particular.
    Concept(Formula),
    /// `Member(a, c)`: the individual `a` belongs to the concept `c`.
    Member(nat, Formula),
    /// `Role(positive, r, x, y)`: the role `r` relates `x` to `y`, or, where
    /// `positive` is `false`, does not.
    Role(bool, nat, nat, nat),
}

impl Statement {
    /// The concept expression of a concept statement.
    pub open spec fn body(self) -> Option<Formula> {
        match self {
            Statement::Concept(f) => Some(f),
            Statement::Member(_, f) => Some(f),
            Statement::Role(_, _, _, _) => None,
        }
    }

    /// The individual a concept statement is about, if it names one.
    pub open spec fn subject(self) -> Option<nat> {
        match self {
            Statement::Member(a, _) => Some(a),
            _ => None,
        }
    }

    /// Whether `self` and `other` contradict each other outright.
    ///
    /// Two role assertions do when they differ in polarity alone. Two
    /// concept statements do when one is an atom and the other the negation
    /// of the same atom, unless they name different individuals. A role
    /// assertion and a concept statement never do.
    pub open spec fn clashes(self, other: Statement) -> bool {
        match (self, other) {
            (Statement::Role(p, r, x, y), Statement::Role(q, s, u, v)) => p != q && r == s && x
                == u && y == v,
            (Statement::Role(_, _, _, _), _) => false,
            (_, Statement::Role(_, _, _, _)) => false,
            _ => {
                let l = self.body().unwrap().literal();
                let m = other.body().unwrap().literal();
                &&& (self.subject() is Some && other.subject() is Some ==> self.subject()
                    == other.subject())
                &&& l is Some
                &&& m is Some
                &&& l.unwrap().0 != m.unwrap().0
                &&& l.unwrap().1 == m.unwrap().1
            },
        }
    }
}

/// Contradiction is symmetric.
pub proof fn lemma_clashes_symmetric(p: Statement, q: Statement)
    ensures
        p.clashes(q) == q.clashes(p),
{
}

} // verus!
