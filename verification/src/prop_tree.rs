//! Sentences as flat stores of concept nodes.

use crate::formula::Formula;
use crate::formula::Statement;
use vstd::prelude::*;

verus! {

/// One node of a concept graph. Operands and bodies are positions of earlier
/// nodes of the same graph; atoms and roles are symbol numbers.
#[derive(Clone, Copy, Debug, PartialEq, Eq)]
pub enum Concept {
    And(usize, usize),
    Or(usize, usize),
    Not(usize),
    /// `ForAll(role, body)`.
    ForAll(usize, usize),
    /// `Exist(role, body)`.
    Exist(usize, usize),
    Atom(usize),
}

/// What a sentence is about.
#[derive(Clone, Copy, Debug, PartialEq, Eq)]
pub enum Proposition {
    /// A concept on its own.
    TConcept,
    /// A concept applied to the individual given.
    AConcept(usize),
    /// `ARole(positive, role, x, y)`: a role assertion between two
    /// individuals, negated where `positive` is `false`.
    ARole(bool, usize, usize, usize),
}

/// A concept node together with its own position in the graph.
#[derive(Clone, Copy, Debug)]
pub struct PropTreeNode {
    pub id: usize,
    pub data: Concept,
}

/// A sentence: a root tag and a concept graph whose last node is the
/// outermost one.
#[derive(Debug)]
pub struct PropTree {
    pub root: Proposition,
    pub nodes: Vec<PropTreeNode>,
}

impl Concept {
    /// Whether every node `self` refers to lies before position `k`.
    pub open spec fn below(self, k: int) -> bool {
        match self {
            Concept::And(a, b) => a < k && b < k,
            Concept::Or(a, b) => a < k && b < k,
            Concept::Not(a) => a < k,
            Concept::ForAll(_, a) => a < k,
            Concept::Exist(_, a) => a < k,
            Concept::Atom(_) => true,
        }
    }
}

/// Whether each node of `nodes` records its own position and refers to
/// earlier nodes only.
pub open spec fn graph_wf(nodes: Seq<PropTreeNode>) -> bool {
    forall|k: int|
        0 <= k < nodes.len() ==> (#[trigger] nodes[k]).id == k && nodes[k].data.below(k)
}

/// The concept expression rooted at position `i` of `nodes`.
pub open spec fn formula_at(nodes: Seq<PropTreeNode>, i: int) -> Formula
    decreases i,
{
    if 0 <= i < nodes.len() && nodes[i].data.below(i) {
        match nodes[i].data {
            Concept::Atom(a) => Formula::Atom(a as nat),
            Concept::Not(a) => Formula::Not(Box::new(formula_at(nodes, a as int))),
            Concept::And(a, b) => Formula::And(
                Box::new(formula_at(nodes, a as int)),
                Box::new(formula_at(nodes, b as int)),
            ),
            Concept::Or(a, b) => Formula::Or(
                Box::new(formula_at(nodes, a as int)),
                Box::new(formula_at(nodes, b as int)),
            ),
            Concept::ForAll(r, a) => Formula::ForAll(
                r as nat,
                Box::new(formula_at(nodes, a as int)),
            ),
            Concept::Exist(r, a) => Formula::Exist(r as nat, Box::new(formula_at(nodes, a as int))),
        }
    } else {
        Formula::Atom(0)
    }
}

/// The node that holds `data` at position `at`.
pub open spec fn node_at(at: int, data: Concept) -> PropTreeNode {
    PropTreeNode { id: at as usize, data }
}

/// The nodes reachable from position `i` of `nodes`, each operand before the
/// node that uses it and a first operand before a second, renumbered to
/// stand from position `base` on.
pub open spec fn subtree_copy(nodes: Seq<PropTreeNode>, i: int, base: int) -> Seq<PropTreeNode>
    decreases i,
{
    if 0 <= i < nodes.len() && nodes[i].data.below(i) {
        match nodes[i].data {
            Concept::Atom(a) => seq![node_at(base, Concept::Atom(a))],
            Concept::Not(a) => {
                let s = subtree_copy(nodes, a as int, base);
                let n = base + s.len();
                s.push(node_at(n, Concept::Not((n - 1) as usize)))
            },
            Concept::And(a, b) => {
                let s = subtree_copy(nodes, a as int, base);
                let t = subtree_copy(nodes, b as int, base + s.len());
                let n = base + s.len() + t.len();
                (s + t).push(
                    node_at(n, Concept::And((base + s.len() - 1) as usize, (n - 1) as usize)),
                )
            },
            Concept::Or(a, b) => {
                let s = subtree_copy(nodes, a as int, base);
                let t = subtree_copy(nodes, b as int, base + s.len());
                let n = base + s.len() + t.len();
                (s + t).push(
                    node_at(n, Concept::Or((base + s.len() - 1) as usize, (n - 1) as usize)),
                )
            },
            Concept::ForAll(r, a) => {
                let s = subtree_copy(nodes, a as int, base);
                let n = base + s.len();
                s.push(node_at(n, Concept::ForAll(r, (n - 1) as usize)))
            },
            Concept::Exist(r, a) => {
                let s = subtree_copy(nodes, a as int, base);
                let n = base + s.len();
                s.push(node_at(n, Concept::Exist(r, (n - 1) as usize)))
            },
        }
    } else {
        Seq::empty()
    }
}

/// The expression at a position depends on the nodes up to that position
/// only.
pub proof fn lemma_formula_at_prefix(s: Seq<PropTreeNode>, t: Seq<PropTreeNode>, i: int)
    requires
        0 <= i < s.len() <= t.len(),
        forall|k: int| 0 <= k <= i ==> s[k] == t[k],
    ensures
        formula_at(s, i) == formula_at(t, i),
    decreases i,
{
    if s[i].data.below(i) {
        match s[i].data {
            Concept::Atom(_) => {},
            Concept::Not(a) => {
                lemma_formula_at_prefix(s, t, a as int);
            },
            Concept::And(a, b) => {
                lemma_formula_at_prefix(s, t, a as int);
                lemma_formula_at_prefix(s, t, b as int);
            },
            Concept::Or(a, b) => {
                lemma_formula_at_prefix(s, t, a as int);
                lemma_formula_at_prefix(s, t, b as int);
            },
            Concept::ForAll(_, a) => {
                lemma_formula_at_prefix(s, t, a as int);
            },
            Concept::Exist(_, a) => {
                lemma_formula_at_prefix(s, t, a as int);
            },
        }
    }
}

impl PropTree {
    /// Whether the concept graph is well formed: each node records its own
    /// position and refers to earlier nodes only.
    pub open spec fn wf(&self) -> bool {
        graph_wf(self.nodes@)
    }

    /// Whether `self` is a complete sentence: a role assertion with no
    /// concept graph, or a concept statement with a well-formed graph that
    /// has an outermost node.
    pub open spec fn is_sentence(&self) -> bool {
        &&& self.wf()
        &&& self.root is ARole <==> self.nodes@.len() == 0
    }

    /// The outermost concept expression.
    pub open spec fn formula(&self) -> Formula {
        formula_at(self.nodes@, self.nodes@.len() - 1)
    }

    /// An empty graph under the root tag `root`.
    pub fn new(root: &Proposition) -> (tree: PropTree)
        ensures
            tree.root == *root,
            tree.nodes@ == Seq::<PropTreeNode>::empty(),
            tree.wf(),
    {
        PropTree { root: *root, nodes: Vec::new() }
    }

    /// Appends `concept` and returns its position.
    pub fn push_node(&mut self, concept: Concept) -> (id: usize)
        ensures
            id == old(self).nodes@.len(),
            final(self).nodes@ == old(self).nodes@.push(node_at(id as int, concept)),
            final(self).root == old(self).root,
            old(self).wf() && concept.below(id as int) ==> final(self).wf(),
    {
        let id = self.nodes.len();
        self.nodes.push(PropTreeNode { id, data: concept });
        id
    }
}

impl PropTree {
    /// Appends to `new_tree` a copy of the nodes reachable from position
    /// `id` of `self`, and returns the position of the copy of node `id`,
    /// which is the last node appended.
    pub fn clone_subtree_recurse(&self, new_tree: &mut PropTree, id: usize) -> (pos: usize)
        requires
            self.wf(),
            id < self.nodes@.len(),
            old(new_tree).wf(),
        ensures
            final(new_tree).root == old(new_tree).root,
            final(new_tree).nodes@ == old(new_tree).nodes@ + subtree_copy(
                self.nodes@,
                id as int,
                old(new_tree).nodes@.len() as int,
            ),
            final(new_tree).nodes@.len() > old(new_tree).nodes@.len(),
            pos == final(new_tree).nodes@.len() - 1,
            final(new_tree).wf(),
            formula_at(final(new_tree).nodes@, pos as int) == formula_at(self.nodes@, id as int),
        decreases id,
    {
        let ghost before = new_tree.nodes@;
        let ghost base = before.len() as int;
        assert(self.nodes@[id as int].data.below(id as int));
        match self.nodes[id].data {
            Concept::And(a, b) => {
                let a1 = self.clone_subtree_recurse(new_tree, a);
                let ghost mid = new_tree.nodes@;
                let b1 = self.clone_subtree_recurse(new_tree, b);
                let ghost both = new_tree.nodes@;
                let pos = new_tree.push_node(Concept::And(a1, b1));
                proof {
                    let s = subtree_copy(self.nodes@, a as int, base);
                    let t = subtree_copy(self.nodes@, b as int, base + s.len());
                    assert(new_tree.nodes@ =~= before + subtree_copy(self.nodes@, id as int, base));
                    lemma_formula_at_prefix(mid, new_tree.nodes@, a1 as int);
                    lemma_formula_at_prefix(both, new_tree.nodes@, b1 as int);
                }
                pos
            },
            Concept::Or(a, b) => {
                let a1 = self.clone_subtree_recurse(new_tree, a);
                let ghost mid = new_tree.nodes@;
                let b1 = self.clone_subtree_recurse(new_tree, b);
                let ghost both = new_tree.nodes@;
                let pos = new_tree.push_node(Concept::Or(a1, b1));
                proof {
                    let s = subtree_copy(self.nodes@, a as int, base);
                    let t = subtree_copy(self.nodes@, b as int, base + s.len());
                    assert(new_tree.nodes@ =~= before + subtree_copy(self.nodes@, id as int, base));
                    lemma_formula_at_prefix(mid, new_tree.nodes@, a1 as int);
                    lemma_formula_at_prefix(both, new_tree.nodes@, b1 as int);
                }
                pos
            },
            Concept::Not(a) => {
                let a1 = self.clone_subtree_recurse(new_tree, a);
                let ghost mid = new_tree.nodes@;
                let pos = new_tree.push_node(Concept::Not(a1));
                proof {
                    assert(new_tree.nodes@ =~= before + subtree_copy(self.nodes@, id as int, base));
                    lemma_formula_at_prefix(mid, new_tree.nodes@, a1 as int);
                }
                pos
            },
            Concept::Atom(aid) => {
                let pos = new_tree.push_node(Concept::Atom(aid));
                proof {
                    assert(new_tree.nodes@ =~= before + subtree_copy(self.nodes@, id as int, base));
                }
                pos
            },
            Concept::ForAll(aid, a) => {
                let a1 = self.clone_subtree_recurse(new_tree, a);
                let ghost mid = new_tree.nodes@;
                let pos = new_tree.push_node(Concept::ForAll(aid, a1));
                proof {
                    assert(new_tree.nodes@ =~= before + subtree_copy(self.nodes@, id as int, base));
                    lemma_formula_at_prefix(mid, new_tree.nodes@, a1 as int);
                }
                pos
            },
            Concept::Exist(aid, a) => {
                let a1 = self.clone_subtree_recurse(new_tree, a);
                let ghost mid = new_tree.nodes@;
                let pos = new_tree.push_node(Concept::Exist(aid, a1));
                proof {
                    assert(new_tree.nodes@ =~= before + subtree_copy(self.nodes@, id as int, base));
                    lemma_formula_at_prefix(mid, new_tree.nodes@, a1 as int);
                }
                pos
            },
        }
    }

    /// A sentence with the root tag of `self` whose graph holds exactly the
    /// nodes reachable from position `id`, renumbered from 0 on.
    pub fn clone_subtree(&self, id: usize) -> (tree: PropTree)
        requires
            self.wf(),
            id < self.nodes@.len(),
        ensures
            tree.root == self.root,
            tree.nodes@ == subtree_copy(self.nodes@, id as int, 0),
            tree.nodes@.len() > 0,
            tree.wf(),
            tree.formula() == formula_at(self.nodes@, id as int),
    {
        let mut new_tree = Self::new(&self.root);
        self.clone_subtree_recurse(&mut new_tree, id);
        assert(new_tree.nodes@ =~= subtree_copy(self.nodes@, id as int, 0));
        new_tree
    }
}

/// The graph `nodes` with its outermost node negated one step: the operand
/// of a `Not` becomes the outermost node; an atom gets a `Not` appended; any
/// other node is replaced by the negations of its operands followed by the
/// dual node over them.
pub open spec fn negated_nodes(nodes: Seq<PropTreeNode>) -> Seq<PropTreeNode> {
    let n = nodes.len() as int;
    let rest = nodes.drop_last();
    match nodes.last().data {
        Concept::Not(a) => nodes.subrange(0, a + 1),
        Concept::Atom(_) => nodes.push(node_at(n, Concept::Not((n - 1) as usize))),
        Concept::And(a, b) => rest.push(node_at(n - 1, Concept::Not(a))).push(
            node_at(n, Concept::Not(b)),
        ).push(node_at(n + 1, Concept::Or((n - 1) as usize, n as usize))),
        Concept::Or(a, b) => rest.push(node_at(n - 1, Concept::Not(a))).push(
            node_at(n, Concept::Not(b)),
        ).push(node_at(n + 1, Concept::And((n - 1) as usize, n as usize))),
        Concept::Exist(r, a) => rest.push(node_at(n - 1, Concept::Not(a))).push(
            node_at(n, Concept::ForAll(r, (n - 1) as usize)),
        ),
        Concept::ForAll(r, a) => rest.push(node_at(n - 1, Concept::Not(a))).push(
            node_at(n, Concept::Exist(r, (n - 1) as usize)),
        ),
    }
}

impl PropTree {
    /// The atom and its sign, if the outermost node is an atom or the
    /// negation of one. The sign is `true` for the bare atom.
    pub open spec fn literal(&self) -> Option<(bool, nat)> {
        if self.nodes@.len() == 0 {
            None
        } else {
            self.formula().literal()
        }
    }

    /// Whether `self` and `other` contradict each other outright: two role
    /// assertions that differ in polarity alone, or an atom and the negation
    /// of the same atom that are not stated of two different individuals.
    pub open spec fn contradicts(&self, other: &PropTree) -> bool {
        match (self.root, other.root) {
            (Proposition::ARole(p, r, x, y), Proposition::ARole(q, s, u, v)) => p != q && r == s
                && x == u && y == v,
            (Proposition::ARole(_, _, _, _), _) => false,
            (_, Proposition::ARole(_, _, _, _)) => false,
            (Proposition::AConcept(a), Proposition::AConcept(b)) => a == b
                && opposite_literals(self.literal(), other.literal()),
            _ => opposite_literals(self.literal(), other.literal()),
        }
    }

    /// The atom and its sign, if the outermost node is an atom or the
    /// negation of one.
    pub fn concept_atom_check(&self) -> (found: Option<(bool, usize)>)
        requires
            self.wf(),
        ensures
            match found {
                Some((sign, aid)) => self.literal() == Some((sign, aid as nat)),
                None => self.literal() is None,
            },
    {
        let n = self.nodes.len();
        if n == 0 {
            return None;
        }
        assert(self.nodes@[n - 1].data.below(n - 1));
        match self.nodes[n - 1].data {
            Concept::Atom(aid) => Some((true, aid)),
            Concept::Not(a) => {
                assert(self.nodes@[a as int].data.below(a as int));
                assert(self.formula() == Formula::Not(Box::new(formula_at(self.nodes@, a as int))));
                match self.nodes[a].data {
                    Concept::Atom(aid) => Some((false, aid)),
                    _ => None,
                }
            },
            _ => None,
        }
    }

    /// Whether `self` and `prop_b` contradict each other outright.
    pub fn atom_check(&self, prop_b: &PropTree) -> (clash: bool)
        requires
            self.wf(),
            prop_b.wf(),
        ensures
            clash == self.contradicts(prop_b),
    {
        match self.root {
            Proposition::ARole(f, x, y, z) => {
                return match prop_b.root {
                    Proposition::ARole(f2, x2, y2, z2) => f != f2 && x == x2 && y == y2 && z
                        == z2,
                    _ => false,
                };
            },
            Proposition::AConcept(a) => {
                match prop_b.root {
                    Proposition::ARole(_, _, _, _) => {
                        return false;
                    },
                    Proposition::AConcept(b) => {
                        if a != b {
                            return false;
                        }
                    },
                    Proposition::TConcept => {},
                }
            },
            Proposition::TConcept => {
                match prop_b.root {
                    Proposition::ARole(_, _, _, _) => {
                        return false;
                    },
                    _ => {},
                }
            },
        }
        match self.concept_atom_check() {
            None => false,
            Some((neg, aid)) => match prop_b.concept_atom_check() {
                None => false,
                Some((neg2, aid2)) => neg != neg2 && aid == aid2,
            },
        }
    }

    /// Removes the last node, which is an atom, and returns its symbol.
    pub fn pop_ident(&mut self) -> (aid: usize)
        requires
            old(self).nodes@.len() > 0,
            old(self).nodes@.last().data is Atom,
        ensures
            old(self).nodes@.last().data == Concept::Atom(aid),
            final(self).nodes@ == old(self).nodes@.drop_last(),
            final(self).root == old(self).root,
            old(self).wf() ==> final(self).wf(),
    {
        match self.nodes.pop() {
            Some(node) => match node.data {
                Concept::Atom(aid) => aid,
                _ => 0,
            },
            None => 0,
        }
    }

    /// Cuts the graph back to the nodes up to position `keep`, which becomes
    /// the outermost node.
    pub fn cut_to(self, keep: usize) -> (tree: PropTree)
        requires
            self.wf(),
            keep < self.nodes@.len(),
        ensures
            tree.root == self.root,
            tree.nodes@ == self.nodes@.subrange(0, keep + 1),
            tree.wf(),
            tree.formula() == formula_at(self.nodes@, keep as int),
    {
        let mut tree = self;
        assert(keep < tree.nodes.len());
        tree.nodes.truncate(keep + 1);
        proof {
            lemma_formula_at_prefix(tree.nodes@, self.nodes@, keep as int);
        }
        tree
    }

    /// Negates the sentence one step, in place: the outermost node gives way
    /// to its dual over negated operands, a double negation is dropped, an
    /// atom gets a `Not`. The root tag stays.
    pub fn negate(self) -> (tree: PropTree)
        requires
            self.wf(),
            self.nodes@.len() > 0,
        ensures
            tree.root == self.root,
            tree.nodes@ == negated_nodes(self.nodes@),
            tree.nodes@.len() > 0,
            tree.wf(),
            tree.formula() == self.formula().negated(),
    {
        let mut tree = self;
        let n = tree.nodes.len();
        let ghost before = self.nodes@;
        assert(before[n - 1].data.below(n - 1));
        match tree.nodes[n - 1].data {
            Concept::And(a, b) => {
                tree.nodes.pop();
                let a1 = tree.push_node(Concept::Not(a));
                let b1 = tree.push_node(Concept::Not(b));
                tree.push_node(Concept::Or(a1, b1));
                proof {
                    let after = tree.nodes@;
                    assert(after =~= negated_nodes(before));
                    lemma_formula_at_prefix(before, after, a as int);
                    lemma_formula_at_prefix(before, after, b as int);
                    assert(formula_at(after, n - 1) == Formula::Not(
                        Box::new(formula_at(after, a as int)),
                    ));
                    assert(formula_at(after, n as int) == Formula::Not(
                        Box::new(formula_at(after, b as int)),
                    ));
                }
            },
            Concept::Or(a, b) => {
                tree.nodes.pop();
                let a1 = tree.push_node(Concept::Not(a));
                let b1 = tree.push_node(Concept::Not(b));
                tree.push_node(Concept::And(a1, b1));
                proof {
                    let after = tree.nodes@;
                    assert(after =~= negated_nodes(before));
                    lemma_formula_at_prefix(before, after, a as int);
                    lemma_formula_at_prefix(before, after, b as int);
                    assert(formula_at(after, n - 1) == Formula::Not(
                        Box::new(formula_at(after, a as int)),
                    ));
                    assert(formula_at(after, n as int) == Formula::Not(
                        Box::new(formula_at(after, b as int)),
                    ));
                }
            },
            Concept::Not(a) => {
                tree.nodes.truncate(a + 1);
                proof {
                    lemma_formula_at_prefix(tree.nodes@, before, a as int);
                }
            },
            Concept::Atom(_) => {
                tree.push_node(Concept::Not(n - 1));
                proof {
                    let after = tree.nodes@;
                    lemma_formula_at_prefix(before, after, n - 1);
                    assert(formula_at(after, n as int) == Formula::Not(
                        Box::new(formula_at(after, n - 1)),
                    ));
                }
            },
            Concept::Exist(r, a) => {
                tree.nodes.pop();
                let a1 = tree.push_node(Concept::Not(a));
                tree.push_node(Concept::ForAll(r, a1));
                proof {
                    let after = tree.nodes@;
                    assert(after =~= negated_nodes(before));
                    lemma_formula_at_prefix(before, after, a as int);
                    assert(formula_at(after, n - 1) == Formula::Not(
                        Box::new(formula_at(after, a as int)),
                    ));
                }
            },
            Concept::ForAll(r, a) => {
                tree.nodes.pop();
                let a1 = tree.push_node(Concept::Not(a));
                tree.push_node(Concept::Exist(r, a1));
                proof {
                    let after = tree.nodes@;
                    assert(after =~= negated_nodes(before));
                    lemma_formula_at_prefix(before, after, a as int);
                    assert(formula_at(after, n - 1) == Formula::Not(
                        Box::new(formula_at(after, a as int)),
                    ));
                }
            },
        }
        tree
    }
}

/// Whether both literals are there, on the same atom and with different
/// signs.
pub open spec fn opposite_literals(l: Option<(bool, nat)>, m: Option<(bool, nat)>) -> bool {
    &&& l is Some
    &&& m is Some
    &&& l.unwrap().0 != m.unwrap().0
    &&& l.unwrap().1 == m.unwrap().1
}

/// Contradiction is symmetric.
pub proof fn lemma_contradicts_symmetric(p: &PropTree, q: &PropTree)
    ensures
        p.contradicts(q) == q.contradicts(p),
{
}

/// On complete sentences, contradiction is the clash of what they say.
pub proof fn lemma_contradicts_is_clash(p: &PropTree, q: &PropTree)
    requires
        p.is_sentence(),
        q.is_sentence(),
    ensures
        p.contradicts(q) == p@.clashes(q@),
{
}

/// A literal and its negation contradict each other, and negating the
/// negation gives the literal back: where `p` is an atom or a negated atom
/// and `q` is `p` negated one step under the same root tag, each of the two
/// contradicts the other, and `q` negated one step says what `p` says.
pub proof fn lemma_negate_literal(p: &PropTree, q: &PropTree)
    requires
        p.wf(),
        p.literal() is Some,
        !(p.root is ARole),
        q.root == p.root,
        q.nodes@.len() > 0,
        q.formula() == p.formula().negated(),
    ensures
        p.contradicts(q),
        q.contradicts(p),
        q.formula().negated() == p.formula(),
{
}

impl View for PropTree {
    type V = Statement;

    /// What the sentence says. The concept graph of a role assertion does
    /// not count.
    open spec fn view(&self) -> Statement {
        match self.root {
            Proposition::TConcept => Statement::Concept(self.formula()),
            Proposition::AConcept(a) => Statement::Member(a as nat, self.formula()),
            Proposition::ARole(p, r, x, y) => Statement::Role(p, r as nat, x as nat, y as nat),
        }
    }
}

impl Clone for PropTree {
    fn clone(&self) -> (tree: PropTree)
        ensures
            tree.root == self.root,
            tree.nodes@ == self.nodes@,
    {
        let mut nodes: Vec<PropTreeNode> = Vec::new();
        let mut i: usize = 0;
        while i < self.nodes.len()
            invariant
                i <= self.nodes@.len(),
                nodes@ == self.nodes@.subrange(0, i as int),
            decreases self.nodes@.len() - i,
        {
            nodes.push(self.nodes[i]);
            i += 1;
        }
        assert(nodes@ =~= self.nodes@);
        PropTree { root: self.root, nodes }
    }
}

} // verus!
