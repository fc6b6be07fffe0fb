//! Sentences as text.
//!
//! A conjunction prints as `&(a b)`, a disjunction as `|(a b)`, a negation
//! as `!a`, the restrictions as `@role.body` and `#role.body`, a role
//! assertion as `role(x y)` with `!` before it where it is negated, and a
//! concept stated of an individual as the concept followed by `(x)`.

use crate::prop_tree::Concept;
use crate::prop_tree::PropTree;
use crate::prop_tree::PropTreeNode;
use crate::prop_tree::Proposition;
use crate::truth_tree::TruthTree;
use vstd::prelude::*;

verus! {

/// The name of the symbol `aid` in the table `names`, or `NotFound`.
pub open spec fn name_of(names: Seq<Seq<char>>, aid: usize) -> Seq<char> {
    if aid < names.len() {
        names[aid as int]
    } else {
        "NotFound"@
    }
}

/// The text of the concept expression rooted at position `i` of `nodes`.
pub open spec fn render(nodes: Seq<PropTreeNode>, i: int, names: Seq<Seq<char>>) -> Seq<char>
    decreases i,
{
    if 0 <= i < nodes.len() && nodes[i].data.below(i) {
        match nodes[i].data {
            Concept::And(a, b) => "&("@ + render(nodes, a as int, names) + " "@ + render(
                nodes,
                b as int,
                names,
            ) + ")"@,
            Concept::Or(a, b) => "|("@ + render(nodes, a as int, names) + " "@ + render(
                nodes,
                b as int,
                names,
            ) + ")"@,
            Concept::Not(a) => "!"@ + render(nodes, a as int, names),
            Concept::Atom(aid) => name_of(names, aid),
            Concept::ForAll(role, a) => "@"@ + name_of(names, role) + "."@ + render(
                nodes,
                a as int,
                names,
            ),
            Concept::Exist(role, a) => "#"@ + name_of(names, role) + "."@ + render(
                nodes,
                a as int,
                names,
            ),
        }
    } else {
        Seq::empty()
    }
}

/// The text of the sentence with the root tag `root` and the graph `nodes`.
pub open spec fn render_sentence(
    root: Proposition,
    nodes: Seq<PropTreeNode>,
    names: Seq<Seq<char>>,
) -> Seq<char> {
    match root {
        Proposition::ARole(positive, role, x, y) => (if positive {
            Seq::empty()
        } else {
            "!"@
        }) + name_of(names, role) + "("@ + name_of(names, x) + " "@ + name_of(names, y) + ")"@,
        Proposition::AConcept(a) => render(nodes, nodes.len() - 1, names) + "("@ + name_of(
            names,
            a,
        ) + ")"@,
        Proposition::TConcept => render(nodes, nodes.len() - 1, names),
    }
}

impl PropTree {
    /// The text of the concept expression rooted at position `id`, with the
    /// names of `name_dict`.
    pub fn to_string_recurse(&self, id: usize, name_dict: &TruthTree) -> (text: String)
        requires
            self.wf(),
            name_dict.wf(),
            id < self.nodes@.len(),
        ensures
            text@ == render(self.nodes@, id as int, name_dict.names()),
        decreases id,
    {
        assert(self.nodes@[id as int].data.below(id as int));
        let ghost names = name_dict.names();
        match self.nodes[id].data {
            Concept::And(a, b) => {
                let first = self.to_string_recurse(a, name_dict);
                let second = self.to_string_recurse(b, name_dict);
                let mut text = String::from_str("&(");
                text.append(first.as_str());
                text.append(" ");
                text.append(second.as_str());
                text.append(")");
                text
            },
            Concept::Or(a, b) => {
                let first = self.to_string_recurse(a, name_dict);
                let second = self.to_string_recurse(b, name_dict);
                let mut text = String::from_str("|(");
                text.append(first.as_str());
                text.append(" ");
                text.append(second.as_str());
                text.append(")");
                text
            },
            Concept::Not(a) => {
                let inner = self.to_string_recurse(a, name_dict);
                let mut text = String::from_str("!");
                text.append(inner.as_str());
                text
            },
            Concept::Atom(aid) => String::from_str(name_dict.get_name(aid)),
            Concept::ForAll(role, a) => {
                let inner = self.to_string_recurse(a, name_dict);
                let mut text = String::from_str("@");
                text.append(name_dict.get_name(role));
                text.append(".");
                text.append(inner.as_str());
                text
            },
            Concept::Exist(role, a) => {
                let inner = self.to_string_recurse(a, name_dict);
                let mut text = String::from_str("#");
                text.append(name_dict.get_name(role));
                text.append(".");
                text.append(inner.as_str());
                text
            },
        }
    }

    /// The text of the sentence, with the names of `name_dict`.
    pub fn to_string(&self, name_dict: &TruthTree) -> (text: String)
        requires
            self.wf(),
            name_dict.wf(),
            !(self.root is ARole) ==> self.nodes@.len() > 0,
        ensures
            text@ == render_sentence(self.root, self.nodes@, name_dict.names()),
    {
        match self.root {
            Proposition::ARole(positive, role, x, y) => {
                let mut text = String::new();
                if !positive {
                    text.append("!");
                }
                let ghost sign = text@;
                text.append(name_dict.get_name(role));
                text.append("(");
                text.append(name_dict.get_name(x));
                text.append(" ");
                text.append(name_dict.get_name(y));
                text.append(")");
                proof {
                    assert(sign =~= if positive {
                        Seq::<char>::empty()
                    } else {
                        "!"@
                    });
                }
                text
            },
            Proposition::AConcept(a) => {
                let mut text = self.to_string_recurse(self.nodes.len() - 1, name_dict);
                text.append("(");
                text.append(name_dict.get_name(a));
                text.append(")");
                text
            },
            Proposition::TConcept => self.to_string_recurse(self.nodes.len() - 1, name_dict),
        }
    }
}

} // verus!
