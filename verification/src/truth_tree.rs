//! The symbol table, the branch store and the tableau search.

use crate::formula::Statement;
use crate::formula::BOTTOM;
use crate::formula::TOP;
use crate::formula::Formula;
use crate::prop_tree::formula_at;
use crate::prop_tree::lemma_contradicts_is_clash;
use crate::prop_tree::Concept;
use crate::prop_tree::PropTree;
use crate::prop_tree::Proposition;
use crate::symbols::is_first;
use crate::symbols::symbol_of;
use crate::symbols::synthetic;
use crate::symbols::synthetic_name;
use crate::symbols::with_name;
use crate::tableau::assert_on_branch;
use crate::tableau::expand;
use crate::tableau::instances;
use crate::tableau::last_clashes;
use crate::tableau::role_matches;
use crate::tableau::role_targets;
use crate::tableau::search;
use crate::tableau::Outcome;
use std::collections::HashMap;
use vstd::hash_map::StringHashMap;
use vstd::prelude::*;

verus! {

broadcast use vstd::std_specs::hash::group_hash_axioms;

/// One node of the branch store: a sentence and the node it was put below.
pub struct TruthTreeNode {
    pub data: PropTree,
    pub parent: Option<usize>,
}

/// A prover: the names of all symbols, and every sentence that was put on a
/// branch, each with a pointer to the one before it on its branch.
pub struct TruthTree {
    nodes: Vec<TruthTreeNode>,
    name_dict: HashMap<usize, String>,
    rev_dict: StringHashMap<usize>,
    aid_max: usize,
}

/// Whether every node holds a complete sentence and stands after its parent.
pub open spec fn store_wf(nodes: Seq<TruthTreeNode>) -> bool {
    forall|k: int|
        0 <= k < nodes.len() ==> (#[trigger] nodes[k]).data.is_sentence() && (
        nodes[k].parent matches Some(p) ==> p < k)
}

/// What the nodes from the first one of its branch down to node `k` say.
pub open spec fn path(nodes: Seq<TruthTreeNode>, k: int) -> Seq<Statement>
    decreases k,
{
    if 0 <= k < nodes.len() {
        match nodes[k].parent {
            Some(p) => if p < k {
                path(nodes, p as int).push(nodes[k].data@)
            } else {
                seq![nodes[k].data@]
            },
            None => seq![nodes[k].data@],
        }
    } else {
        Seq::empty()
    }
}

/// What the sentences `work` say, in their order.
pub open spec fn statements(work: Seq<PropTree>) -> Seq<Statement> {
    Seq::new(work.len(), |i: int| work[i]@)
}

/// Whether every one of `work` is a complete sentence.
pub open spec fn all_sentences(work: Seq<PropTree>) -> bool {
    forall|i: int| 0 <= i < work.len() ==> (#[trigger] work[i]).is_sentence()
}

/// Whether `s` starts with `prefix`.
pub open spec fn extends<T>(s: Seq<T>, prefix: Seq<T>) -> bool {
    prefix.len() <= s.len() && s.subrange(0, prefix.len() as int) == prefix
}

proof fn lemma_statements_push(work: Seq<PropTree>, t: PropTree)
    ensures
        statements(work.push(t)) == statements(work).push(t@),
        all_sentences(work) && t.is_sentence() ==> all_sentences(work.push(t)),
{
    assert(statements(work.push(t)) =~= statements(work).push(t@));
}

proof fn lemma_statements_add(a: Seq<PropTree>, b: Seq<PropTree>)
    ensures
        statements(a + b) == statements(a) + statements(b),
        all_sentences(a) && all_sentences(b) ==> all_sentences(a + b),
{
    assert(statements(a + b) =~= statements(a) + statements(b));
}

proof fn lemma_statements_pop(work: Seq<PropTree>)
    requires
        work.len() > 0,
    ensures
        statements(work.drop_last()) == statements(work).drop_last(),
        statements(work).last() == work.last()@,
        all_sentences(work) ==> all_sentences(work.drop_last()) && work.last().is_sentence(),
{
    assert(statements(work.drop_last()) =~= statements(work).drop_last());
}

/// Whether the names of `names` from position `from` on are those given
/// to symbols that were made without a name.
pub open spec fn unnamed_from(names: Seq<Seq<char>>, from: nat) -> bool {
    forall|i: int| from <= i < names.len() ==> #[trigger] names[i] == synthetic(i as nat)
}

/// Every sequence starts with itself.
pub proof fn lemma_extends_itself<T>(s: Seq<T>)
    ensures
        extends(s, s),
{
    assert(s.subrange(0, s.len() as int) =~= s);
}

/// What starts with a sequence starts with what that sequence starts with.
pub proof fn lemma_extends_twice<T>(s: Seq<T>, t: Seq<T>, u: Seq<T>)
    requires
        extends(s, t),
        extends(t, u),
    ensures
        extends(s, u),
{
    assert forall|i: int| 0 <= i < u.len() implies s[i] == u[i] by {
        assert(s[i] == s.subrange(0, t.len() as int)[i]);
        assert(t[i] == t.subrange(0, u.len() as int)[i]);
    }
    assert(s.subrange(0, u.len() as int) =~= u);
}

/// Names that were made in two steps were made.
pub proof fn lemma_unnamed_twice(s: Seq<Seq<char>>, t: Seq<Seq<char>>, u: Seq<Seq<char>>)
    requires
        extends(s, t),
        extends(t, u),
        unnamed_from(s, t.len()),
        unnamed_from(t, u.len()),
    ensures
        unnamed_from(s, u.len()),
{
    assert forall|i: int| u.len() <= i < s.len() implies #[trigger] s[i] == synthetic(i as nat) by {
        if i < t.len() {
            assert(s[i] == s.subrange(0, t.len() as int)[i]);
            assert(t[i] == synthetic(i as nat));
        }
    }
}

/// A copy of every sentence of `work`.
fn clone_worklist(work: &Vec<PropTree>) -> (copy: Vec<PropTree>)
    ensures
        statements(copy@) == statements(work@),
        all_sentences(work@) ==> all_sentences(copy@),
{
    let mut copy: Vec<PropTree> = Vec::new();
    let mut i: usize = 0;
    while i < work.len()
        invariant
            i <= work@.len(),
            copy@.len() == i,
            forall|j: int|
                0 <= j < i ==> (#[trigger] copy@[j]).root == work@[j].root && copy@[j].nodes@
                    == work@[j].nodes@,
        decreases work@.len() - i,
    {
        copy.push(work[i].clone());
        i += 1;
    }
    assert(statements(copy@) =~= statements(work@));
    copy
}

/// The individuals `targets` as numbers.
pub open spec fn individuals(targets: Seq<usize>) -> Seq<nat> {
    Seq::new(targets.len(), |i: int| targets[i] as nat)
}

/// The individual `anchor`, if any, as a number.
pub open spec fn anchor_of(anchor: Option<usize>) -> Option<nat> {
    match anchor {
        Some(a) => Some(a as nat),
        None => None,
    }
}

/// A branch ends in what its last node says, and is the branch of that
/// node's parent followed by it.
pub proof fn lemma_path_step(nodes: Seq<TruthTreeNode>, k: int)
    requires
        store_wf(nodes),
        0 <= k < nodes.len(),
    ensures
        path(nodes, k).len() > 0,
        path(nodes, k).last() == nodes[k].data@,
        path(nodes, k).drop_last() == match nodes[k].parent {
            Some(p) => path(nodes, p as int),
            None => Seq::empty(),
        },
{
    match nodes[k].parent {
        Some(p) => {
            assert(path(nodes, k).drop_last() =~= path(nodes, p as int));
        },
        None => {
            assert(path(nodes, k).drop_last() =~= Seq::<Statement>::empty());
        },
    }
}

/// Appending a node leaves the branches of the earlier nodes as they were.
pub proof fn lemma_path_kept(nodes: Seq<TruthTreeNode>, more: Seq<TruthTreeNode>, k: int)
    requires
        store_wf(nodes),
        0 <= k < nodes.len(),
    ensures
        path(nodes + more, k) == path(nodes, k),
    decreases k,
{
    let longer = nodes + more;
    assert(longer[k] == nodes[k]);
    match nodes[k].parent {
        Some(p) => {
            lemma_path_kept(nodes, more, p as int);
        },
        None => {},
    }
}

impl TruthTree {
    /// The names of the symbols, each at the position of its symbol.
    pub closed spec fn names(&self) -> Seq<Seq<char>> {
        Seq::new((self.aid_max + 1) as nat, |i: int| self.name_dict@[i as usize]@)
    }

    /// The branch store.
    pub closed spec fn store(&self) -> Seq<TruthTreeNode> {
        self.nodes@
    }

    /// What the branch that ends in node `id` says, first node first; no
    /// statements where `id` is `None`.
    pub open spec fn branch(&self, id: Option<usize>) -> Seq<Statement> {
        match id {
            Some(k) => path(self.store(), k as int),
            None => Seq::empty(),
        }
    }

    /// Whether the two directions of the symbol table agree, the reserved
    /// symbols are in place, and the branch store is well formed.
    pub closed spec fn wf(&self) -> bool {
        &&& self.aid_max >= 1
        &&& forall|k: usize| self.name_dict@.contains_key(k) <==> k <= self.aid_max
        &&& self.name_dict@[0]@ == "Top"@
        &&& self.name_dict@[1]@ == "Bottom"@
        &&& forall|s: Seq<char>| self.rev_dict@.contains_key(s) <==> self.names().contains(s)
        &&& forall|s: Seq<char>| #[trigger]
            self.rev_dict@.contains_key(s) ==> is_first(self.names(), s, self.rev_dict@[s] as int)
        &&& store_wf(self.nodes@)
    }

    /// A well-formed prover knows the two reserved symbols, and its store is
    /// well formed.
    pub proof fn lemma_wf(&self)
        requires
            self.wf(),
        ensures
            2 <= self.names().len() <= usize::MAX + 1,
            self.names()[0] == "Top"@,
            self.names()[1] == "Bottom"@,
            store_wf(self.store()),
    {
    }

    /// A prover that knows the two reserved symbols and has an empty branch
    /// store.
    pub fn new() -> (tree: TruthTree)
        ensures
            tree.wf(),
            tree.names() == seq!["Top"@, "Bottom"@],
            tree.store() == Seq::<TruthTreeNode>::empty(),
    {
        let mut name_dict: HashMap<usize, String> = HashMap::new();
        name_dict.insert(0, String::from_str("Top"));
        name_dict.insert(1, String::from_str("Bottom"));
        let mut rev_dict: StringHashMap<usize> = StringHashMap::new();
        rev_dict.insert(String::from_str("Top"), 0);
        rev_dict.insert(String::from_str("Bottom"), 1);
        let tree = TruthTree { nodes: Vec::new(), name_dict, rev_dict, aid_max: 1 };
        proof {
            reveal_strlit("Top");
            reveal_strlit("Bottom");
            assert("Top"@ != "Bottom"@) by {
                assert("Top"@.len() == 3);
                assert("Bottom"@.len() == 6);
            }
            assert(tree.names() =~= seq!["Top"@, "Bottom"@]);
            assert(tree.names()[0] == "Top"@);
            assert(tree.names()[1] == "Bottom"@);
            assert forall|s: Seq<char>| tree.rev_dict@.contains_key(s) implies is_first(
                tree.names(),
                s,
                tree.rev_dict@[s] as int,
            ) by {}
            assert forall|s: Seq<char>| tree.names().contains(s) implies
                tree.rev_dict@.contains_key(s) by {
                let i = choose|i: int| 0 <= i < tree.names().len() && tree.names()[i] == s;
            }
        }
        tree
    }

    /// The name of the symbol `aid`, or `NotFound` where there is no such
    /// symbol.
    pub fn get_name(&self, aid: usize) -> (name: &str)
        requires
            self.wf(),
        ensures
            name@ == if aid < self.names().len() {
                self.names()[aid as int]
            } else {
                "NotFound"@
            },
    {
        match self.name_dict.get(&aid) {
            Some(string) => string.as_str(),
            None => "NotFound",
        }
    }

    /// Enters a name into the symbol table and returns its symbol.
    ///
    /// A name that is known keeps its symbol and leaves the table as it is;
    /// a new name gets the next symbol. Without a name the next symbol is
    /// made and named after its own number.
    pub fn alloc_aid(&mut self, string: Option<String>) -> (id: usize)
        requires
            old(self).wf(),
            old(self).names().len() <= usize::MAX,
        ensures
            final(self).wf(),
            final(self).store() == old(self).store(),
            match string {
                Some(s) => id == symbol_of(old(self).names(), s@) && final(self).names()
                    == with_name(old(self).names(), s@),
                None => id == old(self).names().len() && final(self).names() == old(
                    self,
                ).names().push(synthetic(id as nat)),
            },
    {
        let ghost before = self.names();
        match string {
            Some(s) => {
                match self.rev_dict.get(s.as_str()) {
                    Some(known) => {
                        proof {
                            crate::symbols::lemma_symbol_of_known(before, s@);
                            crate::symbols::lemma_first_unique(
                                before,
                                s@,
                                *known as int,
                                symbol_of(before, s@) as int,
                            );
                        }
                        return *known;
                    },
                    None => {},
                }
                self.aid_max += 1;
                let id = self.aid_max;
                self.name_dict.insert(id, s.clone());
                proof {
                    assert(self.names() =~= before.push(s@));
                }
                self.rev_dict.insert(s, id);
                proof {
                    self.lemma_entered(*old(self), s@);
                }
                id
            },
            None => {
                self.aid_max += 1;
                let id = self.aid_max;
                let name = synthetic_name(id);
                self.name_dict.insert(id, name.clone());
                proof {
                    assert(self.names() =~= before.push(name@));
                }
                if !self.rev_dict.contains_key(name.as_str()) {
                    self.rev_dict.insert(name, id);
                }
                proof {
                    self.lemma_entered(*old(self), name@);
                }
                id
            },
        }
    }

    /// Puts the sentence `data` into the branch store, below the node
    /// `parent` or, without one, as the first node of a branch, and returns
    /// its position.
    pub fn push_node(&mut self, parent: Option<usize>, data: PropTree) -> (id: usize)
        requires
            old(self).wf(),
            data.is_sentence(),
            parent matches Some(p) ==> p < old(self).store().len(),
        ensures
            final(self).wf(),
            final(self).names() == old(self).names(),
            id == old(self).store().len(),
            final(self).store() == old(self).store().push(TruthTreeNode { data, parent }),
            final(self).branch(Some(id)) == old(self).branch(parent).push(data@),
    {
        let id = self.nodes.len();
        let ghost before = self.nodes@;
        let ghost node = TruthTreeNode { data, parent };
        self.nodes.push(TruthTreeNode { data, parent });
        proof {
            assert(self.names() =~= old(self).names());
            assert(self.nodes@ =~= before + seq![node]);
            match parent {
                Some(p) => {
                    lemma_path_kept(before, seq![node], p as int);
                },
                None => {},
            }
        }
        id
    }

    /// The node that node `id` was put below, if any.
    pub fn parent(&self, id: usize) -> (above: Option<usize>)
        requires
            self.wf(),
            id < self.store().len(),
        ensures
            above == self.store()[id as int].parent,
            above matches Some(p) ==> p < id,
    {
        self.nodes[id].parent
    }

    /// Whether the sentence of node `id` contradicts a sentence further up
    /// on its branch.
    pub fn upmatch(&self, id: usize) -> (clash: bool)
        requires
            self.wf(),
            id < self.store().len(),
        ensures
            clash == last_clashes(self.branch(Some(id))),
    {
        let ghost b = path(self.nodes@, id as int);
        proof {
            lemma_path_step(self.nodes@, id as int);
        }
        let mut cur = id;
        loop
            invariant
                self.wf(),
                id < self.nodes@.len(),
                cur <= id,
                b == path(self.nodes@, id as int),
                b.len() > 0,
                b.last() == self.nodes@[id as int].data@,
                path(self.nodes@, cur as int).len() <= b.len(),
                path(self.nodes@, cur as int) == b.subrange(
                    0,
                    path(self.nodes@, cur as int).len() as int,
                ),
                forall|j: int|
                    path(self.nodes@, cur as int).len() - 1 <= j < b.len() - 1 ==> !(
                    #[trigger] b[j]).clashes(b.last()),
            decreases cur,
        {
            let ghost here = path(self.nodes@, cur as int);
            proof {
                lemma_path_step(self.nodes@, cur as int);
            }
            match self.nodes[cur].parent {
                None => {
                    assert(here.len() == 1) by {
                        assert(here.drop_last().len() == 0);
                    }
                    return false;
                },
                Some(p) => {
                    let ghost above = path(self.nodes@, p as int);
                    proof {
                        lemma_path_step(self.nodes@, p as int);
                        assert(above == here.drop_last());
                        assert(above =~= b.subrange(0, above.len() as int));
                        assert(b[above.len() - 1] == above.last());
                        lemma_contradicts_is_clash(
                            &self.nodes@[p as int].data,
                            &self.nodes@[id as int].data,
                        );
                    }
                    if self.nodes[p].data.atom_check(&self.nodes[id].data) {
                        return true;
                    }
                    cur = p;
                },
            }
        }
    }

    /// The individuals that the role assertions on the branch of node `id`
    /// lead to, node `id` included and the nearest first. An assertion
    /// counts where it has the polarity `role.0` and the role `role.1`, and
    /// starts from `role.2` where that is given.
    pub fn upmatch_role(&self, id: usize, role: (bool, usize, Option<usize>)) -> (targets: Vec<
        usize,
    >)
        requires
            self.wf(),
            id < self.store().len(),
        ensures
            individuals(targets@) == role_targets(
                self.branch(Some(id)),
                role.0,
                role.1 as nat,
                anchor_of(role.2),
            ),
    {
        let ghost b = path(self.nodes@, id as int);
        let ghost anchor = anchor_of(role.2);
        let mut result: Vec<usize> = Vec::new();
        let mut cur: Option<usize> = Some(id);
        assert(individuals(result@) + role_targets(b, role.0, role.1 as nat, anchor)
            =~= role_targets(b, role.0, role.1 as nat, anchor));
        loop
            invariant
                self.wf(),
                anchor == anchor_of(role.2),
                b == path(self.nodes@, id as int),
                cur matches Some(k) ==> k < self.nodes@.len(),
                role_targets(b, role.0, role.1 as nat, anchor) == individuals(result@)
                    + role_targets(
                    match cur {
                        Some(k) => path(self.nodes@, k as int),
                        None => Seq::empty(),
                    },
                    role.0,
                    role.1 as nat,
                    anchor,
                ),
            decreases
                    match cur {
                        Some(k) => k + 1,
                        None => 0,
                    },
        {
            match cur {
                None => {
                    assert(individuals(result@) + Seq::<nat>::empty() =~= individuals(result@));
                    return result;
                },
                Some(k) => {
                    let ghost here = path(self.nodes@, k as int);
                    let ghost found = individuals(result@);
                    proof {
                        lemma_path_step(self.nodes@, k as int);
                    }
                    match self.nodes[k].data.root {
                        Proposition::ARole(t, ident, ind1, ind2) => {
                            let from_anchor = match role.2 {
                                Some(a) => a == ind1,
                                None => true,
                            };
                            if role.0 == t && role.1 == ident && from_anchor {
                                assert(role_matches(here.last(), role.0, role.1 as nat, anchor));
                                result.push(ind2);
                                assert(individuals(result@) =~= found + seq![ind2 as nat]);
                                assert(found + (seq![ind2 as nat] + role_targets(
                                    here.drop_last(),
                                    role.0,
                                    role.1 as nat,
                                    anchor,
                                )) =~= (found + seq![ind2 as nat]) + role_targets(
                                    here.drop_last(),
                                    role.0,
                                    role.1 as nat,
                                    anchor,
                                ));
                            } else {
                                assert(!role_matches(here.last(), role.0, role.1 as nat, anchor));
                            }
                        },
                        _ => {},
                    }
                    cur = self.nodes[k].parent;
                },
            }
        }
    }

    /// The last symbol that was made.
    pub fn last_symbol(&self) -> (aid: usize)
        requires
            self.wf(),
        ensures
            aid + 1 == self.names().len(),
    {
        self.aid_max
    }

    /// Whether `self` is what a search that began in the state `before`
    /// with `steps` steps leaves behind, `result` what it returns, and both
    /// are as `outcome` says: the store and the symbol table have only
    /// grown, by two symbols at most for each step spent.
    pub open spec fn searched(
        &self,
        before: &TruthTree,
        steps: usize,
        result: (Option<bool>, usize),
        outcome: Outcome,
    ) -> bool {
        &&& self.wf()
        &&& extends(self.store(), before.store())
        &&& extends(self.names(), before.names())
        &&& unnamed_from(self.names(), before.names().len())
        &&& self.names().len() + 2 * result.1 <= before.names().len() + 2 * steps
        &&& result.1 <= steps
        &&& result.0 == outcome.verdict
        &&& result.1 == outcome.steps_left
        &&& self.names().len() == outcome.symbols
    }

    /// The search on the branch that ends in node `id` (on an empty branch
    /// without one) for the sentences `leaf`, of which the last is taken
    /// first, with `steps` steps to spend. Returns the verdict, `Some(true)`
    /// where every branch closed and `Some(false)` where one stayed open,
    /// or `None` where the steps ran out, and the steps that are left.
    pub fn prove_recurse(
        &mut self,
        id: Option<usize>,
        leaf: Vec<PropTree>,
        steps: usize,
    ) -> (result: (Option<bool>, usize))
        requires
            old(self).wf(),
            id matches Some(k) ==> k < old(self).store().len(),
            all_sentences(leaf@),
            old(self).names().len() + 2 * steps <= usize::MAX,
        ensures
            final(self).searched(
                old(self),
                steps,
                result,
                search(
                    old(self).branch(id),
                    statements(leaf@),
                    old(self).names().len(),
                    steps as nat,
                ),
            ),
        decreases steps, 0nat,
    {
        let ghost branch = self.branch(id);
        let ghost symbols = self.names().len();
        proof {
            lemma_extends_itself(self.store());
            lemma_extends_itself(self.names());
        }
        if steps == 0 {
            return (None, 0);
        }
        let left: usize = steps - 1;
        let ghost goal = search(branch, statements(leaf@), symbols, steps as nat);
        let mut work = leaf;
        let mut unmatched: Vec<PropTree> = Vec::new();
        assert(statements(unmatched@) =~= Seq::<Statement>::empty());
        loop
            invariant
                self.wf(),
                self.store() == old(self).store(),
                self.names() == old(self).names(),
                extends(self.store(), old(self).store()),
                extends(self.names(), old(self).names()),
                branch == self.branch(id),
                symbols == self.names().len(),
                id matches Some(k) ==> k < self.store().len(),
                all_sentences(work@),
                all_sentences(unmatched@),
                left == steps - 1,
                symbols + 2 * steps <= usize::MAX,
                goal == search(branch, statements(leaf@), symbols, steps as nat),
                expand(branch, statements(work@), statements(unmatched@), symbols, left as nat)
                    == goal,
            decreases work@.len(),
        {
            let ghost before = work@;
            let prop_tree = match work.pop() {
                Some(prop_tree) => prop_tree,
                None => {
                    return (Some(false), left);
                },
            };
            proof {
                lemma_statements_pop(before);
                assert(work@ =~= before.drop_last());
            }
            if let Proposition::ARole(_, _, _, _) = prop_tree.root {
                proof {
                    lemma_statements_add(work@, unmatched@);
                }
                return self.put_on_branch(id, prop_tree, &mut work, &mut unmatched, left);
            }
            match self.expand_concept(id, prop_tree, &mut work, &mut unmatched, left) {
                Some(result) => {
                    return result;
                },
                None => {},
            }
        }
    }

    /// Opens a new frame below node `id` for the sentences of `leaf`, then
    /// those of `extra`, then those of `unmatched`, and empties the three.
    fn descend(
        &mut self,
        id: Option<usize>,
        leaf: &mut Vec<PropTree>,
        extra: &mut Vec<PropTree>,
        unmatched: &mut Vec<PropTree>,
        steps: usize,
    ) -> (result: (Option<bool>, usize))
        requires
            old(self).wf(),
            id matches Some(k) ==> k < old(self).store().len(),
            all_sentences(old(leaf)@),
            all_sentences(old(extra)@),
            all_sentences(old(unmatched)@),
            old(self).names().len() + 2 * steps <= usize::MAX,
        ensures
            final(self).searched(
                old(self),
                steps,
                result,
                search(
                    old(self).branch(id),
                    statements(old(leaf)@) + statements(old(extra)@) + statements(
                        old(unmatched)@,
                    ),
                    old(self).names().len(),
                    steps as nat,
                ),
            ),
        decreases steps, 1nat,
    {
        let mut work: Vec<PropTree> = Vec::new();
        work.append(leaf);
        work.append(extra);
        work.append(unmatched);
        proof {
            assert(work@ =~= old(leaf)@ + old(extra)@ + old(unmatched)@);
            lemma_statements_add(old(leaf)@, old(extra)@);
            lemma_statements_add(old(leaf)@ + old(extra)@, old(unmatched)@);
        }
        self.prove_recurse(id, work, steps)
    }

    /// Puts the role assertion or literal `prop_tree` on the branch below
    /// node `id`. The branch closes where it contradicts a sentence further
    /// up; else a new frame opens below it for `leaf` and `unmatched`.
    fn put_on_branch(
        &mut self,
        id: Option<usize>,
        prop_tree: PropTree,
        leaf: &mut Vec<PropTree>,
        unmatched: &mut Vec<PropTree>,
        steps: usize,
    ) -> (result: (Option<bool>, usize))
        requires
            old(self).wf(),
            id matches Some(k) ==> k < old(self).store().len(),
            prop_tree.is_sentence(),
            all_sentences(old(leaf)@),
            all_sentences(old(unmatched)@),
            old(self).names().len() + 2 * steps <= usize::MAX,
        ensures
            final(self).searched(
                old(self),
                steps,
                result,
                assert_on_branch(
                    old(self).branch(id),
                    prop_tree@,
                    statements(old(leaf)@) + statements(old(unmatched)@),
                    old(self).names().len(),
                    steps as nat,
                ),
            ),
        decreases steps, 2nat,
    {
        let new_id = self.push_node(id, prop_tree);
        let ghost between = *self;
        proof {
            assert(self.store().subrange(0, old(self).store().len() as int) =~= old(
                self,
            ).store());
            lemma_extends_itself(self.names());
        }
        if self.upmatch(new_id) {
            return (Some(true), steps);
        }
        let mut extra: Vec<PropTree> = Vec::new();
        assert(statements(leaf@) + statements(extra@) =~= statements(leaf@));
        let result = self.descend(Some(new_id), leaf, &mut extra, unmatched, steps);
        proof {
            lemma_extends_twice(self.store(), between.store(), old(self).store());
        }
        result
    }

    /// The body `body` stated of each of `targets`, in their order.
    fn instantiate(body: &PropTree, targets: &Vec<usize>) -> (made: Vec<PropTree>)
        requires
            body.wf(),
            body.nodes@.len() > 0,
        ensures
            all_sentences(made@),
            statements(made@) == instances(body.formula(), individuals(targets@)),
    {
        let mut made: Vec<PropTree> = Vec::new();
        let mut i: usize = 0;
        while i < targets.len()
            invariant
                i <= targets@.len(),
                made@.len() == i,
                forall|j: int|
                    0 <= j < i ==> (#[trigger] made@[j]).root == Proposition::AConcept(targets@[j])
                        && made@[j].nodes@ == body.nodes@,
            decreases targets@.len() - i,
        {
            let mut instance = body.clone();
            instance.root = Proposition::AConcept(targets[i]);
            made.push(instance);
            i += 1;
        }
        assert(statements(made@) =~= instances(body.formula(), individuals(targets@)));
        made
    }

    /// Whether `self` is what the expansion of the concept sentence `p`
    /// leaves behind. The expansion began in the state `before`, on the
    /// branch of node `id`, with `steps` steps, with the sentences `leaf0`
    /// left to expand and `unmatched0` deferred. Where it decided the frame,
    /// `decided` holds the result; else the frame goes on with `leaf1` and
    /// `unmatched1`, and comes to the same.
    pub open spec fn expanded(
        &self,
        before: &TruthTree,
        id: Option<usize>,
        p: &PropTree,
        leaf0: Seq<PropTree>,
        unmatched0: Seq<PropTree>,
        leaf1: Seq<PropTree>,
        unmatched1: Seq<PropTree>,
        steps: usize,
        decided: Option<(Option<bool>, usize)>,
    ) -> bool {
        let goal = crate::tableau::expand_concept(
            before.branch(id),
            p@,
            p.formula(),
            statements(leaf0),
            statements(unmatched0),
            before.names().len(),
            steps as nat,
        );
        match decided {
            Some(result) => {
                &&& self.wf()
                &&& extends(self.store(), before.store())
                &&& extends(self.names(), before.names())
                &&& unnamed_from(self.names(), before.names().len())
                &&& self.names().len() + 2 * result.1 <= before.names().len() + 2 * steps + 2
                &&& result.1 <= steps
                &&& result.0 == goal.verdict
                &&& result.1 == goal.steps_left
                &&& self.names().len() == goal.symbols
            },
            None => {
                &&& self.wf()
                &&& self.store() == before.store()
                &&& self.names() == before.names()
                &&& all_sentences(leaf1)
                &&& all_sentences(unmatched1)
                &&& leaf1.len() == leaf0.len()
                &&& expand(
                    before.branch(id),
                    statements(leaf1),
                    statements(unmatched1),
                    before.names().len(),
                    steps as nat,
                ) == goal
            },
        }
    }

    /// Expands the concept sentence `prop_tree`, which was taken from the
    /// end of the list of which `leaf` is left. Returns the result of the
    /// frame where `prop_tree` decides it. Returns `None` where the frame
    /// goes on, with `prop_tree` dropped or moved to `unmatched`.
    fn expand_concept(
        &mut self,
        id: Option<usize>,
        prop_tree: PropTree,
        leaf: &mut Vec<PropTree>,
        unmatched: &mut Vec<PropTree>,
        steps: usize,
    ) -> (decided: Option<(Option<bool>, usize)>)
        requires
            old(self).wf(),
            id matches Some(k) ==> k < old(self).store().len(),
            prop_tree.is_sentence(),
            !(prop_tree.root is ARole),
            all_sentences(old(leaf)@),
            all_sentences(old(unmatched)@),
            old(self).names().len() + 2 * steps + 2 <= usize::MAX,
        ensures
            final(self).expanded(
                old(self),
                id,
                &prop_tree,
                old(leaf)@,
                old(unmatched)@,
                final(leaf)@,
                final(unmatched)@,
                steps,
                decided,
            ),
        decreases steps, 4nat,
    {
        let m = prop_tree.nodes.len();
        match prop_tree.nodes[m - 1].data {
            Concept::And(a, b) => self.expand_and(id, prop_tree, a, b, leaf, unmatched, steps),
            Concept::Or(a, b) => self.expand_or(id, prop_tree, a, b, leaf, unmatched, steps),
            Concept::Not(a) => self.expand_not(id, prop_tree, a, leaf, unmatched, steps),
            Concept::Atom(aid) => self.expand_atom(id, prop_tree, aid, leaf, unmatched, steps),
            Concept::ForAll(role, a) => {
                self.expand_for_all(id, prop_tree, role, a, leaf, unmatched, steps)
            },
            Concept::Exist(role, a) => {
                self.expand_exist(id, prop_tree, role, a, leaf, unmatched, steps)
            },
        }
    }

    /// Replaces a conjunction by its two operands.
    fn expand_and(
        &mut self,
        id: Option<usize>,
        prop_tree: PropTree,
        a: usize,
        b: usize,
        leaf: &mut Vec<PropTree>,
        unmatched: &mut Vec<PropTree>,
        steps: usize,
    ) -> (decided: Option<(Option<bool>, usize)>)
        requires
            old(self).wf(),
            id matches Some(k) ==> k < old(self).store().len(),
            prop_tree.is_sentence(),
            !(prop_tree.root is ARole),
            all_sentences(old(leaf)@),
            all_sentences(old(unmatched)@),
            old(self).names().len() + 2 * steps + 2 <= usize::MAX,
            prop_tree.nodes@.last().data == Concept::And(a, b),
        ensures
            final(self).expanded(
                old(self),
                id,
                &prop_tree,
                old(leaf)@,
                old(unmatched)@,
                final(leaf)@,
                final(unmatched)@,
                steps,
                decided,
            ),
        decreases steps, 3nat,
    {
        proof {
            lemma_extends_itself(self.store());
            lemma_extends_itself(self.names());
        }
        assert(prop_tree.nodes@.last().data.below(prop_tree.nodes@.len() - 1));
        let tree_a = prop_tree.clone_subtree(a);
        let tree_b = prop_tree.clone_subtree(b);
        let mut extra: Vec<PropTree> = Vec::new();
        extra.push(tree_a);
        extra.push(tree_b);
        proof {
            assert(statements(extra@) =~= seq![tree_a@, tree_b@]);
            assert(statements(leaf@) + statements(extra@) =~= statements(leaf@).push(
                tree_a@,
            ).push(tree_b@));
        }
        Some(self.descend(id, leaf, &mut extra, unmatched, steps))
    }

    /// Forks on a disjunction: the first operand, and where the branch
    /// closes with it, the second.
    fn expand_or(
        &mut self,
        id: Option<usize>,
        prop_tree: PropTree,
        a: usize,
        b: usize,
        leaf: &mut Vec<PropTree>,
        unmatched: &mut Vec<PropTree>,
        steps: usize,
    ) -> (decided: Option<(Option<bool>, usize)>)
        requires
            old(self).wf(),
            id matches Some(k) ==> k < old(self).store().len(),
            prop_tree.is_sentence(),
            !(prop_tree.root is ARole),
            all_sentences(old(leaf)@),
            all_sentences(old(unmatched)@),
            old(self).names().len() + 2 * steps + 2 <= usize::MAX,
            prop_tree.nodes@.last().data == Concept::Or(a, b),
        ensures
            final(self).expanded(
                old(self),
                id,
                &prop_tree,
                old(leaf)@,
                old(unmatched)@,
                final(leaf)@,
                final(unmatched)@,
                steps,
                decided,
            ),
        decreases steps, 3nat,
    {
        proof {
            lemma_extends_itself(self.store());
            lemma_extends_itself(self.names());
        }
        assert(prop_tree.nodes@.last().data.below(prop_tree.nodes@.len() - 1));
        let tree_a = prop_tree.clone_subtree(a);
        let tree_b = prop_tree.clone_subtree(b);
        let mut leaf_a = clone_worklist(leaf);
        let mut unmatched_a = clone_worklist(unmatched);
        let mut extra_a: Vec<PropTree> = Vec::new();
        extra_a.push(tree_a);
        let mut extra_b: Vec<PropTree> = Vec::new();
        extra_b.push(tree_b);
        proof {
            assert(statements(extra_a@) =~= seq![tree_a@]);
            assert(statements(extra_b@) =~= seq![tree_b@]);
            assert(statements(leaf@) + statements(extra_a@) =~= statements(leaf@).push(
                tree_a@,
            ));
            assert(statements(leaf@) + statements(extra_b@) =~= statements(leaf@).push(
                tree_b@,
            ));
        }
        let first = self.descend(id, &mut leaf_a, &mut extra_a, &mut unmatched_a, steps);
        match first.0 {
            Some(true) => {
                let ghost between = *self;
                proof {
                    match id {
                        Some(k) => {
                            self.lemma_branch_kept(*old(self), k);
                        },
                        None => {},
                    }
                }
                let second = self.descend(id, leaf, &mut extra_b, unmatched, first.1);
                proof {
                    lemma_extends_twice(self.store(), between.store(), old(self).store());
                    lemma_extends_twice(self.names(), between.names(), old(self).names());
                    lemma_unnamed_twice(self.names(), between.names(), old(self).names());
                }
                Some(second)
            },
            _ => Some(first),
        }
    }

    /// Expands a negation: a negated atom is a literal, any other operand is
    /// negated one step.
    fn expand_not(
        &mut self,
        id: Option<usize>,
        prop_tree: PropTree,
        a: usize,
        leaf: &mut Vec<PropTree>,
        unmatched: &mut Vec<PropTree>,
        steps: usize,
    ) -> (decided: Option<(Option<bool>, usize)>)
        requires
            old(self).wf(),
            id matches Some(k) ==> k < old(self).store().len(),
            prop_tree.is_sentence(),
            !(prop_tree.root is ARole),
            all_sentences(old(leaf)@),
            all_sentences(old(unmatched)@),
            old(self).names().len() + 2 * steps + 2 <= usize::MAX,
            prop_tree.nodes@.last().data == Concept::Not(a),
        ensures
            final(self).expanded(
                old(self),
                id,
                &prop_tree,
                old(leaf)@,
                old(unmatched)@,
                final(leaf)@,
                final(unmatched)@,
                steps,
                decided,
            ),
        decreases steps, 3nat,
    {
        let ghost f = prop_tree.formula();
        proof {
            lemma_extends_itself(self.store());
            lemma_extends_itself(self.names());
        }
        assert(prop_tree.nodes@.last().data.below(prop_tree.nodes@.len() - 1));
        assert(prop_tree.nodes@[a as int].data.below(a as int));
        assert(f == Formula::Not(Box::new(formula_at(prop_tree.nodes@, a as int))));
        match prop_tree.nodes[a].data {
            Concept::Atom(aid) => {
                if aid == TOP {
                    Some((Some(true), steps))
                } else if aid == BOTTOM {
                    None
                } else {
                    Some(self.put_on_branch(id, prop_tree, leaf, unmatched, steps))
                }
            },
            _ => {
                let negated = prop_tree.cut_to(a).negate();
                let mut extra: Vec<PropTree> = Vec::new();
                extra.push(negated);
                proof {
                    assert(statements(extra@) =~= seq![negated@]);
                    assert(statements(leaf@) + statements(extra@) =~= statements(
                        leaf@,
                    ).push(negated@));
                }
                Some(self.descend(id, leaf, &mut extra, unmatched, steps))
            },
        }
    }

    /// Expands an atom: `Top` is dropped, `Bottom` closes the branch, any
    /// other atom is a literal.
    fn expand_atom(
        &mut self,
        id: Option<usize>,
        prop_tree: PropTree,
        aid: usize,
        leaf: &mut Vec<PropTree>,
        unmatched: &mut Vec<PropTree>,
        steps: usize,
    ) -> (decided: Option<(Option<bool>, usize)>)
        requires
            old(self).wf(),
            id matches Some(k) ==> k < old(self).store().len(),
            prop_tree.is_sentence(),
            !(prop_tree.root is ARole),
            all_sentences(old(leaf)@),
            all_sentences(old(unmatched)@),
            old(self).names().len() + 2 * steps + 2 <= usize::MAX,
            prop_tree.nodes@.last().data == Concept::Atom(aid),
        ensures
            final(self).expanded(
                old(self),
                id,
                &prop_tree,
                old(leaf)@,
                old(unmatched)@,
                final(leaf)@,
                final(unmatched)@,
                steps,
                decided,
            ),
        decreases steps, 3nat,
    {
        proof {
            lemma_extends_itself(self.store());
            lemma_extends_itself(self.names());
        }
        assert(prop_tree.nodes@.last().data.below(prop_tree.nodes@.len() - 1));
        if aid == TOP {
            None
        } else if aid == BOTTOM {
            Some((Some(true), steps))
        } else {
            Some(self.put_on_branch(id, prop_tree, leaf, unmatched, steps))
        }
    }

    /// Replaces a universal restriction by its body stated of every
    /// individual that a matching role assertion on the branch leads to, or
    /// defers it where there is none.
    fn expand_for_all(
        &mut self,
        id: Option<usize>,
        prop_tree: PropTree,
        role: usize,
        a: usize,
        leaf: &mut Vec<PropTree>,
        unmatched: &mut Vec<PropTree>,
        steps: usize,
    ) -> (decided: Option<(Option<bool>, usize)>)
        requires
            old(self).wf(),
            id matches Some(k) ==> k < old(self).store().len(),
            prop_tree.is_sentence(),
            !(prop_tree.root is ARole),
            all_sentences(old(leaf)@),
            all_sentences(old(unmatched)@),
            old(self).names().len() + 2 * steps + 2 <= usize::MAX,
            prop_tree.nodes@.last().data == Concept::ForAll(role, a),
        ensures
            final(self).expanded(
                old(self),
                id,
                &prop_tree,
                old(leaf)@,
                old(unmatched)@,
                final(leaf)@,
                final(unmatched)@,
                steps,
                decided,
            ),
        decreases steps, 3nat,
    {
        let ghost branch = self.branch(id);
        let ghost p = prop_tree@;
        proof {
            lemma_extends_itself(self.store());
            lemma_extends_itself(self.names());
        }
        assert(prop_tree.nodes@.last().data.below(prop_tree.nodes@.len() - 1));
        let anchor = match prop_tree.root {
            Proposition::AConcept(ind) => Some(ind),
            _ => None,
        };
        let targets = match id {
            Some(k) => self.upmatch_role(k, (true, role, anchor)),
            None => Vec::new(),
        };
        proof {
            assert(anchor_of(anchor) == p.subject());
            assert(individuals(targets@) =~= role_targets(
                branch,
                true,
                role as nat,
                p.subject(),
            ));
        }
        if targets.len() == 0 {
            proof {
                lemma_statements_push(unmatched@, prop_tree);
            }
            unmatched.push(prop_tree);
            None
        } else {
            let body = prop_tree.cut_to(a);
            let mut extra = Self::instantiate(&body, &targets);
            Some(self.descend(id, leaf, &mut extra, unmatched, steps))
        }
    }

    /// Replaces an existential restriction by a role assertion between two
    /// new individuals and its body stated of the second.
    fn expand_exist(
        &mut self,
        id: Option<usize>,
        prop_tree: PropTree,
        role: usize,
        a: usize,
        leaf: &mut Vec<PropTree>,
        unmatched: &mut Vec<PropTree>,
        steps: usize,
    ) -> (decided: Option<(Option<bool>, usize)>)
        requires
            old(self).wf(),
            id matches Some(k) ==> k < old(self).store().len(),
            prop_tree.is_sentence(),
            !(prop_tree.root is ARole),
            all_sentences(old(leaf)@),
            all_sentences(old(unmatched)@),
            old(self).names().len() + 2 * steps + 2 <= usize::MAX,
            prop_tree.nodes@.last().data == Concept::Exist(role, a),
        ensures
            final(self).expanded(
                old(self),
                id,
                &prop_tree,
                old(leaf)@,
                old(unmatched)@,
                final(leaf)@,
                final(unmatched)@,
                steps,
                decided,
            ),
        decreases steps, 3nat,
    {
        proof {
            lemma_extends_itself(self.store());
            lemma_extends_itself(self.names());
        }
        assert(prop_tree.nodes@.last().data.below(prop_tree.nodes@.len() - 1));
        let x = self.alloc_aid(None);
        let y = self.alloc_aid(None);
        let link = PropTree::new(&Proposition::ARole(true, role, x, y));
        let mut body = prop_tree.cut_to(a);
        body.root = Proposition::AConcept(y);
        let mut extra: Vec<PropTree> = Vec::new();
        extra.push(link);
        extra.push(body);
        let ghost between = *self;
        proof {
            assert(statements(extra@) =~= seq![link@, body@]);
            assert(statements(leaf@) + statements(extra@) =~= statements(leaf@).push(
                link@,
            ).push(body@));
            assert(between.names().subrange(0, old(self).names().len() as int) =~= old(
                self,
            ).names());
            lemma_extends_itself(self.store());
        }
        proof {
            assert(unnamed_from(between.names(), old(self).names().len()));
        }
        let result = self.descend(id, leaf, &mut extra, unmatched, steps);
        proof {
            lemma_extends_twice(self.store(), between.store(), old(self).store());
            lemma_extends_twice(self.names(), between.names(), old(self).names());
            lemma_unnamed_twice(self.names(), between.names(), old(self).names());
        }
        Some(result)
    }

    /// Runs the tableau search for the sentences `leaf`, of which the last
    /// is taken first, with `budget` steps to spend. Returns `Some(true)`
    /// where every branch closes, so that the sentences cannot hold
    /// together, `Some(false)` where a branch stays open, and `None` where
    /// the budget ran out before either was found.
    pub fn prove(&mut self, leaf: Vec<PropTree>, budget: usize) -> (verdict: Option<bool>)
        requires
            old(self).wf(),
            all_sentences(leaf@),
            old(self).names().len() + 2 * budget <= usize::MAX,
        ensures
            final(self).wf(),
            extends(final(self).store(), old(self).store()),
            extends(final(self).names(), old(self).names()),
            unnamed_from(final(self).names(), old(self).names().len()),
            verdict == search(
                Seq::empty(),
                statements(leaf@),
                old(self).names().len(),
                budget as nat,
            ).verdict,
            final(self).names().len() == search(
                Seq::empty(),
                statements(leaf@),
                old(self).names().len(),
                budget as nat,
            ).symbols,
    {
        self.prove_recurse(None, leaf, budget).0
    }

    /// The branch of a node stays what it was when the store is extended.
    proof fn lemma_branch_kept(&self, before: TruthTree, k: usize)
        requires
            before.wf(),
            k < before.store().len(),
            extends(self.store(), before.store()),
        ensures
            self.branch(Some(k)) == before.branch(Some(k)),
    {
        let more = self.store().subrange(before.store().len() as int, self.store().len() as int);
        assert(self.store() =~= before.store() + more);
        lemma_path_kept(before.store(), more, k as int);
    }

    /// The table stays consistent when one name is appended and, unless it
    /// was known, entered in the other direction.
    proof fn lemma_entered(&self, before: TruthTree, s: Seq<char>)
        requires
            before.wf(),
            self.aid_max == before.aid_max + 1,
            self.nodes == before.nodes,
            self.names() == before.names().push(s),
            forall|k: usize| self.name_dict@.contains_key(k) <==> k <= self.aid_max,
            self.name_dict@[0] == before.name_dict@[0],
            self.name_dict@[1] == before.name_dict@[1],
            self.rev_dict@ == if before.rev_dict@.contains_key(s) {
                before.rev_dict@
            } else {
                before.rev_dict@.insert(s, self.aid_max)
            },
        ensures
            self.wf(),
    {
        let old_names = before.names();
        let new_names = self.names();
        assert forall|t: Seq<char>| self.rev_dict@.contains_key(t) <==> new_names.contains(
            t,
        ) by {
            if new_names.contains(t) {
                let i = choose|i: int| 0 <= i < new_names.len() && new_names[i] == t;
                if i < old_names.len() {
                    assert(old_names[i] == t);
                    assert(old_names.contains(t));
                } else {
                    assert(t == s);
                }
                assert(self.rev_dict@.contains_key(t));
            }
            if self.rev_dict@.contains_key(t) {
                if before.rev_dict@.contains_key(t) {
                    assert(old_names.contains(t));
                    let i = choose|i: int| 0 <= i < old_names.len() && old_names[i] == t;
                    assert(new_names[i] == t);
                } else {
                    assert(new_names[old_names.len() as int] == t);
                }
                assert(new_names.contains(t));
            }
        }
        assert forall|t: Seq<char>| #[trigger] self.rev_dict@.contains_key(t) implies is_first(
            new_names,
            t,
            self.rev_dict@[t] as int,
        ) by {
            if before.rev_dict@.contains_key(t) {
                let i = before.rev_dict@[t] as int;
                assert(is_first(old_names, t, i));
                assert(new_names[i] == t);
                assert forall|j: int| 0 <= j < i implies new_names[j] != t by {
                    assert(new_names[j] == old_names[j]);
                }
            } else {
                assert(t == s);
                assert(!old_names.contains(s));
                assert forall|j: int| 0 <= j < old_names.len() implies new_names[j] != t by {
                    assert(new_names[j] == old_names[j]);
                }
            }
        }
    }
}

impl Default for TruthTree {
    fn default() -> (tree: TruthTree)
        ensures
            tree.wf(),
            tree.names() == seq!["Top"@, "Bottom"@],
            tree.store() == Seq::<TruthTreeNode>::empty(),
    {
        TruthTree::new()
    }
}

} // verus!
