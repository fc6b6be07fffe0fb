//! From tokens to sentences.
//!
//! The reader keeps a stack of tokens and builds the concept graph bottom
//! up. A closing parenthesis takes the operands back to the matching opening
//! one off the stack, each identifier among them becoming an atom, then the
//! token before that parenthesis, and puts the position of the node made
//! for them in their place. `>` and `=` are written out in `!`, `|` and `&`.
//! An identifier where an operator is expected makes the sentence an
//! assertion about individuals, and ends the reading: what follows is not
//! looked at.

use crate::lexer::characters;
use crate::lexer::lemma_tokens_from;
use crate::lexer::lex;
use crate::lexer::spans_within;
use crate::lexer::tokens;
use crate::lexer::TokenOrUnit;
use crate::prop_tree::graph_wf;
use crate::prop_tree::node_at;
use crate::prop_tree::Concept;
use crate::prop_tree::PropTree;
use crate::prop_tree::PropTreeNode;
use crate::prop_tree::Proposition;
use crate::symbols::symbol_of;
use crate::symbols::with_name;
use crate::truth_tree::extends;
use crate::truth_tree::lemma_extends_itself;
use crate::truth_tree::lemma_extends_twice;
use crate::truth_tree::TruthTree;
use vstd::prelude::*;

verus! {

/// Why a text is not a sentence.
#[derive(Clone, Copy, Debug, PartialEq, Eq)]
pub enum ParseError {
    /// A character that belongs to no token.
    UnexpectedCharacter(char),
    /// An operator or a stray character among the operands of a
    /// parenthesis.
    OperatorInArguments,
    /// A closing parenthesis without an opening one, or tokens left over at
    /// the end.
    UnbalancedParentheses,
    /// No operator or identifier before an opening parenthesis.
    MissingOperator,
    /// The wrong number of operands.
    WrongArity,
    /// A concept where the name of a role or of an individual must stand.
    ExpectedIdentifier,
    /// An assertion about individuals inside another sentence.
    MisplacedAssertion,
    /// An operator or an opening parenthesis at the end.
    TrailingOperator,
    /// No token at all.
    Empty,
}

/// The state of the reader: its stack, the graph built so far and the
/// symbol table.
pub struct Parsing {
    pub stack: Seq<TokenOrUnit>,
    pub nodes: Seq<PropTreeNode>,
    pub names: Seq<Seq<char>>,
}

/// A sentence that was read, and the symbol table after it.
pub struct Parsed {
    pub root: Proposition,
    pub nodes: Seq<PropTreeNode>,
    pub names: Seq<Seq<char>>,
}

/// Why the reading stopped, and the symbol table at that point.
pub struct Failure {
    pub error: ParseError,
    pub names: Seq<Seq<char>>,
}

/// What one token does to the reader.
pub enum Progress {
    Going(Parsing),
    Done(Parsed),
    Failed(Failure),
}

/// The failure `error` with the symbol table `names`.
pub open spec fn failed(error: ParseError, names: Seq<Seq<char>>) -> Progress {
    Progress::Failed(Failure { error, names })
}

/// The operands taken off the stack, and the reader after that.
pub struct Collected {
    pub state: Parsing,
    pub args: Seq<usize>,
}

/// The symbol of the atom `c`; 0 where `c` is no atom.
pub open spec fn atom_of(c: Concept) -> usize {
    match c {
        Concept::Atom(a) => a,
        _ => 0,
    }
}

/// Takes the operands of a closing parenthesis off the stack, the last one
/// first, down to and including the opening parenthesis. An identifier is
/// entered into the symbol table and becomes an atom; `args` grows by the
/// position of each operand.
pub open spec fn collect(chars: Seq<char>, st: Parsing, args: Seq<usize>) -> Result<
    Collected,
    Failure,
>
    decreases st.stack.len(),
{
    if st.stack.len() == 0 {
        Err(Failure { error: ParseError::UnbalancedParentheses, names: st.names })
    } else {
        let rest = st.stack.drop_last();
        match st.stack.last() {
            TokenOrUnit::LeftParenthesis => Ok(
                Collected {
                    state: Parsing { stack: rest, nodes: st.nodes, names: st.names },
                    args,
                },
            ),
            TokenOrUnit::Ident(from, to) => {
                let name = chars.subrange(from as int, to as int);
                let n = st.nodes.len() as int;
                collect(
                    chars,
                    Parsing {
                        stack: rest,
                        nodes: st.nodes.push(
                            node_at(n, Concept::Atom(symbol_of(st.names, name) as usize)),
                        ),
                        names: with_name(st.names, name),
                    },
                    args.push(n as usize),
                )
            },
            TokenOrUnit::Unit(i) => collect(
                chars,
                Parsing { stack: rest, nodes: st.nodes, names: st.names },
                args.push(i),
            ),
            _ => Err(Failure { error: ParseError::OperatorInArguments, names: st.names }),
        }
    }
}

/// The reader after the node `c` was appended and its position put on the
/// stack `rest`.
pub open spec fn pushed(
    rest: Seq<TokenOrUnit>,
    nodes: Seq<PropTreeNode>,
    names: Seq<Seq<char>>,
    c: Concept,
) -> Parsing {
    let n = nodes.len() as int;
    Parsing {
        stack: rest.push(TokenOrUnit::Unit(n as usize)),
        nodes: nodes.push(node_at(n, c)),
        names,
    }
}

/// What the token `slot` before an opening parenthesis makes of the
/// operands `args`, which stand in `args` last operand first.
///
/// * `&`, `|`, `>`, `=` take two operands, `!` takes one.
/// * `@` and `#` take a role and a body; the role must be an identifier,
///   and its atom, the last node, gives way to the restriction.
/// * An identifier makes an assertion. With one operand it names a concept
///   and the operand the individual; with two it names a role and the
///   operands the two individuals. The operands must be identifiers.
///   Nothing may stand before a concept assertion, and before a role
///   assertion nothing but `!(`, which negates it.
pub open spec fn apply(
    chars: Seq<char>,
    slot: TokenOrUnit,
    rest: Seq<TokenOrUnit>,
    nodes: Seq<PropTreeNode>,
    names: Seq<Seq<char>>,
    args: Seq<usize>,
) -> Progress {
    let n = nodes.len() as int;
    match slot {
        TokenOrUnit::And => if args.len() != 2 {
            failed(ParseError::WrongArity, names)
        } else {
            Progress::Going(pushed(rest, nodes, names, Concept::And(args[1], args[0])))
        },
        TokenOrUnit::Or => if args.len() != 2 {
            failed(ParseError::WrongArity, names)
        } else {
            Progress::Going(pushed(rest, nodes, names, Concept::Or(args[1], args[0])))
        },
        TokenOrUnit::Not => if args.len() != 1 {
            failed(ParseError::WrongArity, names)
        } else {
            Progress::Going(pushed(rest, nodes, names, Concept::Not(args[0])))
        },
        TokenOrUnit::Imply => if args.len() != 2 {
            failed(ParseError::WrongArity, names)
        } else {
            let first = nodes.push(node_at(n, Concept::Not(args[1])));
            Progress::Going(pushed(rest, first, names, Concept::Or(n as usize, args[0])))
        },
        TokenOrUnit::Xnor => if args.len() != 2 {
            failed(ParseError::WrongArity, names)
        } else {
            let built = nodes.push(node_at(n, Concept::Not(args[1]))).push(
                node_at(n + 1, Concept::Or(n as usize, args[0])),
            ).push(node_at(n + 2, Concept::Not(args[0]))).push(
                node_at(n + 3, Concept::Or((n + 2) as usize, args[1])),
            );
            Progress::Going(
                pushed(rest, built, names, Concept::And((n + 1) as usize, (n + 3) as usize)),
            )
        },
        TokenOrUnit::ForAll => if args.len() != 2 {
            failed(ParseError::WrongArity, names)
        } else if !role_is_last(nodes, args) {
            failed(ParseError::ExpectedIdentifier, names)
        } else {
            Progress::Going(
                pushed(
                    rest,
                    nodes.drop_last(),
                    names,
                    Concept::ForAll(atom_of(nodes.last().data), args[0]),
                ),
            )
        },
        TokenOrUnit::Exist => if args.len() != 2 {
            failed(ParseError::WrongArity, names)
        } else if !role_is_last(nodes, args) {
            failed(ParseError::ExpectedIdentifier, names)
        } else {
            Progress::Going(
                pushed(
                    rest,
                    nodes.drop_last(),
                    names,
                    Concept::Exist(atom_of(nodes.last().data), args[0]),
                ),
            )
        },
        TokenOrUnit::Ident(from, to) => {
            let name = chars.subrange(from as int, to as int);
            if args.len() == 1 {
                if rest.len() != 0 {
                    failed(ParseError::MisplacedAssertion, names)
                } else if !(n == 1 && nodes[0].data is Atom) {
                    failed(ParseError::ExpectedIdentifier, names)
                } else {
                    Progress::Done(
                        Parsed {
                            root: Proposition::AConcept(atom_of(nodes[0].data)),
                            nodes: seq![
                                node_at(0, Concept::Atom(symbol_of(names, name) as usize)),
                            ],
                            names: with_name(names, name),
                        },
                    )
                }
            } else if args.len() == 2 {
                if !(rest.len() == 0 || rest == negation_prefix()) {
                    failed(ParseError::MisplacedAssertion, names)
                } else if !(n == 2 && nodes[0].data is Atom && nodes[1].data is Atom) {
                    failed(ParseError::ExpectedIdentifier, names)
                } else {
                    Progress::Done(
                        Parsed {
                            root: Proposition::ARole(
                                rest.len() == 0,
                                symbol_of(names, name) as usize,
                                atom_of(nodes[1].data),
                                atom_of(nodes[0].data),
                            ),
                            nodes: Seq::empty(),
                            names: with_name(names, name),
                        },
                    )
                }
            } else {
                failed(ParseError::WrongArity, names)
            }
        },
        _ => failed(ParseError::MissingOperator, names),
    }
}

/// Whether the second of the two operands taken off the stack, the role of
/// a restriction, is the atom that stands last, after the body.
pub open spec fn role_is_last(nodes: Seq<PropTreeNode>, args: Seq<usize>) -> bool {
    &&& nodes.len() > 0
    &&& nodes.last().data is Atom
    &&& args[1] + 1 == nodes.len()
    &&& args[0] < args[1]
}

/// The two tokens that may stand before a role assertion, to negate it.
pub open spec fn negation_prefix() -> Seq<TokenOrUnit> {
    seq![TokenOrUnit::Not, TokenOrUnit::LeftParenthesis]
}

/// What a closing parenthesis does to the reader.
pub open spec fn reduce(chars: Seq<char>, st: Parsing) -> Progress {
    match collect(chars, st, Seq::empty()) {
        Err(e) => Progress::Failed(e),
        Ok(c) => if c.state.stack.len() == 0 {
            failed(ParseError::MissingOperator, c.state.names)
        } else {
            apply(
                chars,
                c.state.stack.last(),
                c.state.stack.drop_last(),
                c.state.nodes,
                c.state.names,
                c.args,
            )
        },
    }
}

/// What the token `tok` does to the reader.
pub open spec fn feed(chars: Seq<char>, st: Parsing, tok: TokenOrUnit) -> Progress {
    match tok {
        TokenOrUnit::Unexpected(c) => failed(ParseError::UnexpectedCharacter(c), st.names),
        TokenOrUnit::RightParenthesis => reduce(chars, st),
        _ => Progress::Going(
            Parsing { stack: st.stack.push(tok), nodes: st.nodes, names: st.names },
        ),
    }
}

/// The sentence at the end of the tokens: the stack must hold one thing, the
/// position of the outermost node or a lone identifier, which becomes an
/// atom.
pub open spec fn finish(chars: Seq<char>, st: Parsing) -> Result<Parsed, Failure> {
    if st.stack.len() == 0 {
        Err(Failure { error: ParseError::Empty, names: st.names })
    } else {
        match st.stack.last() {
            TokenOrUnit::Unit(_) => if st.stack.len() > 1 {
                Err(Failure { error: ParseError::UnbalancedParentheses, names: st.names })
            } else {
                Ok(Parsed { root: Proposition::TConcept, nodes: st.nodes, names: st.names })
            },
            TokenOrUnit::Ident(from, to) => if st.stack.len() > 1 {
                Err(Failure { error: ParseError::UnbalancedParentheses, names: st.names })
            } else {
                let name = chars.subrange(from as int, to as int);
                Ok(
                    Parsed {
                        root: Proposition::TConcept,
                        nodes: st.nodes.push(
                            node_at(
                                st.nodes.len() as int,
                                Concept::Atom(symbol_of(st.names, name) as usize),
                            ),
                        ),
                        names: with_name(st.names, name),
                    },
                )
            },
            _ => Err(Failure { error: ParseError::TrailingOperator, names: st.names }),
        }
    }
}

/// Reads the tokens `toks` from position `at` on.
pub open spec fn run(chars: Seq<char>, toks: Seq<TokenOrUnit>, at: int, st: Parsing) -> Result<
    Parsed,
    Failure,
>
    decreases toks.len() - at,
{
    if !(0 <= at < toks.len()) {
        finish(chars, st)
    } else {
        match feed(chars, st, toks[at]) {
            Progress::Going(next) => run(chars, toks, at + 1, next),
            Progress::Done(parsed) => Ok(parsed),
            Progress::Failed(e) => Err(e),
        }
    }
}

/// The sentence that the text `chars` stands for, with the symbol table
/// `names` to begin with.
pub open spec fn parse(chars: Seq<char>, names: Seq<Seq<char>>) -> Result<Parsed, Failure> {
    run(
        chars,
        tokens(chars),
        0,
        Parsing { stack: Seq::empty(), nodes: Seq::empty(), names },
    )
}

/// Whether every node position on the stack is that of a node of `nodes`
/// that is no atom.
pub open spec fn units_below(stack: Seq<TokenOrUnit>, nodes: Seq<PropTreeNode>) -> bool {
    forall|i: int|
        0 <= i < stack.len() ==> (#[trigger] stack[i] matches TokenOrUnit::Unit(u) ==> u
            < nodes.len() && !(nodes[u as int].data is Atom))
}

/// Whether a node position on top of the stack is that of the last of `len`
/// nodes.
pub open spec fn top_is_last(stack: Seq<TokenOrUnit>, len: nat) -> bool {
    stack.len() > 0 ==> (stack.last() matches TokenOrUnit::Unit(u) ==> u + 1 == len)
}

/// The reader that holds `stack`, the graph of `tree` and the symbols of
/// `table`.
pub open spec fn reader(stack: Seq<TokenOrUnit>, tree: &PropTree, table: &TruthTree) -> Parsing {
    Parsing { stack, nodes: tree.nodes@, names: table.names() }
}

/// Whether the graph of the reader `st` is well formed and its stack refers
/// to the text and to the graph only.
pub open spec fn reader_ok(st: Parsing, text_len: nat) -> bool {
    &&& graph_wf(st.nodes)
    &&& spans_within(st.stack, text_len)
    &&& units_below(st.stack, st.nodes)
}

/// Entering a name leaves the names before it where they were.
pub proof fn lemma_with_name_extends(names: Seq<Seq<char>>, s: Seq<char>)
    ensures
        extends(with_name(names, s), names),
        names.len() <= with_name(names, s).len() <= names.len() + 1,
{
    assert(with_name(names, s).subrange(0, names.len() as int) =~= names);
}

/// Enters the stretch of `text` from `from` up to `to` into the symbol
/// table.
fn intern_span(text: &str, truth_tree: &mut TruthTree, from: usize, to: usize) -> (id: usize)
    requires
        old(truth_tree).wf(),
        old(truth_tree).names().len() <= usize::MAX,
        from <= to <= text@.len(),
    ensures
        final(truth_tree).wf(),
        final(truth_tree).store() == old(truth_tree).store(),
        id == symbol_of(old(truth_tree).names(), text@.subrange(from as int, to as int)),
        final(truth_tree).names() == with_name(
            old(truth_tree).names(),
            text@.subrange(from as int, to as int),
        ),
{
    let name = String::from_str(text.substring_char(from, to));
    truth_tree.alloc_aid(Some(name))
}

/// Takes the operands of a closing parenthesis off `stack`, down to and
/// including the opening parenthesis, and returns their positions, the last
/// operand first.
fn gather(
    text: &str,
    truth_tree: &mut TruthTree,
    stack: &mut Vec<TokenOrUnit>,
    tree: &mut PropTree,
) -> (result: Result<Vec<usize>, ParseError>)
    requires
        old(truth_tree).wf(),
        reader_ok(reader(old(stack)@, old(tree), old(truth_tree)), text@.len()),
        old(truth_tree).names().len() + old(stack)@.len() <= usize::MAX,
    ensures
        final(truth_tree).wf(),
        final(truth_tree).store() == old(truth_tree).store(),
        extends(final(truth_tree).names(), old(truth_tree).names()),
        final(tree).root == old(tree).root,
        match (
            result,
            collect(text@, reader(old(stack)@, old(tree), old(truth_tree)), Seq::empty()),
        ) {
            (Ok(args), Ok(c)) => {
                &&& args@ == c.args
                &&& reader(final(stack)@, final(tree), final(truth_tree)) == c.state
                &&& reader_ok(c.state, text@.len())
                &&& forall|j: int| 0 <= j < args@.len() ==> args@[j] < c.state.nodes.len()
                &&& c.state.names.len() + c.state.stack.len() + 1 <= old(
                    truth_tree,
                ).names().len() + old(stack)@.len()
            },
            (Err(e), Err(f)) => e == f.error && final(truth_tree).names() == f.names,
            _ => false,
        },
{
    let ghost goal = collect(text@, reader(stack@, tree, truth_tree), Seq::empty());
    let mut args: Vec<usize> = Vec::new();
    proof {
        lemma_extends_itself(truth_tree.names());
    }
    loop
        invariant
            truth_tree.wf(),
            truth_tree.store() == old(truth_tree).store(),
            extends(truth_tree.names(), old(truth_tree).names()),
            tree.root == old(tree).root,
            reader_ok(reader(stack@, tree, truth_tree), text@.len()),
            truth_tree.names().len() + stack@.len() <= old(truth_tree).names().len() + old(
                stack,
            )@.len(),
            old(truth_tree).names().len() + old(stack)@.len() <= usize::MAX,
            forall|j: int| 0 <= j < args@.len() ==> args@[j] < tree.nodes@.len(),
            collect(text@, reader(stack@, tree, truth_tree), args@) == goal,
            goal == collect(
                text@,
                reader(old(stack)@, old(tree), old(truth_tree)),
                Seq::empty(),
            ),
        decreases stack@.len(),
    {
        let ghost before = stack@;
        let ghost names = truth_tree.names();
        let top = match stack.pop() {
            Some(top) => top,
            None => {
                return Err(ParseError::UnbalancedParentheses);
            },
        };
        assert(stack@ =~= before.drop_last());
        assert(top == before.last());
        match top {
            TokenOrUnit::LeftParenthesis => {
                return Ok(args);
            },
            TokenOrUnit::Ident(from, to) => {
                let id = intern_span(text, truth_tree, from, to);
                let pos = tree.push_node(Concept::Atom(id));
                args.push(pos);
                proof {
                    lemma_with_name_extends(names, text@.subrange(from as int, to as int));
                    lemma_extends_twice(truth_tree.names(), names, old(truth_tree).names());
                }
            },
            TokenOrUnit::Unit(i) => {
                args.push(i);
            },
            _ => {
                return Err(ParseError::OperatorInArguments);
            },
        }
    }
}

/// Whether the node `node` is an atom.
fn is_atom(node: &PropTreeNode) -> (yes: bool)
    ensures
        yes == (node.data is Atom),
{
    match node.data {
        Concept::Atom(_) => true,
        _ => false,
    }
}

/// Whether `stack` holds `!(` and nothing else.
fn is_negation_prefix(stack: &Vec<TokenOrUnit>) -> (yes: bool)
    ensures
        yes == (stack@ == negation_prefix()),
{
    if stack.len() != 2 {
        return false;
    }
    let yes = match stack[0] {
        TokenOrUnit::Not => match stack[1] {
            TokenOrUnit::LeftParenthesis => true,
            _ => false,
        },
        _ => false,
    };
    if yes {
        assert(stack@ =~= negation_prefix());
    } else {
        assert(stack@[0] != negation_prefix()[0] || stack@[1] != negation_prefix()[1]);
    }
    yes
}

/// Appends `concept` to the graph and puts its position on the stack.
fn push_unit(stack: &mut Vec<TokenOrUnit>, tree: &mut PropTree, concept: Concept)
    requires
        old(tree).wf(),
        concept.below(old(tree).nodes@.len() as int),
        !(concept is Atom),
        units_below(old(stack)@, old(tree).nodes@),
    ensures
        final(tree).root == old(tree).root,
        final(tree).wf(),
        final(tree).nodes@ == old(tree).nodes@.push(
            node_at(old(tree).nodes@.len() as int, concept),
        ),
        final(stack)@ == old(stack)@.push(TokenOrUnit::Unit(old(tree).nodes@.len() as usize)),
        units_below(final(stack)@, final(tree).nodes@),
        top_is_last(final(stack)@, final(tree).nodes@.len()),
{
    let id = tree.push_node(concept);
    stack.push(TokenOrUnit::Unit(id));
}

/// Reads a closing parenthesis. Returns `true` where the sentence turned
/// out to be an assertion about individuals, which `tree` then holds.
fn close(
    text: &str,
    truth_tree: &mut TruthTree,
    stack: &mut Vec<TokenOrUnit>,
    tree: &mut PropTree,
) -> (result: Result<bool, ParseError>)
    requires
        old(truth_tree).wf(),
        reader_ok(reader(old(stack)@, old(tree), old(truth_tree)), text@.len()),
        old(truth_tree).names().len() + old(stack)@.len() <= usize::MAX,
    ensures
        final(truth_tree).wf(),
        final(truth_tree).store() == old(truth_tree).store(),
        extends(final(truth_tree).names(), old(truth_tree).names()),
        match (result, reduce(text@, reader(old(stack)@, old(tree), old(truth_tree)))) {
            (Ok(false), Progress::Going(next)) => {
                &&& reader(final(stack)@, final(tree), final(truth_tree)) == next
                &&& final(tree).root == old(tree).root
                &&& reader_ok(next, text@.len())
                &&& top_is_last(next.stack, next.nodes.len())
                &&& next.names.len() + next.stack.len() <= old(truth_tree).names().len() + old(
                    stack,
                )@.len()
            },
            (Ok(true), Progress::Done(parsed)) => {
                &&& final(tree).root == parsed.root
                &&& final(tree).nodes@ == parsed.nodes
                &&& final(truth_tree).names() == parsed.names
                &&& final(tree).is_sentence()
            },
            (Err(e), Progress::Failed(f)) => e == f.error && final(truth_tree).names() == f.names,
            _ => false,
        },
{
    let args = match gather(text, truth_tree, stack, tree) {
        Ok(args) => args,
        Err(e) => {
            return Err(e);
        },
    };
    let ghost gathered = reader(stack@, tree, truth_tree);
    let ghost between = truth_tree.names();
    let slot = match stack.pop() {
        Some(slot) => slot,
        None => {
            return Err(ParseError::MissingOperator);
        },
    };
    assert(stack@ =~= gathered.stack.drop_last());
    let n = tree.nodes.len();
    match slot {
        TokenOrUnit::And => {
            if args.len() != 2 {
                return Err(ParseError::WrongArity);
            }
            push_unit(stack, tree, Concept::And(args[1], args[0]));
            Ok(false)
        },
        TokenOrUnit::Or => {
            if args.len() != 2 {
                return Err(ParseError::WrongArity);
            }
            push_unit(stack, tree, Concept::Or(args[1], args[0]));
            Ok(false)
        },
        TokenOrUnit::Not => {
            if args.len() != 1 {
                return Err(ParseError::WrongArity);
            }
            push_unit(stack, tree, Concept::Not(args[0]));
            Ok(false)
        },
        TokenOrUnit::Imply => {
            if args.len() != 2 {
                return Err(ParseError::WrongArity);
            }
            let id = tree.push_node(Concept::Not(args[1]));
            push_unit(stack, tree, Concept::Or(id, args[0]));
            Ok(false)
        },
        TokenOrUnit::Xnor => {
            if args.len() != 2 {
                return Err(ParseError::WrongArity);
            }
            let id1 = tree.push_node(Concept::Not(args[1]));
            let id1 = tree.push_node(Concept::Or(id1, args[0]));
            let id2 = tree.push_node(Concept::Not(args[0]));
            let id2 = tree.push_node(Concept::Or(id2, args[1]));
            push_unit(stack, tree, Concept::And(id1, id2));
            Ok(false)
        },
        TokenOrUnit::ForAll => {
            if args.len() != 2 {
                return Err(ParseError::WrongArity);
            }
            if !(n > 0 && is_atom(&tree.nodes[n - 1]) && args[1] + 1 == n && args[0] < args[1]) {
                return Err(ParseError::ExpectedIdentifier);
            }
            let role = tree.pop_ident();
            push_unit(stack, tree, Concept::ForAll(role, args[0]));
            Ok(false)
        },
        TokenOrUnit::Exist => {
            if args.len() != 2 {
                return Err(ParseError::WrongArity);
            }
            if !(n > 0 && is_atom(&tree.nodes[n - 1]) && args[1] + 1 == n && args[0] < args[1]) {
                return Err(ParseError::ExpectedIdentifier);
            }
            let role = tree.pop_ident();
            push_unit(stack, tree, Concept::Exist(role, args[0]));
            Ok(false)
        },
        TokenOrUnit::Ident(from, to) => {
            proof {
                lemma_with_name_extends(between, text@.subrange(from as int, to as int));
            }
            if args.len() == 1 {
                if stack.len() != 0 {
                    return Err(ParseError::MisplacedAssertion);
                }
                if !(n == 1 && is_atom(&tree.nodes[0])) {
                    return Err(ParseError::ExpectedIdentifier);
                }
                let individual = tree.pop_ident();
                tree.root = Proposition::AConcept(individual);
                let id = intern_span(text, truth_tree, from, to);
                tree.push_node(Concept::Atom(id));
                proof {
                    lemma_extends_twice(truth_tree.names(), between, old(truth_tree).names());
                    assert(tree.nodes@ =~= seq![node_at(0, Concept::Atom(id))]);
                }
                Ok(true)
            } else if args.len() == 2 {
                let negated = is_negation_prefix(stack);
                if !(stack.len() == 0 || negated) {
                    return Err(ParseError::MisplacedAssertion);
                }
                if !(n == 2 && is_atom(&tree.nodes[0]) && is_atom(&tree.nodes[1])) {
                    return Err(ParseError::ExpectedIdentifier);
                }
                let positive = stack.len() == 0;
                let arg1 = tree.pop_ident();
                let arg2 = tree.pop_ident();
                let id = intern_span(text, truth_tree, from, to);
                tree.root = Proposition::ARole(positive, id, arg1, arg2);
                proof {
                    lemma_extends_twice(truth_tree.names(), between, old(truth_tree).names());
                    assert(tree.nodes@ =~= Seq::<PropTreeNode>::empty());
                }
                Ok(true)
            } else {
                Err(ParseError::WrongArity)
            }
        },
        _ => Err(ParseError::MissingOperator),
    }
}

impl PropTree {
    /// Reads the sentence that `string` stands for, entering its
    /// identifiers into the symbol table of `truth_tree`.
    pub fn from_string(string: &str, truth_tree: &mut TruthTree) -> (result: Result<
        PropTree,
        ParseError,
    >)
        requires
            old(truth_tree).wf(),
            old(truth_tree).names().len() + string@.len() <= usize::MAX,
        ensures
            final(truth_tree).wf(),
            final(truth_tree).store() == old(truth_tree).store(),
            extends(final(truth_tree).names(), old(truth_tree).names()),
            match (result, parse(string@, old(truth_tree).names())) {
                (Ok(tree), Ok(parsed)) => {
                    &&& tree.root == parsed.root
                    &&& tree.nodes@ == parsed.nodes
                    &&& final(truth_tree).names() == parsed.names
                    &&& tree.is_sentence()
                },
                (Err(e), Err(f)) => e == f.error && final(truth_tree).names() == f.names,
                _ => false,
            },
    {
        let chars = characters(string);
        let toks = lex(&chars);
        let mut tree = PropTree::new(&Proposition::TConcept);
        let mut stack: Vec<TokenOrUnit> = Vec::new();
        let mut at: usize = 0;
        let ghost goal = parse(string@, truth_tree.names());
        proof {
            lemma_tokens_from(string@, 0);
            lemma_extends_itself(truth_tree.names());
            assert(stack@ =~= Seq::<TokenOrUnit>::empty());
        }
        while at < toks.len()
            invariant
                at <= toks@.len(),
                toks@ == tokens(string@),
                toks@.len() <= string@.len(),
                spans_within(toks@, string@.len()),
                forall|i: int| 0 <= i < toks@.len() ==> !(#[trigger] toks@[i] is Unit),
                truth_tree.wf(),
                truth_tree.store() == old(truth_tree).store(),
                extends(truth_tree.names(), old(truth_tree).names()),
                tree.root == Proposition::TConcept,
                reader_ok(reader(stack@, &tree, truth_tree), string@.len()),
                top_is_last(stack@, tree.nodes@.len()),
                truth_tree.names().len() + stack@.len() + (toks@.len() - at) <= old(
                    truth_tree,
                ).names().len() + toks@.len(),
                old(truth_tree).names().len() + string@.len() <= usize::MAX,
                run(string@, toks@, at as int, reader(stack@, &tree, truth_tree)) == goal,
                goal == parse(string@, old(truth_tree).names()),
            decreases toks@.len() - at,
        {
            let ghost names = truth_tree.names();
            match toks[at] {
                TokenOrUnit::Unexpected(c) => {
                    return Err(ParseError::UnexpectedCharacter(c));
                },
                TokenOrUnit::RightParenthesis => {
                    match close(string, truth_tree, &mut stack, &mut tree) {
                        Err(e) => {
                            proof {
                                lemma_extends_twice(
                                    truth_tree.names(),
                                    names,
                                    old(truth_tree).names(),
                                );
                            }
                            return Err(e);
                        },
                        Ok(done) => {
                            proof {
                                lemma_extends_twice(
                                    truth_tree.names(),
                                    names,
                                    old(truth_tree).names(),
                                );
                            }
                            if done {
                                return Ok(tree);
                            }
                        },
                    }
                },
                tok => {
                    stack.push(tok);
                },
            }
            at += 1;
        }
        let ghost names = truth_tree.names();
        let ghost before = stack@;
        let top = match stack.pop() {
            Some(top) => top,
            None => {
                return Err(ParseError::Empty);
            },
        };
        assert(top == before.last());
        match top {
            TokenOrUnit::Unit(_) => {
                if stack.len() > 0 {
                    return Err(ParseError::UnbalancedParentheses);
                }
                Ok(tree)
            },
            TokenOrUnit::Ident(from, to) => {
                if stack.len() > 0 {
                    return Err(ParseError::UnbalancedParentheses);
                }
                let id = intern_span(string, truth_tree, from, to);
                tree.push_node(Concept::Atom(id));
                proof {
                    lemma_with_name_extends(names, string@.subrange(from as int, to as int));
                    lemma_extends_twice(truth_tree.names(), names, old(truth_tree).names());
                }
                Ok(tree)
            },
            _ => Err(ParseError::TrailingOperator),
        }
    }
}

} // verus!
