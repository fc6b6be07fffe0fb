//! The concepts of the surface syntax, and what the reader makes of them.
//!
//! A concept is an identifier, or an operator followed by its operands in
//! parentheses. The reader accepts the tokens of every concept, and the
//! graph it builds stands for the concept expression that the concept
//! means, with `>` and `=` written out.

use crate::formula::Formula;
use crate::lexer::TokenOrUnit;
use crate::parser::pushed;
use crate::parser::collect;
use crate::parser::feed;
use crate::parser::finish;
use crate::parser::reduce;
use crate::parser::run;
use crate::parser::Collected;
use crate::parser::Parsed;
use crate::parser::Parsing;
use crate::parser::Progress;
use crate::prop_tree::formula_at;
use crate::prop_tree::graph_wf;
use crate::prop_tree::lemma_formula_at_prefix;
use crate::prop_tree::node_at;
use crate::prop_tree::Concept;
use crate::prop_tree::PropTreeNode;
use crate::prop_tree::Proposition;
use crate::symbols::lemma_symbol_of_entered;
use crate::symbols::lemma_symbol_of_stable;
use crate::symbols::symbol_of;
use crate::symbols::with_name;
use crate::truth_tree::extends;
use vstd::prelude::*;

verus! {

/// A concept as it is written. An identifier is given by the stretch of
/// the text that it takes.
pub enum Sentence {
    Name(usize, usize),
    Not(Box<Sentence>),
    And(Box<Sentence>, Box<Sentence>),
    Or(Box<Sentence>, Box<Sentence>),
    Imply(Box<Sentence>, Box<Sentence>),
    Xnor(Box<Sentence>, Box<Sentence>),
    /// The role, then the body.
    ForAll(usize, usize, Box<Sentence>),
    /// The role, then the body.
    Exist(usize, usize, Box<Sentence>),
}

/// An operator token, an opening parenthesis, the tokens `inner` and a
/// closing parenthesis.
pub open spec fn wrapped(op: TokenOrUnit, inner: Seq<TokenOrUnit>) -> Seq<TokenOrUnit> {
    seq![op, TokenOrUnit::LeftParenthesis] + inner + seq![TokenOrUnit::RightParenthesis]
}

impl Sentence {
    /// The tokens that `self` is written with.
    pub open spec fn tokens(self) -> Seq<TokenOrUnit>
        decreases self,
    {
        match self {
            Sentence::Name(from, to) => seq![TokenOrUnit::Ident(from, to)],
            Sentence::Not(x) => wrapped(TokenOrUnit::Not, x.tokens()),
            Sentence::And(a, b) => wrapped(TokenOrUnit::And, a.tokens() + b.tokens()),
            Sentence::Or(a, b) => wrapped(TokenOrUnit::Or, a.tokens() + b.tokens()),
            Sentence::Imply(a, b) => wrapped(TokenOrUnit::Imply, a.tokens() + b.tokens()),
            Sentence::Xnor(a, b) => wrapped(TokenOrUnit::Xnor, a.tokens() + b.tokens()),
            Sentence::ForAll(from, to, b) => wrapped(
                TokenOrUnit::ForAll,
                seq![TokenOrUnit::Ident(from, to)] + b.tokens(),
            ),
            Sentence::Exist(from, to, b) => wrapped(
                TokenOrUnit::Exist,
                seq![TokenOrUnit::Ident(from, to)] + b.tokens(),
            ),
        }
    }

    /// The concept expression that `self` means, with the symbols of
    /// `names` for its identifiers: an implication is the disjunction of
    /// the negated first operand and the second, a biconditional the
    /// conjunction of the implications both ways.
    pub open spec fn meaning(self, chars: Seq<char>, names: Seq<Seq<char>>) -> Formula
        decreases self,
    {
        match self {
            Sentence::Name(from, to) => Formula::Atom(
                symbol_of(names, chars.subrange(from as int, to as int)),
            ),
            Sentence::Not(x) => Formula::Not(Box::new(x.meaning(chars, names))),
            Sentence::And(a, b) => Formula::And(
                Box::new(a.meaning(chars, names)),
                Box::new(b.meaning(chars, names)),
            ),
            Sentence::Or(a, b) => Formula::Or(
                Box::new(a.meaning(chars, names)),
                Box::new(b.meaning(chars, names)),
            ),
            Sentence::Imply(a, b) => implication(a.meaning(chars, names), b.meaning(chars, names)),
            Sentence::Xnor(a, b) => Formula::And(
                Box::new(implication(a.meaning(chars, names), b.meaning(chars, names))),
                Box::new(implication(b.meaning(chars, names), a.meaning(chars, names))),
            ),
            Sentence::ForAll(from, to, b) => Formula::ForAll(
                symbol_of(names, chars.subrange(from as int, to as int)),
                Box::new(b.meaning(chars, names)),
            ),
            Sentence::Exist(from, to, b) => Formula::Exist(
                symbol_of(names, chars.subrange(from as int, to as int)),
                Box::new(b.meaning(chars, names)),
            ),
        }
    }

    /// Whether every identifier of `self` stands in `names`.
    pub open spec fn known(self, chars: Seq<char>, names: Seq<Seq<char>>) -> bool
        decreases self,
    {
        match self {
            Sentence::Name(from, to) => names.contains(chars.subrange(from as int, to as int)),
            Sentence::Not(x) => x.known(chars, names),
            Sentence::And(a, b) => a.known(chars, names) && b.known(chars, names),
            Sentence::Or(a, b) => a.known(chars, names) && b.known(chars, names),
            Sentence::Imply(a, b) => a.known(chars, names) && b.known(chars, names),
            Sentence::Xnor(a, b) => a.known(chars, names) && b.known(chars, names),
            Sentence::ForAll(from, to, b) => names.contains(
                chars.subrange(from as int, to as int),
            ) && b.known(chars, names),
            Sentence::Exist(from, to, b) => names.contains(
                chars.subrange(from as int, to as int),
            ) && b.known(chars, names),
        }
    }

    /// A bound on the nodes and on the symbols that reading `self` makes.
    pub open spec fn room(self) -> nat
        decreases self,
    {
        match self {
            Sentence::Name(_, _) => 1,
            Sentence::Not(x) => 1 + x.room(),
            Sentence::And(a, b) => 1 + a.room() + b.room(),
            Sentence::Or(a, b) => 1 + a.room() + b.room(),
            Sentence::Imply(a, b) => 2 + a.room() + b.room(),
            Sentence::Xnor(a, b) => 5 + a.room() + b.room(),
            Sentence::ForAll(_, _, b) => 2 + b.room(),
            Sentence::Exist(_, _, b) => 2 + b.room(),
        }
    }
}

/// The disjunction of the negation of `a` and `b`.
pub open spec fn implication(a: Formula, b: Formula) -> Formula {
    Formula::Or(Box::new(Formula::Not(Box::new(a))), Box::new(b))
}

/// An implication means what the disjunction that it stands for means, and
/// a biconditional what the conjunction of two such disjunctions means.
pub proof fn lemma_written_out(a: Sentence, b: Sentence, chars: Seq<char>, names: Seq<Seq<char>>)
    ensures
        Sentence::Imply(Box::new(a), Box::new(b)).meaning(chars, names) == Sentence::Or(
            Box::new(Sentence::Not(Box::new(a))),
            Box::new(b),
        ).meaning(chars, names),
        Sentence::Xnor(Box::new(a), Box::new(b)).meaning(chars, names) == Sentence::And(
            Box::new(Sentence::Or(Box::new(Sentence::Not(Box::new(a))), Box::new(b))),
            Box::new(Sentence::Or(Box::new(Sentence::Not(Box::new(b))), Box::new(a))),
        ).meaning(chars, names),
{
    reveal_with_fuel(Sentence::meaning, 4);
}

/// The reader after the tokens `toks`, if it is still going.
pub open spec fn read(chars: Seq<char>, toks: Seq<TokenOrUnit>, st: Parsing) -> Option<Parsing>
    decreases toks.len(),
{
    if toks.len() == 0 {
        Some(st)
    } else {
        match feed(chars, st, toks[0]) {
            Progress::Going(next) => read(chars, toks.drop_first(), next),
            _ => None,
        }
    }
}

/// Reading tokens one after the other is reading them in two parts.
pub proof fn lemma_read_parts(
    chars: Seq<char>,
    first: Seq<TokenOrUnit>,
    second: Seq<TokenOrUnit>,
    st: Parsing,
)
    ensures
        read(chars, first + second, st) == match read(chars, first, st) {
            Some(mid) => read(chars, second, mid),
            None => None,
        },
    decreases first.len(),
{
    if first.len() == 0 {
        assert(first + second =~= second);
    } else {
        let all = first + second;
        assert(all[0] == first[0]);
        assert(all.drop_first() =~= first.drop_first() + second);
        match feed(chars, st, first[0]) {
            Progress::Going(next) => {
                lemma_read_parts(chars, first.drop_first(), second, next);
            },
            _ => {},
        }
    }
}

/// The reader after one token that is no closing parenthesis and no stray
/// character: the token is on the stack.
proof fn lemma_read_one(chars: Seq<char>, tok: TokenOrUnit, st: Parsing)
    requires
        !(tok is RightParenthesis),
        !(tok is Unexpected),
    ensures
        read(chars, seq![tok], st) == Some(
            Parsing { stack: st.stack.push(tok), nodes: st.nodes, names: st.names },
        ),
{
    let toks = seq![tok];
    assert(toks.drop_first() =~= Seq::<TokenOrUnit>::empty());
    let next = Parsing { stack: st.stack.push(tok), nodes: st.nodes, names: st.names };
    assert(read(chars, toks.drop_first(), next) == Some(next));
}

/// Whether the graph and the symbol table of `st` can take what reading
/// `t` makes.
pub open spec fn fits(st: Parsing, t: Sentence) -> bool {
    &&& st.nodes.len() + t.room() <= usize::MAX
    &&& st.names.len() + t.room() <= usize::MAX
}

/// Whether the stack entry `item` stands for the concept `t` that was read:
/// the identifier itself, or the position of a node that is no atom and
/// whose expression is what `t` means.
pub open spec fn stands_for(
    chars: Seq<char>,
    t: Sentence,
    item: TokenOrUnit,
    nodes: Seq<PropTreeNode>,
    names: Seq<Seq<char>>,
) -> bool {
    match t {
        Sentence::Name(from, to) => item == TokenOrUnit::Ident(from, to),
        _ => item matches TokenOrUnit::Unit(k) && k < nodes.len() && !(nodes[k as int].data
            is Atom) && formula_at(nodes, k as int) == t.meaning(chars, names) && t.known(
            chars,
            names,
        ),
    }
}

/// Whether `after` is the reader `st` with the concept `t` read: its stack
/// is longer by the entry that stands for `t`, and its graph and symbol
/// table have only grown.
pub open spec fn has_read(chars: Seq<char>, t: Sentence, st: Parsing, after: Parsing) -> bool {
    &&& after.stack.len() == st.stack.len() + 1
    &&& after.stack.drop_last() == st.stack
    &&& stands_for(chars, t, after.stack.last(), after.nodes, after.names)
    &&& after.stack.last() matches TokenOrUnit::Unit(k) ==> k + 1 == after.nodes.len()
    &&& t is Name ==> after.nodes == st.nodes && after.names == st.names
    &&& graph_wf(after.nodes)
    &&& extends(after.nodes, st.nodes)
    &&& extends(after.names, st.names)
    &&& after.nodes.len() + (if t is Name {
        1nat
    } else {
        0nat
    }) <= st.nodes.len() + t.room()
    &&& after.names.len() + (if t is Name {
        1nat
    } else {
        0nat
    }) <= st.names.len() + t.room()
}

/// What a concept means does not change when more names are entered, once
/// its identifiers are known.
pub proof fn lemma_meaning_stable(
    chars: Seq<char>,
    t: Sentence,
    names: Seq<Seq<char>>,
    longer: Seq<Seq<char>>,
)
    requires
        t.known(chars, names),
        extends(longer, names),
    ensures
        t.known(chars, longer),
        t.meaning(chars, longer) == t.meaning(chars, names),
    decreases t,
{
    let more = longer.subrange(names.len() as int, longer.len() as int);
    assert(longer =~= names + more) by {
        assert forall|i: int| 0 <= i < names.len() implies longer[i] == names[i] by {
            assert(longer.subrange(0, names.len() as int)[i] == names[i]);
        }
    }
    match t {
        Sentence::Name(from, to) => {
            lemma_symbol_of_stable(names, more, chars.subrange(from as int, to as int));
        },
        Sentence::Not(x) => {
            lemma_meaning_stable(chars, *x, names, longer);
        },
        Sentence::And(a, b) => {
            lemma_meaning_stable(chars, *a, names, longer);
            lemma_meaning_stable(chars, *b, names, longer);
        },
        Sentence::Or(a, b) => {
            lemma_meaning_stable(chars, *a, names, longer);
            lemma_meaning_stable(chars, *b, names, longer);
        },
        Sentence::Imply(a, b) => {
            lemma_meaning_stable(chars, *a, names, longer);
            lemma_meaning_stable(chars, *b, names, longer);
        },
        Sentence::Xnor(a, b) => {
            lemma_meaning_stable(chars, *a, names, longer);
            lemma_meaning_stable(chars, *b, names, longer);
        },
        Sentence::ForAll(from, to, b) => {
            lemma_symbol_of_stable(names, more, chars.subrange(from as int, to as int));
            lemma_meaning_stable(chars, *b, names, longer);
        },
        Sentence::Exist(from, to, b) => {
            lemma_symbol_of_stable(names, more, chars.subrange(from as int, to as int));
            lemma_meaning_stable(chars, *b, names, longer);
        },
    }
}

/// A stack entry that stands for a concept still does when the graph and
/// the symbol table grow.
pub proof fn lemma_stands_for_stable(
    chars: Seq<char>,
    t: Sentence,
    item: TokenOrUnit,
    nodes: Seq<PropTreeNode>,
    names: Seq<Seq<char>>,
    more_nodes: Seq<PropTreeNode>,
    more_names: Seq<Seq<char>>,
)
    requires
        stands_for(chars, t, item, nodes, names),
        extends(more_nodes, nodes),
        extends(more_names, names),
    ensures
        stands_for(chars, t, item, more_nodes, more_names),
{
    match t {
        Sentence::Name(_, _) => {},
        _ => {
            let k = item->Unit_0;
            assert forall|i: int| 0 <= i < nodes.len() implies more_nodes[i] == nodes[i] by {
                assert(more_nodes.subrange(0, nodes.len() as int)[i] == nodes[i]);
            }
            lemma_formula_at_prefix(nodes, more_nodes, k as int);
            lemma_meaning_stable(chars, t, names, more_names);
        },
    }
}

/// What starts with a sequence starts with what that sequence starts with.
proof fn lemma_extends_chain<T>(s: Seq<T>, t: Seq<T>, u: Seq<T>)
    requires
        extends(s, t),
        extends(t, u),
    ensures
        extends(s, u),
{
    crate::truth_tree::lemma_extends_twice(s, t, u);
}

/// Whether position `pos` of the reader `next` holds what the concept `t`
/// means, all of whose identifiers are known.
pub open spec fn settled(chars: Seq<char>, t: Sentence, next: Parsing, pos: usize) -> bool {
    &&& pos < next.nodes.len()
    &&& formula_at(next.nodes, pos as int) == t.meaning(chars, next.names)
    &&& t.known(chars, next.names)
    &&& graph_wf(next.nodes)
}

/// Taking the stack entry that stands for `t` off the stack as an operand:
/// an identifier is entered and becomes the last node, a position is taken
/// as it is.
proof fn lemma_settle(chars: Seq<char>, t: Sentence, st: Parsing, args: Seq<usize>) -> (out: (
    Parsing,
    usize,
))
    requires
        st.stack.len() > 0,
        stands_for(chars, t, st.stack.last(), st.nodes, st.names),
        graph_wf(st.nodes),
        t is Name ==> st.nodes.len() < usize::MAX && st.names.len() < usize::MAX,
    ensures
        collect(chars, st, args) == collect(chars, out.0, args.push(out.1)),
        out.0.stack == st.stack.drop_last(),
        settled(chars, t, out.0, out.1),
        extends(out.0.nodes, st.nodes),
        extends(out.0.names, st.names),
        match t {
            Sentence::Name(from, to) => {
                &&& out.1 == st.nodes.len()
                &&& out.0.nodes == st.nodes.push(
                    node_at(
                        st.nodes.len() as int,
                        Concept::Atom(
                            symbol_of(st.names, chars.subrange(from as int, to as int)) as usize,
                        ),
                    ),
                )
                &&& out.0.names == with_name(st.names, chars.subrange(from as int, to as int))
            },
            _ => out.0.nodes == st.nodes && out.0.names == st.names && !(st.nodes[out.1 as int].data
                is Atom),
        },
{
    let rest = st.stack.drop_last();
    match t {
        Sentence::Name(from, to) => {
            let name = chars.subrange(from as int, to as int);
            let n = st.nodes.len() as int;
            let id = symbol_of(st.names, name);
            lemma_symbol_of_entered(st.names, name);
            let next = Parsing {
                stack: rest,
                nodes: st.nodes.push(node_at(n, Concept::Atom(id as usize))),
                names: with_name(st.names, name),
            };
            assert(next.nodes.subrange(0, n) =~= st.nodes);
            assert(next.names.subrange(0, st.names.len() as int) =~= st.names);
            assert(graph_wf(next.nodes)) by {
                assert forall|k: int| 0 <= k < next.nodes.len() implies (
                #[trigger] next.nodes[k]).id
                    == k && next.nodes[k].data.below(k) by {
                    if k < n {
                        assert(next.nodes[k] == st.nodes[k]);
                    }
                }
            }
            (next, n as usize)
        },
        _ => {
            let k = st.stack.last()->Unit_0;
            let next = Parsing { stack: rest, nodes: st.nodes, names: st.names };
            assert(st.nodes.subrange(0, st.nodes.len() as int) =~= st.nodes);
            assert(st.names.subrange(0, st.names.len() as int) =~= st.names);
            (next, k)
        },
    }
}

/// Whether `c` is what taking the operands off the stack gave: the reader
/// is `next` without its opening parenthesis, the operands are `args`.
pub open spec fn collected(
    c: Result<Collected, crate::parser::Failure>,
    next: Parsing,
    args: Seq<usize>,
) -> bool {
    c == Ok::<Collected, crate::parser::Failure>(
        Collected {
            state: Parsing { stack: next.stack.drop_last(), nodes: next.nodes, names: next.names },
            args,
        },
    )
}

/// Taking operands off the stack stops at an opening parenthesis.
proof fn lemma_collect_stops(chars: Seq<char>, st: Parsing, args: Seq<usize>)
    requires
        st.stack.len() > 0,
        st.stack.last() == TokenOrUnit::LeftParenthesis,
    ensures
        collected(collect(chars, st, args), st, args),
{
}

/// The node `c` appended to a well-formed graph gives a well-formed graph
/// that starts with the old one.
proof fn lemma_graph_push(nodes: Seq<PropTreeNode>, c: Concept)
    requires
        graph_wf(nodes),
        c.below(nodes.len() as int),
        nodes.len() < usize::MAX,
    ensures
        graph_wf(nodes.push(node_at(nodes.len() as int, c))),
        extends(nodes.push(node_at(nodes.len() as int, c)), nodes),
{
    let longer = nodes.push(node_at(nodes.len() as int, c));
    assert(longer.subrange(0, nodes.len() as int) =~= nodes);
    assert forall|k: int| 0 <= k < longer.len() implies (#[trigger] longer[k]).id == k
        && longer[k].data.below(k) by {
        if k < nodes.len() {
            assert(longer[k] == nodes[k]);
        }
    }
}

/// The expression at a position of a graph is the same in every graph that
/// starts with it.
proof fn lemma_formula_kept(nodes: Seq<PropTreeNode>, longer: Seq<PropTreeNode>, k: int)
    requires
        extends(longer, nodes),
        0 <= k < nodes.len(),
    ensures
        formula_at(longer, k) == formula_at(nodes, k),
{
    assert forall|i: int| 0 <= i < nodes.len() implies longer[i] == nodes[i] by {
        assert(longer.subrange(0, nodes.len() as int)[i] == nodes[i]);
    }
    lemma_formula_at_prefix(nodes, longer, k);
}

/// Reading an operator, an opening parenthesis, `inner` and a closing
/// parenthesis is reading up to `inner` and then closing.
proof fn lemma_read_wrapped(
    chars: Seq<char>,
    op: TokenOrUnit,
    inner: Seq<TokenOrUnit>,
    st: Parsing,
    mid: Parsing,
)
    requires
        !(op is RightParenthesis),
        !(op is Unexpected),
        read(
            chars,
            inner,
            Parsing {
                stack: st.stack.push(op).push(TokenOrUnit::LeftParenthesis),
                nodes: st.nodes,
                names: st.names,
            },
        ) == Some(mid),
    ensures
        read(chars, wrapped(op, inner), st) == match reduce(chars, mid) {
            Progress::Going(next) => Some(next),
            _ => None,
        },
{
    let s1 = Parsing { stack: st.stack.push(op), nodes: st.nodes, names: st.names };
    let s2 = Parsing {
        stack: s1.stack.push(TokenOrUnit::LeftParenthesis),
        nodes: st.nodes,
        names: st.names,
    };
    let close = seq![TokenOrUnit::RightParenthesis];
    lemma_read_one(chars, op, st);
    lemma_read_one(chars, TokenOrUnit::LeftParenthesis, s1);
    lemma_read_parts(chars, seq![op], seq![TokenOrUnit::LeftParenthesis], st);
    assert(seq![op] + seq![TokenOrUnit::LeftParenthesis] =~= seq![
        op,
        TokenOrUnit::LeftParenthesis,
    ]);
    lemma_read_parts(chars, seq![op, TokenOrUnit::LeftParenthesis], inner, st);
    lemma_read_parts(chars, seq![op, TokenOrUnit::LeftParenthesis] + inner, close, st);
    assert(close.drop_first() =~= Seq::<TokenOrUnit>::empty());
    match reduce(chars, mid) {
        Progress::Going(next) => {
            assert(read(chars, close.drop_first(), next) == Some(next));
        },
        _ => {},
    }
}

/// One more node or symbol where `t` is an identifier, which is entered
/// only when it is taken off the stack.
pub open spec fn pending(t: Sentence) -> nat {
    if t is Name {
        1
    } else {
        0
    }
}

/// Takes two operands that were read one after the other off the stack.
proof fn lemma_two_operands(
    chars: Seq<char>,
    a: Sentence,
    b: Sentence,
    base: Parsing,
    first: Parsing,
    second: Parsing,
) -> (out: (Parsing, usize, usize))
    requires
        base.stack.len() > 0,
        base.stack.last() == TokenOrUnit::LeftParenthesis,
        has_read(chars, a, base, first),
        has_read(chars, b, first, second),
        second.nodes.len() + pending(a) + pending(b) <= usize::MAX,
        second.names.len() + pending(a) + pending(b) <= usize::MAX,
    ensures
        collected(collect(chars, second, Seq::empty()), out.0, seq![out.2, out.1]),
        out.0.stack == base.stack,
        settled(chars, a, out.0, out.1),
        settled(chars, b, out.0, out.2),
        extends(out.0.nodes, second.nodes),
        extends(out.0.names, second.names),
        out.0.nodes.len() <= second.nodes.len() + pending(a) + pending(b),
        out.0.names.len() <= second.names.len() + pending(a) + pending(b),
{
    let none = Seq::<usize>::empty();
    let (s5, pos_b) = lemma_settle(chars, b, second, none);
    assert(s5.stack == first.stack);
    let item = first.stack.last();
    lemma_stands_for_stable(chars, a, item, first.nodes, first.names, second.nodes, second.names);
    lemma_stands_for_stable(chars, a, item, second.nodes, second.names, s5.nodes, s5.names);
    assert(s5.nodes.len() <= second.nodes.len() + pending(b));
    assert(s5.names.len() <= second.names.len() + pending(b)) by {
        match b {
            Sentence::Name(from, to) => {
                crate::parser::lemma_with_name_extends(
                    second.names,
                    chars.subrange(from as int, to as int),
                );
            },
            _ => {},
        }
    }
    let (s6, pos_a) = lemma_settle(chars, a, s5, none.push(pos_b));
    assert(s6.names.len() <= s5.names.len() + pending(a)) by {
        match a {
            Sentence::Name(from, to) => {
                crate::parser::lemma_with_name_extends(
                    s5.names,
                    chars.subrange(from as int, to as int),
                );
            },
            _ => {},
        }
    }
    assert(s6.stack == base.stack);
    lemma_collect_stops(chars, s6, none.push(pos_b).push(pos_a));
    assert(none.push(pos_b).push(pos_a) =~= seq![pos_b, pos_a]);
    lemma_formula_kept(s5.nodes, s6.nodes, pos_b as int);
    lemma_meaning_stable(chars, b, s5.names, s6.names);
    lemma_extends_chain(s6.nodes, s5.nodes, second.nodes);
    lemma_extends_chain(s6.names, s5.names, second.names);
    (s6, pos_a, pos_b)
}

/// Takes a role and a body that were read one after the other off the
/// stack: the atom of the role is the last node.
proof fn lemma_role_and_body(
    chars: Seq<char>,
    from: usize,
    to: usize,
    b: Sentence,
    base: Parsing,
    second: Parsing,
) -> (out: (Parsing, usize))
    requires
        base.stack.len() > 0,
        base.stack.last() == TokenOrUnit::LeftParenthesis,
        has_read(
            chars,
            b,
            Parsing {
                stack: base.stack.push(TokenOrUnit::Ident(from, to)),
                nodes: base.nodes,
                names: base.names,
            },
            second,
        ),
        second.nodes.len() + 1 + pending(b) <= usize::MAX,
        second.names.len() + 1 + pending(b) <= usize::MAX,
    ensures
        collected(
            collect(chars, second, Seq::empty()),
            out.0,
            seq![out.1, (out.0.nodes.len() - 1) as usize],
        ),
        out.0.stack == base.stack,
        out.0.nodes.len() >= 2,
        out.1 + 1 < out.0.nodes.len(),
        out.0.nodes.last().data == Concept::Atom(
            symbol_of(out.0.names, chars.subrange(from as int, to as int)) as usize,
        ),
        out.0.names.contains(chars.subrange(from as int, to as int)),
        settled(chars, b, out.0, out.1),
        extends(out.0.nodes, second.nodes),
        extends(out.0.nodes.drop_last(), second.nodes),
        extends(out.0.names, second.names),
        out.0.nodes.len() <= second.nodes.len() + 1 + pending(b),
        out.0.names.len() <= second.names.len() + 1 + pending(b),
{
    let none = Seq::<usize>::empty();
    let role = Sentence::Name(from, to);
    let name = chars.subrange(from as int, to as int);
    let first = Parsing {
        stack: base.stack.push(TokenOrUnit::Ident(from, to)),
        nodes: base.nodes,
        names: base.names,
    };
    let (s5, pos_b) = lemma_settle(chars, b, second, none);
    assert(s5.stack == first.stack);
    assert(s5.names.len() <= second.names.len() + pending(b)) by {
        match b {
            Sentence::Name(f, t) => {
                crate::parser::lemma_with_name_extends(
                    second.names,
                    chars.subrange(f as int, t as int),
                );
            },
            _ => {},
        }
    }
    assert(stands_for(chars, role, s5.stack.last(), s5.nodes, s5.names));
    let (s6, pos_r) = lemma_settle(chars, role, s5, none.push(pos_b));
    crate::parser::lemma_with_name_extends(s5.names, name);
    lemma_symbol_of_entered(s5.names, name);
    assert(s6.stack =~= base.stack);
    lemma_collect_stops(chars, s6, none.push(pos_b).push(pos_r));
    assert(none.push(pos_b).push(pos_r) =~= seq![pos_b, pos_r]);
    assert(s6.nodes.drop_last() =~= s5.nodes);
    lemma_formula_kept(s5.nodes, s6.nodes, pos_b as int);
    lemma_meaning_stable(chars, b, s5.names, s6.names);
    lemma_extends_chain(s6.nodes, s5.nodes, second.nodes);
    lemma_extends_chain(s6.names, s5.names, second.names);
    (s6, pos_b)
}

/// The reader `st` after an operator and an opening parenthesis.
pub open spec fn opened(st: Parsing, op: TokenOrUnit) -> Parsing {
    Parsing {
        stack: st.stack.push(op).push(TokenOrUnit::LeftParenthesis),
        nodes: st.nodes,
        names: st.names,
    }
}

/// Closing the parenthesis of a negation.
proof fn lemma_close_not(chars: Seq<char>, x: Sentence, st: Parsing, mid: Parsing) -> (after:
    Parsing)
    requires
        graph_wf(st.nodes),
        fits(st, Sentence::Not(Box::new(x))),
        has_read(chars, x, opened(st, TokenOrUnit::Not), mid),
    ensures
        reduce(chars, mid) == Progress::Going(after),
        has_read(chars, Sentence::Not(Box::new(x)), st, after),
{
    let none = Seq::<usize>::empty();
    let (s4, pos) = lemma_settle(chars, x, mid, none);
    assert(s4.names.len() <= mid.names.len() + pending(x)) by {
        match x {
            Sentence::Name(f, t) => {
                crate::parser::lemma_with_name_extends(
                    mid.names,
                    chars.subrange(f as int, t as int),
                );
            },
            _ => {},
        }
    }
    assert(s4.stack =~= opened(st, TokenOrUnit::Not).stack);
    lemma_collect_stops(chars, s4, none.push(pos));
    let rest = s4.stack.drop_last().drop_last();
    assert(s4.stack.drop_last().last() == TokenOrUnit::Not);
    assert(rest =~= st.stack);
    let after = pushed(rest, s4.nodes, s4.names, Concept::Not(pos));
    lemma_graph_push(s4.nodes, Concept::Not(pos));
    assert(reduce(chars, mid) == Progress::Going(after));
    assert(after.stack.drop_last() =~= st.stack);
    lemma_extends_chain(s4.nodes, mid.nodes, st.nodes);
    lemma_extends_chain(after.nodes, s4.nodes, st.nodes);
    lemma_extends_chain(s4.names, mid.names, st.names);
    lemma_formula_kept(s4.nodes, after.nodes, pos as int);
    after
}

/// Closing the parenthesis of a conjunction.
proof fn lemma_close_and(
    chars: Seq<char>,
    a: Sentence,
    b: Sentence,
    st: Parsing,
    first: Parsing,
    second: Parsing,
) -> (after: Parsing)
    requires
        graph_wf(st.nodes),
        fits(st, Sentence::And(Box::new(a), Box::new(b))),
        has_read(chars, a, opened(st, TokenOrUnit::And), first),
        has_read(chars, b, first, second),
    ensures
        reduce(chars, second) == Progress::Going(after),
        has_read(chars, Sentence::And(Box::new(a), Box::new(b)), st, after),
{
    let t = Sentence::And(Box::new(a), Box::new(b));
    let base = opened(st, TokenOrUnit::And);
    let (s6, pos_a, pos_b) = lemma_two_operands(chars, a, b, base, first, second);
    let args = seq![pos_b, pos_a];
    let rest = s6.stack.drop_last().drop_last();
    assert(s6.stack.drop_last().last() == TokenOrUnit::And);
    assert(rest =~= st.stack);
    let n = s6.nodes.len() as int;
    let after = pushed(rest, s6.nodes, s6.names, Concept::And(pos_a, pos_b));
    lemma_graph_push(s6.nodes, Concept::And(pos_a, pos_b));
    assert(reduce(chars, second) == Progress::Going(after));
    assert(after.stack.drop_last() =~= st.stack);
    lemma_extends_chain(s6.nodes, second.nodes, first.nodes);
    lemma_extends_chain(s6.nodes, first.nodes, st.nodes);
    lemma_extends_chain(after.nodes, s6.nodes, st.nodes);
    lemma_extends_chain(s6.names, second.names, first.names);
    lemma_extends_chain(s6.names, first.names, st.names);
    lemma_formula_kept(s6.nodes, after.nodes, pos_a as int);
    lemma_formula_kept(s6.nodes, after.nodes, pos_b as int);

    after
}

/// Closing the parenthesis of a disjunction.
proof fn lemma_close_or(
    chars: Seq<char>,
    a: Sentence,
    b: Sentence,
    st: Parsing,
    first: Parsing,
    second: Parsing,
) -> (after: Parsing)
    requires
        graph_wf(st.nodes),
        fits(st, Sentence::Or(Box::new(a), Box::new(b))),
        has_read(chars, a, opened(st, TokenOrUnit::Or), first),
        has_read(chars, b, first, second),
    ensures
        reduce(chars, second) == Progress::Going(after),
        has_read(chars, Sentence::Or(Box::new(a), Box::new(b)), st, after),
{
    let t = Sentence::Or(Box::new(a), Box::new(b));
    let base = opened(st, TokenOrUnit::Or);
    let (s6, pos_a, pos_b) = lemma_two_operands(chars, a, b, base, first, second);
    let args = seq![pos_b, pos_a];
    let rest = s6.stack.drop_last().drop_last();
    assert(s6.stack.drop_last().last() == TokenOrUnit::Or);
    assert(rest =~= st.stack);
    let n = s6.nodes.len() as int;
    let after = pushed(rest, s6.nodes, s6.names, Concept::Or(pos_a, pos_b));
    lemma_graph_push(s6.nodes, Concept::Or(pos_a, pos_b));
    assert(reduce(chars, second) == Progress::Going(after));
    assert(after.stack.drop_last() =~= st.stack);
    lemma_extends_chain(s6.nodes, second.nodes, first.nodes);
    lemma_extends_chain(s6.nodes, first.nodes, st.nodes);
    lemma_extends_chain(after.nodes, s6.nodes, st.nodes);
    lemma_extends_chain(s6.names, second.names, first.names);
    lemma_extends_chain(s6.names, first.names, st.names);
    lemma_formula_kept(s6.nodes, after.nodes, pos_a as int);
    lemma_formula_kept(s6.nodes, after.nodes, pos_b as int);

    after
}

/// Closing the parenthesis of an implication.
proof fn lemma_close_imply(
    chars: Seq<char>,
    a: Sentence,
    b: Sentence,
    st: Parsing,
    first: Parsing,
    second: Parsing,
) -> (after: Parsing)
    requires
        graph_wf(st.nodes),
        fits(st, Sentence::Imply(Box::new(a), Box::new(b))),
        has_read(chars, a, opened(st, TokenOrUnit::Imply), first),
        has_read(chars, b, first, second),
    ensures
        reduce(chars, second) == Progress::Going(after),
        has_read(chars, Sentence::Imply(Box::new(a), Box::new(b)), st, after),
{
    let t = Sentence::Imply(Box::new(a), Box::new(b));
    let base = opened(st, TokenOrUnit::Imply);
    let (s6, pos_a, pos_b) = lemma_two_operands(chars, a, b, base, first, second);
    let args = seq![pos_b, pos_a];
    let rest = s6.stack.drop_last().drop_last();
    assert(s6.stack.drop_last().last() == TokenOrUnit::Imply);
    assert(rest =~= st.stack);
    let n = s6.nodes.len() as int;
    let negated = s6.nodes.push(node_at(n, Concept::Not(pos_a)));
    lemma_graph_push(s6.nodes, Concept::Not(pos_a));
    let after = pushed(rest, negated, s6.names, Concept::Or(n as usize, pos_b));
    lemma_graph_push(negated, Concept::Or(n as usize, pos_b));
    lemma_extends_chain(after.nodes, negated, s6.nodes);
    assert(reduce(chars, second) == Progress::Going(after));
    assert(after.stack.drop_last() =~= st.stack);
    lemma_extends_chain(s6.nodes, second.nodes, first.nodes);
    lemma_extends_chain(s6.nodes, first.nodes, st.nodes);
    lemma_extends_chain(after.nodes, s6.nodes, st.nodes);
    lemma_extends_chain(s6.names, second.names, first.names);
    lemma_extends_chain(s6.names, first.names, st.names);
    lemma_formula_kept(s6.nodes, after.nodes, pos_a as int);
    lemma_formula_kept(s6.nodes, after.nodes, pos_b as int);
    lemma_formula_kept(negated, after.nodes, n);
    assert(formula_at(negated, n) == Formula::Not(Box::new(formula_at(negated, pos_a as int))));
    lemma_formula_kept(s6.nodes, negated, pos_a as int);
    after
}

/// Closing the parenthesis of a biconditional.
proof fn lemma_close_xnor(
    chars: Seq<char>,
    a: Sentence,
    b: Sentence,
    st: Parsing,
    first: Parsing,
    second: Parsing,
) -> (after: Parsing)
    requires
        graph_wf(st.nodes),
        fits(st, Sentence::Xnor(Box::new(a), Box::new(b))),
        has_read(chars, a, opened(st, TokenOrUnit::Xnor), first),
        has_read(chars, b, first, second),
    ensures
        reduce(chars, second) == Progress::Going(after),
        has_read(chars, Sentence::Xnor(Box::new(a), Box::new(b)), st, after),
{
    let t = Sentence::Xnor(Box::new(a), Box::new(b));
    let base = opened(st, TokenOrUnit::Xnor);
    let (s6, pos_a, pos_b) = lemma_two_operands(chars, a, b, base, first, second);
    let args = seq![pos_b, pos_a];
    let rest = s6.stack.drop_last().drop_last();
    assert(s6.stack.drop_last().last() == TokenOrUnit::Xnor);
    assert(rest =~= st.stack);
    let n = s6.nodes.len() as int;
    let n1 = s6.nodes.push(node_at(n, Concept::Not(pos_a)));
    lemma_graph_push(s6.nodes, Concept::Not(pos_a));
    let n2 = n1.push(node_at(n + 1, Concept::Or(n as usize, pos_b)));
    lemma_graph_push(n1, Concept::Or(n as usize, pos_b));
    let n3 = n2.push(node_at(n + 2, Concept::Not(pos_b)));
    lemma_graph_push(n2, Concept::Not(pos_b));
    let n4 = n3.push(node_at(n + 3, Concept::Or((n + 2) as usize, pos_a)));
    lemma_graph_push(n3, Concept::Or((n + 2) as usize, pos_a));
    let after = pushed(rest, n4, s6.names, Concept::And((n + 1) as usize, (n + 3) as usize));
    lemma_graph_push(n4, Concept::And((n + 1) as usize, (n + 3) as usize));
    lemma_extends_chain(n2, n1, s6.nodes);
    lemma_extends_chain(n3, n2, s6.nodes);
    lemma_extends_chain(n4, n3, s6.nodes);
    lemma_extends_chain(after.nodes, n4, s6.nodes);
    lemma_extends_chain(n3, n2, n1);
    lemma_extends_chain(n4, n3, n1);
    lemma_extends_chain(after.nodes, n4, n1);
    lemma_extends_chain(n4, n3, n2);
    lemma_extends_chain(after.nodes, n4, n2);
    lemma_extends_chain(after.nodes, n4, n3);
    assert(reduce(chars, second) == Progress::Going(after));
    assert(after.stack.drop_last() =~= st.stack);
    lemma_extends_chain(s6.nodes, second.nodes, first.nodes);
    lemma_extends_chain(s6.nodes, first.nodes, st.nodes);
    lemma_extends_chain(after.nodes, s6.nodes, st.nodes);
    lemma_extends_chain(s6.names, second.names, first.names);
    lemma_extends_chain(s6.names, first.names, st.names);
    lemma_formula_kept(s6.nodes, after.nodes, pos_a as int);
    lemma_formula_kept(s6.nodes, after.nodes, pos_b as int);
    let fa = a.meaning(chars, s6.names);
    let fb = b.meaning(chars, s6.names);
    lemma_formula_kept(s6.nodes, n1, pos_a as int);
    assert(formula_at(n1, n) == Formula::Not(Box::new(fa)));
    lemma_formula_kept(n1, n2, n);
    lemma_formula_kept(s6.nodes, n2, pos_b as int);
    assert(formula_at(n2, n + 1) == implication(fa, fb));
    lemma_formula_kept(s6.nodes, n3, pos_b as int);
    assert(formula_at(n3, n + 2) == Formula::Not(Box::new(fb)));
    lemma_formula_kept(n3, n4, n + 2);
    lemma_formula_kept(s6.nodes, n4, pos_a as int);
    assert(formula_at(n4, n + 3) == implication(fb, fa));
    lemma_formula_kept(n2, after.nodes, n + 1);
    lemma_formula_kept(n4, after.nodes, n + 3);
    after
}

/// Closing the parenthesis of a universal restriction.
proof fn lemma_close_for_all(
    chars: Seq<char>,
    from: usize,
    to: usize,
    b: Sentence,
    st: Parsing,
    second: Parsing,
) -> (after: Parsing)
    requires
        graph_wf(st.nodes),
        fits(st, Sentence::ForAll(from, to, Box::new(b))),
        has_read(
            chars,
            b,
            Parsing {
                stack: opened(st, TokenOrUnit::ForAll).stack.push(TokenOrUnit::Ident(from, to)),
                nodes: st.nodes,
                names: st.names,
            },
            second,
        ),
    ensures
        reduce(chars, second) == Progress::Going(after),
        has_read(chars, Sentence::ForAll(from, to, Box::new(b)), st, after),
{
    let base = opened(st, TokenOrUnit::ForAll);
    let name = chars.subrange(from as int, to as int);
    let (s6, pos_b) = lemma_role_and_body(chars, from, to, b, base, second);
    let rest = s6.stack.drop_last().drop_last();
    assert(s6.stack.drop_last().last() == TokenOrUnit::ForAll);
    assert(rest =~= st.stack);
    let role = symbol_of(s6.names, name) as usize;
    let kept = s6.nodes.drop_last();
    assert(graph_wf(kept)) by {
        assert forall|k: int| 0 <= k < kept.len() implies (#[trigger] kept[k]).id == k
            && kept[k].data.below(k) by {
            assert(kept[k] == s6.nodes[k]);
        }
    }
    assert(extends(s6.nodes, kept)) by {
        assert(s6.nodes.subrange(0, kept.len() as int) =~= kept);
    }
    lemma_extends_chain(kept, second.nodes, st.nodes);
    let after = pushed(rest, kept, s6.names, Concept::ForAll(role, pos_b));
    lemma_graph_push(kept, Concept::ForAll(role, pos_b));
    assert(reduce(chars, second) == Progress::Going(after));
    assert(after.stack.drop_last() =~= st.stack);
    lemma_extends_chain(after.nodes, kept, st.nodes);
    lemma_extends_chain(s6.names, second.names, st.names);
    lemma_formula_at_prefix(kept, s6.nodes, pos_b as int);
    lemma_formula_kept(kept, after.nodes, pos_b as int);
    crate::symbols::lemma_symbol_of_known(s6.names, name);
    after
}

/// Closing the parenthesis of an existential restriction.
proof fn lemma_close_exist(
    chars: Seq<char>,
    from: usize,
    to: usize,
    b: Sentence,
    st: Parsing,
    second: Parsing,
) -> (after: Parsing)
    requires
        graph_wf(st.nodes),
        fits(st, Sentence::Exist(from, to, Box::new(b))),
        has_read(
            chars,
            b,
            Parsing {
                stack: opened(st, TokenOrUnit::Exist).stack.push(TokenOrUnit::Ident(from, to)),
                nodes: st.nodes,
                names: st.names,
            },
            second,
        ),
    ensures
        reduce(chars, second) == Progress::Going(after),
        has_read(chars, Sentence::Exist(from, to, Box::new(b)), st, after),
{
    let base = opened(st, TokenOrUnit::Exist);
    let name = chars.subrange(from as int, to as int);
    let (s6, pos_b) = lemma_role_and_body(chars, from, to, b, base, second);
    let rest = s6.stack.drop_last().drop_last();
    assert(s6.stack.drop_last().last() == TokenOrUnit::Exist);
    assert(rest =~= st.stack);
    let role = symbol_of(s6.names, name) as usize;
    let kept = s6.nodes.drop_last();
    assert(graph_wf(kept)) by {
        assert forall|k: int| 0 <= k < kept.len() implies (#[trigger] kept[k]).id == k
            && kept[k].data.below(k) by {
            assert(kept[k] == s6.nodes[k]);
        }
    }
    assert(extends(s6.nodes, kept)) by {
        assert(s6.nodes.subrange(0, kept.len() as int) =~= kept);
    }
    lemma_extends_chain(kept, second.nodes, st.nodes);
    let after = pushed(rest, kept, s6.names, Concept::Exist(role, pos_b));
    lemma_graph_push(kept, Concept::Exist(role, pos_b));
    assert(reduce(chars, second) == Progress::Going(after));
    assert(after.stack.drop_last() =~= st.stack);
    lemma_extends_chain(after.nodes, kept, st.nodes);
    lemma_extends_chain(s6.names, second.names, st.names);
    lemma_formula_at_prefix(kept, s6.nodes, pos_b as int);
    lemma_formula_kept(kept, after.nodes, pos_b as int);
    crate::symbols::lemma_symbol_of_known(s6.names, name);
    after
}

/// The reader accepts the tokens of every concept: it reads them to the end
/// and is left with one more stack entry, which stands for the concept.
pub proof fn lemma_reads(chars: Seq<char>, t: Sentence, st: Parsing) -> (after: Parsing)
    requires
        graph_wf(st.nodes),
        fits(st, t),
    ensures
        read(chars, t.tokens(), st) == Some(after),
        has_read(chars, t, st, after),
    decreases t,
{
    crate::truth_tree::lemma_extends_itself(st.nodes);
    crate::truth_tree::lemma_extends_itself(st.names);
    match t {
        Sentence::Name(from, to) => {
            let tok = TokenOrUnit::Ident(from, to);
            lemma_read_one(chars, tok, st);
            let after = Parsing { stack: st.stack.push(tok), nodes: st.nodes, names: st.names };
            assert(after.stack.drop_last() =~= st.stack);
            after
        },
        Sentence::Not(x) => {
            let mid = lemma_reads(chars, *x, opened(st, TokenOrUnit::Not));
            lemma_read_wrapped(chars, TokenOrUnit::Not, x.tokens(), st, mid);
            lemma_close_not(chars, *x, st, mid)
        },
        Sentence::And(a, b) => {
            let first = lemma_reads(chars, *a, opened(st, TokenOrUnit::And));
            let second = lemma_reads(chars, *b, first);
            lemma_read_parts(chars, a.tokens(), b.tokens(), opened(st, TokenOrUnit::And));
            lemma_read_wrapped(chars, TokenOrUnit::And, a.tokens() + b.tokens(), st, second);
            lemma_close_and(chars, *a, *b, st, first, second)
        },
        Sentence::Or(a, b) => {
            let first = lemma_reads(chars, *a, opened(st, TokenOrUnit::Or));
            let second = lemma_reads(chars, *b, first);
            lemma_read_parts(chars, a.tokens(), b.tokens(), opened(st, TokenOrUnit::Or));
            lemma_read_wrapped(chars, TokenOrUnit::Or, a.tokens() + b.tokens(), st, second);
            lemma_close_or(chars, *a, *b, st, first, second)
        },
        Sentence::Imply(a, b) => {
            let first = lemma_reads(chars, *a, opened(st, TokenOrUnit::Imply));
            let second = lemma_reads(chars, *b, first);
            lemma_read_parts(chars, a.tokens(), b.tokens(), opened(st, TokenOrUnit::Imply));
            lemma_read_wrapped(chars, TokenOrUnit::Imply, a.tokens() + b.tokens(), st, second);
            lemma_close_imply(chars, *a, *b, st, first, second)
        },
        Sentence::Xnor(a, b) => {
            let first = lemma_reads(chars, *a, opened(st, TokenOrUnit::Xnor));
            let second = lemma_reads(chars, *b, first);
            lemma_read_parts(chars, a.tokens(), b.tokens(), opened(st, TokenOrUnit::Xnor));
            lemma_read_wrapped(chars, TokenOrUnit::Xnor, a.tokens() + b.tokens(), st, second);
            lemma_close_xnor(chars, *a, *b, st, first, second)
        },
        Sentence::ForAll(from, to, b) => {
            let tok = TokenOrUnit::Ident(from, to);
            let base = opened(st, TokenOrUnit::ForAll);
            let named = Parsing { stack: base.stack.push(tok), nodes: st.nodes, names: st.names };
            lemma_read_one(chars, tok, base);
            let second = lemma_reads(chars, *b, named);
            lemma_read_parts(chars, seq![tok], b.tokens(), base);
            lemma_read_wrapped(chars, TokenOrUnit::ForAll, seq![tok] + b.tokens(), st, second);
            lemma_close_for_all(chars, from, to, *b, st, second)
        },
        Sentence::Exist(from, to, b) => {
            let tok = TokenOrUnit::Ident(from, to);
            let base = opened(st, TokenOrUnit::Exist);
            let named = Parsing { stack: base.stack.push(tok), nodes: st.nodes, names: st.names };
            lemma_read_one(chars, tok, base);
            let second = lemma_reads(chars, *b, named);
            lemma_read_parts(chars, seq![tok], b.tokens(), base);
            lemma_read_wrapped(chars, TokenOrUnit::Exist, seq![tok] + b.tokens(), st, second);
            lemma_close_exist(chars, from, to, *b, st, second)
        },
    }
}

/// Reading the tokens from position `at` to the end and then finishing is
/// what the reader does from position `at` on.
proof fn lemma_run_reads(
    chars: Seq<char>,
    toks: Seq<TokenOrUnit>,
    at: int,
    st: Parsing,
    mid: Parsing,
)
    requires
        0 <= at <= toks.len(),
        read(chars, toks.subrange(at, toks.len() as int), st) == Some(mid),
    ensures
        run(chars, toks, at, st) == finish(chars, mid),
    decreases toks.len() - at,
{
    let left = toks.subrange(at, toks.len() as int);
    if at < toks.len() {
        assert(left[0] == toks[at]);
        assert(left.drop_first() =~= toks.subrange(at + 1, toks.len() as int));
        match feed(chars, st, toks[at]) {
            Progress::Going(next) => {
                lemma_run_reads(chars, toks, at + 1, next, mid);
            },
            _ => {},
        }
    }
}

/// Whether `parsed` is the concept `t` read with the symbol table `names`
/// to begin with: a concept on its own, whose graph is well formed and has
/// for its outermost expression what `t` means.
pub open spec fn reads_as(
    chars: Seq<char>,
    t: Sentence,
    names: Seq<Seq<char>>,
    parsed: Parsed,
) -> bool {
    &&& parsed.root == Proposition::TConcept
    &&& parsed.nodes.len() > 0
    &&& graph_wf(parsed.nodes)
    &&& formula_at(parsed.nodes, parsed.nodes.len() - 1) == t.meaning(chars, parsed.names)
    &&& t.known(chars, parsed.names)
    &&& extends(parsed.names, names)
}

/// Every concept of the surface syntax is read, and read as what it means:
/// where the tokens of a text are those of the concept `t`, the reader
/// returns a sentence whose outermost expression is the meaning of `t`.
pub proof fn lemma_concept_is_read(chars: Seq<char>, t: Sentence, names: Seq<Seq<char>>)
    requires
        crate::lexer::tokens(chars) == t.tokens(),
        names.len() + t.room() <= usize::MAX,
    ensures
        crate::parser::parse(chars, names) matches Ok(parsed) && reads_as(chars, t, names, parsed),
{
    let st = Parsing { stack: Seq::empty(), nodes: Seq::empty(), names };
    let toks = t.tokens();
    let after = lemma_reads(chars, t, st);
    assert(toks.subrange(0, toks.len() as int) =~= toks);
    lemma_run_reads(chars, toks, 0, st, after);
    match t {
        Sentence::Name(from, to) => {
            let name = chars.subrange(from as int, to as int);
            lemma_symbol_of_entered(names, name);
            crate::parser::lemma_with_name_extends(names, name);
        },
        _ => {},
    }
}

/// Reading the tokens from position `at` up to position `to` is how the
/// reader begins from position `at` on.
proof fn lemma_run_begins(
    chars: Seq<char>,
    toks: Seq<TokenOrUnit>,
    at: int,
    to: int,
    st: Parsing,
    mid: Parsing,
)
    requires
        0 <= at <= to <= toks.len(),
        read(chars, toks.subrange(at, to), st) == Some(mid),
    ensures
        run(chars, toks, at, st) == run(chars, toks, to, mid),
    decreases to - at,
{
    let part = toks.subrange(at, to);
    if at < to {
        assert(part[0] == toks[at]);
        assert(part.drop_first() =~= toks.subrange(at + 1, to));
        match feed(chars, st, toks[at]) {
            Progress::Going(next) => {
                lemma_run_begins(chars, toks, at + 1, to, next, mid);
            },
            _ => {},
        }
    }
}

/// The reader with an empty graph and the tokens `stack` on its stack.
pub open spec fn holding(stack: Seq<TokenOrUnit>, names: Seq<Seq<char>>) -> Parsing {
    Parsing { stack, nodes: Seq::empty(), names }
}

/// Reading tokens that are no closing parentheses and no stray characters
/// puts them on the stack.
proof fn lemma_read_pushes(chars: Seq<char>, toks: Seq<TokenOrUnit>, st: Parsing)
    requires
        forall|i: int|
            0 <= i < toks.len() ==> !(#[trigger] toks[i] is RightParenthesis) && !(toks[i]
                is Unexpected),
    ensures
        read(chars, toks, st) == Some(
            Parsing { stack: st.stack + toks, nodes: st.nodes, names: st.names },
        ),
    decreases toks.len(),
{
    if toks.len() == 0 {
        assert(st.stack + toks =~= st.stack);
    } else {
        let next = Parsing { stack: st.stack.push(toks[0]), nodes: st.nodes, names: st.names };
        assert forall|i: int| 0 <= i < toks.drop_first().len() implies !(
        #[trigger] toks.drop_first()[i] is RightParenthesis) && !(toks.drop_first()[i]
            is Unexpected) by {
            assert(toks.drop_first()[i] == toks[i + 1]);
        }
        lemma_read_pushes(chars, toks.drop_first(), next);
        assert(next.stack + toks.drop_first() =~= st.stack + toks);
    }
}

/// The symbols of the two individuals and of the role of an assertion
/// whose identifiers are entered in the order `b`, `a`, `r`, and the symbol
/// table after that.
proof fn lemma_three_names(names: Seq<Seq<char>>, r: Seq<char>, a: Seq<char>, b: Seq<char>)
    ensures
        ({
            let n1 = with_name(names, b);
            let n2 = with_name(n1, a);
            let n3 = with_name(n2, r);
            &&& symbol_of(names, b) == symbol_of(n3, b)
            &&& symbol_of(n1, a) == symbol_of(n3, a)
            &&& symbol_of(n2, r) == symbol_of(n3, r)
            &&& n3.contains(b) && n3.contains(a) && n3.contains(r)
            &&& extends(n3, names)
            &&& n3.len() <= names.len() + 3
        }),
{
    let n1 = with_name(names, b);
    let n2 = with_name(n1, a);
    let n3 = with_name(n2, r);
    lemma_symbol_of_entered(names, b);
    lemma_symbol_of_entered(n1, a);
    lemma_symbol_of_entered(n2, r);
    crate::parser::lemma_with_name_extends(names, b);
    crate::parser::lemma_with_name_extends(n1, a);
    crate::parser::lemma_with_name_extends(n2, r);
    lemma_extends_chain(n2, n1, names);
    lemma_extends_chain(n3, n2, n1);
    lemma_extends_chain(n3, n2, names);
    let m1 = n3.subrange(n1.len() as int, n3.len() as int);
    assert(n3 =~= n1 + m1) by {
        assert forall|i: int| 0 <= i < n1.len() implies n3[i] == n1[i] by {
            assert(n3.subrange(0, n1.len() as int)[i] == n1[i]);
        }
    }
    lemma_symbol_of_stable(n1, m1, b);
    let m2 = n3.subrange(n2.len() as int, n3.len() as int);
    assert(n3 =~= n2 + m2) by {
        assert forall|i: int| 0 <= i < n2.len() implies n3[i] == n2[i] by {
            assert(n3.subrange(0, n2.len() as int)[i] == n2[i]);
        }
    }
    lemma_symbol_of_stable(n2, m2, a);
}

/// The tokens of a role assertion: the role, and the two individuals in
/// parentheses.
pub open spec fn role_tokens(r: TokenOrUnit, a: TokenOrUnit, b: TokenOrUnit) -> Seq<TokenOrUnit> {
    seq![r, TokenOrUnit::LeftParenthesis, a, b, TokenOrUnit::RightParenthesis]
}

/// The text of an identifier token; nothing for another token.
pub open spec fn text_of(chars: Seq<char>, tok: TokenOrUnit) -> Seq<char> {
    match tok {
        TokenOrUnit::Ident(from, to) => chars.subrange(from as int, to as int),
        _ => Seq::empty(),
    }
}

/// Whether `parsed` is the assertion, negated unless `positive`, that the
/// role named by `r` relates the individual named by `a` to the one named
/// by `b`.
pub open spec fn reads_as_role(
    parsed: Parsed,
    positive: bool,
    r: Seq<char>,
    a: Seq<char>,
    b: Seq<char>,
    names: Seq<Seq<char>>,
) -> bool {
    &&& parsed.root == Proposition::ARole(
        positive,
        symbol_of(parsed.names, r) as usize,
        symbol_of(parsed.names, a) as usize,
        symbol_of(parsed.names, b) as usize,
    )
    &&& parsed.nodes.len() == 0
    &&& parsed.names.contains(r) && parsed.names.contains(a) && parsed.names.contains(b)
    &&& extends(parsed.names, names)
}

/// What closing the parenthesis of a role assertion gives, with `before`
/// on the stack before the assertion.
proof fn lemma_close_role(
    chars: Seq<char>,
    before: Seq<TokenOrUnit>,
    r: TokenOrUnit,
    a: TokenOrUnit,
    b: TokenOrUnit,
    names: Seq<Seq<char>>,
) -> (parsed: Parsed)
    requires
        r is Ident,
        a is Ident,
        b is Ident,
        before.len() == 0 || before == crate::parser::negation_prefix(),
        names.len() + 3 <= usize::MAX,
    ensures
        reduce(
            chars,
            holding(before + seq![r, TokenOrUnit::LeftParenthesis, a, b], names),
        ) == Progress::Done(parsed),
        reads_as_role(
            parsed,
            before.len() == 0,
            text_of(chars, r),
            text_of(chars, a),
            text_of(chars, b),
            names,
        ),
{
    let st = holding(before + seq![r, TokenOrUnit::LeftParenthesis, a, b], names);
    let none = Seq::<usize>::empty();
    let tb = Sentence::Name(b->Ident_0, b->Ident_1);
    let ta = Sentence::Name(a->Ident_0, a->Ident_1);
    lemma_three_names(names, text_of(chars, r), text_of(chars, a), text_of(chars, b));
    crate::parser::lemma_with_name_extends(names, text_of(chars, b));
    let (s1, pb) = lemma_settle(chars, tb, st, none);
    assert(s1.stack =~= before + seq![r, TokenOrUnit::LeftParenthesis, a]);
    let (s2, pa) = lemma_settle(chars, ta, s1, none.push(pb));
    assert(s2.stack =~= before + seq![r, TokenOrUnit::LeftParenthesis]);
    lemma_collect_stops(chars, s2, none.push(pb).push(pa));
    let left = s2.stack.drop_last();
    assert(left =~= before.push(r));
    assert(left.drop_last() =~= before);
    let n3 = with_name(s2.names, text_of(chars, r));
    let parsed = Parsed {
        root: Proposition::ARole(
            before.len() == 0,
            symbol_of(s2.names, text_of(chars, r)) as usize,
            crate::parser::atom_of(s2.nodes[1].data),
            crate::parser::atom_of(s2.nodes[0].data),
        ),
        nodes: Seq::empty(),
        names: n3,
    };
    assert(crate::parser::negation_prefix().len() == 2);
    parsed
}

/// A role assertion is read as what it says, whatever follows it: where
/// the tokens of a text begin with a role, an opening parenthesis, two
/// individuals and a closing parenthesis, the reader returns the assertion
/// that the role relates the first individual to the second.
pub proof fn lemma_role_assertion_is_read(
    chars: Seq<char>,
    r: TokenOrUnit,
    a: TokenOrUnit,
    b: TokenOrUnit,
    names: Seq<Seq<char>>,
)
    requires
        r is Ident,
        a is Ident,
        b is Ident,
        crate::lexer::tokens(chars).len() >= 5,
        crate::lexer::tokens(chars).subrange(0, 5) == role_tokens(r, a, b),
        names.len() + 3 <= usize::MAX,
    ensures
        crate::parser::parse(chars, names) matches Ok(parsed) && reads_as_role(
            parsed,
            true,
            text_of(chars, r),
            text_of(chars, a),
            text_of(chars, b),
            names,
        ),
{
    let toks = crate::lexer::tokens(chars);
    let st = holding(Seq::empty(), names);
    let shifted = seq![r, TokenOrUnit::LeftParenthesis, a, b];
    assert(toks.subrange(0, 4) =~= shifted) by {
        assert forall|i: int| 0 <= i < 4 implies toks.subrange(0, 4)[i] == shifted[i] by {
            assert(toks.subrange(0, 5)[i] == role_tokens(r, a, b)[i]);
        }
    }
    assert(toks[4] == TokenOrUnit::RightParenthesis) by {
        assert(toks.subrange(0, 5)[4] == role_tokens(r, a, b)[4]);
    }
    lemma_read_pushes(chars, shifted, st);
    assert(Seq::<TokenOrUnit>::empty() + shifted =~= shifted);
    lemma_run_begins(chars, toks, 0, 4, st, holding(shifted, names));
    let parsed = lemma_close_role(chars, Seq::empty(), r, a, b, names);
}

/// A negated role assertion is read as what it says, whatever follows it:
/// where the tokens of a text begin with `!(` and a role assertion, the
/// reader returns the assertion that the role does not relate the first
/// individual to the second.
pub proof fn lemma_negated_role_assertion_is_read(
    chars: Seq<char>,
    r: TokenOrUnit,
    a: TokenOrUnit,
    b: TokenOrUnit,
    names: Seq<Seq<char>>,
)
    requires
        r is Ident,
        a is Ident,
        b is Ident,
        crate::lexer::tokens(chars).len() >= 7,
        crate::lexer::tokens(chars).subrange(0, 7) == crate::parser::negation_prefix()
            + role_tokens(r, a, b),
        names.len() + 3 <= usize::MAX,
    ensures
        crate::parser::parse(chars, names) matches Ok(parsed) && reads_as_role(
            parsed,
            false,
            text_of(chars, r),
            text_of(chars, a),
            text_of(chars, b),
            names,
        ),
{
    let toks = crate::lexer::tokens(chars);
    let st = holding(Seq::empty(), names);
    let prefix = crate::parser::negation_prefix();
    let shifted = prefix + seq![r, TokenOrUnit::LeftParenthesis, a, b];
    let whole = prefix + role_tokens(r, a, b);
    assert(toks.subrange(0, 6) =~= shifted) by {
        assert forall|i: int| 0 <= i < 6 implies toks.subrange(0, 6)[i] == shifted[i] by {
            assert(toks.subrange(0, 7)[i] == whole[i]);
        }
    }
    assert(toks[6] == TokenOrUnit::RightParenthesis) by {
        assert(toks.subrange(0, 7)[6] == whole[6]);
    }
    lemma_read_pushes(chars, shifted, st);
    assert(Seq::<TokenOrUnit>::empty() + shifted =~= shifted);
    lemma_run_begins(chars, toks, 0, 6, st, holding(shifted, names));
    let parsed = lemma_close_role(chars, prefix, r, a, b, names);
}

/// A concept assertion is read as what it says, whatever follows it: where
/// the tokens of a text begin with a concept name and an individual in
/// parentheses, the reader returns the atom of that name stated of the
/// individual.
pub proof fn lemma_concept_assertion_is_read(
    chars: Seq<char>,
    c: TokenOrUnit,
    a: TokenOrUnit,
    names: Seq<Seq<char>>,
)
    requires
        c is Ident,
        a is Ident,
        crate::lexer::tokens(chars).len() >= 4,
        crate::lexer::tokens(chars).subrange(0, 4) == seq![
            c,
            TokenOrUnit::LeftParenthesis,
            a,
            TokenOrUnit::RightParenthesis,
        ],
        names.len() + 2 <= usize::MAX,
    ensures
        crate::parser::parse(chars, names) matches Ok(parsed) && ({
            &&& parsed.root == Proposition::AConcept(
                symbol_of(parsed.names, text_of(chars, a)) as usize,
            )
            &&& parsed.nodes == seq![
                node_at(
                    0,
                    Concept::Atom(symbol_of(parsed.names, text_of(chars, c)) as usize),
                ),
            ]
            &&& parsed.names.contains(text_of(chars, c))
            &&& parsed.names.contains(text_of(chars, a))
            &&& extends(parsed.names, names)
        }),
{
    let toks = crate::lexer::tokens(chars);
    let whole = seq![c, TokenOrUnit::LeftParenthesis, a, TokenOrUnit::RightParenthesis];
    let st = holding(Seq::empty(), names);
    let shifted = seq![c, TokenOrUnit::LeftParenthesis, a];
    assert(toks.subrange(0, 3) =~= shifted) by {
        assert forall|i: int| 0 <= i < 3 implies toks.subrange(0, 3)[i] == shifted[i] by {
            assert(toks.subrange(0, 4)[i] == whole[i]);
        }
    }
    assert(toks[3] == TokenOrUnit::RightParenthesis) by {
        assert(toks.subrange(0, 4)[3] == whole[3]);
    }
    lemma_read_pushes(chars, shifted, st);
    assert(Seq::<TokenOrUnit>::empty() + shifted =~= shifted);
    let mid = holding(shifted, names);
    lemma_run_begins(chars, toks, 0, 3, st, mid);
    let none = Seq::<usize>::empty();
    let ta = Sentence::Name(a->Ident_0, a->Ident_1);
    let n1 = with_name(names, text_of(chars, a));
    let n2 = with_name(n1, text_of(chars, c));
    lemma_symbol_of_entered(names, text_of(chars, a));
    lemma_symbol_of_entered(n1, text_of(chars, c));
    crate::parser::lemma_with_name_extends(names, text_of(chars, a));
    crate::parser::lemma_with_name_extends(n1, text_of(chars, c));
    lemma_extends_chain(n2, n1, names);
    let more = n2.subrange(n1.len() as int, n2.len() as int);
    assert(n2 =~= n1 + more) by {
        assert forall|i: int| 0 <= i < n1.len() implies n2[i] == n1[i] by {
            assert(n2.subrange(0, n1.len() as int)[i] == n1[i]);
        }
    }
    lemma_symbol_of_stable(n1, more, text_of(chars, a));
    let (s1, pa) = lemma_settle(chars, ta, mid, none);
    assert(s1.stack =~= seq![c, TokenOrUnit::LeftParenthesis]);
    lemma_collect_stops(chars, s1, none.push(pa));
    assert(s1.stack.drop_last() =~= seq![c]);
    assert(s1.stack.drop_last().drop_last() =~= Seq::<TokenOrUnit>::empty());
}

} // verus!
