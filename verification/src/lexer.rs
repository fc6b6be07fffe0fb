//! From characters to tokens.
//!
//! An identifier is a longest run of letters and digits. Each of the
//! characters `( ) & | ! > = @ #` is a token of its own. Blanks separate
//! tokens and are dropped. Any other character becomes a token that no
//! sentence admits.

use vstd::prelude::*;

verus! {

/// A token of the surface syntax, or, on the parser's stack, the position
/// of a node that stands for a sentence part already read.
#[derive(Clone, Copy, Debug, PartialEq, Eq)]
pub enum TokenOrUnit {
    /// An identifier: the characters from the first position up to, not
    /// including, the second.
    Ident(usize, usize),
    LeftParenthesis,
    RightParenthesis,
    And,
    Or,
    Not,
    Imply,
    Xnor,
    ForAll,
    Exist,
    /// A character that belongs to no token.
    Unexpected(char),
    /// The position of a concept node.
    Unit(usize),
}

/// Whether `c` can stand in an identifier.
pub open spec fn is_ident_char(c: char) -> bool {
    ('a' <= c && c <= 'z') || ('A' <= c && c <= 'Z') || ('0' <= c && c <= '9')
}

/// The token that the character `c`, which is neither a blank nor part of
/// an identifier, makes by itself.
pub open spec fn symbol_token(c: char) -> TokenOrUnit {
    if c == '(' {
        TokenOrUnit::LeftParenthesis
    } else if c == ')' {
        TokenOrUnit::RightParenthesis
    } else if c == '&' {
        TokenOrUnit::And
    } else if c == '|' {
        TokenOrUnit::Or
    } else if c == '!' {
        TokenOrUnit::Not
    } else if c == '>' {
        TokenOrUnit::Imply
    } else if c == '=' {
        TokenOrUnit::Xnor
    } else if c == '@' {
        TokenOrUnit::ForAll
    } else if c == '#' {
        TokenOrUnit::Exist
    } else {
        TokenOrUnit::Unexpected(c)
    }
}

/// The length of the run of identifier characters that starts at `at`.
pub open spec fn ident_run(chars: Seq<char>, at: int) -> nat
    decreases chars.len() - at,
{
    if 0 <= at < chars.len() && is_ident_char(chars[at]) {
        1 + ident_run(chars, at + 1)
    } else {
        0
    }
}

/// The tokens of `chars` from position `at` on.
pub open spec fn tokens_from(chars: Seq<char>, at: int) -> Seq<TokenOrUnit>
    decreases chars.len() - at,
{
    if !(0 <= at < chars.len()) {
        Seq::empty()
    } else if chars[at] == ' ' {
        tokens_from(chars, at + 1)
    } else if is_ident_char(chars[at]) {
        proof {
            lemma_ident_run_bound(chars, at + 1);
        }
        let end = at + 1 + ident_run(chars, at + 1);
        seq![TokenOrUnit::Ident(at as usize, end as usize)] + tokens_from(chars, end)
    } else {
        seq![symbol_token(chars[at])] + tokens_from(chars, at + 1)
    }
}

/// The tokens of `chars`.
pub open spec fn tokens(chars: Seq<char>) -> Seq<TokenOrUnit> {
    tokens_from(chars, 0)
}

/// Whether `tok`, if it is an identifier, is a non-empty stretch of `len`
/// characters.
pub open spec fn within(tok: TokenOrUnit, len: nat) -> bool {
    tok matches TokenOrUnit::Ident(from, to) ==> from < to <= len
}

/// Whether every identifier among `toks` is a non-empty stretch of `len`
/// characters.
pub open spec fn spans_within(toks: Seq<TokenOrUnit>, len: nat) -> bool {
    forall|i: int| 0 <= i < toks.len() ==> within(#[trigger] toks[i], len)
}

/// A run of identifier characters ends within the text.
pub proof fn lemma_ident_run_bound(chars: Seq<char>, at: int)
    requires
        0 <= at <= chars.len(),
    ensures
        at + ident_run(chars, at) <= chars.len(),
    decreases chars.len() - at,
{
    if at < chars.len() && is_ident_char(chars[at]) {
        lemma_ident_run_bound(chars, at + 1);
    }
}

/// There are no more tokens than characters, no token is a node position,
/// and every identifier is a non-empty stretch of the text.
pub proof fn lemma_tokens_from(chars: Seq<char>, at: int)
    requires
        0 <= at <= chars.len() <= usize::MAX,
    ensures
        tokens_from(chars, at).len() <= chars.len() - at,
        spans_within(tokens_from(chars, at), chars.len()),
        forall|i: int|
            0 <= i < tokens_from(chars, at).len() ==> !(#[trigger] tokens_from(chars, at)[i]
                is Unit),
    decreases chars.len() - at,
{
    let toks = tokens_from(chars, at);
    if at < chars.len() {
        if chars[at] == ' ' {
            lemma_tokens_from(chars, at + 1);
        } else if is_ident_char(chars[at]) {
            lemma_ident_run_bound(chars, at + 1);
            let end = at + 1 + ident_run(chars, at + 1);
            lemma_tokens_from(chars, end);
            let tail = tokens_from(chars, end);
            assert forall|i: int| 0 <= i < toks.len() implies within(
                #[trigger] toks[i],
                chars.len(),
            ) && !(toks[i] is Unit) by {
                if i > 0 {
                    assert(toks[i] == tail[i - 1]);
                }
            }
        } else {
            lemma_tokens_from(chars, at + 1);
            let tail = tokens_from(chars, at + 1);
            assert forall|i: int| 0 <= i < toks.len() implies within(
                #[trigger] toks[i],
                chars.len(),
            ) && !(toks[i] is Unit) by {
                if i > 0 {
                    assert(toks[i] == tail[i - 1]);
                }
            }
        }
    }
}

/// Whether `c` can stand in an identifier.
pub fn ident_char(c: char) -> (yes: bool)
    ensures
        yes == is_ident_char(c),
{
    ('a' <= c && c <= 'z') || ('A' <= c && c <= 'Z') || ('0' <= c && c <= '9')
}

/// The token that `c` makes by itself.
pub fn symbol(c: char) -> (token: TokenOrUnit)
    ensures
        token == symbol_token(c),
{
    if c == '(' {
        TokenOrUnit::LeftParenthesis
    } else if c == ')' {
        TokenOrUnit::RightParenthesis
    } else if c == '&' {
        TokenOrUnit::And
    } else if c == '|' {
        TokenOrUnit::Or
    } else if c == '!' {
        TokenOrUnit::Not
    } else if c == '>' {
        TokenOrUnit::Imply
    } else if c == '=' {
        TokenOrUnit::Xnor
    } else if c == '@' {
        TokenOrUnit::ForAll
    } else if c == '#' {
        TokenOrUnit::Exist
    } else {
        TokenOrUnit::Unexpected(c)
    }
}

/// The characters of `text`.
pub fn characters(text: &str) -> (chars: Vec<char>)
    ensures
        chars@ == text@,
{
    let mut chars: Vec<char> = Vec::new();
    for c in iter: text.chars()
        invariant
            iter.seq() == text@,
            chars@ == text@.subrange(0, iter.index() as int),
    {
        chars.push(c);
    }
    assert(chars@ =~= text@);
    chars
}

/// Splits `chars` into tokens.
pub fn lex(chars: &Vec<char>) -> (toks: Vec<TokenOrUnit>)
    ensures
        toks@ == tokens(chars@),
{
    let n = chars.len();
    let mut toks: Vec<TokenOrUnit> = Vec::new();
    let mut at: usize = 0;
    assert(toks@ + tokens_from(chars@, 0) =~= tokens(chars@));
    while at < n
        invariant
            n == chars@.len(),
            at <= n,
            toks@ + tokens_from(chars@, at as int) == tokens(chars@),
        decreases n - at,
    {
        let c = chars[at];
        let ghost rest = tokens_from(chars@, at as int);
        if c == ' ' {
            at += 1;
        } else if ident_char(c) {
            let mut end: usize = at + 1;
            while end < n && ident_char(chars[end])
                invariant
                    n == chars@.len(),
                    at < end <= n,
                    1 + ident_run(chars@, at + 1) == (end - at) + ident_run(chars@, end as int),
                decreases n - end,
            {
                end += 1;
            }
            let ghost before = toks@;
            toks.push(TokenOrUnit::Ident(at, end));
            assert(toks@ + tokens_from(chars@, end as int) =~= before + rest);
            at = end;
        } else {
            let ghost before = toks@;
            toks.push(symbol(c));
            assert(toks@ + tokens_from(chars@, at + 1) =~= before + rest);
            at += 1;
        }
    }
    assert(toks@ + Seq::<TokenOrUnit>::empty() =~= toks@);
    toks
}

} // verus!
