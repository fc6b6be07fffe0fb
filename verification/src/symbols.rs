//! Names and the numbers they are known by.
//!
//! A symbol table is modelled as the sequence of its names: the name at
//! position `i` is the name of symbol `i`. A name is known by the first
//! position at which it stands.

use vstd::prelude::*;

verus! {

/// Whether `i` is the first position of `s` in `names`.
pub open spec fn is_first(names: Seq<Seq<char>>, s: Seq<char>, i: int) -> bool {
    &&& 0 <= i < names.len()
    &&& names[i] == s
    &&& forall|j: int| 0 <= j < i ==> names[j] != s
}

/// The symbol that `s` is known by once it has been entered into `names`:
/// its first position, or, where it is new, the position after the last.
pub open spec fn symbol_of(names: Seq<Seq<char>>, s: Seq<char>) -> nat {
    if names.contains(s) {
        choose|i: nat| is_first(names, s, i as int)
    } else {
        names.len()
    }
}

/// The table after `s` has been entered: unchanged where `s` is known,
/// longer by `s` where it is new.
pub open spec fn with_name(names: Seq<Seq<char>>, s: Seq<char>) -> Seq<Seq<char>> {
    if names.contains(s) {
        names
    } else {
        names.push(s)
    }
}

/// The decimal digit for `d`.
pub open spec fn digit(d: nat) -> char {
    if d == 0 {
        '0'
    } else if d == 1 {
        '1'
    } else if d == 2 {
        '2'
    } else if d == 3 {
        '3'
    } else if d == 4 {
        '4'
    } else if d == 5 {
        '5'
    } else if d == 6 {
        '6'
    } else if d == 7 {
        '7'
    } else if d == 8 {
        '8'
    } else {
        '9'
    }
}

/// `n` written in decimal, without leading zeros.
pub open spec fn decimal(n: nat) -> Seq<char>
    decreases n,
{
    if n < 10 {
        seq![digit(n)]
    } else {
        decimal(n / 10).push(digit(n % 10))
    }
}

/// The name given to a symbol that was made without one.
pub open spec fn synthetic(id: nat) -> Seq<char> {
    "autoname"@ + decimal(id)
}

/// A name that stands in the table has a first position, and that is its
/// symbol.
pub proof fn lemma_symbol_of_known(names: Seq<Seq<char>>, s: Seq<char>)
    requires
        names.contains(s),
    ensures
        is_first(names, s, symbol_of(names, s) as int),
{
    lemma_first_exists(names, s, names.len() as int);
}

proof fn lemma_first_exists(names: Seq<Seq<char>>, s: Seq<char>, n: int)
    requires
        0 <= n <= names.len(),
        exists|k: int| 0 <= k < n && names[k] == s,
    ensures
        exists|i: nat| is_first(names, s, i as int),
    decreases n,
{
    let k = choose|k: int| 0 <= k < n && names[k] == s;
    if exists|j: int| 0 <= j < k && names[j] == s {
        lemma_first_exists(names, s, k);
    } else {
        assert(is_first(names, s, (k as nat) as int));
    }
}

/// A name has at most one first position.
pub proof fn lemma_first_unique(names: Seq<Seq<char>>, s: Seq<char>, i: int, j: int)
    requires
        is_first(names, s, i),
        is_first(names, s, j),
    ensures
        i == j,
{
}

/// A name is known by the same symbol before and after it is entered, and
/// entering it puts it at that position.
pub proof fn lemma_symbol_of_entered(names: Seq<Seq<char>>, s: Seq<char>)
    ensures
        symbol_of(with_name(names, s), s) == symbol_of(names, s),
        with_name(names, s).contains(s),
        with_name(names, s)[symbol_of(names, s) as int] == s,
        symbol_of(names, s) < with_name(names, s).len(),
{
    let after = with_name(names, s);
    if names.contains(s) {
        lemma_symbol_of_known(names, s);
    } else {
        assert(after[names.len() as int] == s);
        assert(is_first(after, s, names.len() as int));
        lemma_symbol_of_known(after, s);
        lemma_first_unique(after, s, names.len() as int, symbol_of(after, s) as int);
    }
}

/// Once a name is known, the symbol it is known by never changes, whatever
/// is appended to the table afterwards.
pub proof fn lemma_symbol_of_stable(names: Seq<Seq<char>>, more: Seq<Seq<char>>, s: Seq<char>)
    requires
        names.contains(s),
    ensures
        (names + more).contains(s),
        symbol_of(names + more, s) == symbol_of(names, s),
{
    lemma_symbol_of_known(names, s);
    let i = symbol_of(names, s) as int;
    let longer = names + more;
    assert(longer[i] == s);
    assert(is_first(longer, s, i));
    lemma_symbol_of_known(longer, s);
    lemma_first_unique(longer, s, i, symbol_of(longer, s) as int);
}

/// The one-character string for the decimal digit `d`.
fn digit_str(d: usize) -> (s: &'static str)
    requires
        d < 10,
    ensures
        s@ == seq![digit(d as nat)],
{
    proof {
        reveal_strlit("0");
        reveal_strlit("1");
        reveal_strlit("2");
        reveal_strlit("3");
        reveal_strlit("4");
        reveal_strlit("5");
        reveal_strlit("6");
        reveal_strlit("7");
        reveal_strlit("8");
        reveal_strlit("9");
    }
    let s = if d == 0 {
        "0"
    } else if d == 1 {
        "1"
    } else if d == 2 {
        "2"
    } else if d == 3 {
        "3"
    } else if d == 4 {
        "4"
    } else if d == 5 {
        "5"
    } else if d == 6 {
        "6"
    } else if d == 7 {
        "7"
    } else if d == 8 {
        "8"
    } else {
        "9"
    };
    assert(s@ =~= seq![digit(d as nat)]);
    s
}

/// Appends `n` in decimal to `out`.
pub fn push_decimal(out: &mut String, n: usize)
    ensures
        final(out)@ == old(out)@ + decimal(n as nat),
    decreases n,
{
    if n >= 10 {
        push_decimal(out, n / 10);
    }
    out.append(digit_str(n % 10));
    assert(out@ =~= old(out)@ + decimal(n as nat));
}

/// The name for the symbol `id` that was made without one.
pub fn synthetic_name(id: usize) -> (name: String)
    ensures
        name@ == synthetic(id as nat),
{
    let mut name = String::from_str("autoname");
    push_decimal(&mut name, id);
    name
}

} // verus!
