//! Text building blocks: decimal numerals and the lexicographic order on names.

use itertools::Itertools;
use vstd::prelude::*;
use vstd::std_specs::iter::IteratorSpec;
use vstd::string::*;

verus! {

/// The character that writes a single decimal digit.
pub open spec fn digit_char(d: nat) -> char
    recommends
        d < 10,
{
    if d == 0 {
        '0'
    } else if d == 1 {
        '1'
    } else if d == 2 {
        '2'
    } else if d == 3 {
        '3'
    } else if d == 4 {
        '4'
    } else if d == 5 {
        '5'
    } else if d == 6 {
        '6'
    } else if d == 7 {
        '7'
    } else if d == 8 {
        '8'
    } else {
        '9'
    }
}

/// The decimal numeral of `n`, without leading zeros.
pub open spec fn decimal(n: nat) -> Seq<char>
    decreases n,
{
    if n < 10 {
        seq![digit_char(n)]
    } else {
        decimal(n / 10).push(digit_char(n % 10))
    }
}

/// The one-character string of a decimal digit.
fn digit_str(d: u128) -> (s: &'static str)
    requires
        d < 10,
    ensures
        s@ == seq![digit_char(d as nat)],
{
    proof {
        reveal_strlit("0");
        reveal_strlit("1");
        reveal_strlit("2");
        reveal_strlit("3");
        reveal_strlit("4");
        reveal_strlit("5");
        reveal_strlit("6");
        reveal_strlit("7");
        reveal_strlit("8");
        reveal_strlit("9");
    }
    let s = if d == 0 {
        "0"
    } else if d == 1 {
        "1"
    } else if d == 2 {
        "2"
    } else if d == 3 {
        "3"
    } else if d == 4 {
        "4"
    } else if d == 5 {
        "5"
    } else if d == 6 {
        "6"
    } else if d == 7 {
        "7"
    } else if d == 8 {
        "8"
    } else {
        "9"
    };
    assert(s@ =~= seq![digit_char(d as nat)]);
    s
}

/// Appends the decimal numeral of `n` to `out`.
pub fn push_decimal(out: &mut String, n: u128)
    ensures
        final(out)@ == old(out)@ + decimal(n as nat),
    decreases n,
{
    if n >= 10 {
        push_decimal(out, n / 10);
    }
    out.append(digit_str(n % 10));
    assert(out@ =~= old(out)@ + decimal(n as nat));
}

/// The string made of `prefix` and the decimal numeral of `n`.
pub fn numbered(prefix: &str, n: u128) -> (r: String)
    ensures
        r@ == prefix@ + decimal(n as nat),
{
    let mut r = prefix.to_owned();
    push_decimal(&mut r, n);
    r
}

/// The value of a decimal numeral.
pub open spec fn numeral_value(s: Seq<char>) -> nat
    decreases s.len(),
{
    if s.len() == 0 {
        0
    } else {
        numeral_value(s.drop_last()) * 10 + ((s.last() as int) - ('0' as int)) as nat
    }
}

/// Reading a decimal numeral gives back the number that it writes.
pub proof fn lemma_decimal_value(n: nat)
    ensures
        numeral_value(decimal(n)) == n,
    decreases n,
{
    if n < 10 {
        assert(decimal(n).drop_last() =~= Seq::<char>::empty());
        assert(numeral_value(decimal(n).drop_last()) == 0);
    } else {
        lemma_decimal_value(n / 10);
        assert(decimal(n).drop_last() =~= decimal(n / 10));
    }
}

/// Different numbers have different decimal numerals, also behind a common prefix.
pub proof fn lemma_numbered_injective(prefix: Seq<char>, a: nat, b: nat)
    requires
        prefix + decimal(a) == prefix + decimal(b),
    ensures
        a == b,
{
    let x = prefix + decimal(a);
    let y = prefix + decimal(b);
    assert(x.subrange(prefix.len() as int, x.len() as int) =~= decimal(a));
    assert(y.subrange(prefix.len() as int, y.len() as int) =~= decimal(b));
    lemma_decimal_value(a);
    lemma_decimal_value(b);
}

/// What is left of a list of names when each name that repeats the one before it is dropped.
pub open spec fn dedup_runs(names: Seq<Seq<char>>) -> Seq<Seq<char>>
    decreases names.len(),
{
    if names.len() == 0 {
        names
    } else if names.len() >= 2 && names[names.len() - 2] == names.last() {
        dedup_runs(names.drop_last())
    } else {
        dedup_runs(names.drop_last()).push(names.last())
    }
}

/// The names written one after the other, with `sep` between each two.
pub open spec fn joined(names: Seq<Seq<char>>, sep: Seq<char>) -> Seq<char>
    decreases names.len(),
{
    if names.len() == 0 {
        Seq::empty()
    } else if names.len() == 1 {
        names[0]
    } else {
        joined(names.drop_last(), sep) + sep + names.last()
    }
}

/// Calls `Itertools::dedup` on the names and collects what it yields.
///
/// Trusted: the adaptor yields the first name of every run of equal consecutive names, in
/// order, and nothing else; two strings are equal when their characters are.
#[verifier::external_body]
pub(crate) fn dedup_names(names: Vec<String>) -> (r: Vec<String>)
    ensures
        r.deep_view() == dedup_runs(names.deep_view()),
{
    names.into_iter().dedup().collect()
}

/// Writes the names through `Itertools::format` with the separator `sep`.
///
/// Trusted: the helper writes the first name, then the separator and the next name for each
/// name that follows, and each name is written as it stands.
#[verifier::external_body]
pub(crate) fn join_names(names: &Vec<String>, sep: &str) -> (r: String)
    ensures
        r@ == joined(names.deep_view(), sep@),
{
    format!("{}", names.iter().format(sep))
}

/// Whether `a` comes strictly before `b` in the lexicographic order by characters.
pub open spec fn lex_lt(a: Seq<char>, b: Seq<char>) -> bool
    decreases a.len(),
{
    if b.len() == 0 {
        false
    } else if a.len() == 0 {
        true
    } else if a[0] != b[0] {
        (a[0] as int) < (b[0] as int)
    } else {
        lex_lt(a.drop_first(), b.drop_first())
    }
}

/// Decides the order of two characters.
fn char_lt(p: char, q: char) -> (r: bool)
    ensures
        r == ((p as int) < (q as int)),
{
    p < q
}

/// Decides the lexicographic order of two strings.
pub fn str_lt(a: &str, b: &str) -> (r: bool)
    ensures
        r == lex_lt(a@, b@),
{
    let mut x = a.chars();
    let mut y = b.chars();
    loop
        invariant
            lex_lt(a@, b@) == lex_lt(x.remaining(), y.remaining()),
            x.decrease() is Some,
        decreases x.decrease()->0,
    {
        broadcast use group_string_axioms;
        let cy = y.next();
        let cx = x.next();
        match (cx, cy) {
            (_, None) => {
                return false;
            },
            (None, Some(_)) => {
                return true;
            },
            (Some(p), Some(q)) => {
                if p != q {
                    return char_lt(p, q);
                }
            },
        }
    }
}

} // verus!
