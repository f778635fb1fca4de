//! Sender labels: every connection is shown to peers under a pseudonym, a
//! fixed prefix followed by its id in decimal. The rendering is deterministic
//! and injective, so two distinct connections never collapse to one label and
//! nothing beyond the opaque id is revealed.

use vstd::prelude::*;
use vstd::string::StringExecFns;
use crate::ConnId;

verus! {

/// The decimal digit character for a value below ten.
pub open spec fn digit_char(d: nat) -> char {
    if d == 0 {
        '0'
    } else if d == 1 {
        '1'
    } else if d == 2 {
        '2'
    } else if d == 3 {
        '3'
    } else if d == 4 {
        '4'
    } else if d == 5 {
        '5'
    } else if d == 6 {
        '6'
    } else if d == 7 {
        '7'
    } else if d == 8 {
        '8'
    } else {
        '9'
    }
}

/// The usual decimal rendering of a natural number, most significant digit
/// first, with no leading zeros (zero itself renders as a single digit).
pub open spec fn decimal_of(n: nat) -> Seq<char>
    decreases n,
{
    if n < 10 {
        seq![digit_char(n)]
    } else {
        decimal_of(n / 10).push(digit_char(n % 10))
    }
}

/// The display label of a connection id: `anon-` then the id in decimal.
pub open spec fn pseudonym_of(id: ConnId) -> Seq<char> {
    seq!['a', 'n', 'o', 'n', '-'] + decimal_of(id as nat)
}

/// A single decimal digit as a string slice.
fn digit_str(d: u64) -> (s: &'static str)
    requires
        d < 10,
    ensures
        s@.len() == 1,
        s@[0] == digit_char(d as nat),
{
    proof {
        reveal_strlit("0");
        reveal_strlit("1");
        reveal_strlit("2");
        reveal_strlit("3");
        reveal_strlit("4");
        reveal_strlit("5");
        reveal_strlit("6");
        reveal_strlit("7");
        reveal_strlit("8");
        reveal_strlit("9");
    }
    if d == 0 {
        "0"
    } else if d == 1 {
        "1"
    } else if d == 2 {
        "2"
    } else if d == 3 {
        "3"
    } else if d == 4 {
        "4"
    } else if d == 5 {
        "5"
    } else if d == 6 {
        "6"
    } else if d == 7 {
        "7"
    } else if d == 8 {
        "8"
    } else {
        "9"
    }
}

/// Renders an id in decimal, matching `decimal_of` exactly.
pub fn u64_to_decimal(n: u64) -> (s: String)
    ensures
        s@ == decimal_of(n as nat),
    decreases n,
{
    if n < 10 {
        let s = String::from_str(digit_str(n));
        proof {
            assert(s@ =~= decimal_of(n as nat));
        }
        s
    } else {
        let rest = u64_to_decimal(n / 10);
        let s = rest.concat(digit_str(n % 10));
        proof {
            assert((n / 10) as nat == (n as nat) / 10);
            assert((n % 10) as nat == (n as nat) % 10);
            assert(s@ =~= decimal_of(n as nat));
        }
        s
    }
}

/// Derives the display label for a connection: the fixed prefix `anon-`
/// followed by the id in decimal.
pub fn pseudonym(id: ConnId) -> (s: String)
    ensures
        s@ == pseudonym_of(id),
{
    let p = String::from_str("anon-");
    proof {
        reveal_strlit("anon-");
        assert(p@ =~= seq!['a', 'n', 'o', 'n', '-']);
    }
    let d = u64_to_decimal(id);
    let s = p.concat(d.as_str());
    proof {
        assert(s@ =~= pseudonym_of(id));
    }
    s
}

/// A decimal rendering is never empty, and a value of ten or more renders to
/// at least two digits.
pub proof fn lemma_decimal_len(n: nat)
    ensures
        decimal_of(n).len() >= 1,
        n >= 10 ==> decimal_of(n).len() >= 2,
    decreases n,
{
    if n >= 10 {
        lemma_decimal_len(n / 10);
    }
}

/// Distinct digits render to distinct characters.
proof fn lemma_digit_char_injective(a: nat, b: nat)
    requires
        a < 10,
        b < 10,
        digit_char(a) == digit_char(b),
    ensures
        a == b,
{
}

/// Distinct numbers render to distinct decimal strings.
pub proof fn lemma_decimal_injective(a: nat, b: nat)
    requires
        decimal_of(a) == decimal_of(b),
    ensures
        a == b,
    decreases a,
{
    if a < 10 && b < 10 {
        assert(decimal_of(a)[0] == digit_char(a));
        assert(decimal_of(b)[0] == digit_char(b));
        lemma_digit_char_injective(a, b);
    } else if a < 10 && b >= 10 {
        lemma_decimal_len(b / 10);
        assert(decimal_of(a).len() == 1);
        assert(decimal_of(b).len() >= 2);
    } else if a >= 10 && b < 10 {
        lemma_decimal_len(a / 10);
        assert(decimal_of(a).len() >= 2);
        assert(decimal_of(b).len() == 1);
    } else {
        assert(decimal_of(a).last() == digit_char(a % 10));
        assert(decimal_of(b).last() == digit_char(b % 10));
        lemma_digit_char_injective(a % 10, b % 10);
        assert(decimal_of(a).drop_last() =~= decimal_of(a / 10));
        assert(decimal_of(b).drop_last() =~= decimal_of(b / 10));
        lemma_decimal_injective(a / 10, b / 10);
        assert(a == 10 * (a / 10) + a % 10);
        assert(b == 10 * (b / 10) + b % 10);
    }
}

/// Two distinct connections never collapse to the same pseudonym.
pub proof fn lemma_pseudonym_injective(a: ConnId, b: ConnId)
    requires
        pseudonym_of(a) == pseudonym_of(b),
    ensures
        a == b,
{
    let pa = pseudonym_of(a);
    let pb = pseudonym_of(b);
    assert(decimal_of(a as nat) =~= pa.subrange(5, pa.len() as int));
    assert(decimal_of(b as nat) =~= pb.subrange(5, pb.len() as int));
    lemma_decimal_injective(a as nat, b as nat);
}

} // verus!
