//! Decimal text.

use vstd::prelude::*;

verus! {

/// A decimal digit.
pub open spec fn digit(d: nat) -> Seq<char> {
    if d == 0 {
        "0"@
    } else if d == 1 {
        "1"@
    } else if d == 2 {
        "2"@
    } else if d == 3 {
        "3"@
    } else if d == 4 {
        "4"@
    } else if d == 5 {
        "5"@
    } else if d == 6 {
        "6"@
    } else if d == 7 {
        "7"@
    } else if d == 8 {
        "8"@
    } else {
        "9"@
    }
}

/// A number in decimal.
pub open spec fn decimal(n: nat) -> Seq<char>
    decreases n,
{
    if n < 10 {
        digit(n)
    } else {
        decimal(n / 10) + digit(n % 10)
    }
}

/// Append a number in decimal.
pub fn push_decimal(s: &mut String, n: u64)
    ensures
        final(s)@ == old(s)@ + decimal(n as nat),
    decreases n,
{
    if n >= 10 {
        push_decimal(s, n / 10);
    }
    let ghost head = s@;
    let d = n % 10;
    if d == 0 {
        s.append("0");
    } else if d == 1 {
        s.append("1");
    } else if d == 2 {
        s.append("2");
    } else if d == 3 {
        s.append("3");
    } else if d == 4 {
        s.append("4");
    } else if d == 5 {
        s.append("5");
    } else if d == 6 {
        s.append("6");
    } else if d == 7 {
        s.append("7");
    } else if d == 8 {
        s.append("8");
    } else {
        s.append("9");
    }
    assert(s@ =~= old(s)@ + decimal(n as nat));
}

/// Calls `String::leak`, which hands out the characters of a string for the rest of
/// the program: they are the string's own.
#[verifier::external_body]
pub(crate) fn leaked(s: String) -> (r: &'static str)
    ensures
        r@ == s@,
{
    s.leak()
}

/// A number in decimal, with leading zeros up to a width.
pub open spec fn padded(n: nat, width: nat) -> Seq<char>
    decreases width,
{
    if width <= 1 {
        decimal(n)
    } else {
        padded(n / 10, (width - 1) as nat) + digit(n % 10)
    }
}

/// Append a number in decimal, with leading zeros up to a width.
pub fn push_padded(s: &mut String, n: u64, width: u32)
    ensures
        final(s)@ == old(s)@ + padded(n as nat, width as nat),
    decreases width,
{
    if width <= 1 {
        push_decimal(s, n);
    } else {
        push_padded(s, n / 10, width - 1);
        let ghost head = s@;
        push_decimal(s, n % 10);
        assert(s@ =~= old(s)@ + padded(n as nat, width as nat));
    }
}

/// The number a text of decimal digits stands for.
pub open spec fn reading(s: Seq<char>) -> nat
    decreases s.len(),
{
    if s.len() == 0 {
        0
    } else {
        10 * reading(s.drop_last()) + (s.last() as nat - '0' as nat) as nat
    }
}

proof fn lemma_digit(d: nat)
    requires
        d < 10,
    ensures
        digit(d).len() == 1,
        digit(d)[0] as nat == '0' as nat + d,
{
    reveal_strlit("0");
    reveal_strlit("1");
    reveal_strlit("2");
    reveal_strlit("3");
    reveal_strlit("4");
    reveal_strlit("5");
    reveal_strlit("6");
    reveal_strlit("7");
    reveal_strlit("8");
    reveal_strlit("9");
}

proof fn lemma_reading(s: Seq<char>, d: nat)
    requires
        d < 10,
    ensures
        reading(s + digit(d)) == 10 * reading(s) + d,
        (s + digit(d)).len() == s.len() + 1,
{
    lemma_digit(d);
    let t = s + digit(d);
    assert(t.drop_last() =~= s);
    assert(t.last() == digit(d)[0]);
}

/// A number in decimal reads back as the number, so that different numbers have different
/// texts; and it has no leading zero but for zero itself.
pub proof fn decimals_read_back(n: nat)
    ensures
        reading(decimal(n)) == n,
        decimal(n).len() >= 1,
        n > 0 ==> decimal(n)[0] != '0',
    decreases n,
{
    if n < 10 {
        lemma_digit(n);
        lemma_reading(Seq::empty(), n);
        assert(Seq::<char>::empty() + digit(n) =~= digit(n));
    } else {
        decimals_read_back(n / 10);
        lemma_reading(decimal(n / 10), n % 10);
        assert(decimal(n)[0] == decimal(n / 10)[0]);
    }
}

/// A padded number reads back as the number, and is at least as long as the width.
pub proof fn padding_reads_back(n: nat, width: nat)
    ensures
        reading(padded(n, width)) == n,
        padded(n, width).len() >= width,
        padded(n, width).len() >= 1,
    decreases width,
{
    if width <= 1 {
        decimals_read_back(n);
    } else {
        padding_reads_back(n / 10, (width - 1) as nat);
        lemma_reading(padded(n / 10, (width - 1) as nat), n % 10);
    }
}

/// A number in decimal is made of digits.
pub proof fn decimals_are_digits(n: nat)
    ensures
        forall|i: int|
            0 <= i < decimal(n).len() ==> '0' as nat <= #[trigger] decimal(n)[i] as nat <= '9' as nat,
    decreases n,
{
    if n < 10 {
        lemma_digit(n);
    } else {
        decimals_are_digits(n / 10);
        lemma_digit(n % 10);
        assert forall|i: int| 0 <= i < decimal(n).len() implies '0' as nat
            <= #[trigger] decimal(n)[i] as nat <= '9' as nat by {
            if i < decimal(n / 10).len() {
                assert(decimal(n)[i] == decimal(n / 10)[i]);
            } else {
                assert(decimal(n)[i] == digit(n % 10)[0]);
            }
        }
    }
}

} // verus!
