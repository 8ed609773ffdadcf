//! Integers as decimal text.

use vstd::prelude::*;
use vstd::string::StringExecFns;

verus! {

/// The character of a decimal digit.
pub open spec fn digit(d: nat) -> char {
    ('0' as u32 + d) as char
}

/// The decimal text of a natural number.
pub open spec fn decimal(n: nat) -> Seq<char>
    decreases n,
{
    if n < 10 {
        seq![digit(n)]
    } else {
        decimal(n / 10).push(digit(n % 10))
    }
}

/// The decimal text of an integer.
pub open spec fn signed_decimal(n: int) -> Seq<char> {
    if n < 0 {
        seq!['-'] + decimal((-n) as nat)
    } else {
        decimal(n as nat)
    }
}

/// Appends one digit.
fn append_digit(out: &mut String, d: u64)
    requires
        d < 10,
    ensures
        final(out)@ == old(out)@.push(digit(d as nat)),
{
    proof {
        reveal_strlit("0");
        reveal_strlit("1");
        reveal_strlit("2");
        reveal_strlit("3");
        reveal_strlit("4");
        reveal_strlit("5");
        reveal_strlit("6");
        reveal_strlit("7");
        reveal_strlit("8");
        reveal_strlit("9");
    }
    let text: &str = match d {
        0 => "0",
        1 => "1",
        2 => "2",
        3 => "3",
        4 => "4",
        5 => "5",
        6 => "6",
        7 => "7",
        8 => "8",
        _ => "9",
    };
    assert(text@ =~= seq![digit(d as nat)]);
    out.append(text);
    assert(out@ =~= old(out)@.push(digit(d as nat)));
}

/// Appends the decimal text of a natural number.
pub fn append_decimal(out: &mut String, n: u64)
    ensures
        final(out)@ == old(out)@ + decimal(n as nat),
    decreases n,
{
    if n >= 10 {
        append_decimal(out, n / 10);
    }
    append_digit(out, n % 10);
    assert(out@ =~= old(out)@ + decimal(n as nat));
}

/// Appends the decimal text of an integer.
pub fn append_signed_decimal(out: &mut String, n: i64)
    ensures
        final(out)@ == old(out)@ + signed_decimal(n as int),
{
    if n < 0 {
        proof {
            reveal_strlit("-");
        }
        out.append("-");
        append_decimal(out, (-(n as i128)) as u64);
        assert(out@ =~= old(out)@ + signed_decimal(n as int));
    } else {
        append_decimal(out, n as u64);
    }
}

/// No two natural numbers have the same decimal text.
pub proof fn lemma_decimal_is_injective(a: nat, b: nat)
    requires
        decimal(a) == decimal(b),
    ensures
        a == b,
    decreases a,
{
    lemma_decimal_digits(a);
    lemma_decimal_digits(b);
    assert(decimal(a).last() == digit(a % 10));
    assert(decimal(b).last() == digit(b % 10));
    assert(a % 10 == b % 10);
    if a >= 10 && b >= 10 {
        assert(decimal(a).drop_last() =~= decimal(a / 10));
        assert(decimal(b).drop_last() =~= decimal(b / 10));
        lemma_decimal_is_injective(a / 10, b / 10);
    } else {
        lemma_decimal_digits(a / 10);
        lemma_decimal_digits(b / 10);
    }
}

/// The decimal text of a natural number is not empty and holds no sign.
proof fn lemma_decimal_digits(n: nat)
    ensures
        decimal(n).len() > 0,
        decimal(n)[0] != '-',
    decreases n,
{
    if n >= 10 {
        lemma_decimal_digits(n / 10);
    }
}

/// No two integers have the same decimal text.
pub proof fn lemma_signed_decimal_is_injective(a: int, b: int)
    requires
        signed_decimal(a) == signed_decimal(b),
    ensures
        a == b,
{
    let (x, y) = (if a < 0 { -a } else { a }, if b < 0 { -b } else { b });
    lemma_decimal_digits(x as nat);
    lemma_decimal_digits(y as nat);
    assert(signed_decimal(a)[0] == signed_decimal(b)[0]);
    assert((a < 0) == (b < 0));
    if a < 0 {
        assert(signed_decimal(a).skip(1) =~= decimal(x as nat));
        assert(signed_decimal(b).skip(1) =~= decimal(y as nat));
    }
    lemma_decimal_is_injective(x as nat, y as nat);
}

/// The number that a text of digits stands for.
pub open spec fn number_in_text(text: Seq<char>) -> int
    decreases text.len(),
{
    if text.len() == 0 {
        0
    } else {
        10 * number_in_text(text.drop_last()) + (text.last() as u32 - 48)
    }
}

/// The decimal text of a natural number is made of the digits from 0 to 9, stands for the
/// number, and begins with a zero only if it is nothing else.
pub proof fn law_decimal_stands_for_its_number(n: nat)
    ensures
        number_in_text(decimal(n)) == n,
        decimal(n).len() > 0,
        forall|i: int| 0 <= i < decimal(n).len() ==> '0' <= #[trigger] decimal(n)[i] <= '9',
        decimal(n)[0] == '0' ==> decimal(n).len() == 1,
    decreases n,
{
    if n < 10 {
        assert(decimal(n).drop_last() =~= Seq::<char>::empty());
        assert(number_in_text(Seq::<char>::empty()) == 0);
    } else {
        law_decimal_stands_for_its_number(n / 10);
        assert(decimal(n).drop_last() =~= decimal(n / 10));
        assert forall|i: int| 0 <= i < decimal(n).len() implies '0' <= #[trigger] decimal(n)[i]
            <= '9' by {
            if i < decimal(n / 10).len() {
                assert(decimal(n)[i] == decimal(n / 10)[i]);
            }
        }
        if decimal(n)[0] == '0' {
            assert(decimal(n / 10)[0] == '0');
            assert(decimal(n / 10).drop_last() =~= Seq::<char>::empty());
            assert(number_in_text(Seq::<char>::empty()) == 0);
        }
    }
}

/// The decimal text of an integer is that of its magnitude, behind a minus sign just if it
/// is negative.
pub proof fn law_signed_decimal_stands_for_its_number(n: int)
    ensures
        n >= 0 ==> signed_decimal(n) == decimal(n as nat),
        n < 0 ==> signed_decimal(n) == seq!['-'] + decimal((0 - n) as nat),
{
}

} // verus!
