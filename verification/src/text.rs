//! Numbers as text.

use vstd::prelude::*;

verus! {

/// The character of a decimal digit.
pub open spec fn digit(d: int) -> char {
    (48 + d) as char
}

/// A number in decimal, without leading zeros.
pub open spec fn decimal(n: nat) -> Seq<char>
    decreases n,
{
    if n < 10 {
        seq![digit(n as int)]
    } else {
        decimal(n / 10).push(digit((n % 10) as int))
    }
}

/// A signed number in decimal.
pub open spec fn signed_decimal(n: int) -> Seq<char> {
    if n < 0 {
        seq!['-'] + decimal((-n) as nat)
    } else {
        decimal(n as nat)
    }
}

fn digit_text(d: u128) -> (s: &'static str)
    requires
        d < 10,
    ensures
        s@ == seq![digit(d as int)],
{
    proof {
        reveal_strlit("0");
        reveal_strlit("1");
        reveal_strlit("2");
        reveal_strlit("3");
        reveal_strlit("4");
        reveal_strlit("5");
        reveal_strlit("6");
        reveal_strlit("7");
        reveal_strlit("8");
        reveal_strlit("9");
    }
    if d == 0 {
        "0"
    } else if d == 1 {
        "1"
    } else if d == 2 {
        "2"
    } else if d == 3 {
        "3"
    } else if d == 4 {
        "4"
    } else if d == 5 {
        "5"
    } else if d == 6 {
        "6"
    } else if d == 7 {
        "7"
    } else if d == 8 {
        "8"
    } else {
        "9"
    }
}

/// Appends a number in decimal.
pub fn append_decimal(s: &mut String, n: u128)
    ensures
        final(s)@ == old(s)@ + decimal(n as nat),
    decreases n,
{
    if n >= 10 {
        append_decimal(s, n / 10);
    }
    s.append(digit_text(n % 10));
}

/// Appends a signed number in decimal.
pub fn append_signed(s: &mut String, n: i32)
    ensures
        final(s)@ == old(s)@ + signed_decimal(n as int),
{
    if n < 0 {
        proof {
            reveal_strlit("-");
        }
        s.append("-");
        append_decimal(s, (-(n as i64)) as u128);
        assert(s@ == old(s)@ + signed_decimal(n as int));
    } else {
        append_decimal(s, n as u128);
    }
}

/// A number in decimal is made of digits and nothing else.
pub proof fn law_decimal_is_digits(n: nat)
    ensures
        decimal(n).len() > 0,
        forall|i: int| 0 <= i < decimal(n).len() ==> '0' <= #[trigger] decimal(n)[i] <= '9',
    decreases n,
{
    if n >= 10 {
        law_decimal_is_digits(n / 10);
    }
}

/// What digits stand for, read from the left.
pub open spec fn read_decimal(s: Seq<char>) -> int
    decreases s.len(),
{
    if s.len() == 0 {
        0
    } else {
        10 * read_decimal(s.drop_last()) + (s.last() as int - '0' as int)
    }
}

/// A number in decimal is read back as it was written, and is written without a zero in
/// front.
pub proof fn law_decimal_is_read_back(n: nat)
    ensures
        read_decimal(decimal(n)) == n,
        n > 0 ==> decimal(n)[0] != '0',
        n == 0 ==> decimal(n).len() == 1,
    decreases n,
{
    let s = decimal(n);
    if n >= 10 {
        law_decimal_is_read_back(n / 10);
        law_decimal_is_digits(n / 10);
        assert(s.drop_last() == decimal(n / 10));
    } else {
        assert(s.drop_last() == Seq::<char>::empty());
        assert(read_decimal(Seq::empty()) == 0);
    }
}

/// A number is appended in decimal: what comes after the text that was there is read
/// back as the number.
pub proof fn law_number_is_appended(s: &mut String, n: u128)
    requires
        call_ensures(append_decimal, (s, n), ()),
    ensures
        final(s)@.len() > old(s)@.len(),
        final(s)@.take(old(s)@.len() as int) == old(s)@,
        read_decimal(final(s)@.skip(old(s)@.len() as int)) == n,
        forall|i: int| old(s)@.len() <= i < final(s)@.len() ==> '0' <= #[trigger] final(s)@[i] <= '9',
{
    let d = decimal(n as nat);
    law_decimal_is_read_back(n as nat);
    law_decimal_is_digits(n as nat);
    assert(final(s)@.skip(old(s)@.len() as int) == d);
    assert forall|i: int| old(s)@.len() <= i < final(s)@.len() implies '0' <= #[trigger] final(s)@[i] <= '9' by {
        assert(final(s)@[i] == d[i - old(s)@.len()]);
    }
}

/// A signed number is appended with a minus sign in front where it is negative, and is
/// read back as the number.
pub proof fn law_signed_number_is_appended(s: &mut String, n: i32)
    requires
        call_ensures(append_signed, (s, n), ()),
    ensures
        final(s)@.take(old(s)@.len() as int) == old(s)@,
        ({
            let added = final(s)@.skip(old(s)@.len() as int);
            &&& added.len() > 0
            &&& n < 0 <==> added[0] == '-'
            &&& n < 0 ==> read_decimal(added.skip(1)) == -n
            &&& n >= 0 ==> read_decimal(added) == n
        }),
{
    let added = final(s)@.skip(old(s)@.len() as int);
    assert(added == signed_decimal(n as int));
    if n < 0 {
        law_decimal_is_read_back((-n) as nat);
        assert(added.skip(1) == decimal((-n) as nat));
    } else {
        law_decimal_is_read_back(n as nat);
        law_decimal_is_digits(n as nat);
    }
}

} // verus!
