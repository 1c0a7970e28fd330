//! Whole numbers in text.

use vstd::prelude::*;
use vstd::slice::slice_subrange;

verus! {

pub open spec fn is_digit(c: char) -> bool {
    '0' <= c && c <= '9'
}

pub fn digit(c: char) -> (r: bool)
    ensures
        r == is_digit(c),
{
    '0' <= c && c <= '9'
}

/// Whether `s` holds nothing but ASCII digits.
pub open spec fn all_digits(s: Seq<char>) -> bool {
    forall|i: int| 0 <= i < s.len() ==> is_digit(#[trigger] s[i])
}

/// The number that a row of digits spells.
pub open spec fn value(s: Seq<char>) -> nat
    decreases s.len(),
{
    if s.len() == 0 {
        0
    } else {
        value(s.drop_last()) * 10 + (s.last() as u32 - '0' as u32) as nat
    }
}

/// The number that `s` spells, where it is an optional `+` and then digits, and
/// the number is at most `max`.
pub open spec fn number(s: Seq<char>, max: nat) -> Option<nat> {
    let d = if s.len() > 0 && s[0] == '+' {
        s.drop_first()
    } else {
        s
    };
    if d.len() > 0 && all_digits(d) && value(d) <= max {
        Some(value(d))
    } else {
        None
    }
}

pub open spec fn digit_char(n: nat) -> char {
    (('0' as u8) + n) as u8 as char
}

/// A number in decimal, with no leading zeros.
pub open spec fn decimal(n: nat) -> Seq<char>
    decreases n,
{
    if n < 10 {
        seq![digit_char(n)]
    } else {
        decimal(n / 10).push(digit_char(n % 10))
    }
}

/// A number in decimal, with its sign where it is negative.
pub open spec fn signed_decimal(n: int) -> Seq<char> {
    if n < 0 {
        seq!['-'] + decimal((-n) as nat)
    } else {
        decimal(n as nat)
    }
}

/// The digits of a prefix spell no more than the whole row does.
proof fn lemma_value_grows(s: Seq<char>, i: int)
    requires
        0 <= i <= s.len(),
        all_digits(s),
    ensures
        value(s.take(i)) <= value(s),
    decreases s.len() - i,
{
    if i == s.len() {
        assert(s.take(i) =~= s);
    } else {
        lemma_value_grows(s, i + 1);
        assert(s.take(i + 1).drop_last() =~= s.take(i));
        assert(s.take(i + 1).last() == s[i]);
    }
}

pub fn parse_number(s: &[char], max: u64) -> (r: Option<u64>)
    ensures
        r is Some == number(s@, max as nat) is Some,
        r matches Some(n) ==> Some(n as nat) == number(s@, max as nat),
{
    let d: &[char] = if s.len() > 0 && s[0] == '+' {
        slice_subrange(s, 1, s.len())
    } else {
        s
    };
    proof {
        if s@.len() > 0 && s@[0] == '+' {
            assert(d@ =~= s@.drop_first());
        }
    }
    if d.len() == 0 {
        return None;
    }
    let mut n: u64 = 0;
    let mut i: usize = 0;
    assert(d@.take(0) =~= seq![]);
    while i < d.len()
        invariant
            i <= d.len(),
            n <= max,
            n == value(d@.take(i as int)),
            forall|j: int| 0 <= j < i ==> is_digit(#[trigger] d@[j]),
            d@ == if s@.len() > 0 && s@[0] == '+' {
                s@.drop_first()
            } else {
                s@
            },
        decreases d.len() - i,
    {
        if !digit(d[i]) {
            return None;
        }
        let v: u128 = (n as u128) * 10 + (d[i] as u32 - '0' as u32) as u128;
        assert(d@.take(i + 1).drop_last() =~= d@.take(i as int));
        assert(v == value(d@.take(i + 1)));
        if v > max as u128 {
            proof {
                if all_digits(d@) {
                    lemma_value_grows(d@, i + 1);
                }
            }
            return None;
        }
        n = v as u64;
        i = i + 1;
    }
    assert(d@.take(i as int) =~= d@);
    Some(n)
}

pub fn write_number(n: u128) -> (s: String)
    ensures
        s@ == decimal(n as nat),
    decreases n,
{
    if n < 10 {
        let mut s = String::new();
        s.push(('0' as u8 + n as u8) as char);
        assert(s@ =~= decimal(n as nat));
        s
    } else {
        let mut s = write_number(n / 10);
        let d: u8 = (n % 10) as u8;
        s.push(('0' as u8 + d) as char);
        s
    }
}

pub fn write_signed(n: i32) -> (s: String)
    ensures
        s@ == signed_decimal(n as int),
{
    if n < 0 {
        let m: i64 = -(n as i64);
        let mut s = String::new();
        s.push('-');
        let d = write_number(m as u128);
        s.append(d.as_str());
        assert(s@ =~= signed_decimal(n as int));
        s
    } else {
        write_number(n as u128)
    }
}

/// Nothing but digits, at least one of them, and read back as the same number.
pub proof fn lemma_decimal(n: nat)
    ensures
        decimal(n).len() > 0,
        all_digits(decimal(n)),
        value(decimal(n)) == n,
    decreases n,
{
    if n < 10 {
        let s = decimal(n);
        assert(s.drop_last() =~= seq![]);
        assert(value(s.drop_last()) == 0);
        assert(is_digit(s[0]));
    } else {
        lemma_decimal(n / 10);
        let s = decimal(n);
        assert(s.drop_last() =~= decimal(n / 10));
        assert forall|i: int| 0 <= i < s.len() implies is_digit(#[trigger] s[i]) by {
            if i < s.len() - 1 {
                assert(s[i] == decimal(n / 10)[i]);
            }
        }
    }
}

/// A written number is read back as itself.
pub proof fn lemma_number_of_decimal(n: nat, max: nat)
    requires
        n <= max,
    ensures
        number(decimal(n), max) == Some(n),
{
    lemma_decimal(n);
    assert(is_digit(decimal(n)[0]));
}

/// The digits that a text begins with.
pub open spec fn leading_digits(s: Seq<char>) -> Seq<char>
    decreases s.len(),
{
    if s.len() > 0 && is_digit(s[0]) {
        seq![s[0]] + leading_digits(s.drop_first())
    } else {
        seq![]
    }
}

pub fn digits_in_front<'a>(s: &'a [char]) -> (r: &'a [char])
    ensures
        r@ == leading_digits(s@),
{
    let mut i: usize = 0;
    assert(s@.skip(0) =~= s@);
    assert(s@.take(0) + leading_digits(s@.skip(0)) =~= leading_digits(s@));
    while i < s.len() && digit(s[i])
        invariant
            i <= s.len(),
            s@.take(i as int) + leading_digits(s@.skip(i as int)) == leading_digits(s@),
        decreases s.len() - i,
    {
        assert(s@.skip(i as int)[0] == s@[i as int]);
        assert(s@.skip(i as int).drop_first() =~= s@.skip(i + 1));
        assert(s@.take(i as int) + (seq![s@[i as int]] + leading_digits(s@.skip(i + 1))) =~= s@.take(i + 1)
            + leading_digits(s@.skip(i + 1)));
        i = i + 1;
    }
    proof {
        if i < s.len() {
            assert(s@.skip(i as int)[0] == s@[i as int]);
        }
        assert(leading_digits(s@.skip(i as int)) =~= seq![]);
        assert(s@.take(i as int) + seq![] =~= s@.take(i as int));
    }
    slice_subrange(s, 0, i)
}

/// A number is read of digits alone, with a plus in front or without, where it is
/// within the limit.
pub proof fn law_a_number_is_read_of_digits(s: Seq<char>, max: nat)
    requires
        s.len() > 0,
        s[0] != '+',
    ensures
        number(s, max) is Some <==> all_digits(s) && value(s) <= max,
        number(seq!['+'] + s, max) == number(s, max),
        number(seq![], max) is None,
        number(seq!['+'], max) is None,
{
    assert((seq!['+'] + s).drop_first() =~= s);
    assert(seq!['+'].drop_first() =~= Seq::<char>::empty());
}

/// One more digit makes ten times as much and the digit.
pub proof fn law_each_digit_has_its_place(n: nat, d: nat, max: nat)
    requires
        d < 10,
        n * 10 + d <= max,
    ensures
        number(decimal(n).push(digit_char(d)), max) == Some(n * 10 + d),
        digit_char(d) as int == '0' as int + d,
{
    lemma_decimal(n);
    let s = decimal(n).push(digit_char(d));
    assert(s.drop_last() =~= decimal(n));
    assert forall|i: int| 0 <= i < s.len() implies is_digit(#[trigger] s[i]) by {
        if i < s.len() - 1 {
            assert(s[i] == decimal(n)[i]);
        }
    }
    assert(is_digit(s[0]));
}

/// A number below nothing is written with its sign.
pub proof fn law_a_sign_is_written_below_nothing(n: nat, max: nat)
    requires
        n <= max,
    ensures
        number(signed_decimal(n as int), max) == Some(n),
        n > 0 ==> signed_decimal(-n)[0] == '-' && number(signed_decimal(-n).drop_first(), max) == Some(n),
{
    lemma_number_of_decimal(n, max);
    if n > 0 {
        assert(signed_decimal(-n).drop_first() =~= decimal(n));
    }
}

/// The digits in front are all of them: what follows begins with none.
pub proof fn law_the_digits_in_front_are_all(d: Seq<char>, rest: Seq<char>)
    requires
        all_digits(d),
        rest.len() > 0 ==> !is_digit(rest[0]),
    ensures
        leading_digits(d + rest) == d,
    decreases d.len(),
{
    if d.len() == 0 {
        assert(d + rest =~= rest);
        assert(leading_digits(rest) =~= d);
    } else {
        assert((d + rest)[0] == d[0]);
        assert((d + rest).drop_first() =~= d.drop_first() + rest);
        assert forall|i: int| 0 <= i < d.drop_first().len() implies is_digit(#[trigger] d.drop_first()[i]) by {
            assert(d.drop_first()[i] == d[i + 1]);
        }
        law_the_digits_in_front_are_all(d.drop_first(), rest);
        assert(seq![d[0]] + d.drop_first() =~= d);
    }
}

} // verus!
