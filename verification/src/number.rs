//! Numbers in decimal notation.

use vstd::prelude::*;

use crate::text::chars_of;

verus! {

broadcast use vstd::seq::group_seq_axioms;

/// The decimal digit for a value under 10.
pub open spec fn decimal_digit(v: int) -> char {
    (48 + v) as char
}

/// A number in decimal notation, without leading zeros.
pub open spec fn decimal(n: nat) -> Seq<char>
    decreases n,
{
    if n < 10 {
        seq![decimal_digit(n as int)]
    } else {
        decimal(n / 10).push(decimal_digit((n % 10) as int))
    }
}

/// Writes a number behind a text.
fn push_decimal(s: &mut String, n: u64)
    ensures
        final(s)@ == old(s)@ + decimal(n as nat),
    decreases n,
{
    if n >= 10 {
        push_decimal(s, n / 10);
    }
    let d: u8 = 48 + (n % 10) as u8;
    s.push(d as char);
    assert(final(s)@ =~= old(s)@ + decimal(n as nat));
}

/// A number in decimal notation.
pub fn decimal_text(n: u64) -> (s: String)
    ensures
        s@ == decimal(n as nat),
{
    let mut s = String::new();
    push_decimal(&mut s, n);
    assert(s@ =~= decimal(n as nat));
    s
}

/// A decimal digit.
pub open spec fn is_digit(c: char) -> bool {
    48 <= c as int <= 57
}

/// Nothing but decimal digits.
pub open spec fn all_digits(s: Seq<char>) -> bool {
    forall|i: int| 0 <= i < s.len() ==> is_digit(#[trigger] s[i])
}

/// The number that some decimal digits stand for.
pub open spec fn digits_value(s: Seq<char>) -> int
    decreases s.len(),
{
    if s.len() == 0 {
        0
    } else {
        10 * digits_value(s.drop_last()) + (s.last() as int - 48)
    }
}

/// The number that a text stands for: decimal digits, at least one, for a number that fits.
pub open spec fn number_in(s: Seq<char>) -> Option<u32> {
    if s.len() > 0 && all_digits(s) && digits_value(s) <= u32::MAX {
        Some(digits_value(s) as u32)
    } else {
        None
    }
}

/// More digits do not make a number smaller.
proof fn lemma_value_grows(s: Seq<char>, n: int)
    requires
        all_digits(s),
        0 <= n <= s.len(),
    ensures
        0 <= digits_value(s.take(n)) <= digits_value(s),
    decreases s.len(),
{
    if n < s.len() {
        let t = s.drop_last();
        assert forall|i: int| 0 <= i < t.len() implies is_digit(#[trigger] t[i]) by {
            assert(is_digit(s[i]));
        }
        lemma_value_grows(t, n);
        assert(t.take(n) =~= s.take(n));
        assert(is_digit(s[s.len() - 1]));
    } else {
        assert(s.take(n) =~= s);
        if s.len() > 0 {
            let t = s.drop_last();
            assert forall|i: int| 0 <= i < t.len() implies is_digit(#[trigger] t[i]) by {
                assert(is_digit(s[i]));
            }
            lemma_value_grows(t, t.len() as int);
            assert(t.take(t.len() as int) =~= t);
            assert(is_digit(s[s.len() - 1]));
        }
    }
}

/// The number that a text stands for, if it stands for one that fits.
pub fn read_number(s: &str) -> (r: Option<u32>)
    ensures
        r == number_in(s@),
{
    let v = chars_of(s);
    if v.len() == 0 {
        return None;
    }
    let mut n: u64 = 0;
    let mut i: usize = 0;
    while i < v.len()
        invariant
            i <= v@.len(),
            v@ == s@,
            n <= u32::MAX,
            n == digits_value(v@.take(i as int)),
            forall|k: int| 0 <= k < i ==> is_digit(#[trigger] v@[k]),
        decreases v@.len() - i,
    {
        let c = v[i];
        if !('0' <= c && c <= '9') {
            assert(!is_digit(v@[i as int]));
            return None;
        }
        assert(v@.take(i + 1).drop_last() =~= v@.take(i as int));
        n = 10 * n + (c as u64 - 48);
        if n > 0xffff_ffff {
            proof {
                if all_digits(s@) {
                    lemma_value_grows(s@, i + 1);
                }
            }
            return None;
        }
        i += 1;
    }
    assert(v@.take(i as int) =~= v@);
    Some(n as u32)
}

/// A number in decimal notation is read as that number.
pub proof fn law_decimal_read_back(n: u32)
    ensures
        number_in(decimal(n as nat)) == Some(n),
{
    lemma_decimal_value(n as nat);
}

/// What a number in decimal notation stands for.
proof fn lemma_decimal_value(n: nat)
    ensures
        decimal(n).len() > 0,
        all_digits(decimal(n)),
        digits_value(decimal(n)) == n,
    decreases n,
{
    let s = decimal(n);
    if n < 10 {
        assert(s.drop_last() =~= Seq::<char>::empty());
        assert(digits_value(s.drop_last()) == 0);
    } else {
        lemma_decimal_value(n / 10);
        assert(s.drop_last() =~= decimal(n / 10));
    }
}

/// A number is written as a tenth of it is, with the digit behind it that is left; below ten it is
/// that digit alone.
pub proof fn law_decimal_digits(n: nat)
    ensures
        decimal(n).last() == "0123456789"@[(n % 10) as int],
        n < 10 ==> decimal(n).len() == 1,
        n >= 10 ==> decimal(n).drop_last() == decimal(n / 10),
{
    reveal_strlit("0123456789");
    let t = "0123456789"@;
    assert(t[0] == '0' && t[1] == '1' && t[2] == '2' && t[3] == '3' && t[4] == '4' && t[5] == '5' && t[6]
        == '6' && t[7] == '7' && t[8] == '8' && t[9] == '9');
    let v = (n % 10) as int;
    assert(decimal_digit(v) == t[v]);
    if n >= 10 {
        assert(decimal(n).drop_last() =~= decimal(n / 10));
    }
}

/// Which texts are numbers: those of digits alone, at least one, that write a number that fits; a
/// further digit makes it ten times as large and adds its value.
pub proof fn law_number_by_digit(s: Seq<char>, c: char)
    ensures
        number_in(Seq::empty()) is None,
        !('0' <= c <= '9') ==> number_in(s.push(c)) is None,
        '0' <= c <= '9' ==> number_in(seq![c]) == Some((c as int - '0' as int) as u32),
        '0' <= c <= '9' && number_in(s) is Some && 10 * number_in(s)->0 + (c as int - '0' as int)
            <= u32::MAX ==> number_in(s.push(c)) == Some(
            (10 * number_in(s)->0 + (c as int - '0' as int)) as u32,
        ),
        number_in(s) is Some && 10 * number_in(s)->0 + (c as int - '0' as int) > u32::MAX ==> number_in(
            s.push(c),
        ) is None,
        s.len() > 0 && number_in(s) is None ==> number_in(s.push(c)) is None,
{
    let p = s.push(c);
    assert(p.drop_last() =~= s);
    assert(p[p.len() - 1] == c);
    let one = seq![c];
    assert(one.drop_last() =~= Seq::<char>::empty());
    assert(digits_value(one) == c as int - 48) by {
        reveal_with_fuel(digits_value, 2);
    }
    if '0' <= c <= '9' {
        assert(all_digits(one));
    } else {
        assert(!is_digit(p[p.len() - 1]));
    }
    if all_digits(s) && is_digit(c) {
        assert forall|i: int| 0 <= i < p.len() implies is_digit(#[trigger] p[i]) by {
            if i < s.len() {
                assert(is_digit(s[i]));
            }
        }
        lemma_value_grows(s, 0);
        assert(s.take(0) =~= Seq::<char>::empty());
    }
    if !all_digits(s) {
        let i = choose|i: int| 0 <= i < s.len() && !is_digit(#[trigger] s[i]);
        assert(!is_digit(p[i]));
    }
}

} // verus!
