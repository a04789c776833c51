//! Decimal numerals.
use vstd::prelude::*;

verus! {

/// The character of a decimal digit.
pub open spec fn digit_char(d: int) -> char {
    if d == 0 {
        '0'
    } else if d == 1 {
        '1'
    } else if d == 2 {
        '2'
    } else if d == 3 {
        '3'
    } else if d == 4 {
        '4'
    } else if d == 5 {
        '5'
    } else if d == 6 {
        '6'
    } else if d == 7 {
        '7'
    } else if d == 8 {
        '8'
    } else {
        '9'
    }
}

/// Whether a character is a decimal digit.
pub open spec fn is_digit(c: char) -> bool {
    '0' <= c && c <= '9'
}

/// The value of a decimal digit.
pub open spec fn digit_value(c: char) -> int {
    c as int - '0' as int
}

/// The decimal numeral of a number, without leading zeros.
pub open spec fn decimal(n: int) -> Seq<char>
    decreases n,
{
    if n < 10 {
        seq![digit_char(n)]
    } else {
        decimal(n / 10).push(digit_char(n % 10))
    }
}

/// The decimal numeral of a number, with leading zeros up to four characters.
pub open spec fn decimal4(n: int) -> Seq<char> {
    if n < 10 {
        seq!['0', '0', '0'] + decimal(n)
    } else if n < 100 {
        seq!['0', '0'] + decimal(n)
    } else if n < 1000 {
        seq!['0'] + decimal(n)
    } else {
        decimal(n)
    }
}

/// The number that a string of digits stands for.
pub open spec fn numeral_value(s: Seq<char>) -> int
    decreases s.len(),
{
    if s.len() == 0 {
        0
    } else {
        10 * numeral_value(s.drop_last()) + digit_value(s.last())
    }
}

/// Whether all characters are decimal digits.
pub open spec fn all_digits(s: Seq<char>) -> bool {
    forall|i: int| 0 <= i < s.len() ==> is_digit(#[trigger] s[i])
}

/// A numeral consists of digits and stands for its number.
pub proof fn law_decimal_value(n: int)
    requires
        0 <= n,
    ensures
        decimal(n).len() > 0,
        all_digits(decimal(n)),
        numeral_value(decimal(n)) == n,
    decreases n,
{
    if n < 10 {
        let s = seq![digit_char(n)];
        assert(s.drop_last() =~= Seq::empty());
        assert(numeral_value(s.drop_last()) == 0);
    } else {
        law_decimal_value(n / 10);
        let s = decimal(n / 10).push(digit_char(n % 10));
        assert(s.drop_last() =~= decimal(n / 10));
        assert forall|i: int| 0 <= i < s.len() implies is_digit(#[trigger] s[i]) by {
            if i < decimal(n / 10).len() {
                assert(s[i] == decimal(n / 10)[i]);
            }
        }
    }
}

proof fn lemma_leading_zero(s: Seq<char>)
    ensures
        numeral_value(seq!['0'] + s) == numeral_value(s),
    decreases s.len(),
{
    let z = seq!['0'] + s;
    if s.len() == 0 {
        assert(z.drop_last() =~= Seq::empty());
        assert(numeral_value(z.drop_last()) == 0);
    } else {
        assert(z.drop_last() =~= seq!['0'] + s.drop_last());
        lemma_leading_zero(s.drop_last());
    }
}

/// Leading zeros change neither.
pub proof fn lemma_decimal4_value(n: int)
    requires
        0 <= n,
    ensures
        decimal4(n).len() >= 1,
        all_digits(decimal4(n)),
        numeral_value(decimal4(n)) == n,
{
    let d = decimal(n);
    law_decimal_value(n);
    lemma_leading_zero(d);
    lemma_leading_zero(seq!['0'] + d);
    lemma_leading_zero(seq!['0'] + (seq!['0'] + d));
    assert(seq!['0', '0'] + d =~= seq!['0'] + (seq!['0'] + d));
    assert(seq!['0', '0', '0'] + d =~= seq!['0'] + (seq!['0'] + (seq!['0'] + d)));
    assert forall|i: int| 0 <= i < decimal4(n).len() implies is_digit(
        #[trigger] decimal4(n)[i],
    ) by {
        let zeros = decimal4(n).len() - d.len();
        if i >= zeros {
            assert(decimal4(n)[i] == d[i - zeros]);
        }
    }
}

fn digit_text(d: u64) -> (s: &'static str)
    requires
        d < 10,
    ensures
        s@ == seq![digit_char(d as int)],
{
    proof {
        reveal_strlit("0");
        reveal_strlit("1");
        reveal_strlit("2");
        reveal_strlit("3");
        reveal_strlit("4");
        reveal_strlit("5");
        reveal_strlit("6");
        reveal_strlit("7");
        reveal_strlit("8");
        reveal_strlit("9");
    }
    let s = match d {
        0 => "0",
        1 => "1",
        2 => "2",
        3 => "3",
        4 => "4",
        5 => "5",
        6 => "6",
        7 => "7",
        8 => "8",
        _ => "9",
    };
    assert(s@ =~= seq![digit_char(d as int)]);
    s
}

/// Appends the decimal numeral of a number.
pub fn push_decimal(out: &mut String, n: u64)
    ensures
        final(out)@ == old(out)@ + decimal(n as int),
    decreases n,
{
    if n >= 10 {
        push_decimal(out, n / 10);
    }
    out.append(digit_text(n % 10));
    assert(out@ =~= old(out)@ + decimal(n as int));
}

/// Appends the decimal numeral of a number, with leading zeros up to four characters.
pub fn push_decimal4(out: &mut String, n: u64)
    ensures
        final(out)@ == old(out)@ + decimal4(n as int),
{
    proof {
        reveal_strlit("000");
        reveal_strlit("00");
        reveal_strlit("0");
    }
    if n < 10 {
        out.append("000");
    } else if n < 100 {
        out.append("00");
    } else if n < 1000 {
        out.append("0");
    }
    push_decimal(out, n);
    assert(out@ =~= old(out)@ + decimal4(n as int));
}

/// A numeral without the plus sign that may stand in front of it.
pub open spec fn unsigned(s: Seq<char>) -> Seq<char> {
    if s.len() > 0 && s[0] == '+' {
        s.skip(1)
    } else {
        s
    }
}

/// The number up to `max` that a text is read as, if it is one: at least one digit, possibly
/// behind a plus sign, and nothing else.
pub open spec fn number_of(s: Seq<char>, max: int) -> Option<int> {
    let d = unsigned(s);
    if d.len() > 0 && all_digits(d) && numeral_value(d) <= max {
        Some(numeral_value(d))
    } else {
        None
    }
}

proof fn lemma_prefix_is_smaller(s: Seq<char>, n: int)
    requires
        0 <= n <= s.len(),
        all_digits(s),
    ensures
        0 <= numeral_value(s.take(n)) <= numeral_value(s),
    decreases s.len(),
{
    if n == s.len() {
        assert(s.take(n) =~= s);
        if n > 0 {
            lemma_prefix_is_smaller(s.drop_last(), n - 1);
            assert(is_digit(s[n - 1]));
        }
    } else {
        let t = s.drop_last();
        lemma_prefix_is_smaller(t, n);
        assert(t.take(n) =~= s.take(n));
        assert(is_digit(s[s.len() - 1]));
    }
}

/// Reads a number up to `max`.
pub fn parse_number(text: &str, max: u64) -> (r: Option<u64>)
    ensures
        match number_of(text@, max as int) {
            Some(n) => r matches Some(v) && v == n,
            None => r is None,
        },
{
    let total: usize = text.unicode_len();
    let ghost d = unsigned(text@);
    let start: usize = if total > 0 && text.get_char(0) == '+' { 1 } else { 0 };
    if start == total {
        return None;
    }
    let mut value: u64 = 0;
    let mut i: usize = start;
    assert(d.take(0) =~= Seq::empty());
    while i < total
        invariant
            start <= i <= total,
            start < total,
            total == text@.len(),
            d == unsigned(text@),
            d.len() == total - start,
            start <= 1,
            start == 1 <==> (text@.len() > 0 && text@[0] == '+'),
            all_digits(d.take(i - start)),
            value == numeral_value(d.take(i - start)),
            value <= max,
        decreases total - i,
    {
        let c: char = text.get_char(i);
        assert(d[i - start] == c);
        if !('0' <= c && c <= '9') {
            return None;
        }
        let digit: u64 = (c as u32 - '0' as u32) as u64;
        let wide: u128 = 10 * (value as u128) + digit as u128;
        proof {
            let next = d.take(i - start + 1);
            assert(next.drop_last() =~= d.take(i - start));
            assert(next.last() == c);
            assert(wide == numeral_value(next));
            assert forall|j: int| 0 <= j < next.len() implies is_digit(#[trigger] next[j]) by {
                if j < i - start {
                    assert(d.take(i - start)[j] == next[j]);
                }
            }
            if wide > max && all_digits(d) {
                lemma_prefix_is_smaller(d, i - start + 1);
            }
        }
        if wide > max as u128 {
            return None;
        }
        value = wide as u64;
        i += 1;
    }
    assert(d.take(i - start) =~= d);
    Some(value)
}

/// What is written as a numeral is read as the same number.
pub proof fn law_number_of_decimal(n: int, max: int)
    requires
        0 <= n <= max,
    ensures
        number_of(decimal(n), max) == Some(n),
{
    law_decimal_value(n);
    assert(is_digit(decimal(n)[0]));
}

} // verus!
