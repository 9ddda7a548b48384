//! Numbers as decimal text.

use vstd::prelude::*;
use vstd::string::StringExecFns;

verus! {

/// The character of one decimal digit.
pub open spec fn digit_char(d: int) -> char {
    if d == 0 {
        '0'
    } else if d == 1 {
        '1'
    } else if d == 2 {
        '2'
    } else if d == 3 {
        '3'
    } else if d == 4 {
        '4'
    } else if d == 5 {
        '5'
    } else if d == 6 {
        '6'
    } else if d == 7 {
        '7'
    } else if d == 8 {
        '8'
    } else {
        '9'
    }
}

/// The decimal digits of `n`, the most significant first, with no leading
/// zero but for 0 itself.
pub open spec fn decimal(n: nat) -> Seq<char>
    decreases n,
{
    if n < 10 {
        seq![digit_char(n as int)]
    } else {
        decimal(n / 10).push(digit_char((n % 10) as int))
    }
}

/// `count` zeros.
pub open spec fn zeros(count: nat) -> Seq<char> {
    Seq::new(count, |i: int| '0')
}

/// The decimal digits of `n`, with zeros in front up to `width` characters;
/// a longer number is left as it is.
pub open spec fn zero_padded(n: nat, width: nat) -> Seq<char> {
    if decimal(n).len() >= width {
        decimal(n)
    } else {
        zeros((width - decimal(n).len()) as nat) + decimal(n)
    }
}

/// The number that a string of decimal digits stands for.
pub open spec fn digits_value(s: Seq<char>) -> nat
    decreases s.len(),
{
    if s.len() == 0 {
        0
    } else {
        10 * digits_value(s.drop_last()) + (s.last() as u32 - '0' as u32) as nat
    }
}

/// Whether `c` is a decimal digit.
pub open spec fn is_digit(c: char) -> bool {
    '0' <= c <= '9'
}

/// The decimal text of a number holds digits only, and stands for the
/// number.
pub proof fn lemma_decimal_round_trip(n: nat)
    ensures
        forall|i: int| 0 <= i < decimal(n).len() ==> is_digit(#[trigger] decimal(n)[i]),
        digits_value(decimal(n)) == n,
    decreases n,
{
    let d = (n % 10) as int;
    assert(is_digit(digit_char(d)) && digit_char(d) as u32 - '0' as u32 == d);
    if n >= 10 {
        lemma_decimal_round_trip(n / 10);
        assert(decimal(n).drop_last() =~= decimal(n / 10));
        assert(decimal(n).last() == digit_char(d));
    } else {
        assert(decimal(n).drop_last() =~= Seq::<char>::empty());
        assert(decimal(n).last() == digit_char(d));
        assert(digits_value(Seq::<char>::empty()) == 0);
    }
}

/// A number has at least one digit, and ten times a number has one more.
pub proof fn lemma_decimal_len(n: nat)
    ensures
        decimal(n).len() >= 1,
        n >= 10 ==> decimal(n).len() == decimal(n / 10).len() + 1,
        n < 10 ==> decimal(n).len() == 1,
    decreases n,
{
    if n >= 10 {
        lemma_decimal_len(n / 10);
    }
}

fn digit_str(d: u64) -> (s: &'static str)
    requires
        d < 10,
    ensures
        s@ == seq![digit_char(d as int)],
{
    proof {
        reveal_strlit("0");
        reveal_strlit("1");
        reveal_strlit("2");
        reveal_strlit("3");
        reveal_strlit("4");
        reveal_strlit("5");
        reveal_strlit("6");
        reveal_strlit("7");
        reveal_strlit("8");
        reveal_strlit("9");
    }
    let s = if d == 0 {
        "0"
    } else if d == 1 {
        "1"
    } else if d == 2 {
        "2"
    } else if d == 3 {
        "3"
    } else if d == 4 {
        "4"
    } else if d == 5 {
        "5"
    } else if d == 6 {
        "6"
    } else if d == 7 {
        "7"
    } else if d == 8 {
        "8"
    } else {
        "9"
    };
    assert(s@ =~= seq![digit_char(d as int)]);
    s
}

/// Appends the decimal digits of `n` to `text`.
pub fn push_decimal(text: &mut String, n: u64)
    ensures
        final(text)@ == old(text)@ + decimal(n as nat),
    decreases n,
{
    if n >= 10 {
        push_decimal(text, n / 10);
    }
    let ghost before = text@;
    text.append(digit_str(n % 10));
    proof {
        if n >= 10 {
            assert(text@ =~= old(text)@ + decimal(n as nat));
        } else {
            assert(text@ =~= old(text)@ + decimal(n as nat));
        }
    }
}

/// A larger number has no fewer digits.
pub proof fn lemma_decimal_len_monotone(n: nat, m: nat)
    requires
        n <= m,
    ensures
        decimal(n).len() <= decimal(m).len(),
    decreases m,
{
    lemma_decimal_len(n);
    lemma_decimal_len(m);
    if n >= 10 {
        lemma_decimal_len_monotone(n / 10, m / 10);
    }
}

/// A 64-bit number has at most 20 digits.
pub proof fn lemma_decimal_len_u64(n: u64)
    ensures
        1 <= decimal(n as nat).len() <= 20,
{
    lemma_decimal_len(n as nat);
    lemma_decimal_len_monotone(n as nat, 18_446_744_073_709_551_615nat);
    assert(decimal(18_446_744_073_709_551_615nat).len() == 20) by {
        reveal_with_fuel(decimal, 21);
    }
}

/// Number of decimal digits of `n`.
pub fn decimal_len(n: u64) -> (len: usize)
    ensures
        len == decimal(n as nat).len(),
        1 <= len <= 20,
{
    let mut len: usize = 1;
    let mut rest: u64 = n;
    proof {
        lemma_decimal_len_u64(n);
    }
    while rest >= 10
        invariant
            1 <= len,
            decimal(n as nat).len() == decimal(rest as nat).len() + len - 1,
            decimal(n as nat).len() <= 20,
        decreases rest,
    {
        proof {
            lemma_decimal_len(rest as nat);
            lemma_decimal_len((rest / 10) as nat);
        }
        rest = rest / 10;
        len = len + 1;
    }
    proof {
        lemma_decimal_len(rest as nat);
    }
    len
}

/// The decimal text of `n`.
pub fn decimal_string(n: u64) -> (text: String)
    ensures
        text@ == decimal(n as nat),
{
    let mut text = String::new();
    push_decimal(&mut text, n);
    assert(text@ =~= decimal(n as nat));
    text
}

/// The decimal text of `n`, with zeros in front up to `width` characters.
pub fn zero_padded_string(n: u64, width: usize) -> (text: String)
    ensures
        text@ == zero_padded(n as nat, width as nat),
{
    let len = decimal_len(n);
    let mut text = String::new();
    let mut i: usize = len;
    proof {
        reveal_strlit("0");
    }
    while i < width
        invariant
            len <= i,
            i <= width || i == len,
            text@ == zeros((i - len) as nat),
        decreases width - i,
    {
        text.append("0");
        i = i + 1;
        proof {
            reveal_strlit("0");
            assert(text@ =~= zeros((i - len) as nat));
        }
    }
    let ghost padding = text@;
    push_decimal(&mut text, n);
    proof {
        assert(text@ == padding + decimal(n as nat));
        if len >= width {
            assert(i == len);
            assert(padding =~= Seq::<char>::empty());
            assert(text@ =~= decimal(n as nat));
        } else {
            assert(i == width);
        }
    }
    text
}

/// `count` spaces.
pub open spec fn spaces(count: nat) -> Seq<char> {
    Seq::new(count, |i: int| ' ')
}

/// Appends `count` spaces to `text`.
pub fn push_spaces(text: &mut String, count: usize)
    ensures
        final(text)@ == old(text)@ + spaces(count as nat),
{
    let mut i: usize = 0;
    proof {
        assert(text@ =~= old(text)@ + spaces(0));
    }
    while i < count
        invariant
            i <= count,
            text@ == old(text)@ + spaces(i as nat),
        decreases count - i,
    {
        text.append(" ");
        i = i + 1;
        proof {
            reveal_strlit(" ");
            assert(text@ =~= old(text)@ + spaces(i as nat));
        }
    }
}

/// The decimal text of a signed number in at least `width` characters:
/// zeros fill it up, behind the sign where there is one.
pub open spec fn signed_padded(v: int, width: nat) -> Seq<char> {
    if v < 0 {
        seq!['-'] + zero_padded((-v) as nat, (width - 1) as nat)
    } else {
        zero_padded(v as nat, width)
    }
}

/// The decimal text of `v` in at least `width` characters.
pub fn signed_padded_string(v: i64, width: usize) -> (text: String)
    requires
        width >= 1,
    ensures
        text@ == signed_padded(v as int, width as nat),
{
    if v < 0 {
        let magnitude: u64 = (-(v as i128)) as u64;
        let digits = zero_padded_string(magnitude, width - 1);
        let mut text = String::from_str("-");
        text.append(digits.as_str());
        proof {
            reveal_strlit("-");
            assert(text@ =~= signed_padded(v as int, width as nat));
        }
        text
    } else {
        zero_padded_string(v as u64, width)
    }
}

/// A number of at most nine digits fills nine characters exactly, and so
/// does a negative one of at most eight.
pub proof fn lemma_signed_padded_nine(v: int)
    requires
        -99_999_999 <= v <= 999_999_999,
    ensures
        signed_padded(v, 9).len() == 9,
{
    if v < 0 {
        lemma_decimal_len((-v) as nat);
        lemma_decimal_len_monotone((-v) as nat, 99_999_999);
        assert(decimal(99_999_999).len() == 8) by {
            reveal_with_fuel(decimal, 9);
        }
    } else {
        lemma_decimal_len(v as nat);
        lemma_decimal_len_monotone(v as nat, 999_999_999);
        assert(decimal(999_999_999).len() == 9) by {
            reveal_with_fuel(decimal, 10);
        }
    }
}

} // verus!
