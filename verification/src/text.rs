//! Small string utilities shared by the option parsers.
use vstd::prelude::*;
use vstd::string::*;

verus! {

/// Compares two string slices character by character.
pub fn str_equal(a: &str, b: &str) -> (res: bool)
    ensures
        res == (a@ == b@),
{
    let sa = String::from_str(a);
    let sb = String::from_str(b);
    sa == sb
}

/// Position of the first occurrence of `c` in `s`, or the length of `s`
/// when `c` does not occur.
pub open spec fn find_char(s: Seq<char>, c: char) -> int
    decreases s.len(),
{
    if s.len() == 0 {
        0
    } else if s[0] == c {
        0
    } else {
        1 + find_char(s.drop_first(), c)
    }
}

/// `find_char` is the first position holding `c`.
pub proof fn lemma_find_char(s: Seq<char>, c: char, i: int)
    requires
        0 <= i <= s.len(),
        forall|k: int| 0 <= k < i ==> s[k] != c,
        i < s.len() ==> s[i] == c,
    ensures
        find_char(s, c) == i,
    decreases i,
{
    if i > 0 {
        assert forall|k: int| 0 <= k < i - 1 implies s.drop_first()[k] != c by {
            assert(s[k + 1] != c);
        }
        lemma_find_char(s.drop_first(), c, i - 1);
    }
}

/// Properties of `find_char`: it lies in `0 ..= len`, no earlier position
/// holds `c`, and the position holds `c` unless it is the length.
pub proof fn lemma_find_char_props(s: Seq<char>, c: char)
    ensures
        0 <= find_char(s, c) <= s.len(),
        forall|k: int| 0 <= k < find_char(s, c) ==> s[k] != c,
        find_char(s, c) < s.len() ==> s[find_char(s, c)] == c,
    decreases s.len(),
{
    if s.len() > 0 && s[0] != c {
        lemma_find_char_props(s.drop_first(), c);
        assert forall|k: int| 0 <= k < find_char(s, c) implies s[k] != c by {
            if k > 0 {
                assert(s[k] == s.drop_first()[k - 1]);
            }
        }
    }
}

/// Position of the first `c` in `s`, or the length of `s`.
pub fn find_char_exec(s: &str, c: char) -> (i: usize)
    ensures
        i == find_char(s@, c),
{
    let len = s.unicode_len();
    let mut i: usize = 0;
    while i < len && s.get_char(i) != c
        invariant
            len == s@.len(),
            0 <= i <= len,
            forall|k: int| 0 <= k < i ==> s@[k] != c,
        decreases len - i,
    {
        i = i + 1;
    }
    proof {
        lemma_find_char(s@, c, i as int);
    }
    i
}

/// Whether a character is a decimal digit.
pub open spec fn is_digit(c: char) -> bool {
    '0' <= c <= '9'
}

/// Whether all characters are decimal digits.
pub open spec fn all_digits(s: Seq<char>) -> bool {
    forall|i: int| 0 <= i < s.len() ==> is_digit(#[trigger] s[i])
}

/// The value of a digit character.
pub open spec fn digit_value(c: char) -> int {
    c as int - '0' as int
}

/// `acc` followed by the digits of `s`, read as one decimal number.
pub open spec fn digits_value_from(acc: int, s: Seq<char>) -> int
    decreases s.len(),
{
    if s.len() == 0 {
        acc
    } else {
        digits_value_from(acc, s.drop_last()) * 10 + digit_value(s.last())
    }
}

/// The digits of `s`, read as a decimal number.
pub open spec fn digits_value(s: Seq<char>) -> int {
    digits_value_from(0, s)
}

/// Reading digits can only grow a number.
pub proof fn lemma_digits_value_grows(acc: int, s: Seq<char>, k: int)
    requires
        acc >= 0,
        all_digits(s),
        0 <= k <= s.len(),
    ensures
        acc <= digits_value_from(acc, s.take(k)) <= digits_value_from(acc, s),
    decreases s.len(),
{
    if s.len() > 0 {
        assert(all_digits(s.drop_last()));
        if k == s.len() {
            assert(s.take(k) =~= s);
            lemma_digits_value_grows(acc, s.drop_last(), 0);
            assert(s.drop_last().take(0) =~= s.take(0));
            assert(s.take(0).len() == 0);
        } else {
            assert(s.drop_last().take(k) =~= s.take(k));
            lemma_digits_value_grows(acc, s.drop_last(), k);
            assert(is_digit(s[s.len() - 1]));
        }
    }
}

/// Reading `a` then `b` is reading `a + b`.
pub proof fn lemma_digits_value_concat(acc: int, a: Seq<char>, b: Seq<char>)
    ensures
        digits_value_from(digits_value_from(acc, a), b) == digits_value_from(acc, a + b),
    decreases b.len(),
{
    if b.len() == 0 {
        assert(a + b =~= a);
    } else {
        lemma_digits_value_concat(acc, a, b.drop_last());
        assert((a + b).drop_last() =~= a + b.drop_last());
        assert((a + b).last() == b.last());
    }
}

/// The decimal digits of a byte.
pub open spec fn digit_str(d: int) -> Seq<char> {
    if d == 0 {
        "0"@
    } else if d == 1 {
        "1"@
    } else if d == 2 {
        "2"@
    } else if d == 3 {
        "3"@
    } else if d == 4 {
        "4"@
    } else if d == 5 {
        "5"@
    } else if d == 6 {
        "6"@
    } else if d == 7 {
        "7"@
    } else if d == 8 {
        "8"@
    } else {
        "9"@
    }
}

/// The decimal representation of a natural number, without leading zeros.
pub open spec fn decimal_str(n: nat) -> Seq<char>
    decreases n,
{
    if n < 10 {
        digit_str(n as int)
    } else {
        decimal_str(n / 10) + digit_str((n % 10) as int)
    }
}

/// Appends one decimal digit.
fn push_digit(out: &mut String, d: u8)
    requires
        d < 10,
    ensures
        final(out)@ == old(out)@ + digit_str(d as int),
{
    if d == 0 {
        out.append("0");
    } else if d == 1 {
        out.append("1");
    } else if d == 2 {
        out.append("2");
    } else if d == 3 {
        out.append("3");
    } else if d == 4 {
        out.append("4");
    } else if d == 5 {
        out.append("5");
    } else if d == 6 {
        out.append("6");
    } else if d == 7 {
        out.append("7");
    } else if d == 8 {
        out.append("8");
    } else {
        out.append("9");
    }
}

/// Appends the decimal representation of a byte.
pub fn push_u8_decimal(out: &mut String, v: u8)
    ensures
        final(out)@ == old(out)@ + decimal_str(v as nat),
{
    if v >= 100 {
        push_digit(out, v / 100);
        push_digit(out, (v / 10) % 10);
        push_digit(out, v % 10);
        proof {
            let n = v as nat;
            assert(decimal_str(n) == decimal_str(n / 10) + digit_str((n % 10) as int));
            assert(decimal_str(n / 10) == decimal_str(n / 100) + digit_str(((n / 10) % 10) as int));
            assert(decimal_str(n / 100) == digit_str((n / 100) as int));
        }
    } else if v >= 10 {
        push_digit(out, v / 10);
        push_digit(out, v % 10);
        proof {
            let n = v as nat;
            assert(decimal_str(n) == decimal_str(n / 10) + digit_str((n % 10) as int));
            assert(decimal_str(n / 10) == digit_str((n / 10) as int));
        }
    } else {
        push_digit(out, v);
    }
}

} // verus!
