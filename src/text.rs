//! Character-level helpers: comparing strings, decimal numbers in both directions, and finding
//! a separator.
use vstd::prelude::*;

verus! {

/// The decimal digits, in order of value.
pub open spec fn digit_chars() -> Seq<char> {
    seq!['0', '1', '2', '3', '4', '5', '6', '7', '8', '9']
}

/// Whether `ch` is an ASCII decimal digit.
pub open spec fn is_digit(ch: char) -> bool {
    '0' <= ch <= '9'
}

/// The value of a decimal digit.
pub open spec fn digit_value(ch: char) -> nat {
    (ch as u32 - '0' as u32) as nat
}

/// The value of a sequence of decimal digits (0 for none).
pub open spec fn digits_value(d: Seq<char>) -> nat
    decreases d.len(),
{
    if d.len() == 0 {
        0
    } else {
        digits_value(d.drop_last()) * 10 + digit_value(d.last())
    }
}

/// What `usize::from_str` accepts: an optional `+`, then one or more decimal digits whose value
/// fits in `usize`.
pub open spec fn parse_usize(t: Seq<char>) -> Option<nat> {
    let d = unsigned_part(t);
    if d.len() > 0 && (forall|i: int| 0 <= i < d.len() ==> is_digit(#[trigger] d[i]))
        && digits_value(d) <= usize::MAX {
        Some(digits_value(d))
    } else {
        None
    }
}

/// The digits of a number in its text: what follows a leading `+`, if any.
pub open spec fn unsigned_part(t: Seq<char>) -> Seq<char> {
    if t.len() > 0 && t[0] == '+' {
        t.skip(1)
    } else {
        t
    }
}

proof fn lemma_not_number(t: Seq<char>, j: int)
    requires
        0 <= j <= unsigned_part(t).len(),
        j < unsigned_part(t).len() ==> !is_digit(unsigned_part(t)[j]),
        j < unsigned_part(t).len() || digits_value(unsigned_part(t)) > usize::MAX,
    ensures
        parse_usize(t) is None,
{
}

/// The decimal text of `n`, without leading zeros.
pub open spec fn decimal(n: nat) -> Seq<char>
    decreases n,
{
    if n < 10 {
        seq![digit_chars()[n as int]]
    } else {
        decimal(n / 10).push(digit_chars()[(n % 10) as int])
    }
}

/// The first position at or after `i` where `t` holds `ch`.
pub open spec fn index_from(t: Seq<char>, ch: char, i: nat) -> Option<nat>
    decreases t.len() - i,
{
    if i >= t.len() {
        None
    } else if t[i as int] == ch {
        Some(i)
    } else {
        index_from(t, ch, i + 1)
    }
}

/// The first position at or after `i` where `t` holds the separator `::`.
pub open spec fn separator_from(t: Seq<char>, i: nat) -> Option<nat>
    decreases t.len() - i,
{
    if i + 2 > t.len() {
        None
    } else if t[i as int] == ':' && t[(i + 1) as int] == ':' {
        Some(i)
    } else {
        separator_from(t, i + 1)
    }
}

/// Whether two strings hold the same characters.
pub fn str_eq(a: &str, b: &str) -> (r: bool)
    ensures
        r == (a@ == b@),
{
    let n = a.unicode_len();
    if n != b.unicode_len() {
        return false;
    }
    let mut i: usize = 0;
    while i < n
        invariant
            n == a@.len(),
            n == b@.len(),
            i <= n,
            forall|j: int| 0 <= j < i ==> a@[j] == b@[j],
        decreases n - i,
    {
        if a.get_char(i) != b.get_char(i) {
            return false;
        }
        i = i + 1;
    }
    assert(a@ =~= b@);
    true
}

/// The first position of `ch` in `t`.
pub fn find_char(t: &str, ch: char) -> (r: Option<usize>)
    ensures
        r matches Some(p) ==> p < t@.len() && index_from(t@, ch, 0) == Some(p as nat),
        r is None ==> index_from(t@, ch, 0) is None,
{
    let n = t.unicode_len();
    let mut i: usize = 0;
    while i < n
        invariant
            n == t@.len(),
            i <= n,
            index_from(t@, ch, 0) == index_from(t@, ch, i as nat),
        decreases n - i,
    {
        if t.get_char(i) == ch {
            return Some(i);
        }
        i = i + 1;
    }
    None
}

/// The first position of the separator `::` in `t`.
pub fn find_separator(t: &str) -> (r: Option<usize>)
    ensures
        r matches Some(p) ==> p + 2 <= t@.len() && separator_from(t@, 0) == Some(p as nat),
        r is None ==> separator_from(t@, 0) is None,
{
    let n = t.unicode_len();
    let mut i: usize = 0;
    while n >= 2 && i < n - 1
        invariant
            n == t@.len(),
            i <= n,
            separator_from(t@, 0) == separator_from(t@, i as nat),
        decreases n - i,
    {
        if t.get_char(i) == ':' && t.get_char(i + 1) == ':' {
            return Some(i);
        }
        i = i + 1;
    }
    None
}

proof fn lemma_digits_grow(d: Seq<char>, j: int)
    requires
        0 <= j <= d.len(),
    ensures
        digits_value(d.take(j)) <= digits_value(d),
    decreases d.len() - j,
{
    if j < d.len() {
        lemma_digits_grow(d, j + 1);
        assert(d.take(j + 1).drop_last() =~= d.take(j));
    } else {
        assert(d.take(j) =~= d);
    }
}

/// Reads a decimal number as `usize::from_str` does.
pub fn parse_number(t: &str) -> (r: Option<usize>)
    ensures
        match parse_usize(t@) {
            Some(v) => r == Some(v as usize),
            None => r is None,
        },
{
    let n = t.unicode_len();
    let start: usize = if n > 0 && t.get_char(0) == '+' {
        1
    } else {
        0
    };
    let ghost d = unsigned_part(t@);
    assert(d =~= t@.skip(start as int));
    if start == n {
        return None;
    }
    let mut value: usize = 0;
    let mut i: usize = start;
    while i < n
        invariant
            n == t@.len(),
            start <= i <= n,
            d == t@.skip(start as int),
            d == unsigned_part(t@),
            forall|j: int| 0 <= j < i - start ==> is_digit(#[trigger] d[j]),
            value == digits_value(d.take(i - start)),
        decreases n - i,
    {
        let ch = t.get_char(i);
        assert(d.take(i + 1 - start).drop_last() =~= d.take(i - start));
        assert(d[i - start] == ch);
        if !('0' <= ch && ch <= '9') {
            proof {
                lemma_not_number(t@, i - start);
            }
            return None;
        }
        let digit = (ch as u32 - '0' as u32) as usize;
        assert(digits_value(d.take(i + 1 - start)) == value * 10 + digit);
        if value > (usize::MAX - digit) / 10 {
            proof {
                assert(value * 10 + digit > usize::MAX) by (nonlinear_arith)
                    requires
                        value > (usize::MAX - digit) / 10,
                        digit <= 9,
                ;
                lemma_digits_grow(d, i + 1 - start);
                lemma_not_number(t@, d.len() as int);
            }
            return None;
        }
        value = value * 10 + digit;
        i = i + 1;
    }
    assert(d.take(n - start) =~= d);
    Some(value)
}

/// The character of a decimal digit.
fn digit_str(v: usize) -> (r: &'static str)
    requires
        v < 10,
    ensures
        r@ == seq![digit_chars()[v as int]],
{
    proof {
        reveal_strlit("0123456789");
    }
    let all = "0123456789";
    let r = all.substring_char(v, v + 1);
    assert(r@ =~= seq![digit_chars()[v as int]]);
    r
}

/// The decimal text of `n`.
pub fn decimal_string(n: usize) -> (r: String)
    ensures
        r@ == decimal(n as nat),
    decreases n,
{
    if n < 10 {
        String::from_str(digit_str(n))
    } else {
        let mut s = decimal_string(n / 10);
        s.append(digit_str(n % 10));
        s
    }
}

/// Reading back the decimal text of a number gives the number.
pub proof fn lemma_decimal_value(n: nat)
    ensures
        decimal(n).len() > 0,
        forall|i: int| 0 <= i < decimal(n).len() ==> is_digit(#[trigger] decimal(n)[i]),
        digits_value(decimal(n)) == n,
        decimal(n)[0] != '+',
    decreases n,
{
    let t = digit_chars();
    assert(forall|v: int| 0 <= v < 10 ==> is_digit(#[trigger] t[v]) && digit_value(t[v]) == v)
        by {
        assert(t[0] == '0' && t[1] == '1' && t[2] == '2' && t[3] == '3' && t[4] == '4');
        assert(t[5] == '5' && t[6] == '6' && t[7] == '7' && t[8] == '8' && t[9] == '9');
    }
    if n >= 10 {
        lemma_decimal_value(n / 10);
        let s = decimal(n);
        assert(s.drop_last() =~= decimal(n / 10));
        assert(s.last() == t[(n % 10) as int]);
        assert(digit_value(s.last()) == n % 10);
        assert(digits_value(s) == (n / 10) * 10 + n % 10);
        assert((n / 10) * 10 + n % 10 == n) by (nonlinear_arith);
        assert forall|i: int| 0 <= i < s.len() implies is_digit(#[trigger] s[i]) by {
            if i < s.len() - 1 {
                assert(s[i] == decimal(n / 10)[i]);
            }
        }
    } else {
        let s = decimal(n);
        assert(s == seq![t[n as int]]);
        assert(s.drop_last() =~= Seq::<char>::empty());
        assert(digits_value(s.drop_last()) == 0);
        assert(digit_value(t[n as int]) == n);
        assert(digits_value(s) == digits_value(s.drop_last()) * 10 + digit_value(s.last()));
    }
}

} // verus!
