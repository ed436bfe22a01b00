//! Decimal text for small unsigned integers: reading a `u8` as `str::parse`
//! does, and writing an unsigned integer as `to_string` does.
use vstd::prelude::*;

verus! {

/// Whether `c` is one of the ASCII digits `0` to `9`.
pub open spec fn is_digit(c: char) -> bool {
    48 <= (c as u32) && (c as u32) <= 57
}

/// The value of the ASCII digit `c`.
pub open spec fn digit_value(c: char) -> nat {
    ((c as u32) - 48) as nat
}

/// The ASCII digit that stands for `d`, for `d < 10`.
pub open spec fn digit_char(d: nat) -> char {
    (d + 48) as char
}

/// Every character of `s` is an ASCII digit.
pub open spec fn all_digits(s: Seq<char>) -> bool {
    forall|i: int| 0 <= i < s.len() ==> is_digit(#[trigger] s[i])
}

/// The number that the digits `s` write in base ten (most significant first).
pub open spec fn digits_value(s: Seq<char>) -> nat
    decreases s.len(),
{
    if s.len() == 0 {
        0
    } else {
        digits_value(s.drop_last()) * 10 + digit_value(s.last())
    }
}

/// The shortest decimal text of `n`: no sign, no leading zero but for `0` itself.
pub open spec fn decimal(n: nat) -> Seq<char>
    decreases n,
{
    if n < 10 {
        seq![digit_char(n)]
    } else {
        decimal(n / 10).push(digit_char(n % 10))
    }
}

/// The digits that `u8`'s `from_str` reads: all of `s`, or all but a leading `+`.
pub open spec fn unsigned_digits(s: Seq<char>) -> Seq<char> {
    if s.len() > 0 && s[0] == '+' {
        s.skip(1)
    } else {
        s
    }
}

/// What `s.parse::<u8>()` gives: an optional `+`, then at least one ASCII
/// digit and nothing else, with a value that fits in a `u8`.
pub open spec fn parsed_u8(s: Seq<char>) -> Option<u8> {
    let d = unsigned_digits(s);
    if d.len() > 0 && all_digits(d) && digits_value(d) <= 255 {
        Some(digits_value(d) as u8)
    } else {
        None
    }
}

/// The decimal text of `n` is made of digits only, and its digits value is `n`.
pub proof fn lemma_decimal_digits(n: nat)
    ensures
        decimal(n).len() > 0,
        all_digits(decimal(n)),
        digits_value(decimal(n)) == n,
    decreases n,
{
    if n < 10 {
        assert(decimal(n).drop_last() =~= Seq::<char>::empty());
        assert(digit_value(digit_char(n)) == n);
        assert(digits_value(Seq::<char>::empty()) == 0);
        assert(digits_value(decimal(n)) == digits_value(decimal(n).drop_last()) * 10 + digit_value(decimal(n).last()));
    } else {
        lemma_decimal_digits(n / 10);
        let prefix = decimal(n / 10);
        assert(decimal(n).drop_last() =~= prefix);
        assert(digit_value(digit_char(n % 10)) == n % 10);
        assert((n / 10) * 10 + n % 10 == n) by (nonlinear_arith);
        assert(decimal(n).last() == digit_char(n % 10));
        assert(digits_value(decimal(n)) == digits_value(prefix) * 10 + digit_value(digit_char(n % 10)));
        assert forall|i: int| 0 <= i < decimal(n).len() implies is_digit(#[trigger] decimal(n)[i]) by {
            if i < prefix.len() {
                assert(decimal(n)[i] == prefix[i]);
            }
        }
    }
}

/// Reading back the decimal text of a byte-sized number gives the number:
/// `n.to_string().parse::<u8>() == Ok(n)`.
pub proof fn lemma_parse_decimal(n: u8)
    ensures
        parsed_u8(decimal(n as nat)) == Some(n),
{
    lemma_decimal_digits(n as nat);
    let s = decimal(n as nat);
    assert(is_digit(s[0]));
    assert(unsigned_digits(s) == s);
}

/// What `parse::<u8>` accepts is a non-empty run of ASCII digits after at most
/// one leading `+`; a `+`-signed decimal text reads as its number, and the
/// decimal text of a number past 255 is refused.
pub proof fn lemma_parsed_u8_shape(s: Seq<char>, n: u8, m: nat)
    requires
        m > 255,
    ensures
        parsed_u8(s) is Some ==> s.len() > 0 && s[s.len() - 1] != '+' && forall|i: int|
            0 <= i < s.len() ==> is_digit(#[trigger] s[i]) || (i == 0 && s[i] == '+'),
        parsed_u8(seq!['+'] + decimal(n as nat)) == Some(n),
        parsed_u8(decimal(m)) is None,
        parsed_u8(seq!['-'] + decimal(n as nat)) is None,
        parsed_u8(Seq::<char>::empty()) is None,
{
    lemma_parse_decimal(n);
    lemma_decimal_digits(n as nat);
    lemma_decimal_digits(m);
    let t = decimal(n as nat);
    assert((seq!['+'] + t).skip(1) =~= t);
    assert(is_digit(decimal(m)[0]));
    assert(unsigned_digits(decimal(m)) == decimal(m));
    let minus = seq!['-'] + t;
    assert(minus[0] == '-');
    assert(!is_digit(unsigned_digits(minus)[0]));
    if parsed_u8(s) is Some {
        let d = unsigned_digits(s);
        if s.len() > 0 && s[0] == '+' {
            assert forall|i: int| 0 <= i < s.len() implies is_digit(#[trigger] s[i]) || (i == 0 && s[i] == '+') by {
                if i > 0 {
                    assert(s[i] == d[i - 1]);
                }
            }
            assert(s[s.len() - 1] == d[d.len() - 1]);
        } else {
            assert(d == s);
        }
    }
}

/// Reads `s` as a `u8` in base ten, by the rules of `str::parse::<u8>`.
pub fn parse_u8(s: &str) -> (res: Option<u8>)
    ensures
        res == parsed_u8(s@),
{
    let n = s.unicode_len();
    let mut i: usize = 0;
    if n > 0 && s.get_char(0) == '+' {
        i = 1;
    }
    let start = i;
    let ghost d = unsigned_digits(s@);
    assert(d =~= s@.subrange(start as int, n as int));
    if start >= n {
        return None;
    }
    let mut acc: u32 = 0;
    while i < n
        invariant
            n == s@.len(),
            start <= i <= n,
            d == unsigned_digits(s@),
            d =~= s@.subrange(start as int, n as int),
            all_digits(s@.subrange(start as int, i as int)),
            acc == (if digits_value(s@.subrange(start as int, i as int)) < 256 {
                digits_value(s@.subrange(start as int, i as int))
            } else {
                256
            }),
        decreases n - i,
    {
        let c = s.get_char(i);
        let code = c as u32;
        if !(48 <= code && code <= 57) {
            assert(d[i - start] == c);
            assert(!is_digit(d[i - start]));
            return None;
        }
        let v = code - 48;
        let ghost prev = s@.subrange(start as int, i as int);
        let ghost next = s@.subrange(start as int, i + 1);
        assert(next.drop_last() =~= prev);
        assert(next.last() == c);
        acc = if acc * 10 + v > 256 {
            256
        } else {
            acc * 10 + v
        };
        i = i + 1;
    }
    assert(s@.subrange(start as int, n as int) =~= d);
    if acc <= 255 {
        Some(acc as u8)
    } else {
        None
    }
}

/// The one-character text of the digit `d`.
fn digit_text(d: u64) -> (s: &'static str)
    requires
        d < 10,
    ensures
        s@ == seq![digit_char(d as nat)],
{
    if d == 0 {
        proof { reveal_strlit("0"); }
        "0"
    } else if d == 1 {
        proof { reveal_strlit("1"); }
        "1"
    } else if d == 2 {
        proof { reveal_strlit("2"); }
        "2"
    } else if d == 3 {
        proof { reveal_strlit("3"); }
        "3"
    } else if d == 4 {
        proof { reveal_strlit("4"); }
        "4"
    } else if d == 5 {
        proof { reveal_strlit("5"); }
        "5"
    } else if d == 6 {
        proof { reveal_strlit("6"); }
        "6"
    } else if d == 7 {
        proof { reveal_strlit("7"); }
        "7"
    } else if d == 8 {
        proof { reveal_strlit("8"); }
        "8"
    } else {
        proof { reveal_strlit("9"); }
        "9"
    }
}

/// Appends the decimal text of `n` to `s`.
pub fn push_decimal(s: &mut String, n: u64)
    ensures
        final(s)@ == old(s)@ + decimal(n as nat),
    decreases n,
{
    if n >= 10 {
        push_decimal(s, n / 10);
    }
    s.append(digit_text(n % 10));
    assert(old(s)@ + decimal(n as nat) =~= final(s)@);
}

/// The decimal text of `n`, as `n.to_string()` writes it.
pub fn decimal_string(n: u64) -> (s: String)
    ensures
        s@ == decimal(n as nat),
{
    let mut s = String::new();
    push_decimal(&mut s, n);
    assert(s@ =~= decimal(n as nat));
    s
}

} // verus!
