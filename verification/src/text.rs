use vstd::prelude::*;
use vstd::string::*;

verus! {

/// An ASCII decimal digit.
pub open spec fn is_ascii_digit(c: char) -> bool {
    '0' <= c && c <= '9'
}

/// The value of an ASCII decimal digit.
pub open spec fn digit_value(c: char) -> int {
    (c as int) - ('0' as int)
}

/// Every character of `s` is an ASCII decimal digit.
pub open spec fn all_digits(s: Seq<char>) -> bool {
    forall|i: int| 0 <= i < s.len() ==> is_ascii_digit(#[trigger] s[i])
}

/// The value of a string of decimal digits, most significant first.
pub open spec fn digits_value(s: Seq<char>) -> int
    decreases s.len(),
{
    if s.len() == 0 {
        0
    } else {
        10 * digits_value(s.drop_last()) + digit_value(s.last())
    }
}

/// What `str::parse::<i64>` accepts: an optional `+` or `-` sign followed by one or more
/// ASCII digits, whose value fits in an `i64`.
pub open spec fn parse_i64_spec(s: Seq<char>) -> Option<i64> {
    let neg = s.len() > 0 && s[0] == '-';
    let signed = s.len() > 0 && (s[0] == '-' || s[0] == '+');
    let digits = if signed { s.drop_first() } else { s };
    if digits.len() == 0 || !all_digits(digits) {
        None
    } else {
        let v = if neg { -digits_value(digits) } else { digits_value(digits) };
        if i64::MIN <= v <= i64::MAX {
            Some(v as i64)
        } else {
            None
        }
    }
}

/// The ASCII digit for a value in 0..=9.
pub open spec fn digit_char(d: int) -> char {
    if d <= 0 {
        '0'
    } else if d == 1 {
        '1'
    } else if d == 2 {
        '2'
    } else if d == 3 {
        '3'
    } else if d == 4 {
        '4'
    } else if d == 5 {
        '5'
    } else if d == 6 {
        '6'
    } else if d == 7 {
        '7'
    } else if d == 8 {
        '8'
    } else {
        '9'
    }
}

/// The decimal digits of a natural number, without leading zeros.
pub open spec fn nat_digits(n: nat) -> Seq<char>
    decreases n,
{
    if n < 10 {
        seq![digit_char(n as int)]
    } else {
        nat_digits(n / 10).push(digit_char((n % 10) as int))
    }
}

/// The decimal rendering of an integer, with a leading `-` when negative.
pub open spec fn decimal_repr(x: int) -> Seq<char> {
    if x < 0 {
        seq!['-'] + nat_digits((-x) as nat)
    } else {
        nat_digits(x as nat)
    }
}

/// Parses a decimal `i64` the way `str::parse::<i64>` does: an optional `+` or `-`, then
/// one or more ASCII digits whose value fits in an `i64`.
pub fn parse_i64(s: &str) -> (res: Option<i64>)
    ensures
        res == parse_i64_spec(s@),
{
    let n = s.unicode_len();
    let neg = n > 0 && s.get_char(0) == '-';
    let signed = n > 0 && (s.get_char(0) == '-' || s.get_char(0) == '+');
    let start: usize = if signed {
        1
    } else {
        0
    };
    let ghost digits = if signed {
        s@.drop_first()
    } else {
        s@
    };
    assert(digits =~= s@.subrange(start as int, n as int));
    if start == n {
        return None;
    }
    let limit: u128 = 0x8000_0000_0000_0000;
    let mut acc: u128 = 0;
    let mut over = false;
    let mut j: usize = start;
    assert(digits.take(0) =~= Seq::<char>::empty());
    while j < n
        invariant
            start <= j <= n,
            n == s@.len(),
            digits == s@.subrange(start as int, n as int),
            digits == (if s@.len() > 0 && (s@[0] == '-' || s@[0] == '+') {
                s@.drop_first()
            } else {
                s@
            }),
            limit == 0x8000_0000_0000_0000u128,
            all_digits(digits.take(j - start)),
            !over ==> acc == digits_value(digits.take(j - start)) && acc <= limit,
            over ==> digits_value(digits.take(j - start)) > limit,
        decreases n - j,
    {
        let c = s.get_char(j);
        let ghost k: int = j - start;
        assert(digits[k] == c);
        if !('0' <= c && c <= '9') {
            assert(!is_ascii_digit(digits[k]));
            assert(!all_digits(digits));
            return None;
        }
        let ghost t = digits.take(k);
        let ghost t2 = digits.take(k + 1);
        assert(t2.drop_last() =~= t);
        assert(t2.last() == c);
        assert(all_digits(t2)) by {
            assert forall|i: int| 0 <= i < t2.len() implies is_ascii_digit(#[trigger] t2[i]) by {
                if i < k {
                    assert(t2[i] == t[i]);
                }
            }
        }
        let d: u128 = (c as u32 - '0' as u32) as u128;
        assert(d == digit_value(c));
        if !over {
            let next = acc * 10 + d;
            if next > limit {
                over = true;
            } else {
                acc = next;
            }
        }
        j = j + 1;
    }
    assert(digits.take(n - start) =~= digits);
    if over {
        None
    } else if neg {
        Some((0i128 - acc as i128) as i64)
    } else if acc < limit {
        Some(acc as i64)
    } else {
        None
    }
}

/// The one-character text of a decimal digit.
fn digit_text(d: u64) -> (res: &'static str)
    requires
        d < 10,
    ensures
        res@ == seq![digit_char(d as int)],
{
    proof {
        reveal_strlit("0");
        reveal_strlit("1");
        reveal_strlit("2");
        reveal_strlit("3");
        reveal_strlit("4");
        reveal_strlit("5");
        reveal_strlit("6");
        reveal_strlit("7");
        reveal_strlit("8");
        reveal_strlit("9");
    }
    if d == 0 {
        "0"
    } else if d == 1 {
        "1"
    } else if d == 2 {
        "2"
    } else if d == 3 {
        "3"
    } else if d == 4 {
        "4"
    } else if d == 5 {
        "5"
    } else if d == 6 {
        "6"
    } else if d == 7 {
        "7"
    } else if d == 8 {
        "8"
    } else {
        "9"
    }
}

/// Appends the decimal digits of `n` to `out`.
fn push_digits(out: &mut String, n: u64)
    ensures
        final(out)@ == old(out)@ + nat_digits(n as nat),
    decreases n,
{
    if n < 10 {
        out.append(digit_text(n));
    } else {
        push_digits(out, n / 10);
        out.append(digit_text(n % 10));
        proof {
            assert(old(out)@ + nat_digits((n / 10) as nat) + seq![digit_char((n % 10) as int)] =~= old(
                out,
            )@ + nat_digits(n as nat));
        }
    }
}

/// Renders an `i64` in decimal, as `i64::to_string` does: a `-` for a negative value, then
/// the digits of its magnitude without leading zeros.
pub fn i64_to_string(x: i64) -> (res: String)
    ensures
        res@ == decimal_repr(x as int),
{
    proof {
        reveal_strlit("-");
        reveal_strlit("");
    }
    if x < 0 {
        let magnitude: u64 = (0i128 - x as i128) as u64;
        let mut out = String::from_str("-");
        push_digits(&mut out, magnitude);
        out
    } else {
        let mut out = String::from_str("");
        push_digits(&mut out, x as u64);
        assert(seq![] + nat_digits(x as nat) =~= nat_digits(x as nat));
        out
    }
}

proof fn lemma_nat_digits(n: nat)
    ensures
        nat_digits(n).len() > 0,
        all_digits(nat_digits(n)),
        digits_value(nat_digits(n)) == n,
    decreases n,
{
    let d = (n % 10) as int;
    assert(digit_value(digit_char(d)) == d && is_ascii_digit(digit_char(d)));
    if n < 10 {
        assert(nat_digits(n).drop_last() =~= Seq::<char>::empty());
        assert(n % 10 == n);
        assert(digits_value(nat_digits(n)) == 10 * digits_value(Seq::<char>::empty()) + digit_value(digit_char(d)));
    } else {
        lemma_nat_digits(n / 10);
        let s = nat_digits(n);
        assert(s.drop_last() =~= nat_digits(n / 10));
        assert(s.last() == digit_char(d));
        assert(n == 10 * (n / 10) + n % 10);
        assert(digits_value(s) == 10 * digits_value(s.drop_last()) + digit_value(s.last()));
        assert forall|i: int| 0 <= i < s.len() implies is_ascii_digit(#[trigger] s[i]) by {
            if i < s.len() - 1 {
                assert(s[i] == nat_digits(n / 10)[i]);
            }
        }
    }
}

/// Decimal rendering is canonical: a `-` exactly for a negative value, then one or more
/// ASCII digits whose value is the magnitude, with no leading zero except for zero itself.
pub proof fn lemma_decimal_repr_canonical(x: i64)
    ensures
        x < 0 <==> decimal_repr(x as int)[0] == '-',
        ({
            let digits = if x < 0 {
                decimal_repr(x as int).drop_first()
            } else {
                decimal_repr(x as int)
            };
            &&& digits.len() > 0
            &&& all_digits(digits)
            &&& digits_value(digits) == (if x < 0 {
                -(x as int)
            } else {
                x as int
            })
            &&& (digits[0] == '0' ==> digits.len() == 1)
        }),
{
    let n: nat = if x < 0 {
        (-(x as int)) as nat
    } else {
        x as nat
    };
    lemma_nat_digits(n);
    lemma_nat_digits_leading(n);
    if x < 0 {
        assert((seq!['-'] + nat_digits(n)).drop_first() =~= nat_digits(n));
    } else {
        assert(is_ascii_digit(nat_digits(n)[0]));
    }
}

proof fn lemma_nat_digits_leading(n: nat)
    ensures
        nat_digits(n)[0] == '0' ==> n == 0 && nat_digits(n).len() == 1,
    decreases n,
{
    if n >= 10 {
        lemma_nat_digits_leading(n / 10);
        lemma_nat_digits(n / 10);
        assert(nat_digits(n)[0] == nat_digits(n / 10)[0]);
    }
}

/// What a decimal text parses to: digits alone or after `+` give their value, after `-`
/// its negation, as long as that fits in an `i64`; a text with anything but one leading
/// sign and one or more ASCII digits parses to nothing.
pub proof fn lemma_parse_i64_values(digits: Seq<char>)
    ensures
        digits.len() > 0 && all_digits(digits) && digits_value(digits) <= i64::MAX ==> parse_i64_spec(digits)
            == Some(digits_value(digits) as i64) && parse_i64_spec(seq!['+'] + digits) == Some(
            digits_value(digits) as i64,
        ),
        digits.len() > 0 && all_digits(digits) && digits_value(digits) <= -(i64::MIN as int) ==> parse_i64_spec(
            seq!['-'] + digits,
        ) == Some((-digits_value(digits)) as i64),
        digits.len() > 0 && all_digits(digits) && digits_value(digits) > i64::MAX ==> parse_i64_spec(digits) is None,
        !all_digits(digits) ==> parse_i64_spec(seq!['+'] + digits) is None && parse_i64_spec(
            seq!['-'] + digits,
        ) is None,
        parse_i64_spec(Seq::<char>::empty()) is None,
        parse_i64_spec(seq!['+']) is None,
        parse_i64_spec(seq!['-']) is None,
{
    assert((seq!['+'] + digits).drop_first() =~= digits);
    assert((seq!['-'] + digits).drop_first() =~= digits);
    if digits.len() > 0 && all_digits(digits) {
        assert(is_ascii_digit(digits[0]));
    }
    assert(seq!['+'].drop_first() =~= Seq::<char>::empty());
    assert(seq!['-'].drop_first() =~= Seq::<char>::empty());
    if all_digits(digits) {
        lemma_digits_value_nonneg(digits);
    }
}

proof fn lemma_digits_value_nonneg(s: Seq<char>)
    requires
        all_digits(s),
    ensures
        digits_value(s) >= 0,
    decreases s.len(),
{
    if s.len() > 0 {
        let p = s.drop_last();
        assert forall|i: int| 0 <= i < p.len() implies is_ascii_digit(#[trigger] p[i]) by {
            assert(p[i] == s[i]);
        }
        lemma_digits_value_nonneg(p);
        assert(is_ascii_digit(s[s.len() - 1]));
    }
}

/// The decimal rendering of any `i64` parses back to that same `i64`: a key written with
/// `i64_to_string` is read back by `parse_i64`.
pub proof fn lemma_decimal_round_trip(x: i64)
    ensures
        parse_i64_spec(decimal_repr(x as int)) == Some(x),
{
    if x < 0 {
        let n = (-(x as int)) as nat;
        lemma_nat_digits(n);
        let s = decimal_repr(x as int);
        assert(s.drop_first() =~= nat_digits(n));
    } else {
        lemma_nat_digits(x as nat);
        let s = nat_digits(x as nat);
        assert(s[0] != '-' && s[0] != '+') by {
            assert(is_ascii_digit(s[0]));
        }
    }
}

} // verus!
