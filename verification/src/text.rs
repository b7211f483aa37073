//! Textual forms of the indexes: numbers written in decimal, octal or
//! hexadecimal, and read back.
use vstd::prelude::*;

verus! {

/// The lowercase digit for the value `d` (below 16).
pub open spec fn digit_char(d: nat) -> char {
    seq!['0', '1', '2', '3', '4', '5', '6', '7', '8', '9', 'a', 'b', 'c', 'd', 'e', 'f'][d as int]
}

/// `n` written in base `radix` (2 to 16), without leading zeros ("0" for 0).
pub open spec fn radix_text(n: nat, radix: nat) -> Seq<char>
    decreases n,
{
    if radix < 2 || n < radix {
        seq![digit_char(n)]
    } else {
        proof {
            assert(n / radix < n) by (nonlinear_arith)
                requires
                    n >= radix,
                    radix >= 2,
            ;
        }
        radix_text(n / radix, radix).push(digit_char(n % radix))
    }
}

/// The `width` lowest digits of `n` in base `radix`, leading zeros included.
pub open spec fn padded_text(n: nat, radix: nat, width: nat) -> Seq<char>
    decreases width,
{
    if width == 0 {
        Seq::empty()
    } else {
        padded_text(n / radix, radix, (width - 1) as nat).push(digit_char(n % radix))
    }
}

/// The value of a digit character in base 16 (either case), if it is one.
pub open spec fn hex_digit_value(c: char) -> Option<nat> {
    if '0' <= c && c <= '9' {
        Some(((c as nat) - ('0' as nat)) as nat)
    } else if 'a' <= c && c <= 'f' {
        Some(((c as nat) - ('a' as nat) + 10) as nat)
    } else if 'A' <= c && c <= 'F' {
        Some(((c as nat) - ('A' as nat) + 10) as nat)
    } else {
        None
    }
}

/// The value of a digit character in base `radix` (10 or 16), if it is one.
pub open spec fn radix_digit_value(c: char, radix: nat) -> Option<nat> {
    match hex_digit_value(c) {
        Some(d) => if d < radix {
            Some(d)
        } else {
            None
        },
        None => None,
    }
}

/// Whether every character of `s` is a digit in base `radix`.
pub open spec fn all_radix_digits(s: Seq<char>, radix: nat) -> bool {
    forall|i: int| 0 <= i < s.len() ==> (#[trigger] radix_digit_value(s[i], radix)) is Some
}

/// The value of the digits `s` in base `radix` (every character a digit).
pub open spec fn digits_value(s: Seq<char>, radix: nat) -> nat
    decreases s.len(),
{
    if s.len() == 0 {
        0
    } else {
        digits_value(s.drop_last(), radix) * radix + radix_digit_value(s.last(), radix).unwrap()
    }
}

/// The number written in `s`: an optional `+` sign, then at least one digit
/// in base `radix`; `None` for any other text.
pub open spec fn number_value(s: Seq<char>, radix: nat) -> Option<nat> {
    let digits = if s.len() > 0 && s[0] == '+' {
        s.drop_first()
    } else {
        s
    };
    if digits.len() > 0 && all_radix_digits(digits, radix) {
        Some(digits_value(digits, radix))
    } else {
        None
    }
}

/// The character for the digit `d`.
fn digit_to_char(d: u64) -> (c: char)
    requires
        d < 16,
    ensures
        c == digit_char(d as nat),
{
    match d {
        0 => '0',
        1 => '1',
        2 => '2',
        3 => '3',
        4 => '4',
        5 => '5',
        6 => '6',
        7 => '7',
        8 => '8',
        9 => '9',
        10 => 'a',
        11 => 'b',
        12 => 'c',
        13 => 'd',
        14 => 'e',
        _ => 'f',
    }
}

/// Appends `n` written in base `radix`, without leading zeros.
pub fn push_radix(out: &mut Vec<char>, n: u64, radix: u64)
    requires
        2 <= radix <= 16,
    ensures
        final(out)@ == old(out)@ + radix_text(n as nat, radix as nat),
    decreases n,
{
    if n >= radix {
        assert(n / radix < n) by (nonlinear_arith)
            requires
                n >= radix,
                radix >= 2,
        ;
        push_radix(out, n / radix, radix);
    }
    out.push(digit_to_char(n % radix));
    proof {
        if n >= radix {
            assert(old(out)@ + radix_text(n as nat, radix as nat) =~= old(out)@ + radix_text(
                (n / radix) as nat,
                radix as nat,
            ) + seq![digit_char((n % radix) as nat)]);
        } else {
            assert(n % radix == n) by (nonlinear_arith)
                requires
                    n < radix,
            ;
        }
    }
}

/// Appends the `width` lowest digits of `n` in base `radix`.
pub fn push_padded(out: &mut Vec<char>, n: u64, radix: u64, width: u64)
    requires
        2 <= radix <= 16,
    ensures
        final(out)@ == old(out)@ + padded_text(n as nat, radix as nat, width as nat),
    decreases width,
{
    if width > 0 {
        push_padded(out, n / radix, radix, width - 1);
        out.push(digit_to_char(n % radix));
        proof {
            assert(old(out)@ + padded_text(n as nat, radix as nat, width as nat) =~= old(out)@
                + padded_text((n / radix) as nat, radix as nat, (width - 1) as nat) + seq![
                digit_char((n % radix) as nat),
            ]);
        }
    } else {
        proof {
            assert(old(out)@ + padded_text(n as nat, radix as nat, 0) =~= old(out)@);
        }
    }
}

/// Appends the characters of `s`.
pub fn push_str(out: &mut Vec<char>, s: &str)
    ensures
        final(out)@ == old(out)@ + s@,
{
    let n = s.unicode_len();
    let mut i: usize = 0;
    while i < n
        invariant
            n == s@.len(),
            i <= n,
            out@ == old(out)@ + s@.subrange(0, i as int),
        decreases n - i,
    {
        let c = s.get_char(i);
        out.push(c);
        proof {
            assert(s@.subrange(0, i + 1) =~= s@.subrange(0, i as int).push(c));
        }
        i = i + 1;
    }
    proof {
        assert(s@.subrange(0, n as int) =~= s@);
    }
}

/// Appends a character to a string, with `String::push`: the string's
/// characters followed by `c`.
#[verifier::external_body]
fn push_char(s: &mut String, c: char)
    ensures
        final(s)@ == old(s)@.push(c),
{
    s.push(c);
}

/// Builds a `String` from its characters, in order.
pub(crate) fn string_from_chars(chars: &Vec<char>) -> (s: String)
    ensures
        s@ == chars@,
{
    let mut s = String::new();
    let mut i: usize = 0;
    while i < chars.len()
        invariant
            i <= chars@.len(),
            s@ == chars@.subrange(0, i as int),
        decreases chars@.len() - i,
    {
        push_char(&mut s, chars[i]);
        proof {
            assert(chars@.subrange(0, i + 1) =~= chars@.subrange(0, i as int).push(chars@[i as int]));
        }
        i = i + 1;
    }
    proof {
        assert(chars@.subrange(0, chars@.len() as int) =~= chars@);
    }
    s
}

/// The value of a digit character in base `radix` (10 or 16).
fn char_digit(c: char, radix: u64) -> (d: Option<u64>)
    requires
        radix == 10 || radix == 16,
    ensures
        match radix_digit_value(c, radix as nat) {
            Some(v) => d == Some(v as u64),
            None => d is None,
        },
{
    let v: u64 = if '0' <= c && c <= '9' {
        (c as u32 - '0' as u32) as u64
    } else if 'a' <= c && c <= 'f' {
        (c as u32 - 'a' as u32 + 10) as u64
    } else if 'A' <= c && c <= 'F' {
        (c as u32 - 'A' as u32 + 10) as u64
    } else {
        return None;
    };
    if v < radix {
        Some(v)
    } else {
        None
    }
}

/// Reads the number written in `s` in base `radix` (10 or 16): an optional
/// `+` sign, then at least one digit. `None` when the text is not a number
/// or when the number does not fit in 64 bits.
pub fn parse_u64(s: &str, radix: u64) -> (r: Option<u64>)
    requires
        radix == 10 || radix == 16,
    ensures
        match number_value(s@, radix as nat) {
            Some(v) => if v <= u64::MAX {
                r == Some(v as u64)
            } else {
                r is None
            },
            None => r is None,
        },
{
    let n = s.unicode_len();
    let start: usize = if n > 0 && s.get_char(0) == '+' {
        1
    } else {
        0
    };
    let ghost digits = s@.subrange(start as int, n as int);
    proof {
        if start == 1 {
            assert(digits =~= s@.drop_first());
        } else {
            assert(digits =~= s@);
        }
    }
    if start >= n {
        return None;
    }
    let mut value: u64 = 0;
    let mut i: usize = start;
    while i < n
        invariant
            n == s@.len(),
            start <= i <= n,
            digits == s@.subrange(start as int, n as int),
            digits == if s@.len() > 0 && s@[0] == '+' {
                s@.drop_first()
            } else {
                s@
            },
            digits.len() > 0,
            all_radix_digits(s@.subrange(start as int, i as int), radix as nat),
            value == digits_value(s@.subrange(start as int, i as int), radix as nat),
            radix == 10 || radix == 16,
        decreases n - i,
    {
        let c = s.get_char(i);
        let prefix = Ghost(s@.subrange(start as int, i as int));
        let next = Ghost(s@.subrange(start as int, i + 1));
        proof {
            assert(next@ =~= prefix@.push(c));
            assert(next@.drop_last() =~= prefix@);
        }
        let d = match char_digit(c, radix) {
            Some(d) => d,
            None => {
                proof {
                    let j = (i - start) as int;
                    assert(digits[j] == c);
                    assert(radix_digit_value(digits[j], radix as nat) is None);
                    assert(!all_radix_digits(digits, radix as nat));
                }
                return None;
            },
        };
        let ghost big = digits_value(next@, radix as nat);
        proof {
            assert(big == value * radix + d);
            assert(all_radix_digits(next@, radix as nat)) by {
                assert forall|j: int| 0 <= j < next@.len() implies (#[trigger] radix_digit_value(
                    next@[j],
                    radix as nat,
                )) is Some by {
                    if j < prefix@.len() {
                        assert(next@[j] == prefix@[j]);
                    }
                }
            }
            assert(digits.subrange(0, (i + 1 - start) as int) =~= next@);
        }
        let limit = (u64::MAX - d) / radix;
        if value > limit {
            proof {
                assert(value * radix + d > u64::MAX) by (nonlinear_arith)
                    requires
                        value > limit,
                        limit == (u64::MAX - d) as int / radix as int,
                        radix >= 10,
                        d < radix,
                ;
                if all_radix_digits(digits, radix as nat) {
                    lemma_digits_value_monotone(digits, radix as nat, (i + 1 - start) as int);
                }
            }
            return None;
        }
        proof {
            assert(value * radix + d <= u64::MAX) by (nonlinear_arith)
                requires
                    value <= limit,
                    limit == (u64::MAX - d) as int / radix as int,
                    radix >= 10,
                    d < radix,
            ;
        }
        value = value * radix + d;
        i = i + 1;
    }
    proof {
        assert(s@.subrange(start as int, n as int) =~= digits);
    }
    Some(value)
}

/// A longer run of digits never has a smaller value than its prefixes.
proof fn lemma_digits_value_monotone(s: Seq<char>, radix: nat, k: int)
    requires
        0 <= k <= s.len(),
        radix >= 1,
        all_radix_digits(s, radix),
    ensures
        digits_value(s.subrange(0, k), radix) <= digits_value(s, radix),
    decreases s.len() - k,
{
    if k < s.len() {
        lemma_digits_value_monotone(s, radix, k + 1);
        let a = s.subrange(0, k + 1);
        assert(a.drop_last() =~= s.subrange(0, k));
        let x = digits_value(s.subrange(0, k), radix);
        assert(x <= x * radix) by (nonlinear_arith)
            requires
                radix >= 1,
        ;
    } else {
        assert(s.subrange(0, k) =~= s);
    }
}

/// A digit character reads back as its value.
proof fn lemma_digit_char_value(d: nat, radix: nat)
    requires
        d < radix <= 16,
    ensures
        radix_digit_value(digit_char(d), radix) == Some(d),
        digit_char(d) != '+',
{
    let c = digit_char(d);
    assert(c == seq!['0', '1', '2', '3', '4', '5', '6', '7', '8', '9', 'a', 'b', 'c', 'd', 'e', 'f'][d as int]);
    if d == 0 { assert(c == '0'); }
    else if d == 1 { assert(c == '1'); }
    else if d == 2 { assert(c == '2'); }
    else if d == 3 { assert(c == '3'); }
    else if d == 4 { assert(c == '4'); }
    else if d == 5 { assert(c == '5'); }
    else if d == 6 { assert(c == '6'); }
    else if d == 7 { assert(c == '7'); }
    else if d == 8 { assert(c == '8'); }
    else if d == 9 { assert(c == '9'); }
    else if d == 10 { assert(c == 'a'); }
    else if d == 11 { assert(c == 'b'); }
    else if d == 12 { assert(c == 'c'); }
    else if d == 13 { assert(c == 'd'); }
    else if d == 14 { assert(c == 'e'); }
    else { assert(c == 'f'); }
}

/// The digits of `n` in base `radix` are digits of that base, and their
/// value is `n`.
proof fn lemma_radix_text_value(n: nat, radix: nat)
    requires
        2 <= radix <= 16,
    ensures
        radix_text(n, radix).len() > 0,
        all_radix_digits(radix_text(n, radix), radix),
        digits_value(radix_text(n, radix), radix) == n,
        radix_text(n, radix)[0] != '+',
    decreases n,
{
    let s = radix_text(n, radix);
    if n < radix {
        lemma_digit_char_value(n, radix);
        assert(s.drop_last() =~= Seq::<char>::empty());
        assert(s.last() == digit_char(n));
        assert(digits_value(s.drop_last(), radix) == 0);
        assert(digits_value(s, radix) == 0 * radix + n);
    } else {
        assert(n / radix < n) by (nonlinear_arith)
            requires
                n >= radix,
                radix >= 2,
        ;
        let q = n / radix;
        let m = n % radix;
        lemma_radix_text_value(q, radix);
        let t = radix_text(q, radix);
        assert(m < radix) by (nonlinear_arith)
            requires
                radix >= 2,
                m == n % radix,
        ;
        lemma_digit_char_value(m, radix);
        assert(s == t.push(digit_char(m)));
        assert(s.drop_last() =~= t);
        assert forall|i: int| 0 <= i < s.len() implies (#[trigger] radix_digit_value(s[i], radix))
            is Some by {
            if i < t.len() {
                assert(s[i] == t[i]);
            }
        }
        assert(n == q * radix + m) by (nonlinear_arith)
            requires
                radix >= 2,
                q == n / radix,
                m == n % radix,
        ;
        assert(s.last() == digit_char(m));
        assert(digits_value(s, radix) == digits_value(t, radix) * radix + m);
    }
}

/// Reading back a number written in base `radix` gives the number: the
/// text of an index parses back to the index.
pub proof fn law_number_text_roundtrip(n: nat, radix: nat)
    requires
        2 <= radix <= 16,
    ensures
        number_value(radix_text(n, radix), radix) == Some(n),
{
    lemma_radix_text_value(n, radix);
}

} // verus!
