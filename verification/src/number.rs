//! Task identities as text: the decimal form that a report row carries, and
//! the forms that a submitted row may spell an identity in.

use vstd::prelude::*;
use vstd::string::*;

verus! {

/// The character of a decimal digit.
pub open spec fn digit_char(digit: nat) -> char
    recommends
        digit < 10,
{
    (('0' as u32 + digit) as u32) as char
}

/// The decimal form of a number: no sign, no leading zero but for zero itself.
pub open spec fn decimal(n: nat) -> Seq<char>
    decreases n,
{
    if n < 10 {
        seq![digit_char(n)]
    } else {
        decimal(n / 10).push(digit_char(n % 10))
    }
}

/// The value of a digit: decimal digits always, the letters `a` to `f` in
/// either case when `hex` is set.
pub open spec fn digit_value(c: char, hex: bool) -> Option<nat> {
    if '0' <= c <= '9' {
        Some((c as u32 - '0' as u32) as nat)
    } else if hex && 'a' <= c <= 'f' {
        Some((c as u32 - 'a' as u32 + 10) as nat)
    } else if hex && 'A' <= c <= 'F' {
        Some((c as u32 - 'A' as u32 + 10) as nat)
    } else {
        None
    }
}

/// Every character is a digit of the base.
pub open spec fn all_digits(text: Seq<char>, hex: bool) -> bool {
    forall|i: int| 0 <= i < text.len() ==> digit_value(#[trigger] text[i], hex) is Some
}

/// The base: sixteen when `hex` is set, ten otherwise.
pub open spec fn base(hex: bool) -> nat {
    if hex {
        16
    } else {
        10
    }
}

/// The number that a run of digits spells, most significant digit first.
pub open spec fn digits_number(text: Seq<char>, hex: bool) -> nat
    decreases text.len(),
{
    if text.len() == 0 {
        0
    } else {
        digits_number(text.drop_last(), hex) * base(hex) + match digit_value(text.last(), hex) {
            Some(digit) => digit,
            None => 0,
        }
    }
}

/// An unsigned number in the given base: an optional `+`, then at least one
/// digit, the whole no larger than `u64::MAX`.
pub open spec fn parse_unsigned(text: Seq<char>, hex: bool) -> Option<u64> {
    let digits = if text.len() > 1 && text[0] == '+' {
        text.drop_first()
    } else {
        text
    };
    spelled(digits, hex)
}

/// The number that a run of digits spells, where it is one and fits.
pub open spec fn spelled(digits: Seq<char>, hex: bool) -> Option<u64> {
    if digits.len() > 0 && all_digits(digits, hex) && digits_number(digits, hex) <= u64::MAX {
        Some(digits_number(digits, hex) as u64)
    } else {
        None
    }
}

/// The identity that a field spells: hexadecimal after the prefix `0x`,
/// decimal otherwise.
pub open spec fn parse_id(text: Seq<char>) -> Option<u64> {
    if text.len() >= 2 && text[0] == '0' && text[1] == 'x' {
        parse_unsigned(text.skip(2), true)
    } else {
        parse_unsigned(text, false)
    }
}

/// The text of one decimal digit.
fn digit_text(digit: u64) -> (text: &'static str)
    requires
        digit < 10,
    ensures
        text@ == seq![digit_char(digit as nat)],
{
    proof {
        reveal_strlit("0");
        reveal_strlit("1");
        reveal_strlit("2");
        reveal_strlit("3");
        reveal_strlit("4");
        reveal_strlit("5");
        reveal_strlit("6");
        reveal_strlit("7");
        reveal_strlit("8");
        reveal_strlit("9");
    }
    let text = if digit == 0 {
        "0"
    } else if digit == 1 {
        "1"
    } else if digit == 2 {
        "2"
    } else if digit == 3 {
        "3"
    } else if digit == 4 {
        "4"
    } else if digit == 5 {
        "5"
    } else if digit == 6 {
        "6"
    } else if digit == 7 {
        "7"
    } else if digit == 8 {
        "8"
    } else {
        "9"
    };
    assert(text@ =~= seq![digit_char(digit as nat)]);
    text
}

/// Appends the decimal form of `n` to `text`.
pub fn push_decimal(text: &mut String, n: u64)
    ensures
        final(text)@ == old(text)@ + decimal(n as nat),
    decreases n,
{
    if n >= 10 {
        push_decimal(text, n / 10);
    }
    text.append(digit_text(n % 10));
    assert(text@ =~= old(text)@ + decimal(n as nat));
}

/// The decimal form of `n`.
pub fn decimal_string(n: u64) -> (text: String)
    ensures
        text@ == decimal(n as nat),
{
    let mut text = String::new();
    push_decimal(&mut text, n);
    assert(text@ =~= decimal(n as nat));
    text
}

/// The decimal form of a number is a run of decimal digits that spells the
/// number.
pub proof fn lemma_decimal_spells(n: nat)
    ensures
        decimal(n).len() >= 1,
        all_digits(decimal(n), false),
        digits_number(decimal(n), false) == n,
    decreases n,
{
    let text = decimal(n);
    if n < 10 {
        assert(digit_value(digit_char(n), false) == Some(n));
        assert(text.drop_last() =~= Seq::<char>::empty());
        assert(digits_number(text.drop_last(), false) == 0);
    } else {
        lemma_decimal_spells(n / 10);
        let digit = digit_char(n % 10);
        assert(digit_value(digit, false) == Some(n % 10));
        assert(text.drop_last() =~= decimal(n / 10));
        assert(text.last() == digit);
        assert forall|i: int| 0 <= i < text.len() implies digit_value(
            #[trigger] text[i],
            false,
        ) is Some by {
            if i < text.len() - 1 {
                assert(text[i] == decimal(n / 10)[i]);
            }
        }
    }
}

/// The identity that a report row carries reads back as itself.
pub proof fn lemma_decimal_reads_back(n: u64)
    ensures
        parse_id(decimal(n as nat)) == Some(n),
{
    let text = decimal(n as nat);
    lemma_decimal_spells(n as nat);
    assert(digit_value(text[0], false) is Some);
    if text.len() >= 2 {
        assert(digit_value(text[1], false) is Some);
    }
}

/// A run of digits spells at least what any of its beginnings spells.
proof fn lemma_prefix_spells_less(text: Seq<char>, hex: bool, len: int)
    requires
        0 <= len <= text.len(),
    ensures
        digits_number(text.take(len), hex) <= digits_number(text, hex),
    decreases text.len(),
{
    if len == text.len() {
        assert(text.take(len) =~= text);
    } else {
        lemma_prefix_spells_less(text.drop_last(), hex, len);
        assert(text.drop_last().take(len) =~= text.take(len));
        let shorter = digits_number(text.drop_last(), hex);
        assert(shorter <= shorter * base(hex)) by (nonlinear_arith)
            requires
                base(hex) >= 1,
        ;
    }
}

/// The value of the digit that an ASCII byte stands for.
fn byte_digit(byte: u8, hex: bool, Ghost(c): Ghost<char>) -> (digit: Option<u64>)
    requires
        byte as int == c as int,
    ensures
        digit is Some <==> digit_value(c, hex) is Some,
        digit matches Some(d) ==> d == digit_value(c, hex)->0 && d < base(hex),
{
    if 48 <= byte && byte <= 57 {
        let d: u64 = (byte - 48) as u64;
        Some(d)
    } else if hex && 97 <= byte && byte <= 102 {
        let d: u64 = (byte - 97 + 10) as u64;
        Some(d)
    } else if hex && 65 <= byte && byte <= 70 {
        let d: u64 = (byte - 65 + 10) as u64;
        Some(d)
    } else {
        None
    }
}

/// Reads an unsigned number from the bytes of an ASCII text, from `start` on.
fn parse_digits(bytes: &[u8], start: usize, hex: bool, Ghost(text): Ghost<Seq<char>>) -> (value:
    Option<u64>)
    requires
        start <= bytes@.len(),
        text.len() == bytes@.len(),
        forall|i: int| 0 <= i < text.len() ==> bytes@[i] as int == (#[trigger] text[i]) as int,
    ensures
        value == parse_unsigned(text.skip(start as int), hex),
{
    let end = bytes.len();
    let ghost field = text.skip(start as int);
    let mut i: usize = start;
    if end - start > 1 && bytes[start] == 43 {
        i = start + 1;
    }
    let first = i;
    let ghost digits = text.skip(first as int);
    proof {
        if end > start {
            assert(field[0] == text[start as int]);
            assert(bytes@[start as int] as int == text[start as int] as int);
        }
        if first > start {
            assert(digits =~= field.drop_first());
        } else {
            assert(digits =~= field);
        }
        assert(parse_unsigned(field, hex) == spelled(digits, hex));
    }
    if i == end {
        return None;
    }
    let radix: u64 = if hex {
        16
    } else {
        10
    };
    let mut number: u64 = 0;
    while i < end
        invariant
            first <= i <= end,
            end == bytes@.len(),
            text.len() == bytes@.len(),
            digits == text.skip(first as int),
            radix == base(hex),
            forall|k: int| 0 <= k < text.len() ==> bytes@[k] as int == (#[trigger] text[k]) as int,
            parse_unsigned(text.skip(start as int), hex) == spelled(digits, hex),
            all_digits(digits.take(i - first), hex),
            number == digits_number(digits.take(i - first), hex),
        decreases end - i,
    {
        let ghost c = text[i as int];
        let ghost seen = digits.take(i - first);
        let ghost more = digits.take(i - first + 1);
        proof {
            assert(digits[i - first] == c);
            assert(more.drop_last() =~= seen);
            assert(more.last() == c);
        }
        let digit = match byte_digit(bytes[i], hex, Ghost(c)) {
            Some(digit) => digit,
            None => {
                return None;
            },
        };
        if number > (u64::MAX - digit) / radix {
            proof {
                assert(number * radix + digit > u64::MAX) by (nonlinear_arith)
                    requires
                        number > (u64::MAX - digit) / (radix as int),
                        radix > 0,
                ;
                lemma_prefix_spells_less(digits, hex, i - first + 1);
            }
            return None;
        }
        proof {
            assert(number * radix + digit <= u64::MAX) by (nonlinear_arith)
                requires
                    number <= (u64::MAX - digit) / (radix as int),
                    radix > 0,
                    digit <= u64::MAX,
            ;
            assert forall|k: int| 0 <= k < more.len() implies digit_value(
                #[trigger] more[k],
                hex,
            ) is Some by {
                if k < seen.len() {
                    assert(more[k] == seen[k]);
                }
            }
        }
        number = number * radix + digit;
        i += 1;
    }
    proof {
        assert(digits.take(i - first) =~= digits);
    }
    Some(number)
}

/// Reads an identity from a field, or nothing where the field spells none.
pub fn parse_task_id(text: &str) -> (id: Option<u64>)
    ensures
        id == parse_id(text@),
{
    if !text.is_ascii() {
        proof {
            lemma_digits_are_ascii(text@);
        }
        return None;
    }
    let bytes = text.as_bytes();
    proof {
        vstd::utf8::is_ascii_chars_encode_utf8(text@);
        assert forall|i: int| 0 <= i < text@.len() implies bytes@[i] as int == (#[trigger] text@[i]) as int by {
            assert(bytes@[i] == text@[i] as u8);
        }
        if text@.len() >= 2 {
            assert(bytes@[0] as int == text@[0] as int);
            assert(bytes@[1] as int == text@[1] as int);
        }
        assert(text@.skip(0) =~= text@);
    }
    if bytes.len() >= 2 && bytes[0] == 48 && bytes[1] == 120 {
        parse_digits(bytes, 2, true, Ghost(text@))
    } else {
        parse_digits(bytes, 0, false, Ghost(text@))
    }
}

/// A field that spells an identity holds ASCII characters only.
proof fn lemma_digits_are_ascii(text: Seq<char>)
    requires
        !vstd::utf8::is_ascii_chars(text),
    ensures
        parse_id(text) is None,
{
    let i = choose|i: int| 0 <= i < text.len() && !('\0' <= #[trigger] text[i] <= '\u{7f}');
    let c = text[i];
    assert(digit_value(c, true) is None);
    assert(digit_value(c, false) is None);
    if text.len() >= 2 && text[0] == '0' && text[1] == 'x' {
        let field = text.skip(2);
        assert(field[i - 2] == c);
        if field.len() > 1 && field[0] == '+' {
            assert(field.drop_first()[i - 3] == c);
        }
    } else {
        if text.len() > 1 && text[0] == '+' {
            assert(text.drop_first()[i - 1] == c);
        }
    }
}

} // verus!
