//! Numbers as text: decimal both ways, and the hexadecimal that message ids
//! and lock tokens are made of.

use crate::text;
use vstd::arithmetic::div_mod::*;
use vstd::prelude::*;
use vstd::string::*;

verus! {

/// The digit that stands for `d` below sixteen.
pub open spec fn digit(d: int) -> char
    recommends
        0 <= d < 16,
{
    if d < 10 {
        (48 + d) as char
    } else {
        (87 + d) as char
    }
}

/// `n` in `base`, most significant digit first and without leading zeros.
pub open spec fn digits(n: nat, base: nat) -> Seq<char>
    decreases n,
    when base >= 2
{
    if n < base {
        seq![digit(n as int)]
    } else {
        proof {
            lemma_div_decreases(n as int, base as int);
        }
        digits(n / base, base).push(digit((n % base) as int))
    }
}

/// `n` in decimal.
pub open spec fn decimal_spec(n: nat) -> Seq<char> {
    digits(n, 10)
}

/// `n` in small hexadecimal, filled with zeros to eight digits.
pub open spec fn hex_spec(n: nat) -> Seq<char> {
    let made = digits(n, 16);
    if made.len() < 8 {
        Seq::new((8 - made.len()) as nat, |i: int| '0') + made
    } else {
        made
    }
}

/// The digit that stands for `d`.
fn digit_of(d: u64) -> (c: char)
    requires
        d < 16,
    ensures
        c == digit(d as int),
{
    let d: u8 = d as u8;
    if d < 10 {
        (48 + d) as char
    } else {
        (87 + d) as char
    }
}

/// `n` in `base`.
fn in_base(n: u64, base: u64) -> (made: Vec<char>)
    requires
        2 <= base <= 16,
    ensures
        made@ == digits(n as nat, base as nat),
    decreases n,
{
    if n < base {
        let mut made: Vec<char> = Vec::new();
        made.push(digit_of(n));
        made
    } else {
        proof {
            lemma_div_decreases(n as int, base as int);
        }
        let mut made = in_base(n / base, base);
        made.push(digit_of(n % base));
        made
    }
}

/// `n` in decimal.
pub fn decimal(n: u64) -> (made: String)
    ensures
        made@ == decimal_spec(n as nat),
{
    text::text_of(&in_base(n, 10))
}

/// `n` in small hexadecimal, filled with zeros to eight digits.
pub fn hex(n: u64) -> (made: String)
    ensures
        made@ == hex_spec(n as nat),
{
    let mut made = String::new();
    let tail = in_base(n, 16);
    let mut filled: usize = 0;
    while filled < 8 && tail.len() < 8 - filled
        invariant
            filled <= 8,
            filled == 0 || filled + tail.len() <= 8,
            made@ == Seq::new(filled as nat, |i: int| '0'),
        decreases 8 - filled,
    {
        made.push('0');
        filled += 1;
    }
    made.append(text::text_of(&tail).as_str());
    made
}

/// The number that a digit stands for.
pub open spec fn value_of(c: char) -> int {
    if c as int <= '9' as int {
        c as int - 48
    } else {
        c as int - 87
    }
}

/// Whether every character is a decimal digit.
pub open spec fn all_digits(text: Seq<char>) -> bool {
    forall|i: int| 0 <= i < text.len() ==> '0' <= #[trigger] text[i] <= '9'
}

/// The number that digits in `base` stand for.
pub open spec fn number(text: Seq<char>, base: nat) -> int
    decreases text.len(),
{
    if text.len() == 0 {
        0
    } else {
        number(text.drop_last(), base) * base + value_of(text.last())
    }
}

/// The number below 256 that a text stands for: decimal digits, at least
/// one, after an optional plus sign.
pub open spec fn parse_u8_spec(text: Seq<char>) -> Option<u8> {
    let tail = if text.len() > 0 && text[0] == '+' {
        text.skip(1)
    } else {
        text
    };
    if tail.len() > 0 && all_digits(tail) && number(tail, 10) <= u8::MAX {
        Some(number(tail, 10) as u8)
    } else {
        None
    }
}

/// More digits do not make a smaller number.
pub proof fn lemma_number_grows(text: Seq<char>, keep: int)
    requires
        all_digits(text),
        0 <= keep <= text.len(),
    ensures
        0 <= number(text.take(keep), 10) <= number(text, 10),
    decreases text.len(),
{
    if keep == text.len() {
        assert(text.take(keep) == text);
        if text.len() > 0 {
            lemma_number_grows(text.drop_last(), text.len() - 1);
            assert(text.drop_last().take(text.len() - 1) == text.drop_last());
        }
    } else {
        lemma_number_grows(text.drop_last(), keep);
        assert(text.drop_last().take(keep) == text.take(keep));
    }
}

/// The number below 256 that `text` stands for.
pub fn parse_u8(text: &str) -> (parsed: Option<u8>)
    ensures
        parsed == parse_u8_spec(text@),
{
    let chars = text::chars_of(text);
    let start: usize = if chars.len() > 0 && chars[0] == '+' {
        1
    } else {
        0
    };
    let ghost tail = text@.skip(start as int);
    assert(start == 0 ==> tail == text@);
    if start == chars.len() {
        return None;
    }
    let mut sum: u32 = 0;
    for i in start..chars.len()
        invariant
            chars@ == text@,
            tail == text@.skip(start as int),
            start <= chars.len(),
            parse_u8_spec(text@) == (if tail.len() > 0 && all_digits(tail) && number(tail, 10)
                <= u8::MAX {
                Some(number(tail, 10) as u8)
            } else {
                None
            }),
            sum <= u8::MAX,
            sum == number(tail.take(i - start), 10),
            all_digits(tail.take(i - start)),
    {
        let c = chars[i];
        assert(tail[i - start] == c);
        if c < '0' || '9' < c {
            return None;
        }
        let ghost upto = tail.take(i + 1 - start);
        assert(upto.drop_last() == tail.take(i - start));
        assert(all_digits(upto)) by {
            assert forall|j: int| 0 <= j < upto.len() implies '0' <= #[trigger] upto[j] <= '9' by {
                if j < i - start {
                    assert(tail.take(i - start)[j] == upto[j]);
                }
            }
        }
        sum = sum * 10 + (c as u32 - 48);
        if sum > 255 {
            proof {
                if all_digits(tail) {
                    lemma_number_grows(tail, i + 1 - start);
                }
            }
            return None;
        }
    }
    assert(tail.take(chars.len() - start) == tail);
    Some(sum as u8)
}

/// The digits of a number stand for it.
pub proof fn lemma_digits_stand_for(n: nat, base: nat)
    requires
        2 <= base <= 16,
    ensures
        number(digits(n, base), base) == n,
        digits(n, base).len() > 0,
        forall|i: int|
            0 <= i < digits(n, base).len() ==> exists|d: int|
                0 <= d < base && #[trigger] digits(n, base)[i] == digit(d),
    decreases n,
{
    let made = digits(n, base);
    if n < base {
        assert(made.drop_last() =~= Seq::<char>::empty());
        assert(number(made.drop_last(), base) == 0);
        assert(0 * base == 0) by (nonlinear_arith);
        assert(made[0] == digit(n as int));
    } else {
        lemma_div_decreases(n as int, base as int);
        lemma_digits_stand_for(n / base, base);
        lemma_fundamental_div_mod(n as int, base as int);
        assert(made.drop_last() =~= digits(n / base, base));
        assert((n / base) * base == base * (n / base)) by (nonlinear_arith);
        assert(0 <= n % base < base) by {
            lemma_mod_bound(n as int, base as int);
        }
        assert forall|i: int| 0 <= i < made.len() implies exists|d: int|
            0 <= d < base && #[trigger] made[i] == digit(d) by {
            if i < made.len() - 1 {
                assert(digits(n / base, base)[i] == made[i]);
            } else {
                assert(made[i] == digit((n % base) as int));
            }
        }
    }
}

/// Leading zeros change no number.
proof fn lemma_zeros_add_nothing(zeros: nat, text: Seq<char>, base: nat)
    ensures
        number(Seq::new(zeros, |i: int| '0') + text, base) == number(text, base),
    decreases zeros + text.len(),
{
    let filled = Seq::new(zeros, |i: int| '0') + text;
    if text.len() > 0 {
        assert(filled.drop_last() =~= Seq::new(zeros, |i: int| '0') + text.drop_last());
        lemma_zeros_add_nothing(zeros, text.drop_last(), base);
    } else if zeros > 0 {
        assert(filled.drop_last() =~= Seq::new((zeros - 1) as nat, |i: int| '0') + text);
        lemma_zeros_add_nothing((zeros - 1) as nat, text, base);
        assert(0 * base == 0) by (nonlinear_arith);
    } else {
        assert(filled =~= text);
    }
}

/// Two numbers with the same hexadecimal are the same number.
pub proof fn lemma_hex_is_injective(left: nat, right: nat)
    requires
        hex_spec(left) == hex_spec(right),
    ensures
        left == right,
{
    lemma_digits_stand_for(left, 16);
    lemma_digits_stand_for(right, 16);
    lemma_zeros_add_nothing((8 - digits(left, 16).len()) as nat, digits(left, 16), 16);
    lemma_zeros_add_nothing((8 - digits(right, 16).len()) as nat, digits(right, 16), 16);
}

/// Hexadecimal is digits and the letters from `a` to `f`, at least eight.
pub proof fn lemma_hex_holds_digits(n: nat)
    ensures
        hex_spec(n).len() >= 8,
        forall|i: int|
            0 <= i < hex_spec(n).len() ==> ('0' <= #[trigger] hex_spec(n)[i] <= '9' || 'a'
                <= hex_spec(n)[i] <= 'f'),
{
    lemma_digits_stand_for(n, 16);
    let made = digits(n, 16);
    assert forall|i: int| 0 <= i < hex_spec(n).len() implies ('0' <= #[trigger] hex_spec(n)[i]
        <= '9' || 'a' <= hex_spec(n)[i] <= 'f') by {
        let gap = hex_spec(n).len() - made.len();
        if i >= gap {
            assert(hex_spec(n)[i] == made[i - gap]);
        }
    }
}

/// Decimal is decimal digits, and reading it gives the number back.
pub proof fn lemma_decimal_reads_back(n: nat)
    ensures
        decimal_spec(n).len() > 0,
        all_digits(decimal_spec(n)),
        number(decimal_spec(n), 10) == n,
        n <= u8::MAX ==> parse_u8_spec(decimal_spec(n)) == Some(n as u8),
{
    lemma_digits_stand_for(n, 10);
    let made = decimal_spec(n);
    assert forall|i: int| 0 <= i < made.len() implies '0' <= #[trigger] made[i] <= '9' by {
        let d = choose|d: int| 0 <= d < 10 && made[i] == digit(d);
        assert(made[i] == digit(d));
    }
    assert(made[0] != '+');
}

} // verus!
