//! Decimal numbers in text.

use crate::text::{is_digit, to_chars};
use vstd::prelude::*;

verus! {

/// The digit for a number below ten.
pub open spec fn digit_char(d: nat) -> char {
    (48 + d) as char
}

/// A number in decimal notation.
pub open spec fn decimal(n: nat) -> Seq<char>
    decreases n,
{
    if n < 10 {
        seq![digit_char(n)]
    } else {
        decimal(n / 10).push(digit_char(n % 10))
    }
}

/// The digit for a number below ten.
fn digit(d: u8) -> (res: char)
    requires
        d < 10,
    ensures
        res == digit_char(d as nat),
{
    (48 + d) as char
}

/// Writes a number in decimal notation.
pub fn dec(n: u64) -> (res: String)
    ensures
        res@ == decimal(n as nat),
    decreases n,
{
    let d = (n % 10) as u8;
    if n < 10 {
        let mut out = String::new();
        out.push(digit(d));
        assert(out@ =~= seq![digit_char(n as nat)]);
        out
    } else {
        let mut out = dec(n / 10);
        out.push(digit(d));
        out
    }
}

/// Writes a length in decimal notation.
pub fn dec_len(n: usize) -> (res: String)
    ensures
        res@ == decimal(n as nat),
{
    dec(n as u64)
}

/// A possibly negative number in decimal notation.
pub open spec fn signed_decimal(n: int) -> Seq<char> {
    if n < 0 {
        "-"@ + decimal((-n) as nat)
    } else {
        decimal(n as nat)
    }
}

/// Writes a possibly negative number in decimal notation.
pub fn dec_signed(n: i64) -> (res: String)
    ensures
        res@ == signed_decimal(n as int),
{
    if n < 0 {
        let mut out = String::from_str("-");
        let m: u64 = if n == i64::MIN { 9223372036854775808 } else { (-n) as u64 };
        out.append(dec(m).as_str());
        out
    } else {
        dec(n as u64)
    }
}

/// The number that a run of digits stands for.
pub open spec fn digits_value(s: Seq<char>) -> nat
    decreases s.len(),
{
    if s.len() == 0 {
        0
    } else {
        digits_value(s.drop_last()) * 10 + (s.last() as int - 48) as nat
    }
}

/// Whether a text is a non-empty run of digits.
pub open spec fn all_digits(s: Seq<char>) -> bool {
    s.len() > 0 && forall|i: int| 0 <= i < s.len() ==> is_digit(#[trigger] s[i])
}

/// The number written in a text: digits, possibly with one `+` before them.
pub open spec fn number_in(s: Seq<char>) -> Option<nat> {
    let d = if s.len() > 0 && s[0] == '+' {
        s.skip(1)
    } else {
        s
    };
    if all_digits(d) {
        Some(digits_value(d))
    } else {
        None
    }
}

/// The number written in a text, where it is at most `max`.
pub open spec fn number_up_to(s: Seq<char>, max: nat) -> Option<nat> {
    match number_in(s) {
        Some(n) => if n <= max {
            Some(n)
        } else {
            None
        },
        None => None,
    }
}

proof fn lemma_digits_value_grows(s: Seq<char>, i: int)
    requires
        0 <= i <= s.len(),
        forall|j: int| 0 <= j < s.len() ==> is_digit(#[trigger] s[j]),
    ensures
        digits_value(s.take(i)) <= digits_value(s),
    decreases s.len() - i,
{
    if i == s.len() {
        assert(s.take(i) =~= s);
    } else {
        lemma_digits_value_grows(s, i + 1);
        assert(s.take(i + 1).drop_last() =~= s.take(i));
    }
}

/// Reads a number that is at most `max`.
#[verifier::loop_isolation(false)]
pub fn parse_up_to(s: &str, max: u64) -> (res: Option<u64>)
    ensures
        match res {
            Some(n) => number_up_to(s@, max as nat) == Some(n as nat),
            None => number_up_to(s@, max as nat) is None,
        },
{
    let v = to_chars(s);
    let start: usize = if v.len() > 0 && v[0] == '+' { 1 } else { 0 };
    let ghost d = if start == 1 { s@.skip(1) } else { s@ };
    assert(d =~= v@.skip(start as int));
    if start == v.len() {
        return None;
    }
    let mut i: usize = start;
    while i < v.len()
        invariant
            start <= i <= v.len(),
            d == v@.skip(start as int),
            forall|j: int| 0 <= j < i - start ==> is_digit(#[trigger] d[j]),
        decreases v.len() - i,
    {
        if !('0' <= v[i] && v[i] <= '9') {
            assert(!is_digit(d[i - start]));
            return None;
        }
        i += 1;
    }
    assert(all_digits(d));
    let mut n: u64 = 0;
    let mut k: usize = start;
    while k < v.len()
        invariant
            start <= k <= v.len(),
            d == v@.skip(start as int),
            d.len() == v.len() - start,
            all_digits(d),
            n == digits_value(d.take(k - start)),
            n <= max,
        decreases v.len() - k,
    {
        assert(is_digit(d[k - start]));
        let x: u64 = (v[k] as u32 as u64) - 48;
        proof {
            assert(d.take(k - start + 1).drop_last() =~= d.take(k - start));
            assert(d.take(k - start + 1).last() == v@[k as int]);
            lemma_digits_value_grows(d, k - start + 1);
        }
        if x > max || n > (max - x) / 10 {
            return None;
        }
        n = n * 10 + x;
        k += 1;
    }
    assert(d.take(v.len() - start) =~= d);
    Some(n)
}

/// Reads an unsigned number of up to 64 bits.
pub fn parse_u64(s: &str) -> (res: Option<u64>)
    ensures
        match res {
            Some(n) => number_up_to(s@, u64::MAX as nat) == Some(n as nat),
            None => number_up_to(s@, u64::MAX as nat) is None,
        },
{
    parse_up_to(s, u64::MAX)
}

/// Reads an unsigned number of up to 8 bits.
pub fn parse_u8(s: &str) -> (res: Option<u8>)
    ensures
        match res {
            Some(n) => number_up_to(s@, 255) == Some(n as nat),
            None => number_up_to(s@, 255) is None,
        },
{
    match parse_up_to(s, 255) {
        Some(n) => Some(n as u8),
        None => None,
    }
}

/// Reads an unsigned number of the machine's word size.
pub fn parse_usize(s: &str) -> (res: Option<usize>)
    ensures
        match res {
            Some(n) => number_up_to(s@, usize::MAX as nat) == Some(n as nat),
            None => number_up_to(s@, usize::MAX as nat) is None,
        },
{
    match parse_up_to(s, usize::MAX as u64) {
        Some(n) => Some(n as usize),
        None => None,
    }
}

/// What is written of a number in decimal notation reads as that number.
pub proof fn theorem_decimal_reads_back(n: nat)
    ensures
        all_digits(decimal(n)),
        digits_value(decimal(n)) == n,
        number_in(decimal(n)) == Some(n),
    decreases n,
{
    let s = decimal(n);
    if n < 10 {
        reveal_with_fuel(digits_value, 2);
        assert(s.drop_last() =~= Seq::empty());
        assert(s[0] != '+');
    } else {
        theorem_decimal_reads_back(n / 10);
        assert(s.drop_last() =~= decimal(n / 10));
        assert(s[0] == decimal(n / 10)[0]);
        assert(is_digit(s[0]));
    }
}

/// The hexadecimal digit for a number below sixteen.
pub open spec fn hex_char(d: nat) -> char {
    if d < 10 {
        (48 + d) as char
    } else {
        (87 + d) as char
    }
}

/// A number in hexadecimal notation, with small letters.
pub open spec fn hexadecimal(n: nat) -> Seq<char>
    decreases n,
{
    if n < 16 {
        seq![hex_char(n)]
    } else {
        hexadecimal(n / 16).push(hex_char(n % 16))
    }
}

/// Writes a number in hexadecimal notation.
pub fn hex(n: u128) -> (res: String)
    ensures
        res@ == hexadecimal(n as nat),
    decreases n,
{
    let d = (n % 16) as u8;
    let c: char = if d < 10 { (48 + d) as char } else { (87 + d) as char };
    if n < 16 {
        let mut out = String::new();
        out.push(c);
        assert(out@ =~= seq![hex_char(n as nat)]);
        out
    } else {
        let mut out = hex(n / 16);
        out.push(c);
        out
    }
}

/// Different numbers are written differently in hexadecimal notation, and no
/// number with a dot.
pub proof fn theorem_hexadecimal_is_injective(a: nat, b: nat)
    ensures
        hexadecimal(a) == hexadecimal(b) ==> a == b,
        !hexadecimal(a).contains('.'),
    decreases a,
{
    let s = hexadecimal(a);
    let t = hexadecimal(b);
    if a >= 16 {
        theorem_hexadecimal_is_injective(a / 16, b / 16);
        assert(s.drop_last() =~= hexadecimal(a / 16));
        assert(s.last() == hex_char(a % 16));
        if s.contains('.') {
            let i = choose|i: int| 0 <= i < s.len() && s[i] == '.';
            if i < s.len() - 1 {
                assert(s.drop_last()[i] == '.');
                assert(hexadecimal(a / 16).contains('.'));
            }
        }
        lemma_hexadecimal_nonempty(a / 16);
    }
    if b >= 16 {
        assert(t.drop_last() =~= hexadecimal(b / 16));
        assert(t.last() == hex_char(b % 16));
        lemma_hexadecimal_nonempty(b / 16);
    }
    if s == t && a >= 16 && b >= 16 {
        assert(hex_char(a % 16) == hex_char(b % 16));
        assert(a % 16 == b % 16);
    }
    if s == t && a < 16 && b < 16 {
        assert(s[0] == t[0]);
    }
}

proof fn lemma_hexadecimal_nonempty(a: nat)
    ensures
        hexadecimal(a).len() > 0,
{
}

/// A text of digits reads as their number, with a plus sign before it or without, and no
/// other text reads as one. A number beyond what is asked for is none.
pub proof fn theorem_only_digits_are_a_number(s: Seq<char>, max: nat)
    ensures
        number_in(s) is Some ==> s.len() > 0 && forall|i: int|
            1 <= i < s.len() ==> '0' <= (#[trigger] s[i]) && s[i] <= '9',
        number_in(s) is Some && s[0] != '+' ==> '0' <= s[0] && s[0] <= '9',
        forall|n: nat| n <= max ==> number_up_to(#[trigger] decimal(n), max) == Some(n),
        forall|n: nat| n > max ==> number_up_to(#[trigger] decimal(n), max) is None,
        number_up_to(s, max) matches Some(n) ==> n <= max && number_in(s) == Some(n),
{
    if number_in(s) is Some && s[0] == '+' {
        let d = s.skip(1);
        assert forall|i: int| 1 <= i < s.len() implies '0' <= (#[trigger] s[i]) && s[i] <= '9' by {
            assert(is_digit(d[i - 1]));
        }
    } else if number_in(s) is Some {
        assert(is_digit(s[0]));
        assert forall|i: int| 1 <= i < s.len() implies '0' <= (#[trigger] s[i]) && s[i] <= '9' by {
            assert(is_digit(s[i]));
        }
    }
    assert forall|n: nat| n <= max implies number_up_to(#[trigger] decimal(n), max) == Some(n) by {
        theorem_decimal_reads_back(n);
    }
    assert forall|n: nat| n > max implies number_up_to(#[trigger] decimal(n), max) is None by {
        theorem_decimal_reads_back(n);
    }
}

/// Digits count by their place: one more digit makes ten times the number and the digit.
pub proof fn theorem_digits_count_by_place(n: nat, d: nat)
    requires
        n > 0,
        d < 10,
    ensures
        decimal(n * 10 + d) == decimal(n) + decimal(d),
        decimal(d).len() == 1,
        decimal(d)[0] as int == '0' as int + d,
{
    assert((n * 10 + d) / 10 == n && (n * 10 + d) % 10 == d) by (nonlinear_arith)
        requires
            d < 10,
    ;
    assert(decimal(n * 10 + d) =~= decimal(n) + decimal(d));
}

} // verus!
