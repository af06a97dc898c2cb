//! Decimal and hexadecimal rendering of numbers inside messages.
use vstd::prelude::*;

verus! {

/// The lowercase hexadecimal digit for `d` (which is below 16).
pub open spec fn digit_char(d: nat) -> char {
    if d == 0 { '0' } else if d == 1 { '1' } else if d == 2 { '2' } else if d == 3 { '3' }
    else if d == 4 { '4' } else if d == 5 { '5' } else if d == 6 { '6' } else if d == 7 { '7' }
    else if d == 8 { '8' } else if d == 9 { '9' } else if d == 10 { 'a' } else if d == 11 { 'b' }
    else if d == 12 { 'c' } else if d == 13 { 'd' } else if d == 14 { 'e' } else { 'f' }
}

/// The decimal rendering of `n`, without leading zeros.
pub open spec fn decimal(n: nat) -> Seq<char>
    decreases n,
{
    if n < 10 {
        seq![digit_char(n)]
    } else {
        decimal(n / 10) + seq![digit_char(n % 10)]
    }
}

/// The four-digit lowercase hexadecimal rendering of `v`.
pub open spec fn hex4(v: u16) -> Seq<char> {
    seq![
        digit_char((v / 4096) as nat),
        digit_char(((v / 256) % 16) as nat),
        digit_char(((v / 16) % 16) as nat),
        digit_char((v % 16) as nat),
    ]
}

fn append_digit(s: &mut String, d: u64)
    requires
        d < 16,
    ensures
        final(s)@ == old(s)@ + seq![digit_char(d as nat)],
{
    let lit: &str = if d == 0 { "0" } else if d == 1 { "1" } else if d == 2 { "2" } else if d == 3 { "3" }
        else if d == 4 { "4" } else if d == 5 { "5" } else if d == 6 { "6" } else if d == 7 { "7" }
        else if d == 8 { "8" } else if d == 9 { "9" } else if d == 10 { "a" } else if d == 11 { "b" }
        else if d == 12 { "c" } else if d == 13 { "d" } else if d == 14 { "e" } else { "f" };
    proof {
        reveal_strlit("0"); reveal_strlit("1"); reveal_strlit("2"); reveal_strlit("3");
        reveal_strlit("4"); reveal_strlit("5"); reveal_strlit("6"); reveal_strlit("7");
        reveal_strlit("8"); reveal_strlit("9"); reveal_strlit("a"); reveal_strlit("b");
        reveal_strlit("c"); reveal_strlit("d"); reveal_strlit("e"); reveal_strlit("f");
    }
    s.append(lit);
    assert(lit@ =~= seq![digit_char(d as nat)]);
}

/// Appends the decimal rendering of `n` to `s`.
pub fn append_decimal(s: &mut String, n: u64)
    ensures
        final(s)@ == old(s)@ + decimal(n as nat),
    decreases n,
{
    if n >= 10 {
        append_decimal(s, n / 10);
    }
    append_digit(s, n % 10);
    assert(final(s)@ =~= old(s)@ + decimal(n as nat)) by {
        if n >= 10 {
            assert(decimal(n as nat) == decimal((n / 10) as nat) + seq![digit_char((n % 10) as nat)]);
        }
    };
}

/// Appends the four-digit lowercase hexadecimal rendering of `v` to `s`.
pub fn append_hex4(s: &mut String, v: u16)
    ensures
        final(s)@ == old(s)@ + hex4(v),
{
    append_digit(s, (v / 4096) as u64);
    append_digit(s, ((v / 256) % 16) as u64);
    append_digit(s, ((v / 16) % 16) as u64);
    append_digit(s, (v % 16) as u64);
    assert(final(s)@ =~= old(s)@ + hex4(v));
}

/// `a`, then the decimal rendering of `n`, then `b`.
pub fn with_decimal(a: &str, n: u64, b: &str) -> (s: String)
    ensures
        s@ == a@ + decimal(n as nat) + b@,
{
    let mut s = String::from_str(a);
    append_decimal(&mut s, n);
    s.append(b);
    s
}

/// `a`, then `0x` and the four-digit hexadecimal rendering of `v`, then `b`.
pub fn with_hex4(a: &str, v: u16, b: &str) -> (s: String)
    ensures
        s@ == a@ + "0x"@ + hex4(v) + b@,
{
    let mut s = String::from_str(a);
    s.append("0x");
    append_hex4(&mut s, v);
    s.append(b);
    s
}

} // verus!
