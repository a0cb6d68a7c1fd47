//! Error message text: decimal numbers and messages built from pieces.
use vstd::prelude::*;

verus! {

/// The character of decimal digit `d` (0 to 9).
pub open spec fn spec_digit(d: nat) -> char {
    (48 + d) as char
}

/// The decimal digits of `n`, most significant first, without leading
/// zeros (`"0"` for zero).
pub open spec fn spec_decimal(n: nat) -> Seq<char>
    decreases n,
{
    if n < 10 {
        seq![spec_digit(n)]
    } else {
        spec_decimal(n / 10).push(spec_digit(n % 10))
    }
}

/// The text of decimal digit `d`.
fn digit_text(d: u64) -> (r: String)
    requires
        d < 10,
    ensures
        r@ == seq![spec_digit(d as nat)],
{
    proof {
        reveal_strlit("0");
        reveal_strlit("1");
        reveal_strlit("2");
        reveal_strlit("3");
        reveal_strlit("4");
        reveal_strlit("5");
        reveal_strlit("6");
        reveal_strlit("7");
        reveal_strlit("8");
        reveal_strlit("9");
    }
    let r = match d {
        0 => String::from_str("0"),
        1 => String::from_str("1"),
        2 => String::from_str("2"),
        3 => String::from_str("3"),
        4 => String::from_str("4"),
        5 => String::from_str("5"),
        6 => String::from_str("6"),
        7 => String::from_str("7"),
        8 => String::from_str("8"),
        _ => String::from_str("9"),
    };
    assert(r@ =~= seq![spec_digit(d as nat)]);
    r
}

/// `n` written in decimal.
pub fn decimal(n: u64) -> (r: String)
    ensures
        r@ == spec_decimal(n as nat),
{
    let mut m: u64 = n / 10;
    let mut acc = digit_text(n % 10);
    proof {
        if n >= 10 {
            assert(spec_decimal(n as nat) == spec_decimal(m as nat).push(spec_digit((n % 10) as nat)));
            assert(spec_decimal(n as nat) =~= spec_decimal(m as nat) + acc@);
        } else {
            assert(spec_decimal(n as nat) =~= Seq::<char>::empty() + acc@);
        }
    }
    while m > 0
        invariant
            spec_decimal(n as nat) == (if m == 0 {
                Seq::<char>::empty()
            } else {
                spec_decimal(m as nat)
            }) + acc@,
        decreases m,
    {
        let d = digit_text(m % 10);
        let ghost old_acc = acc@;
        let ghost old_m = m;
        acc = d.concat(acc.as_str());
        m = m / 10;
        proof {
            if old_m >= 10 {
                assert(spec_decimal(old_m as nat) == spec_decimal(m as nat).push(spec_digit((old_m % 10) as nat)));
                assert(spec_decimal(old_m as nat) + old_acc =~= spec_decimal(m as nat) + acc@);
            } else {
                assert(spec_decimal(old_m as nat) + old_acc =~= Seq::<char>::empty() + acc@);
            }
        }
    }
    assert(acc@ =~= Seq::<char>::empty() + acc@);
    acc
}

/// The character of hexadecimal digit `d` (0 to 15), upper case.
pub open spec fn spec_hex_digit(d: nat) -> char {
    if d < 10 {
        (48 + d) as char
    } else {
        (55 + d) as char
    }
}

/// The two upper-case hexadecimal digits of byte `b`.
pub open spec fn spec_hex2(b: u8) -> Seq<char> {
    seq![spec_hex_digit((b / 16) as nat), spec_hex_digit((b % 16) as nat)]
}

/// The text of hexadecimal digit `d`.
fn hex_digit_text(d: u8) -> (r: String)
    requires
        d < 16,
    ensures
        r@ == seq![spec_hex_digit(d as nat)],
{
    proof {
        reveal_strlit("0");
        reveal_strlit("1");
        reveal_strlit("2");
        reveal_strlit("3");
        reveal_strlit("4");
        reveal_strlit("5");
        reveal_strlit("6");
        reveal_strlit("7");
        reveal_strlit("8");
        reveal_strlit("9");
        reveal_strlit("A");
        reveal_strlit("B");
        reveal_strlit("C");
        reveal_strlit("D");
        reveal_strlit("E");
        reveal_strlit("F");
    }
    let r = match d {
        0 => String::from_str("0"),
        1 => String::from_str("1"),
        2 => String::from_str("2"),
        3 => String::from_str("3"),
        4 => String::from_str("4"),
        5 => String::from_str("5"),
        6 => String::from_str("6"),
        7 => String::from_str("7"),
        8 => String::from_str("8"),
        9 => String::from_str("9"),
        10 => String::from_str("A"),
        11 => String::from_str("B"),
        12 => String::from_str("C"),
        13 => String::from_str("D"),
        14 => String::from_str("E"),
        _ => String::from_str("F"),
    };
    assert(r@ =~= seq![spec_hex_digit(d as nat)]);
    r
}

/// Byte `b` as two upper-case hexadecimal digits.
pub fn hex_byte(b: u8) -> (r: String)
    ensures
        r@ == spec_hex2(b),
{
    let hi = hex_digit_text(b / 16);
    let lo = hex_digit_text(b % 16);
    let r = hi.concat(lo.as_str());
    assert(r@ =~= spec_hex2(b));
    r
}

/// `prefix`, the decimal text of `n`, then `suffix`.
pub fn number_between(prefix: &str, n: u64, suffix: &str) -> (r: String)
    ensures
        r@ == prefix@ + spec_decimal(n as nat) + suffix@,
{
    with_number(prefix, n).concat(suffix)
}

/// Calls `to_string` on an I/O error (its `Display` text); nothing is
/// claimed of the text.
#[verifier::external_body]
pub(crate) fn io_error_text(e: &std::io::Error) -> String {
    e.to_string()
}

/// `prefix` followed by `s`.
pub fn joined(prefix: &str, s: &str) -> (r: String)
    ensures
        r@ == prefix@ + s@,
{
    String::from_str(prefix).concat(s)
}

/// `prefix` followed by the decimal text of `n`.
pub fn with_number(prefix: &str, n: u64) -> (r: String)
    ensures
        r@ == prefix@ + spec_decimal(n as nat),
{
    let d = decimal(n);
    String::from_str(prefix).concat(d.as_str())
}

} // verus!
