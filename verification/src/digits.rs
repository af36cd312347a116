use vstd::prelude::*;

verus! {

/// The digit character for a value below 16 (upper-case letters above 9).
pub open spec fn digit_char(d: nat) -> char {
    if d < 10 {
        (48 + d) as char
    } else {
        (55 + d) as char
    }
}

/// `n` written in `base` (2 to 16) without leading zeros ("0" for zero), as
/// Rust's `{}`, `{:o}` and `{:X}` formatting write it.
pub open spec fn spec_digits(n: nat, base: nat) -> Seq<char>
    decreases n,
{
    if base < 2 || n < base {
        seq![digit_char(n)]
    } else {
        proof {
            lemma_div_smaller(n, base);
        }
        spec_digits(n / base, base).push(digit_char(n % base))
    }
}

/// Dividing by a base of at least two makes a number of at least that base smaller.
pub proof fn lemma_div_smaller(n: nat, base: nat)
    requires
        base >= 2,
        n >= base,
    ensures
        n / base < n,
{
    assert(n / base < n) by (nonlinear_arith)
        requires
            base >= 2,
            n >= base,
    ;
}

fn digit(d: u64) -> (c: char)
    requires
        d < 16,
    ensures
        c == digit_char(d as nat),
{
    if d < 10 {
        ((48 + d) as u8) as char
    } else {
        ((55 + d) as u8) as char
    }
}

/// `n` in base `base`, most significant digit first.
pub fn digits(n: u64, base: u64) -> (r: Vec<char>)
    requires
        2 <= base <= 16,
    ensures
        r@ == spec_digits(n as nat, base as nat),
    decreases n,
{
    if n < base {
        let mut r: Vec<char> = Vec::new();
        r.push(digit(n));
        r
    } else {
        proof {
            lemma_div_smaller(n as nat, base as nat);
        }
        let mut r = digits(n / base, base);
        r.push(digit(n % base));
        r
    }
}

/// The decimal text of `n` (`n.to_string()`).
pub fn decimal(n: u64) -> (r: Vec<char>)
    ensures
        r@ == spec_digits(n as nat, 10),
{
    digits(n, 10)
}

/// The octal text of `n` (`format!("{:o}", n)`).
pub fn octal(n: u64) -> (r: Vec<char>)
    ensures
        r@ == spec_digits(n as nat, 8),
{
    digits(n, 8)
}

/// Two upper-case hexadecimal digits of a byte, with a leading zero
/// (`format!("{:02X}", b)`).
pub open spec fn hex_byte(b: u8) -> Seq<char> {
    seq![digit_char((b / 16) as nat), digit_char((b % 16) as nat)]
}

/// The upper-case hexadecimal text of a byte string, two digits per byte.
pub open spec fn spec_hex(bytes: Seq<u8>) -> Seq<char>
    decreases bytes.len(),
{
    if bytes.len() == 0 {
        Seq::empty()
    } else {
        spec_hex(bytes.drop_last()) + hex_byte(bytes.last())
    }
}

/// The upper-case hexadecimal text of a byte string.
pub fn hex_upper(bytes: &Vec<u8>) -> (r: Vec<char>)
    ensures
        r@ == spec_hex(bytes@),
{
    let mut r: Vec<char> = Vec::new();
    let mut i: usize = 0;
    while i < bytes.len()
        invariant
            i <= bytes.len(),
            r@ == spec_hex(bytes@.subrange(0, i as int)),
        decreases bytes.len() - i,
    {
        let b = bytes[i];
        r.push(digit((b / 16) as u64));
        r.push(digit((b % 16) as u64));
        assert(bytes@.subrange(0, i + 1).drop_last() =~= bytes@.subrange(0, i as int));
        assert(r@ =~= spec_hex(bytes@.subrange(0, i as int)) + hex_byte(b));
        i = i + 1;
    }
    assert(bytes@.subrange(0, i as int) =~= bytes@);
    r
}

/// Every byte takes exactly two hexadecimal digits.
pub proof fn lemma_hex_len(bytes: Seq<u8>)
    ensures
        spec_hex(bytes).len() == 2 * bytes.len(),
    decreases bytes.len(),
{
    if bytes.len() > 0 {
        lemma_hex_len(bytes.drop_last());
    }
}

} // verus!
