//! Plain text renderings: decimal and hexadecimal numerals, and building strings from them.
use vstd::prelude::*;

verus! {

/// `String::push` appends the given character at the end of the string, as std documents it.
pub assume_specification[ String::push ](string: &mut String, ch: char)
    ensures
        final(string)@ == old(string)@.push(ch),
;

/// The decimal digit for `d`, which is below ten.
pub open spec fn decimal_char(d: nat) -> char {
    if d == 0 { '0' }
    else if d == 1 { '1' }
    else if d == 2 { '2' }
    else if d == 3 { '3' }
    else if d == 4 { '4' }
    else if d == 5 { '5' }
    else if d == 6 { '6' }
    else if d == 7 { '7' }
    else if d == 8 { '8' }
    else { '9' }
}

/// The decimal numeral of `n`, as `{}` writes it: no leading zeros, and `0` for zero.
pub open spec fn decimal(n: nat) -> Seq<char>
    decreases n,
{
    if n < 10 {
        seq![decimal_char(n)]
    } else {
        decimal(n / 10).push(decimal_char(n % 10))
    }
}

/// The digit character for `d` below ten.
fn decimal_digit(d: usize) -> (c: char)
    requires
        d < 10,
    ensures
        c == decimal_char(d as nat),
{
    if d == 0 { '0' }
    else if d == 1 { '1' }
    else if d == 2 { '2' }
    else if d == 3 { '3' }
    else if d == 4 { '4' }
    else if d == 5 { '5' }
    else if d == 6 { '6' }
    else if d == 7 { '7' }
    else if d == 8 { '8' }
    else { '9' }
}

/// Appends the decimal numeral of `n` to the string.
pub fn push_decimal(s: &mut String, n: usize)
    ensures
        final(s)@ == old(s)@ + decimal(n as nat),
    decreases n,
{
    if n < 10 {
        s.push(decimal_digit(n));
        assert(old(s)@.push(decimal_char(n as nat)) =~= old(s)@ + decimal(n as nat));
    } else {
        push_decimal(s, n / 10);
        s.push(decimal_digit(n % 10));
        assert(old(s)@ + decimal(n as nat) =~= old(s)@ + decimal((n / 10) as nat) + seq![
            decimal_char((n % 10) as nat),
        ]);
    }
}

/// The hexadecimal digit for `d` below sixteen, in upper case.
pub open spec fn hex_char(d: nat) -> char {
    if d < 10 {
        decimal_char(d)
    } else if d == 10 { 'A' }
    else if d == 11 { 'B' }
    else if d == 12 { 'C' }
    else if d == 13 { 'D' }
    else if d == 14 { 'E' }
    else { 'F' }
}

/// The last `k` hexadecimal digits of `n`, most significant first, zeros in front.
pub open spec fn hex_digits(n: nat, k: nat) -> Seq<char>
    decreases k,
{
    if k == 0 {
        Seq::empty()
    } else {
        hex_digits(n / 16, (k - 1) as nat).push(hex_char(n % 16))
    }
}

/// `s` cut to `width` characters, or filled up to `width` with `0` on the right.
pub open spec fn fit_width(s: Seq<char>, width: nat) -> Seq<char> {
    if width <= s.len() {
        s.subrange(0, width as int)
    } else {
        s + Seq::new((width - s.len()) as nat, |i: int| '0')
    }
}

/// A 64-bit number as sixteen upper-case hexadecimal digits, cut or filled with zeros on the
/// right to the precision when one is given.
pub open spec fn hex_text(n: u64, precision: Option<usize>) -> Seq<char> {
    fit_width(
        hex_digits(n as nat, 16),
        match precision {
            Some(p) => p as nat,
            None => 16,
        },
    )
}

/// The hexadecimal digit character for `d` below sixteen.
fn hex_digit(d: u64) -> (c: char)
    requires
        d < 16,
    ensures
        c == hex_char(d as nat),
{
    if d < 10 {
        decimal_digit(d as usize)
    } else if d == 10 { 'A' }
    else if d == 11 { 'B' }
    else if d == 12 { 'C' }
    else if d == 13 { 'D' }
    else if d == 14 { 'E' }
    else { 'F' }
}

/// The last `k` hexadecimal digits of `n`.
fn hex_digit_vec(n: u64, k: usize) -> (r: Vec<char>)
    ensures
        r@ == hex_digits(n as nat, k as nat),
    decreases k,
{
    if k == 0 {
        Vec::new()
    } else {
        let mut r = hex_digit_vec(n / 16, k - 1);
        r.push(hex_digit(n % 16));
        r
    }
}

/// Appends the hexadecimal text of `n` at the given precision to the string.
pub fn push_hex(s: &mut String, n: u64, precision: Option<usize>)
    ensures
        final(s)@ == old(s)@ + hex_text(n, precision),
{
    let digits = hex_digit_vec(n, 16);
    let width: usize = match precision {
        Some(p) => p,
        None => 16,
    };
    let ghost start = s@;
    let mut i: usize = 0;
    while i < width
        invariant
            digits@ == hex_digits(n as nat, 16),
            digits@.len() == 16 ==> i <= width,
            i <= width,
            s@ == start + fit_width(digits@, width as nat).subrange(0, i as int),
        decreases width - i,
    {
        proof {
            lemma_hex_digits_len(n as nat, 16);
        }
        let c = if i < digits.len() { digits[i] } else { '0' };
        s.push(c);
        i = i + 1;
        assert(s@ =~= start + fit_width(digits@, width as nat).subrange(0, i as int));
    }
    assert(fit_width(digits@, width as nat).subrange(0, i as int) =~= fit_width(digits@, width as nat)) by {
        lemma_hex_digits_len(n as nat, 16);
    }
}

/// There are as many digits as asked for.
proof fn lemma_hex_digits_len(n: nat, k: nat)
    ensures
        hex_digits(n, k).len() == k,
    decreases k,
{
    if k > 0 {
        lemma_hex_digits_len(n / 16, (k - 1) as nat);
    }
}

} // verus!
