//! Decimal numbers as text, in both directions: zero-padded rendering for
//! headers and file names, and the digit-field parsing the session header
//! uses.

use vstd::prelude::*;
use vstd::utf8::*;

verus! {

/// The ASCII digit for `d`, `0 <= d < 10`.
pub open spec fn digit_char(d: nat) -> char {
    (d + 48) as char
}

/// `n` in decimal, without leading zeros.
pub open spec fn decimal(n: nat) -> Seq<char>
    decreases n,
{
    if n < 10 {
        seq![digit_char(n)]
    } else {
        decimal(n / 10) + seq![digit_char(n % 10)]
    }
}

/// `k` zero characters.
pub open spec fn zeros(k: nat) -> Seq<char> {
    Seq::new(k, |i: int| '0')
}

/// `n` in decimal, left-padded with zeros to at least `width` characters,
/// as `format!("{:0width$}", n)` writes it.
pub open spec fn zero_padded(n: nat, width: nat) -> Seq<char> {
    if decimal(n).len() < width {
        zeros((width - decimal(n).len()) as nat) + decimal(n)
    } else {
        decimal(n)
    }
}

/// An ASCII digit byte.
pub open spec fn is_digit(c: u8) -> bool {
    48u8 <= c <= 57u8
}

/// The number a run of ASCII digit bytes spells.
pub open spec fn digits_value(d: Seq<u8>) -> nat
    decreases d.len(),
{
    if d.len() == 0 {
        0
    } else {
        digits_value(d.drop_last()) * 10 + (d.last() - 48) as nat
    }
}

/// The digits of an unsigned field: all of it but a leading `+`.
pub open spec fn unsigned_digits(f: Seq<u8>) -> Seq<u8> {
    if f.len() > 0 && f[0] == 43u8 {
        f.drop_first()
    } else {
        f
    }
}

/// How `str::parse` reads an unsigned integer that cannot overflow: an
/// optional leading `+`, then one or more ASCII digits and nothing else.
pub open spec fn parse_unsigned(f: Seq<u8>) -> Option<nat> {
    let d = unsigned_digits(f);
    if d.len() > 0 && forall|k: int| 0 <= k < d.len() ==> is_digit(#[trigger] d[k]) {
        Some(digits_value(d))
    } else {
        None
    }
}

/// Appends `c` to `s` (`String::push`).
#[verifier::external_body]
pub(crate) fn push_char(s: &mut String, c: char)
    ensures
        final(s)@ == old(s)@.push(c),
{
    s.push(c);
}

/// Removes the last character of `s` and returns it, or `None` when `s` is
/// empty (`String::pop`).
#[verifier::external_body]
pub(crate) fn pop_char(s: &mut String) -> (r: Option<char>)
    ensures
        old(s)@.len() == 0 ==> r is None && final(s)@ == old(s)@,
        old(s)@.len() > 0 ==> r == Some(old(s)@.last()) && final(s)@ == old(s)@.drop_last(),
{
    s.pop()
}

pub proof fn lemma_decimal_ascii(n: nat)
    ensures
        decimal(n).len() >= 1,
        forall|k: int| 0 <= k < decimal(n).len() ==> '0' <= #[trigger] decimal(n)[k] <= '9',
        is_ascii_chars(decimal(n)),
    decreases n,
{
    if n >= 10 {
        lemma_decimal_ascii(n / 10);
        let d = decimal(n);
        assert forall|k: int| 0 <= k < d.len() implies '0' <= #[trigger] d[k] <= '9' by {
            if k < decimal(n / 10).len() {
                assert(d[k] == decimal(n / 10)[k]);
            }
        }
    }
}

pub proof fn lemma_zero_padded_ascii(n: nat, width: nat)
    ensures
        zero_padded(n, width).len() >= width,
        zero_padded(n, width).len() == if decimal(n).len() < width {
            width as int
        } else {
            decimal(n).len() as int
        },
        forall|k: int|
            0 <= k < zero_padded(n, width).len() ==> '0' <= #[trigger] zero_padded(n, width)[k]
                <= '9',
        is_ascii_chars(zero_padded(n, width)),
{
    lemma_decimal_ascii(n);
    let z = zero_padded(n, width);
    if decimal(n).len() < width {
        let k0 = (width - decimal(n).len()) as nat;
        assert forall|k: int| 0 <= k < z.len() implies '0' <= #[trigger] z[k] <= '9' by {
            if k >= k0 {
                assert(z[k] == decimal(n)[k - k0]);
            }
        }
    }
}

/// Numbers below `10^w` need at most `w` digits.
pub proof fn lemma_decimal_len_bound(n: nat, w: nat)
    requires
        w >= 1,
        n < pow10(w),
    ensures
        decimal(n).len() <= w,
    decreases n,
{
    if n >= 10 {
        assert(w >= 2) by {
            if w == 1 {
                assert(pow10(1) == 10) by {
                    reveal_with_fuel(pow10, 2);
                }
            }
        }
        assert(pow10(w) == 10 * pow10((w - 1) as nat));
        assert(n / 10 < pow10((w - 1) as nat));
        lemma_decimal_len_bound(n / 10, (w - 1) as nat);
    }
}

/// `10^k`.
pub open spec fn pow10(k: nat) -> nat
    decreases k,
{
    if k == 0 {
        1
    } else {
        10 * pow10((k - 1) as nat)
    }
}

/// The bytes of ASCII characters are the characters themselves.
pub proof fn lemma_ascii_bytes(cs: Seq<char>)
    requires
        is_ascii_chars(cs),
    ensures
        encode_utf8(cs).len() == cs.len(),
        forall|k: int| 0 <= k < cs.len() ==> #[trigger] encode_utf8(cs)[k] == cs[k] as u8,
{
    is_ascii_chars_encode_utf8(cs);
}

proof fn lemma_digits_value_leading_zero(d: Seq<u8>)
    ensures
        digits_value(seq![48u8] + d) == digits_value(d),
    decreases d.len(),
{
    let e = seq![48u8] + d;
    if d.len() > 0 {
        assert(e.drop_last() =~= seq![48u8] + d.drop_last());
        assert(e.last() == d.last());
        lemma_digits_value_leading_zero(d.drop_last());
        assert(digits_value(e) == digits_value(e.drop_last()) * 10 + (e.last() - 48) as nat);
        assert(digits_value(d) == digits_value(d.drop_last()) * 10 + (d.last() - 48) as nat);
    } else {
        assert(e.drop_last() =~= Seq::<u8>::empty());
        assert(e.last() == 48u8);
        assert(digits_value(e) == digits_value(e.drop_last()) * 10 + (e.last() - 48) as nat);
        assert(digits_value(Seq::<u8>::empty()) == 0);
    }
}

proof fn lemma_digits_value_zeros(k: nat, d: Seq<u8>)
    ensures
        digits_value(Seq::new(k, |i: int| 48u8) + d) == digits_value(d),
    decreases k,
{
    if k > 0 {
        let z = Seq::new(k, |i: int| 48u8);
        let z1 = Seq::new((k - 1) as nat, |i: int| 48u8);
        assert(z + d =~= seq![48u8] + (z1 + d));
        lemma_digits_value_leading_zero(z1 + d);
        lemma_digits_value_zeros((k - 1) as nat, d);
    } else {
        assert(Seq::new(k, |i: int| 48u8) + d =~= d);
    }
}

proof fn lemma_digits_value_decimal(n: nat)
    ensures
        digits_value(encode_utf8(decimal(n))) == n,
    decreases n,
{
    lemma_decimal_ascii(n);
    let d = decimal(n);
    lemma_ascii_bytes(d);
    let b = encode_utf8(d);
    if n < 10 {
        assert(b.drop_last() =~= Seq::<u8>::empty());
        assert(b.last() == d[0] as u8);
        assert(d[0] == digit_char(n));
        assert(digit_char(n) as u32 == n + 48);
        assert(b.last() == n + 48);
        assert(digits_value(Seq::<u8>::empty()) == 0);
    } else {
        lemma_decimal_ascii(n / 10);
        lemma_ascii_bytes(decimal(n / 10));
        lemma_digits_value_decimal(n / 10);
        assert(b.drop_last() =~= encode_utf8(decimal(n / 10))) by {
            assert forall|k: int| 0 <= k < b.len() - 1 implies b.drop_last()[k] == encode_utf8(
                decimal(n / 10),
            )[k] by {
                assert(d[k] == decimal(n / 10)[k]);
            }
        }
        assert(b.last() == d[d.len() - 1] as u8);
        assert(d[d.len() - 1] == digit_char(n % 10));
        assert(digit_char(n % 10) as u32 == n % 10 + 48);
        assert(b.last() == n % 10 + 48);
    }
}

/// Reading back a zero-padded number gives the number.
pub proof fn lemma_parse_zero_padded(n: nat, width: nat)
    ensures
        parse_unsigned(encode_utf8(zero_padded(n, width))) == Some(n),
{
    lemma_zero_padded_ascii(n, width);
    lemma_decimal_ascii(n);
    let z = zero_padded(n, width);
    let b = encode_utf8(z);
    lemma_ascii_bytes(z);
    lemma_ascii_bytes(decimal(n));
    assert(b.len() > 0);
    assert forall|k: int| 0 <= k < b.len() implies is_digit(#[trigger] b[k]) by {
        assert(b[k] == z[k] as u8);
    }
    assert(b[0] != 43u8) by {
        assert(b[0] == z[0] as u8);
    }
    lemma_digits_value_decimal(n);
    if decimal(n).len() < width {
        let k0 = (width - decimal(n).len()) as nat;
        assert(b =~= Seq::new(k0, |i: int| 48u8) + encode_utf8(decimal(n))) by {
            assert forall|k: int| 0 <= k < b.len() implies b[k] == (Seq::new(k0, |i: int| 48u8)
                + encode_utf8(decimal(n)))[k] by {
                assert(b[k] == z[k] as u8);
                if k >= k0 {
                    assert(z[k] == decimal(n)[k - k0]);
                }
            }
        }
        lemma_digits_value_zeros(k0, encode_utf8(decimal(n)));
    }
}

/// Appends `n` in decimal.
pub fn push_decimal(out: &mut String, n: u64)
    ensures
        final(out)@ == old(out)@ + decimal(n as nat),
    decreases n,
{
    if n >= 10 {
        push_decimal(out, n / 10);
    }
    let d = (n % 10) as u8;
    push_char(out, (d + 48) as char);
    proof {
        assert(final(out)@ =~= old(out)@ + decimal(n as nat));
    }
}

/// Number of decimal digits of `n`.
pub fn decimal_len(n: u64) -> (r: usize)
    ensures
        r == decimal(n as nat).len(),
    decreases n,
{
    proof {
        lemma_decimal_ascii(n as nat);
    }
    if n < 10 {
        1
    } else {
        let r = decimal_len(n / 10);
        proof {
            assert(pow10(20) == 100000000000000000000nat) by {
                reveal_with_fuel(pow10, 21);
            }
            lemma_decimal_len_bound(n as nat, 20);
        }
        r + 1
    }
}

/// Appends `n` in decimal, zero-padded to at least `width` characters.
pub fn push_zero_padded(out: &mut String, n: u64, width: usize)
    ensures
        final(out)@ == old(out)@ + zero_padded(n as nat, width as nat),
{
    let len = decimal_len(n);
    let ghost start = out@;
    if len < width {
        let mut i: usize = 0;
        while i < width - len
            invariant
                i <= width - len,
                out@ == start + zeros(i as nat),
            decreases width - len - i,
        {
            push_char(out, '0');
            i += 1;
            proof {
                assert(out@ =~= start + zeros(i as nat));
            }
        }
    }
    let ghost mid = out@;
    push_decimal(out, n);
    proof {
        assert(out@ =~= start + zero_padded(n as nat, width as nat));
    }
}

/// `n` in decimal.
pub fn decimal_string(n: u64) -> (s: String)
    ensures
        s@ == decimal(n as nat),
{
    let mut s = String::new();
    push_decimal(&mut s, n);
    proof {
        assert(s@ =~= decimal(n as nat));
    }
    s
}

} // verus!
