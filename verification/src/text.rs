//! Facts about byte sequences that the session format rests on: how a
//! buffer splits into lines, how lines join back into a buffer, and where
//! UTF-8 character boundaries fall around ASCII bytes.

use vstd::prelude::*;
use vstd::utf8::*;

verus! {

/// Index of the first `\n` in `s`, or `s.len()` when there is none.
pub open spec fn line_end(s: Seq<u8>) -> int
    decreases s.len(),
{
    if s.len() == 0 {
        0
    } else if s[0] == 10u8 {
        0
    } else {
        1 + line_end(s.drop_first())
    }
}

/// `s` split at every `\n`, the way `str::split('\n')` splits: a buffer
/// with `n` newlines has `n + 1` lines, and the empty buffer is one empty line.
pub open spec fn lines(s: Seq<u8>) -> Seq<Seq<u8>>
    decreases s.len(),
{
    let e = line_end(s);
    if 0 <= e < s.len() {
        seq![s.take(e)] + lines(s.skip(e + 1))
    } else {
        seq![s]
    }
}

/// Every line of `ls` followed by a `\n`, concatenated.
pub open spec fn terminated(ls: Seq<Seq<u8>>) -> Seq<u8>
    decreases ls.len(),
{
    if ls.len() == 0 {
        seq![]
    } else {
        ls[0] + seq![10u8] + terminated(ls.drop_first())
    }
}

/// No `\n` anywhere in `s`.
pub open spec fn no_newline(s: Seq<u8>) -> bool {
    forall|k: int| 0 <= k < s.len() ==> s[k] != 10u8
}

/// Every byte of `s` is ASCII.
pub open spec fn all_ascii(s: Seq<u8>) -> bool {
    forall|k: int| 0 <= k < s.len() ==> s[k] < 128u8
}

pub proof fn lemma_line_end(s: Seq<u8>)
    ensures
        0 <= line_end(s) <= s.len(),
        forall|k: int| 0 <= k < line_end(s) ==> s[k] != 10u8,
        line_end(s) < s.len() ==> s[line_end(s)] == 10u8,
    decreases s.len(),
{
    if s.len() > 0 && s[0] != 10u8 {
        let t = s.drop_first();
        lemma_line_end(t);
        assert forall|k: int| 0 <= k < line_end(s) implies s[k] != 10u8 by {
            if k > 0 {
                assert(s[k] == t[k - 1]);
            }
        }
        if line_end(s) < s.len() {
            assert(s[line_end(s)] == t[line_end(s) - 1]);
        }
    }
}

/// The first newline is found where the scan stops.
pub proof fn lemma_line_end_is(s: Seq<u8>, m: int)
    requires
        0 <= m <= s.len(),
        forall|k: int| 0 <= k < m ==> s[k] != 10u8,
        m == s.len() || s[m] == 10u8,
    ensures
        line_end(s) == m,
    decreases s.len(),
{
    if m > 0 {
        let t = s.drop_first();
        assert(s[0] != 10u8);
        assert forall|k: int| 0 <= k < m - 1 implies t[k] != 10u8 by {
            assert(t[k] == s[k + 1]);
        }
        if m < s.len() {
            assert(t[m - 1] == s[m]);
        }
        lemma_line_end_is(t, m - 1);
    }
}

pub proof fn lemma_lines_no_newline(x: Seq<u8>)
    requires
        no_newline(x),
    ensures
        lines(x) == seq![x],
{
    lemma_line_end_is(x, x.len() as int);
}

/// Joining two buffers with a newline joins their lines.
pub proof fn lemma_lines_join(x: Seq<u8>, y: Seq<u8>)
    ensures
        lines(x + seq![10u8] + y) == lines(x) + lines(y),
    decreases x.len(),
{
    let z = x + seq![10u8] + y;
    lemma_line_end(x);
    let e = line_end(x);
    if e < x.len() {
        assert forall|k: int| 0 <= k < e implies z[k] != 10u8 by {
            assert(z[k] == x[k]);
        }
        assert(z[e] == x[e]);
        lemma_line_end_is(z, e);
        let xr = x.skip(e + 1);
        assert(z.skip(e + 1) =~= xr + seq![10u8] + y);
        assert(z.take(e) =~= x.take(e));
        lemma_lines_join(xr, y);
        assert(lines(z) == seq![x.take(e)] + lines(xr + seq![10u8] + y));
        assert(lines(x) == seq![x.take(e)] + lines(xr));
        assert(lines(z) =~= lines(x) + lines(y));
    } else {
        assert forall|k: int| 0 <= k < x.len() implies z[k] != 10u8 by {
            assert(z[k] == x[k]);
        }
        assert(z[x.len() as int] == 10u8);
        lemma_line_end_is(z, x.len() as int);
        assert(z.take(x.len() as int) =~= x);
        assert(z.skip(x.len() as int + 1) =~= y);
        assert(lines(x) == seq![x]);
        assert(lines(z) =~= lines(x) + lines(y));
    }
}

/// A buffer of newline-free lines, each terminated, splits back into those
/// lines plus the empty line after the final newline.
pub proof fn lemma_lines_terminated(ls: Seq<Seq<u8>>)
    requires
        forall|i: int| 0 <= i < ls.len() ==> no_newline(#[trigger] ls[i]),
    ensures
        lines(terminated(ls)) == ls + seq![Seq::<u8>::empty()],
    decreases ls.len(),
{
    if ls.len() == 0 {
        assert(lines(Seq::<u8>::empty()) == seq![Seq::<u8>::empty()]);
        assert(ls + seq![Seq::<u8>::empty()] =~= seq![Seq::<u8>::empty()]);
    } else {
        let rest = ls.drop_first();
        assert forall|i: int| 0 <= i < rest.len() implies no_newline(#[trigger] rest[i]) by {
            assert(rest[i] == ls[i + 1]);
        }
        lemma_lines_terminated(rest);
        lemma_lines_join(ls[0], terminated(rest));
        assert(no_newline(ls[0]));
        lemma_lines_no_newline(ls[0]);
        assert(ls + seq![Seq::<u8>::empty()] =~= seq![ls[0]] + (rest + seq![Seq::<u8>::empty()]));
    }
}

/// Appending one more line appends its bytes and a newline.
pub proof fn lemma_terminated_push(ls: Seq<Seq<u8>>, l: Seq<u8>)
    ensures
        terminated(ls.push(l)) == terminated(ls) + l + seq![10u8],
    decreases ls.len(),
{
    if ls.len() == 0 {
        assert(ls.push(l).drop_first() =~= Seq::<Seq<u8>>::empty());
        assert(ls.push(l)[0] == l);
        assert(terminated(Seq::<Seq<u8>>::empty()) == Seq::<u8>::empty());
        assert(terminated(ls.push(l)) =~= l + seq![10u8]);
        assert(terminated(ls) + l + seq![10u8] =~= l + seq![10u8]);
    } else {
        lemma_terminated_push(ls.drop_first(), l);
        assert(ls.push(l).drop_first() =~= ls.drop_first().push(l));
        assert(ls.push(l)[0] == ls[0]);
        assert(terminated(ls.push(l)) =~= terminated(ls) + l + seq![10u8]);
    }
}


/// Encoding a concatenation concatenates the encodings.
pub proof fn lemma_encode_concat(a: Seq<char>, b: Seq<char>)
    ensures
        encode_utf8(a + b) == encode_utf8(a) + encode_utf8(b),
    decreases a.len(),
{
    if a.len() == 0 {
        assert(a + b =~= b);
        assert(encode_utf8(a) + encode_utf8(b) =~= encode_utf8(b));
    } else {
        lemma_encode_concat(a.drop_first(), b);
        assert((a + b).drop_first() =~= a.drop_first() + b);
        assert((a + b)[0] == a[0]);
        assert(encode_utf8(a + b) =~= encode_utf8(a) + encode_utf8(b));
    }
}

/// A run of ASCII bytes is valid UTF-8.
pub proof fn lemma_ascii_valid(b: Seq<u8>)
    requires
        all_ascii(b),
    ensures
        valid_utf8(b),
    decreases b.len(),
{
    if b.len() > 0 {
        let c = b[0];
        assert(c < 128u8);
        assert((c & 0x7Fu8) <= 0x7Fu8) by (bit_vector);
        assert(valid_first_scalar(b));
        let rest = pop_first_scalar(b);
        assert(rest =~= b.subrange(1, b.len() as int));
        assert forall|k: int| 0 <= k < rest.len() implies rest[k] < 128u8 by {
            assert(rest[k] == b[k + 1]);
        }
        lemma_ascii_valid(rest);
    }
}

/// An ASCII byte of a valid UTF-8 buffer starts a character, and so does
/// the position right after it.
pub proof fn lemma_ascii_boundaries(b: Seq<u8>, i: int)
    requires
        valid_utf8(b),
        0 <= i < b.len(),
        b[i] < 128u8,
    ensures
        is_char_boundary(b, i),
        is_char_boundary(b, i + 1),
{
    is_char_boundary_iff_not_is_continuation_byte(b, i);
    if i + 1 == b.len() {
        is_char_boundary_start_end_of_seq(b);
    } else {
        is_char_boundary_iff_not_is_continuation_byte(b, i);
        valid_utf8_split(b, i);
        let t = b.subrange(i, b.len() as int);
        assert(t[0] == b[i]);
        assert(valid_utf8(t));
        let u = pop_first_scalar(t);
        assert(u =~= b.subrange(i + 1, b.len() as int));
        assert(valid_utf8(u));
        assert(u.len() > 0);
        assert(valid_first_scalar(u));
        assert(u[0] == b[i + 1]);
        is_char_boundary_iff_not_is_continuation_byte(b, i + 1);
    }
}

/// The end of a line, or of its carriage-return-stripped form, in a valid
/// UTF-8 buffer is a character boundary.
pub proof fn lemma_boundary_before_ascii_or_end(b: Seq<u8>, i: int)
    requires
        valid_utf8(b),
        0 <= i <= b.len(),
        i == b.len() || b[i] < 128u8,
    ensures
        is_char_boundary(b, i),
{
    if i == b.len() {
        is_char_boundary_start_end_of_seq(b);
    } else {
        lemma_ascii_boundaries(b, i);
    }
}

/// `s` with every `\n` written as `\r\n`.
pub open spec fn crlf(s: Seq<u8>) -> Seq<u8>
    decreases s.len(),
{
    if s.len() == 0 {
        seq![]
    } else {
        (if s[0] == 10u8 {
            seq![13u8, 10u8]
        } else {
            seq![s[0]]
        }) + crlf(s.drop_first())
    }
}

/// No `\r` anywhere in `s`.
pub open spec fn no_cr(s: Seq<u8>) -> bool {
    forall|k: int| 0 <= k < s.len() ==> s[k] != 13u8
}

/// Writing line endings as CRLF distributes over concatenation.
pub proof fn lemma_crlf_append(a: Seq<u8>, b: Seq<u8>)
    ensures
        crlf(a + b) == crlf(a) + crlf(b),
    decreases a.len(),
{
    if a.len() == 0 {
        assert(a + b =~= b);
        assert(crlf(a) + crlf(b) =~= crlf(b));
    } else {
        lemma_crlf_append(a.drop_first(), b);
        assert((a + b).drop_first() =~= a.drop_first() + b);
        assert((a + b)[0] == a[0]);
        assert(crlf(a + b) =~= crlf(a) + crlf(b));
    }
}

/// A buffer without newlines is its own CRLF form.
pub proof fn lemma_crlf_no_newline(a: Seq<u8>)
    requires
        no_newline(a),
    ensures
        crlf(a) == a,
    decreases a.len(),
{
    if a.len() > 0 {
        let t = a.drop_first();
        assert forall|k: int| 0 <= k < t.len() implies t[k] != 10u8 by {
            assert(t[k] == a[k + 1]);
        }
        lemma_crlf_no_newline(t);
        assert(crlf(a) =~= a);
    }
}

/// `t` with every `'\n'` written as `"\r\n"`.
pub open spec fn crlf_chars(t: Seq<char>) -> Seq<char>
    decreases t.len(),
{
    if t.len() == 0 {
        seq![]
    } else {
        (if t[0] == '\n' {
            seq!['\r', '\n']
        } else {
            seq![t[0]]
        }) + crlf_chars(t.drop_first())
    }
}

/// `\n` and `\r` encode as themselves, and no other character's encoding
/// holds either byte: every byte of a multi-byte encoding is at least 0x80.
proof fn lemma_scalar_bytes(v: u32)
    ensures
        v == 10 ==> encode_scalar(v) == seq![10u8],
        v == 13 ==> encode_scalar(v) == seq![13u8],
        v != 10 && v != 13 ==> forall|k: int|
            0 <= k < encode_scalar(v).len() ==> #[trigger] encode_scalar(v)[k] != 10u8
                && encode_scalar(v)[k] != 13u8,
{
    assert(v <= 0x7F && v != 10 && v != 13 ==> leading_byte_width_1(v) != 10u8
        && leading_byte_width_1(v) != 13u8) by (bit_vector);
    assert(v == 10 ==> leading_byte_width_1(v) == 10u8) by (bit_vector);
    assert(v == 13 ==> leading_byte_width_1(v) == 13u8) by (bit_vector);
    assert(leading_byte_width_2(v) >= 0x80u8) by (bit_vector);
    assert(leading_byte_width_3(v) >= 0x80u8) by (bit_vector);
    assert(leading_byte_width_4(v) >= 0x80u8) by (bit_vector);
    assert(last_continuation_byte(v) >= 0x80u8) by (bit_vector);
    assert(second_last_continuation_byte(v) >= 0x80u8) by (bit_vector);
    assert(third_last_continuation_byte(v) >= 0x80u8) by (bit_vector);
}

/// Encoding a text whose line endings were written as CRLF is writing the
/// line endings of its encoding as CRLF; a text without `'\r'` encodes
/// without a `\r` byte.
pub proof fn lemma_crlf_encode(t: Seq<char>)
    requires
        forall|k: int| 0 <= k < t.len() ==> t[k] != '\r',
    ensures
        encode_utf8(crlf_chars(t)) == crlf(encode_utf8(t)),
        no_cr(encode_utf8(t)),
    decreases t.len(),
{
    if t.len() == 0 {
        assert(crlf_chars(t) =~= Seq::<char>::empty());
        assert(encode_utf8(t) =~= Seq::<u8>::empty());
        assert(crlf(Seq::<u8>::empty()) =~= Seq::<u8>::empty());
    } else {
        let c = t[0];
        let rest = t.drop_first();
        assert forall|k: int| 0 <= k < rest.len() implies rest[k] != '\r' by {
            assert(rest[k] == t[k + 1]);
        }
        lemma_crlf_encode(rest);
        lemma_scalar_bytes(c as u32);
        let e = encode_scalar(c as u32);
        assert(('\n' as u32) == 10u32 && ('\r' as u32) == 13u32);
        char_u32_cast(c, c as u32);
        char_u32_cast('\n', '\n' as u32);
        char_u32_cast('\r', '\r' as u32);
        assert(c != '\r');
        assert(c != '\n' ==> (c as u32) != 10u32 && (c as u32) != 13u32);
        assert forall|k: int| 0 <= k < e.len() implies e[k] != 13u8 && (c != '\n' ==> e[k] != 10u8) by {
            if c != '\n' {
                assert(encode_scalar(c as u32)[k] != 10u8);
            }
        }
        assert(encode_utf8(t) == e + encode_utf8(rest));
        lemma_crlf_append(e, encode_utf8(rest));
        if c == '\n' {
            assert(crlf(e) =~= seq![13u8, 10u8]) by {
                reveal_with_fuel(crlf, 2);
                assert(e.drop_first() =~= Seq::<u8>::empty());
            }
            assert(crlf_chars(t) == seq!['\r', '\n'] + crlf_chars(rest));
            lemma_encode_concat(seq!['\r', '\n'], crlf_chars(rest));
            lemma_scalar_bytes('\r' as u32);
            assert(encode_utf8(seq!['\r', '\n']) =~= seq![13u8, 10u8]) by {
                reveal_with_fuel(encode_utf8, 3);
                assert(seq!['\r', '\n'].drop_first() =~= seq!['\n']);
                assert(seq!['\n'].drop_first() =~= Seq::<char>::empty());
            }
        } else {
            assert(no_newline(e));
            lemma_crlf_no_newline(e);
            assert(crlf_chars(t) == seq![c] + crlf_chars(rest));
            lemma_encode_concat(seq![c], crlf_chars(rest));
            assert(encode_utf8(seq![c]) =~= e) by {
                reveal_with_fuel(encode_utf8, 2);
                assert(seq![c].drop_first() =~= Seq::<char>::empty());
            }
        }
        assert(encode_utf8(crlf_chars(t)) =~= crlf(encode_utf8(t)));
        assert forall|k: int| 0 <= k < encode_utf8(t).len() implies encode_utf8(t)[k] != 13u8 by {
            if k < e.len() {
                assert(encode_utf8(t)[k] == e[k]);
            } else {
                assert(encode_utf8(t)[k] == encode_utf8(rest)[k - e.len()]);
            }
        }
    }
}

} // verus!
