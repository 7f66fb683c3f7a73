//! Resume picker: the decisions behind the screen that chooses a past
//! session.

use vstd::prelude::*;
use vstd::utf8::*;
use crate::input::{Event, KeyCode, KeyEvent, MouseButton, MouseEvent, MouseKind};
use crate::ui::{ClickTracker, pairs};
use crate::format::{
    decimal, decimal_len, push_char, decimal_string, lemma_ascii_bytes, lemma_decimal_len_bound, pow10,
    lemma_zero_padded_ascii, zero_padded,
};
use crate::model::Timestamp;
use crate::storage::file_stem;
use crate::text::{lemma_ascii_boundaries, lemma_encode_concat, lines};
use crate::markdown::{count_tasks, task_totals, lemma_task_totals_bound};

verus! {

/// Columns the list keeps for itself when the preview sits beside it. The
/// widest a row can render (a collision suffix and three-digit counts) is 43,
/// so rows never truncate.
pub const LIST_WIDTH: u16 = 44;

/// Columns of breathing room on either side of the divider: the list's
/// counts stop this far short of it, the preview's text starts this far past
/// it.
pub const GUTTER: u16 = 3;

/// Width the list lays its rows out in: the pane less a matching gutter.
pub const ROW_WIDTH: u16 = LIST_WIDTH - GUTTER;

/// Below this the preview is dropped and the list runs full width.
pub const MIN_WIDTH_FOR_PREVIEW: u16 = 80;

/// First screen row occupied by a session entry; the 2-row header sits above.
pub const FIRST_ROW: u16 = 2;

#[derive(Debug, Clone, PartialEq, Eq)]
pub struct Entry {
    pub name: String,
    pub open: u32,
    pub total: u32,
    /// The file as read, kept for the preview pane.
    pub contents: String,
}

#[derive(Debug, Clone, PartialEq, Eq)]
pub enum Choice {
    Selected(String),
    Cancelled,
}

/// The entries among the first `n` of `es` that the picker shows.
pub open spec fn shown(es: Seq<Entry>, show_all: bool, n: nat) -> Seq<Entry>
    decreases n,
{
    if n == 0 {
        Seq::empty()
    } else {
        let r = shown(es, show_all, (n - 1) as nat);
        if show_all || es[n - 1].open > 0 {
            r.push(es[n - 1])
        } else {
            r
        }
    }
}

/// Sessions with unfinished work, unless `show_all`; order is kept.
pub fn filter_visible(entries: &[Entry], show_all: bool) -> (r: Vec<&Entry>)
    ensures
        r@.len() == shown(entries@, show_all, entries@.len()).len(),
        forall|i: int| 0 <= i < r@.len() ==> *r@[i] == shown(entries@, show_all, entries@.len())[i],
{
    let mut r: Vec<&Entry> = Vec::new();
    let mut i: usize = 0;
    while i < entries.len()
        invariant
            i <= entries@.len(),
            r@.len() == shown(entries@, show_all, i as nat).len(),
            forall|k: int| 0 <= k < r@.len() ==> *r@[k] == shown(entries@, show_all, i as nat)[k],
        decreases entries@.len() - i,
    {
        let e = &entries[i];
        if show_all || e.open > 0 {
            r.push(e);
        }
        i += 1;
    }
    r
}

/// Whether every one of the first `n` entries has no open task.
/// At most `n` entries show.
proof fn lemma_shown_len(es: Seq<Entry>, show_all: bool, n: nat)
    ensures
        shown(es, show_all, n).len() <= n,
    decreases n,
{
    if n > 0 {
        lemma_shown_len(es, show_all, (n - 1) as nat);
    }
}

proof fn lemma_shown_empty(es: Seq<Entry>, n: nat)
    requires
        n <= es.len(),
    ensures
        shown(es, false, n).len() == 0 <==> forall|i: int| 0 <= i < n ==> es[i].open == 0,
    decreases n,
{
    if n > 0 {
        lemma_shown_empty(es, (n - 1) as nat);
    }
}

/// Whether the preview pane has room beside the list.
pub fn preview_fits(width: u16) -> (r: bool)
    ensures
        r == (width >= MIN_WIDTH_FOR_PREVIEW),
{
    width >= MIN_WIDTH_FOR_PREVIEW
}

/// Furthest useful scroll offset: the one that puts the last line on the
/// bottom row. Content that fits never scrolls.
pub fn clamp_scroll(scroll: usize, lines: usize, height: usize) -> (r: usize)
    ensures
        r == (if lines > height {
            if scroll < lines - height { scroll as int } else { lines - height }
        } else {
            0
        }),
{
    let max = lines.saturating_sub(height);
    if scroll < max { scroll } else { max }
}

/// Whether to reveal finished sessions when the picker opens: when there are
/// sessions and none of them has unfinished work, so the picker does not
/// open onto an empty box.
pub fn show_all_on_open(entries: &[Entry]) -> (r: bool)
    ensures
        r == (entries@.len() > 0 && forall|i: int| 0 <= i < entries@.len() ==> entries@[i].open == 0),
{
    let visible = filter_visible(entries, false);
    proof {
        lemma_shown_empty(entries@, entries@.len());
    }
    entries.len() > 0 && visible.len() == 0
}

/// Index of the first `\n` in `cs`, or `cs.len()` when there is none.
pub open spec fn char_line_end(cs: Seq<char>) -> int
    decreases cs.len(),
{
    if cs.len() == 0 {
        0
    } else if cs[0] == '\n' {
        0
    } else {
        1 + char_line_end(cs.drop_first())
    }
}

/// The lines of `cs` as `str::lines` yields them: a line ends at each `\n`,
/// a `\r` right before that `\n` belongs to the line ending, and the last
/// line ending is optional (so the empty text has no lines).
pub open spec fn text_lines(cs: Seq<char>) -> Seq<Seq<char>>
    decreases cs.len(),
{
    if cs.len() == 0 {
        seq![]
    } else {
        let e = char_line_end(cs);
        if 0 <= e < cs.len() {
            let l = cs.take(e);
            let l = if l.len() > 0 && l.last() == '\r' {
                l.drop_last()
            } else {
                l
            };
            seq![l] + text_lines(cs.skip(e + 1))
        } else {
            seq![cs]
        }
    }
}

/// Rows a line of `n` characters wraps onto at `w` columns: the ceiling of
/// `n / w`, at least one. A zero width counts every line as one row.
pub open spec fn line_rows(n: nat, w: nat) -> nat {
    if w == 0 || n == 0 {
        1
    } else if n % w == 0 {
        n / w
    } else {
        n / w + 1
    }
}

/// Rows all of `ls` occupy at `w` columns.
pub open spec fn total_rows(ls: Seq<Seq<char>>, w: nat) -> nat
    decreases ls.len(),
{
    if ls.len() == 0 {
        0
    } else {
        line_rows(ls[0].len(), w) + total_rows(ls.drop_first(), w)
    }
}

proof fn lemma_char_line_end(cs: Seq<char>)
    ensures
        0 <= char_line_end(cs) <= cs.len(),
        char_line_end(cs) < cs.len() ==> cs[char_line_end(cs)] == '\n',
        forall|k: int| 0 <= k < char_line_end(cs) ==> cs[k] != '\n',
    decreases cs.len(),
{
    if cs.len() > 0 && cs[0] != '\n' {
        lemma_char_line_end(cs.drop_first());
        assert forall|k: int| 0 <= k < char_line_end(cs) implies cs[k] != '\n' by {
            if k > 0 {
                assert(cs[k] == cs.drop_first()[k - 1]);
            }
        }
    }
}

proof fn lemma_char_line_end_is(cs: Seq<char>, m: int)
    requires
        0 <= m <= cs.len(),
        m < cs.len() ==> cs[m] == '\n',
        forall|k: int| 0 <= k < m ==> cs[k] != '\n',
    ensures
        char_line_end(cs) == m,
    decreases cs.len(),
{
    if cs.len() > 0 && m > 0 {
        let t = cs.drop_first();
        assert forall|k: int| 0 <= k < m - 1 implies t[k] != '\n' by {
            assert(t[k] == cs[k + 1]);
        }
        lemma_char_line_end_is(t, m - 1);
    }
}

proof fn lemma_line_rows_bound(n: nat, w: nat)
    ensures
        line_rows(n, w) <= if n == 0 { 1 } else { n },
{
    if w > 0 && n > 0 {
        assert(n / w <= n) by (nonlinear_arith)
            requires
                w > 0,
        ;
        if n % w != 0 {
            assert(w >= 2);
            assert(n / w + 1 <= n) by (nonlinear_arith)
                requires
                    w >= 2,
                    n > 0,
                    n % w != 0,
            {
                assert(n == w * (n / w) + n % w);
                assert(n % w < w);
                if n / w >= 1 {
                    assert(w * (n / w) >= 2 * (n / w));
                }
            }
        }
    }
}

/// The first line of `v.skip(i)` runs from `i` to the newline at `j` (or
/// to the end), less a carriage return right before that newline; the rest
/// of the lines start after `j`.
proof fn lemma_text_lines_step(v: Seq<char>, i: int, j: int)
    requires
        0 <= i < j <= v.len() || (0 <= i <= j < v.len()),
        j < v.len() ==> v[j] == '\n',
        forall|k: int| i <= k < j ==> v[k] != '\n',
    ensures
        ({
            let strip = j < v.len() && j - i > 0 && v[j - 1] == '\r';
            let len = if strip { j - i - 1 } else { j - i };
            let rest = if j < v.len() { v.skip(j + 1) } else { Seq::<char>::empty() };
            &&& text_lines(v.skip(i)).len() > 0
            &&& text_lines(v.skip(i))[0].len() == len
            &&& text_lines(v.skip(i)).drop_first() == text_lines(rest)
            &&& rest.len() == if j < v.len() { v.len() - j - 1 } else { 0 }
        }),
{
    let cs = v.skip(i);
    assert forall|k: int| 0 <= k < j - i implies cs[k] != '\n' by {
        assert(cs[k] == v[i + k]);
    }
    if j < v.len() {
        assert(cs[j - i] == v[j]);
    }
    lemma_char_line_end_is(cs, j - i);
    if j < v.len() {
        let l = cs.take(j - i);
        if l.len() > 0 {
            assert(l.last() == v[j - 1]);
        }
        assert(cs.skip(j - i + 1) =~= v.skip(j + 1));
        assert(text_lines(cs).drop_first() =~= text_lines(v.skip(j + 1)));
    } else {
        assert(text_lines(cs) == seq![cs]);
        assert(text_lines(cs).drop_first() =~= Seq::<Seq<char>>::empty());
        assert(text_lines(Seq::<char>::empty()) =~= Seq::<Seq<char>>::empty());
    }
}

proof fn lemma_total_rows_bound(cs: Seq<char>, w: nat)
    ensures
        total_rows(text_lines(cs), w) <= cs.len(),
    decreases cs.len(),
{
    if cs.len() > 0 {
        lemma_char_line_end(cs);
        let e = char_line_end(cs);
        assert(cs.skip(0) =~= cs);
        lemma_text_lines_step(cs, 0, e);
        let ls = text_lines(cs);
        lemma_line_rows_bound(ls[0].len(), w);
        assert(total_rows(ls, w) == line_rows(ls[0].len(), w) + total_rows(ls.drop_first(), w));
        if e < cs.len() {
            lemma_total_rows_bound(cs.skip(e + 1), w);
        } else {
            assert(text_lines(Seq::<char>::empty()).len() == 0);
        }
    }
}

/// The characters of `s`, one by one.
pub fn chars_of(s: &str) -> (v: Vec<char>)
    ensures
        v@ == s@,
{
    broadcast use vstd::string::axiom_spec_iter;
    let mut v: Vec<char> = Vec::new();
    for c in it: s.chars()
        invariant
            it.seq() == s@,
            v@ == it.seq().take(it.index() as int),
    {
        v.push(c);
        proof {
            assert(v@ =~= it.seq().take(it.index() + 1));
        }
    }
    proof {
        assert(v@ =~= s@);
    }
    v
}

fn rows(n: usize, w: u16) -> (r: usize)
    ensures
        r == line_rows(n as nat, w as nat),
{
    if w == 0 || n == 0 {
        1
    } else {
        let w = w as usize;
        if n % w == 0 {
            n / w
        } else {
            proof {
                assert(n / w < n) by (nonlinear_arith)
                    requires
                        w > 0,
                        n > 0,
                        n % w != 0,
                {
                    assert(n == w * (n / w) + n % w);
                }
            }
            n / w + 1
        }
    }
}

/// Rows `contents` occupies once wrapped into `width` columns: each line
/// takes the ceiling of its character count over the width, at least one
/// row. A character-count ceiling, not a word-wrap simulation.
pub fn wrapped_lines(contents: &str, width: u16) -> (r: usize)
    ensures
        r == total_rows(text_lines(contents@), width as nat),
{
    let v = chars_of(contents);
    let n = v.len();
    let ghost w = width as nat;
    let mut total: usize = 0;
    let mut i: usize = 0;
    proof {
        assert(v@.skip(0) =~= v@);
        lemma_total_rows_bound(v@, w);
    }
    while i < n
        invariant
            n == v@.len(),
            w == width as nat,
            i <= n,
            total + total_rows(text_lines(v@.skip(i as int)), w) == total_rows(text_lines(v@), w),
            total_rows(text_lines(v@), w) <= n,
        decreases n - i,
    {
        let mut j = i;
        while j < n && v[j] != '\n'
            invariant
                i <= j <= n,
                n == v@.len(),
                forall|k: int| i <= k < j ==> v@[k] != '\n',
            decreases n - j,
        {
            j += 1;
        }
        let mut len = j - i;
        let strip = j < n && len > 0 && v[j - 1] == '\r';
        if strip {
            len -= 1;
        }
        let add = rows(len, width);
        proof {
            lemma_text_lines_step(v@, i as int, j as int);
            let rest = if j < n { v@.skip(j + 1) } else { Seq::<char>::empty() };
            if j >= n {
                assert(v@.skip(n as int) =~= Seq::<char>::empty());
            }
            lemma_total_rows_bound(rest, w);
            let ls = text_lines(v@.skip(i as int));
            assert(total_rows(ls, w) == line_rows(ls[0].len(), w) + total_rows(ls.drop_first(), w));
        }
        total = total + add;
        i = if j < n {
            j + 1
        } else {
            n
        };
    }
    proof {
        assert(v@.skip(n as int) =~= Seq::<char>::empty());
    }
    total
}

/// A session file name without its `.md` extension, as bytes; other names
/// are left whole.
pub open spec fn stem_bytes(b: Seq<u8>) -> Seq<u8> {
    if b.len() >= 3 && b.skip(b.len() - 3) == seq![46u8, 109u8, 100u8] {
        b.take(b.len() - 3)
    } else {
        b
    }
}

/// Whether a stem has the `YYYY-MM-DD_HH-MM` shape the picker prettifies:
/// at least 16 bytes, `-` `-` `_` `-` at bytes 4, 7, 10 and 13, and a
/// character boundary after the minutes.
pub open spec fn timestamp_shaped(s: Seq<u8>) -> bool {
    &&& s.len() >= 16
    &&& s[4] == 45u8
    &&& s[7] == 45u8
    &&& s[10] == 95u8
    &&& s[13] == 45u8
    &&& is_char_boundary(s, 16)
}

/// `2026-05-31_14-30.md` shown as `2026-05-31  14:30`, any suffix after the
/// minutes kept; a name of another shape is shown verbatim.
pub open spec fn pretty_bytes(name: Seq<u8>) -> Seq<u8> {
    let s = stem_bytes(name);
    if timestamp_shaped(s) {
        s.take(10) + seq![32u8, 32u8] + s.subrange(11, 13) + seq![58u8] + s.subrange(14, 16)
            + s.skip(16)
    } else {
        name
    }
}

/// The characters `pretty_bytes` spells.
pub open spec fn pretty_chars(name: Seq<char>) -> Seq<char> {
    decode_utf8(pretty_bytes(encode_utf8(name)))
}

/// A field shown zero-padded to `w` digits takes exactly `w` digits when
/// its value is below `10^w`.
proof fn lemma_padded_width(n: nat, w: nat)
    requires
        1 <= w,
        n < pow10(w),
    ensures
        zero_padded(n, w).len() == w,
        is_ascii_chars(zero_padded(n, w)),
{
    lemma_decimal_len_bound(n, w);
    lemma_zero_padded_ascii(n, w);
}

/// The picker shows the file a session of `ts` is stored in (its file stem
/// and `.md`) as the header text of `ts` with the space between date and
/// time doubled: `2026-05-31_14-30.md` as `2026-05-31  14:30`. It holds for
/// every timestamp whose fields fit their widths (a four-digit year, two
/// digits for the rest).
pub proof fn lemma_pretty_name_of_stem(ts: Timestamp)
    requires
        ts.year <= 9999,
        ts.month <= 99,
        ts.day <= 99,
        ts.hour <= 99,
        ts.minute <= 99,
    ensures
        pretty_chars(file_stem(ts) + seq!['.', 'm', 'd']) == ts.header_chars().take(11) + seq![' ']
            + ts.header_chars().skip(11),
{
    broadcast use vstd::utf8::is_char_boundary_start_end_of_seq;
    assert(pow10(4) == 10000 && pow10(2) == 100) by {
        reveal_with_fuel(pow10, 5);
    }
    lemma_padded_width(ts.year as nat, 4);
    lemma_padded_width(ts.month as nat, 2);
    lemma_padded_width(ts.day as nat, 2);
    lemma_padded_width(ts.hour as nat, 2);
    lemma_padded_width(ts.minute as nat, 2);
    let y = zero_padded(ts.year as nat, 4);
    let mo = zero_padded(ts.month as nat, 2);
    let d = zero_padded(ts.day as nat, 2);
    let h = zero_padded(ts.hour as nat, 2);
    let mi = zero_padded(ts.minute as nat, 2);
    let fs = file_stem(ts);
    let name = fs + seq!['.', 'm', 'd'];
    let hd = ts.header_chars();
    let t = y + seq!['-'] + mo + seq!['-'] + d + seq![' ', ' '] + h + seq![':'] + mi;
    assert(hd.take(11) + seq![' '] + hd.skip(11) =~= t);
    assert(fs.len() == 16);
    assert(is_ascii_chars(name));
    assert(is_ascii_chars(t));
    lemma_ascii_bytes(name);
    lemma_ascii_bytes(t);
    let nb = encode_utf8(name);
    assert(nb.skip(16) =~= seq![46u8, 109u8, 100u8]);
    let sb = nb.take(16);
    assert(stem_bytes(nb) == sb);
    assert(sb[4] == 45u8 && sb[7] == 45u8 && sb[10] == 95u8 && sb[13] == 45u8) by {
        assert(sb[4] == name[4] as u8);
        assert(sb[7] == name[7] as u8);
        assert(sb[10] == name[10] as u8);
        assert(sb[13] == name[13] as u8);
    }
    lemma_encode_concat(fs, seq!['.', 'm', 'd']);
    lemma_ascii_bytes(fs);
    assert(sb =~= encode_utf8(fs));
    encode_utf8_valid_utf8(fs);
    assert(is_char_boundary(sb, sb.len() as int));
    assert(timestamp_shaped(sb));
    let pb = sb.take(10) + seq![32u8, 32u8] + sb.subrange(11, 13) + seq![58u8] + sb.subrange(14, 16)
        + sb.skip(16);
    assert(pretty_bytes(nb) == pb);
    assert forall|k: int| 0 <= k < 17 implies #[trigger] pb[k] == encode_utf8(t)[k] by {
        if k < 10 {
            assert(pb[k] == name[k] as u8);
            assert(t[k] == name[k]);
        } else if k < 12 {
        } else if k < 14 {
            assert(pb[k] == name[k - 1] as u8);
            assert(t[k] == name[k - 1]);
        } else if k == 14 {
        } else {
            assert(pb[k] == name[k - 1] as u8);
            assert(t[k] == name[k - 1]);
        }
    }
    assert(pb =~= encode_utf8(t));
    encode_utf8_decode_utf8(t);
}

/// `2026-05-31_14-30.md` becomes `2026-05-31  14:30`, a collision suffix
/// after the minutes kept. Anything that does not match the format prints
/// verbatim, including a name whose minute field runs into a multi-byte
/// character.
pub fn pretty_name(name: &str) -> (r: String)
    ensures
        encode_utf8(r@) == pretty_bytes(encode_utf8(name@)),
        r@ == pretty_chars(name@),
{
    broadcast use vstd::utf8::encode_utf8_valid_utf8;
    let b = name.as_bytes();
    let n = b.len();
    let ghost nb = encode_utf8(name@);
    let stem: &str = if n >= 3 && b[n - 3] == 46u8 && b[n - 2] == 109u8 && b[n - 1] == 100u8 {
        proof {
            lemma_ascii_boundaries(nb, n - 3);
        }
        let (head, _) = name.split_at(n - 3);
        proof {
            assert(nb.skip(n - 3) =~= seq![46u8, 109u8, 100u8]);
        }
        head
    } else {
        proof {
            if n >= 3 {
                assert(nb.skip(n - 3)[0] == b[n - 3]);
                assert(nb.skip(n - 3)[1] == b[n - 2]);
                assert(nb.skip(n - 3)[2] == b[n - 1]);
            }
        }
        name
    };
    let sb = stem.as_bytes();
    let ghost s = encode_utf8(stem@);
    proof {
        assert(s == stem_bytes(nb));
    }
    if sb.len() >= 16 && sb[4] == 45u8 && sb[7] == 45u8 && sb[10] == 95u8 && sb[13] == 45u8
        && stem.is_char_boundary(16) {
        let (a16, rest) = stem.split_at(16);
        proof {
            lemma_ascii_boundaries(encode_utf8(a16@), 13);
        }
        let (a14, minutes) = a16.split_at(14);
        proof {
            lemma_ascii_boundaries(encode_utf8(a14@), 13);
        }
        let (a13, _) = a14.split_at(13);
        proof {
            lemma_ascii_boundaries(encode_utf8(a13@), 10);
        }
        let (a11, hours) = a13.split_at(11);
        proof {
            lemma_ascii_boundaries(encode_utf8(a11@), 10);
        }
        let (date, _) = a11.split_at(10);
        let mut out = date.to_owned();
        push_char(&mut out, ' ');
        push_char(&mut out, ' ');
        out.append(hours);
        push_char(&mut out, ':');
        out.append(minutes);
        out.append(rest);
        proof {
            let sp = seq![' ', ' '];
            let co = seq![':'];
            lemma_ascii_bytes(sp);
            lemma_ascii_bytes(co);
            assert(encode_utf8(sp) =~= seq![32u8, 32u8]);
            assert(encode_utf8(co) =~= seq![58u8]);
            assert(out@ =~= date@ + sp + hours@ + co + minutes@ + rest@);
            lemma_encode_concat(date@, sp);
            lemma_encode_concat(date@ + sp, hours@);
            lemma_encode_concat(date@ + sp + hours@, co);
            lemma_encode_concat(date@ + sp + hours@ + co, minutes@);
            lemma_encode_concat(date@ + sp + hours@ + co + minutes@, rest@);
            assert(encode_utf8(date@) =~= s.take(10));
            assert(encode_utf8(hours@) =~= s.subrange(11, 13));
            assert(encode_utf8(minutes@) =~= s.subrange(14, 16));
            assert(encode_utf8(rest@) =~= s.skip(16));
            assert(encode_utf8(out@) =~= pretty_bytes(nb));
            encode_utf8_decode_utf8(out@);
        }
        out
    } else {
        proof {
            encode_utf8_decode_utf8(name@);
        }
        name.to_owned()
    }
}

/// `n` spaces.
pub open spec fn spaces(n: nat) -> Seq<char> {
    Seq::new(n, |i: int| ' ')
}

/// What a row starts with: a pointer on the selected row, blanks elsewhere.
pub open spec fn row_marker(selected: bool) -> Seq<char> {
    if selected {
        seq!['\u{25b8}', ' ']
    } else {
        seq![' ', ' ']
    }
}

/// `2 open / 3 total`.
pub open spec fn counts_text(open: u32, total: u32) -> Seq<char> {
    decimal(open as nat) + " open / "@ + decimal(total as nat) + " total"@
}

/// One list row: the marker and the pretty name on the left, the counts on
/// the right, with enough spaces between to end the row at `ROW_WIDTH`
/// characters, but never fewer than one.
pub open spec fn row_chars(name: Seq<char>, open: u32, total: u32, selected: bool) -> Seq<char> {
    let left = row_marker(selected) + pretty_chars(name);
    let right = counts_text(open, total);
    let used = left.len() + right.len();
    let gap: nat = if used < ROW_WIDTH {
        (ROW_WIDTH - used) as nat
    } else {
        1
    };
    left + spaces(gap) + right
}

/// One list row: name on the left, counts flush right at `ROW_WIDTH`.
///
/// Laid out in a fixed width rather than the pane's, so the divider never
/// moves when the visible set changes. A name too long to align keeps one
/// space before its counts instead of running into them.
pub fn row_text(entry: &Entry, selected: bool) -> (r: String)
    ensures
        r@ == row_chars(entry.name@, entry.open, entry.total, selected),
{
    let mut left = String::new();
    if selected {
        push_char(&mut left, '\u{25b8}');
    } else {
        push_char(&mut left, ' ');
    }
    push_char(&mut left, ' ');
    let pretty = pretty_name(entry.name.as_str());
    left.append(pretty.as_str());
    let pretty_len = chars_of(pretty.as_str()).len();
    let mut right = decimal_string(entry.open as u64);
    right.append(" open / ");
    right.append(decimal_string(entry.total as u64).as_str());
    right.append(" total");
    proof {
        reveal_strlit(" open / ");
        reveal_strlit(" total");
        assert(pow10(10) == 10000000000nat) by {
            reveal_with_fuel(pow10, 11);
        }
        lemma_decimal_len_bound(entry.open as nat, 10);
        lemma_decimal_len_bound(entry.total as nat, 10);
        assert(right@ =~= counts_text(entry.open, entry.total));
        assert(left@ =~= row_marker(selected) + pretty_chars(entry.name@));
    }
    let right_len = decimal_len(entry.open as u64) + 8 + decimal_len(entry.total as u64) + 6;
    let used = pretty_len.saturating_add(2).saturating_add(right_len);
    let gap: usize = if used < ROW_WIDTH as usize {
        ROW_WIDTH as usize - used
    } else {
        1
    };
    let ghost start = left@;
    let mut i: usize = 0;
    while i < gap
        invariant
            i <= gap,
            left@ == start + spaces(i as nat),
        decreases gap - i,
    {
        push_char(&mut left, ' ');
        i += 1;
        proof {
            assert(left@ =~= start + spaces(i as nat));
        }
    }
    left.append(right.as_str());
    proof {
        assert(left@ =~= row_chars(entry.name@, entry.open, entry.total, selected));
    }
    left
}

/// One session in a plain listing: `name   2 open / 3 total`.
pub fn summary_line(entry: &Entry) -> (r: String)
    ensures
        r@ == entry.name@ + "   "@ + counts_text(entry.open, entry.total),
{
    let mut s = entry.name.clone();
    s.append("   ");
    s.append(decimal_string(entry.open as u64).as_str());
    s.append(" open / ");
    s.append(decimal_string(entry.total as u64).as_str());
    s.append(" total");
    proof {
        assert(s@ =~= entry.name@ + "   "@ + counts_text(entry.open, entry.total));
    }
    s
}

/// What a raw line of a session file is, for styling the preview: only the
/// shapes a session file is written in are told apart.
#[derive(Debug, Clone, Copy, PartialEq, Eq, Structural)]
pub enum LineKind {
    /// `# ...`, the session heading.
    Title,
    /// `## ...`, a pane heading.
    Heading,
    /// `- [x] ...` or `- [X] ...`.
    Done,
    /// `- [ ] ...`.
    Open,
    /// Anything else, such as notes added by hand.
    Other,
}

/// Whether `b` starts with `prefix`.
pub open spec fn starts(b: Seq<u8>, prefix: Seq<u8>) -> bool {
    b.len() >= prefix.len() && b.take(prefix.len() as int) == prefix
}

/// The kind of the line with bytes `b`.
pub open spec fn kind_of(b: Seq<u8>) -> LineKind {
    if starts(b, seq![35u8, 32u8]) {
        LineKind::Title
    } else if starts(b, seq![35u8, 35u8, 32u8]) {
        LineKind::Heading
    } else if starts(b, seq![45u8, 32u8, 91u8, 120u8, 93u8, 32u8]) || starts(
        b,
        seq![45u8, 32u8, 91u8, 88u8, 93u8, 32u8],
    ) {
        LineKind::Done
    } else if starts(b, seq![45u8, 32u8, 91u8, 32u8, 93u8, 32u8]) {
        LineKind::Open
    } else {
        LineKind::Other
    }
}

fn has_prefix(b: &[u8], prefix: &[u8]) -> (r: bool)
    ensures
        r == starts(b@, prefix@),
{
    if b.len() < prefix.len() {
        return false;
    }
    let mut i: usize = 0;
    while i < prefix.len()
        invariant
            i <= prefix@.len(),
            prefix@.len() <= b@.len(),
            forall|k: int| 0 <= k < i ==> b@[k] == prefix@[k],
        decreases prefix@.len() - i,
    {
        if b[i] != prefix[i] {
            proof {
                assert(b@.take(prefix@.len() as int)[i as int] != prefix@[i as int]);
            }
            return false;
        }
        i += 1;
    }
    proof {
        assert(b@.take(prefix@.len() as int) =~= prefix@);
    }
    true
}

/// The kind of a raw line of a session file.
pub fn line_kind(raw: &str) -> (k: LineKind)
    ensures
        k == kind_of(encode_utf8(raw@)),
{
    let b = raw.as_bytes();
    let title: [u8; 2] = [35u8, 32u8];
    let heading: [u8; 3] = [35u8, 35u8, 32u8];
    let done: [u8; 6] = [45u8, 32u8, 91u8, 120u8, 93u8, 32u8];
    let shouted: [u8; 6] = [45u8, 32u8, 91u8, 88u8, 93u8, 32u8];
    let open: [u8; 6] = [45u8, 32u8, 91u8, 32u8, 93u8, 32u8];
    proof {
        assert(title@ =~= seq![35u8, 32u8]);
        assert(heading@ =~= seq![35u8, 35u8, 32u8]);
        assert(done@ =~= seq![45u8, 32u8, 91u8, 120u8, 93u8, 32u8]);
        assert(shouted@ =~= seq![45u8, 32u8, 91u8, 88u8, 93u8, 32u8]);
        assert(open@ =~= seq![45u8, 32u8, 91u8, 32u8, 93u8, 32u8]);
    }
    if has_prefix(b, title.as_slice()) {
        LineKind::Title
    } else if has_prefix(b, heading.as_slice()) {
        LineKind::Heading
    } else if has_prefix(b, done.as_slice()) || has_prefix(b, shouted.as_slice()) {
        LineKind::Done
    } else if has_prefix(b, open.as_slice()) {
        LineKind::Open
    } else {
        LineKind::Other
    }
}

/// Outcome of a keypress while the delete confirmation is on screen.
#[derive(Debug, Clone, Copy, PartialEq, Eq, Structural)]
pub enum Confirm {
    Delete,
    Cancel,
}

/// Only `y` goes through with a delete; every other key cancels, so a stray
/// keypress can never fall through to the one destructive action.
pub fn confirm_key(code: KeyCode) -> (r: Confirm)
    ensures
        r == (if code == KeyCode::Char('y') { Confirm::Delete } else { Confirm::Cancel }),
{
    match code {
        KeyCode::Char(c) => if c == 'y' { Confirm::Delete } else { Confirm::Cancel },
        _ => Confirm::Cancel,
    }
}

/// Whether `a` sorts strictly before `b`, byte by byte, a proper prefix
/// first: the order of `String`s.
pub open spec fn lex_less(a: Seq<u8>, b: Seq<u8>) -> bool
    decreases a.len(),
{
    if a.len() == 0 {
        b.len() > 0
    } else if b.len() == 0 {
        false
    } else if a[0] != b[0] {
        a[0] < b[0]
    } else {
        lex_less(a.drop_first(), b.drop_first())
    }
}

proof fn lemma_lex_order(a: Seq<u8>, b: Seq<u8>, c: Seq<u8>)
    ensures
        !lex_less(a, a),
        !(lex_less(a, b) && lex_less(b, a)),
        lex_less(a, b) && lex_less(b, c) ==> lex_less(a, c),
        a == b || lex_less(a, b) || lex_less(b, a),
    decreases a.len(),
{
    if a.len() > 0 && b.len() > 0 && c.len() > 0 {
        lemma_lex_order(a.drop_first(), b.drop_first(), c.drop_first());
    } else if a.len() > 0 && b.len() > 0 {
        lemma_lex_order(a.drop_first(), b.drop_first(), a.drop_first());
    } else if a.len() > 0 {
        lemma_lex_order(a.drop_first(), a.drop_first(), a.drop_first());
    }
    if a.len() > 0 && b.len() > 0 && a[0] == b[0] && a.drop_first() == b.drop_first() {
        assert forall|i: int| 0 <= i < a.len() implies a[i] == b[i] by {
            if i > 0 {
                assert(a[i] == a.drop_first()[i - 1]);
                assert(b[i] == b.drop_first()[i - 1]);
            }
        }
        assert(a =~= b);
    }
    if a.len() == 0 && b.len() == 0 {
        assert(a =~= b);
    }
}

/// Whether `a` sorts strictly before `b` as strings.
fn bytes_less(a: &[u8], b: &[u8]) -> (r: bool)
    ensures
        r == lex_less(a@, b@),
{
    let mut i: usize = 0;
    proof {
        assert(a@.skip(0) =~= a@);
        assert(b@.skip(0) =~= b@);
    }
    while i < a.len() && i < b.len() && a[i] == b[i]
        invariant
            i <= a@.len(),
            i <= b@.len(),
            lex_less(a@, b@) == lex_less(a@.skip(i as int), b@.skip(i as int)),
        decreases a@.len() - i,
    {
        proof {
            assert(a@.skip(i as int).drop_first() =~= a@.skip(i + 1));
            assert(b@.skip(i as int).drop_first() =~= b@.skip(i + 1));
        }
        i += 1;
    }
    if i == a.len() {
        i < b.len()
    } else if i == b.len() {
        false
    } else {
        a[i] < b[i]
    }
}

/// The session file extension, as bytes.
pub open spec fn has_session_extension(name: Seq<u8>) -> bool {
    name.len() >= 3 && name.skip(name.len() - 3) == seq![46u8, 109u8, 100u8]
}

/// Whether a directory entry named `name` is a session file: it ends in
/// `.md`. Other files share the directory unbothered.
pub fn is_session_file(name: &str) -> (r: bool)
    ensures
        r == has_session_extension(encode_utf8(name@)),
{
    let b = name.as_bytes();
    let n = b.len();
    let r = n >= 3 && b[n - 3] == 46u8 && b[n - 2] == 109u8 && b[n - 1] == 100u8;
    proof {
        if n >= 3 {
            assert(b@.skip(n - 3) =~= seq![b@[n - 3], b@[n - 2], b@[n - 1]]);
        }
    }
    r
}

/// The picker's entry for a session file: its name, its task counts, and
/// its text for the preview.
pub open spec fn entry_of(name: String, contents: String) -> Entry {
    let t = task_totals(lines(encode_utf8(contents@)));
    Entry { name, open: t.0 as u32, total: t.1 as u32, contents }
}

/// Whether `es` runs newest first: no name sorts after the one before it.
pub open spec fn newest_first(es: Seq<Entry>) -> bool {
    forall|i: int, j: int|
        0 <= i < j < es.len() ==> !lex_less(
            encode_utf8(#[trigger] es[i].name@),
            encode_utf8(#[trigger] es[j].name@),
        )
}

/// The picker's entries for session files read from disk, given as
/// (name, contents) pairs: each counted, newest first. Given the
/// `YYYY-MM-DD_HH-MM` names, newest first is descending string order.
pub fn session_entries(files: Vec<(String, String)>) -> (r: Vec<Entry>)
    requires
        forall|i: int|
            0 <= i < files@.len() ==> task_totals(lines(encode_utf8((#[trigger] files@[i]).1@))).1
                <= u32::MAX,
    ensures
        r@.to_multiset() == files@.map_values(|f: (String, String)| entry_of(f.0, f.1)).to_multiset(),
        newest_first(r@),
{
    let ghost orig = files@;
    let ghost all = orig.map_values(|f: (String, String)| entry_of(f.0, f.1));
    let mut files = files;
    let mut r: Vec<Entry> = Vec::new();
    proof {
        assert(all.skip(orig.len() as int) =~= Seq::<Entry>::empty());
        assert(r@.to_multiset() =~= Seq::<Entry>::empty().to_multiset()) by {
            vstd::seq_lib::to_multiset_len(r@);
            vstd::seq_lib::to_multiset_len(Seq::<Entry>::empty());
            assert(r@ =~= Seq::<Entry>::empty());
        }
    }
    while files.len() > 0
        invariant
            files@ == orig.take(files@.len() as int),
            files@.len() <= orig.len(),
            all == orig.map_values(|f: (String, String)| entry_of(f.0, f.1)),
            forall|i: int|
                0 <= i < orig.len() ==> task_totals(lines(encode_utf8((#[trigger] orig[i]).1@))).1
                    <= u32::MAX,
            r@.to_multiset() == all.skip(files@.len() as int).to_multiset(),
            newest_first(r@),
        decreases files@.len(),
    {
        let ghost k = files@.len() - 1;
        let f = files.pop().unwrap();
        proof {
            assert(f == orig[k]);
            assert(files@ =~= orig.take(k));
        }
        let (name, contents) = f;
        let c = count_tasks(contents.as_str());
        proof {
            lemma_task_totals_bound(lines(encode_utf8(contents@)));
        }
        let e = Entry { name, open: c.open, total: c.total, contents };
        proof {
            assert(e == all[k]);
        }
        let mut j: usize = 0;
        while j < r.len() && !bytes_less(r[j].name.as_str().as_bytes(), e.name.as_str().as_bytes())
            invariant
                j <= r@.len(),
                forall|p: int|
                    0 <= p < j ==> !lex_less(
                        encode_utf8((#[trigger] r@[p]).name@),
                        encode_utf8(e.name@),
                    ),
            decreases r@.len() - j,
        {
            j += 1;
        }
        let ghost old_r = r@;
        proof {
            assert forall|p: int, q: int| 0 <= p < q < old_r.len() + 1 implies !lex_less(
                encode_utf8((#[trigger] old_r.insert(j as int, e)[p]).name@),
                encode_utf8((#[trigger] old_r.insert(j as int, e)[q]).name@),
            ) by {
                let s2 = old_r.insert(j as int, e);
                if q == j {
                    assert(s2[p] == old_r[p]);
                } else if p == j {
                    let x = encode_utf8(old_r[q - 1].name@);
                    let y = encode_utf8(old_r[j as int].name@);
                    let z = encode_utf8(e.name@);
                    assert(s2[q] == old_r[q - 1]);
                    assert(lex_less(y, z));
                    if q - 1 > j {
                        assert(!lex_less(y, x));
                    }
                    lemma_lex_order(x, y, z);
                    lemma_lex_order(z, x, y);
                } else if q < j {
                    assert(s2[p] == old_r[p] && s2[q] == old_r[q]);
                } else if p < j {
                    assert(s2[p] == old_r[p] && s2[q] == old_r[q - 1]);
                } else {
                    assert(s2[p] == old_r[p - 1] && s2[q] == old_r[q - 1]);
                }
            }
        }
        r.insert(j, e);
        proof {
            assert(all.skip(k) =~= all.skip(k + 1).insert(0, all[k]));
            vstd::seq_lib::to_multiset_insert(all.skip(k + 1), 0, all[k]);
            vstd::seq_lib::to_multiset_insert(old_r, j as int, e);
            assert(r@.to_multiset() == old_r.to_multiset().insert(e));
            assert(old_r.to_multiset() == all.skip(k + 1).to_multiset());
            assert(e == all[k]);
            assert(files@.len() == k);
        }
    }
    proof {
        assert(all.skip(0) =~= all);
    }
    r
}

/// The picker's screen: the cursor, whether finished sessions show, the
/// row a delete prompt is asking about, and the preview pane's state.
#[derive(Debug, Clone, Copy, PartialEq, Eq, Structural)]
pub struct PickerScreen {
    pub cursor: usize,
    pub show_all: bool,
    pub pending: Option<usize>,
    pub preview_on: bool,
    pub preview_scroll: usize,
}

/// The resume picker: the sessions on disk and where the user is among
/// them.
#[derive(Debug)]
pub struct Picker {
    pub entries: Vec<Entry>,
    pub screen: PickerScreen,
    pub last_click: ClickTracker<usize>,
}

/// What the picker's loop must do after an event.
#[derive(Debug, Clone, PartialEq, Eq)]
pub enum PickerAction {
    Continue,
    /// The picker is done.
    Finish(Choice),
    /// Delete this session file, re-scan, and carry on.
    Delete(String),
}

/// The page the preview scrolls by, for a terminal `height` rows tall: the
/// body between the two header rows and the status row.
pub open spec fn page_rows(height: u16) -> int {
    if height >= 3 {
        height - 3
    } else {
        0
    }
}

/// The preview pane's width on a terminal `width` columns wide: what the
/// list, the divider and the gutter leave.
pub open spec fn preview_cols(width: u16) -> int {
    if width >= LIST_WIDTH + 1 + GUTTER {
        width - (LIST_WIDTH + 1 + GUTTER)
    } else {
        0
    }
}

/// `clamp_scroll` as a value.
pub open spec fn clamped_scroll(scroll: int, lines: int, height: int) -> int {
    if lines > height {
        if scroll < lines - height {
            scroll
        } else {
            lines - height
        }
    } else {
        0
    }
}

/// The screen after a key press, with `v` the sessions on show, `page` the
/// preview's page and `ph` the rows the highlighted session's preview takes.
/// While a delete prompt is up any key answers it and clears it.
pub open spec fn picker_key_screen(s: PickerScreen, v: Seq<Entry>, key: KeyEvent, page: int, ph: int) -> PickerScreen {
    let code = key.code;
    let c = s.cursor;
    let len = v.len();
    if s.pending is Some {
        PickerScreen { pending: None, ..s }
    } else if code == KeyCode::Down || code == KeyCode::Char('j') {
        if c + 1 < len {
            PickerScreen { cursor: (c + 1) as usize, ..s }
        } else {
            s
        }
    } else if code == KeyCode::Up || code == KeyCode::Char('k') {
        PickerScreen { cursor: if c > 0 { (c - 1) as usize } else { 0 }, ..s }
    } else if code == KeyCode::Char('a') {
        PickerScreen { show_all: !s.show_all, cursor: 0, ..s }
    } else if code == KeyCode::Char('d') && key.control {
        let want = if s.preview_scroll + page / 2 <= usize::MAX {
            s.preview_scroll + page / 2
        } else {
            usize::MAX as int
        };
        PickerScreen { preview_scroll: clamped_scroll(want, ph, page) as usize, ..s }
    } else if code == KeyCode::Char('u') && key.control {
        PickerScreen {
            preview_scroll: if s.preview_scroll >= page / 2 {
                (s.preview_scroll - page / 2) as usize
            } else {
                0
            },
            ..s
        }
    } else if code == KeyCode::Char('d') {
        if c < len {
            PickerScreen { pending: Some(c), ..s }
        } else {
            s
        }
    } else if code == KeyCode::Char('p') {
        PickerScreen { preview_on: !s.preview_on, ..s }
    } else {
        s
    }
}

/// What a key press asks of the loop: `y` at the prompt deletes the session
/// it asked about; Esc or `q` cancels the picker; Enter opens the session
/// under the cursor.
pub open spec fn picker_key_action(s: PickerScreen, v: Seq<Entry>, key: KeyEvent) -> PickerAction {
    let code = key.code;
    match s.pending {
        Some(i) => if code == KeyCode::Char('y') && i < v.len() {
            PickerAction::Delete(v[i as int].name)
        } else {
            PickerAction::Continue
        },
        None => if code == KeyCode::Esc || code == KeyCode::Char('q') {
            PickerAction::Finish(Choice::Cancelled)
        } else if code == KeyCode::Enter && s.cursor < v.len() {
            PickerAction::Finish(Choice::Selected(v[s.cursor as int].name))
        } else {
            PickerAction::Continue
        },
    }
}

/// The row a left click at `row` lands on, when it is one of `v`'s.
pub open spec fn clicked_row(m: MouseEvent, len: int) -> Option<int> {
    if m.kind == MouseKind::Down(MouseButton::Left) && m.row >= FIRST_ROW && m.row - FIRST_ROW
        < len {
        Some(m.row - FIRST_ROW)
    } else {
        None
    }
}

/// A new offset in the preview only makes sense for the session it was
/// scrolled in: moving the cursor starts the next one at the top.
pub open spec fn scroll_reset(before: PickerScreen, after: PickerScreen) -> PickerScreen {
    if after.cursor != before.cursor {
        PickerScreen { preview_scroll: 0, ..after }
    } else {
        after
    }
}

impl Picker {
    /// The sessions on show: those with unfinished work, or all of them.
    pub open spec fn visible(self) -> Seq<Entry> {
        shown(self.entries@, self.screen.show_all, self.entries@.len())
    }

    /// The rows the highlighted session's preview takes at `width`.
    pub open spec fn preview_rows(self, width: u16) -> int {
        if self.screen.cursor < self.visible().len() {
            total_rows(
                text_lines(self.visible()[self.screen.cursor as int].contents@),
                preview_cols(width) as nat,
            ) as int
        } else {
            0
        }
    }

    /// The picker `settle` leaves: the cursor pulled back onto the last
    /// session when it ran past the end, and a delete prompt dropped when
    /// its row went away.
    pub open spec fn settled(self) -> Picker {
        let len = self.visible().len();
        Picker {
            entries: self.entries,
            screen: PickerScreen {
                cursor: if self.screen.cursor >= len && len > 0 {
                    (len - 1) as usize
                } else {
                    self.screen.cursor
                },
                pending: match self.screen.pending {
                    Some(i) => if i >= len {
                        None
                    } else {
                        Some(i)
                    },
                    None => None,
                },
                ..self.screen
            },
            last_click: self.last_click,
        }
    }

    /// One turn of the picker's loop: settle, then the event `e` (read at
    /// `now` on a `width` by `height` terminal) takes the picker to
    /// `stepped` and asks for `r`; after a delete the sessions are read
    /// again into `after`, the preview back at the top, else `after` is
    /// `stepped`.
    pub open spec fn turn(self, stepped: Picker, after: Picker, e: Event, now: u64, width: u16, height: u16, r: PickerAction) -> bool {
        &&& self.settled().event_step(stepped, e, now, width, height, r)
        &&& if r is Delete {
            &&& after.screen == (PickerScreen { preview_scroll: 0, ..stepped.screen })
            &&& after.last_click == stepped.last_click
        } else {
            after == stepped
        }
    }

    /// The whole effect of an event on a terminal `width` by `height`, at
    /// `now` nanoseconds. Key releases and anything that is neither a key
    /// nor a mouse event change nothing; the mouse is inert while the delete
    /// prompt is up.
    pub open spec fn event_step(self, after: Picker, e: Event, now: u64, width: u16, height: u16, r: PickerAction) -> bool {
        let s = self.screen;
        let v = self.visible();
        &&& after.entries == self.entries
        &&& match e {
            Event::Key(k) => if k.press {
                &&& after.screen == scroll_reset(
                    s,
                    picker_key_screen(s, v, k, page_rows(height), self.preview_rows(width)),
                )
                &&& r == picker_key_action(s, v, k)
                &&& after.last_click == self.last_click
            } else {
                &&& after.screen == s
                &&& r == PickerAction::Continue
                &&& after.last_click == self.last_click
            },
            Event::Mouse(m) => if s.pending is None && clicked_row(m, v.len() as int) is Some {
                let i = clicked_row(m, v.len() as int)->0;
                let double = pairs(self.last_click.pending(), i as usize, now);
                &&& after.screen == scroll_reset(s, PickerScreen { cursor: i as usize, ..s })
                &&& after.last_click.pending() == if double {
                    None
                } else {
                    Some((now, i as usize))
                }
                &&& r == if double {
                    PickerAction::Finish(Choice::Selected(v[i].name))
                } else {
                    PickerAction::Continue
                }
            } else {
                &&& after.screen == s
                &&& r == PickerAction::Continue
                &&& after.last_click == self.last_click
            },
            _ => {
                &&& after.screen == s
                &&& r == PickerAction::Continue
                &&& after.last_click == self.last_click
            },
        }
    }

    /// A picker over `entries`, cursor at the top, preview on. Finished
    /// sessions show from the start when there is nothing unfinished.
    pub fn new(entries: Vec<Entry>) -> (p: Picker)
        ensures
            p.entries == entries,
            p.screen == (PickerScreen {
                cursor: 0,
                show_all: entries@.len() > 0 && forall|i: int|
                    0 <= i < entries@.len() ==> entries@[i].open == 0,
                pending: None,
                preview_on: true,
                preview_scroll: 0,
            }),
            p.last_click.pending() is None,
    {
        let show_all = show_all_on_open(entries.as_slice());
        Picker {
            entries,
            screen: PickerScreen {
                cursor: 0,
                show_all,
                pending: None,
                preview_on: true,
                preview_scroll: 0,
            },
            last_click: ClickTracker::default(),
        }
    }

    /// The sessions on show.
    pub fn visible_entries(&self) -> (r: Vec<&Entry>)
        ensures
            r@.len() == self.visible().len(),
            forall|i: int| 0 <= i < r@.len() ==> *r@[i] == self.visible()[i],
    {
        filter_visible(self.entries.as_slice(), self.screen.show_all)
    }

    /// Before each frame: keep the cursor on a session when there are any,
    /// and drop a delete prompt whose row went away underneath it rather
    /// than aim it at whatever slid up.
    pub fn settle(&mut self)
        ensures
            *final(self) == old(self).settled(),
    {
        let len = filter_visible(self.entries.as_slice(), self.screen.show_all).len();
        if self.screen.cursor >= len && len > 0 {
            self.screen.cursor = len - 1;
        }
        if let Some(i) = self.screen.pending {
            if i >= len {
                self.screen.pending = None;
            }
        }
    }

    /// After a delete: the sessions now on disk, the preview back at the top.
    /// The cursor stays where it was, so the next session slides up under it.
    pub fn replace_entries(&mut self, entries: Vec<Entry>)
        ensures
            final(self).entries == entries,
            final(self).screen == (PickerScreen { preview_scroll: 0, ..old(self).screen }),
            final(self).last_click == old(self).last_click,
    {
        self.entries = entries;
        self.screen.preview_scroll = 0;
    }

    fn on_key(&mut self, key: KeyEvent, width: u16, height: u16) -> (r: PickerAction)
        requires
            key.press,
        ensures
            final(self).entries == old(self).entries,
            final(self).last_click == old(self).last_click,
            final(self).screen == picker_key_screen(
                old(self).screen,
                old(self).visible(),
                key,
                page_rows(height),
                old(self).preview_rows(width),
            ),
            r == picker_key_action(old(self).screen, old(self).visible(), key),
    {
        let visible = filter_visible(self.entries.as_slice(), self.screen.show_all);
        let len = visible.len();
        let page = height.saturating_sub(3) as usize;
        let pw = width.saturating_sub(LIST_WIDTH + 1 + GUTTER);
        let c = self.screen.cursor;
        if let Some(index) = self.screen.pending {
            self.screen.pending = None;
            if confirm_key(key.code) == Confirm::Delete && index < len {
                return PickerAction::Delete(visible[index].name.clone());
            }
            return PickerAction::Continue;
        }
        match key.code {
            KeyCode::Esc | KeyCode::Char('q') => {
                return PickerAction::Finish(Choice::Cancelled);
            },
            KeyCode::Down | KeyCode::Char('j') => {
                if c < len && c + 1 < len {
                    self.screen.cursor = c + 1;
                }
            },
            KeyCode::Up | KeyCode::Char('k') => {
                self.screen.cursor = c.saturating_sub(1);
            },
            KeyCode::Char('a') => {
                self.screen.show_all = !self.screen.show_all;
                self.screen.cursor = 0;
            },
            KeyCode::Char('d') if key.control => {
                let ph = if c < len {
                    wrapped_lines(visible[c].contents.as_str(), pw)
                } else {
                    0
                };
                self.screen.preview_scroll = clamp_scroll(
                    self.screen.preview_scroll.saturating_add(page / 2),
                    ph,
                    page,
                );
            },
            KeyCode::Char('u') if key.control => {
                self.screen.preview_scroll = self.screen.preview_scroll.saturating_sub(page / 2);
            },
            KeyCode::Char('d') => {
                if c < len {
                    self.screen.pending = Some(c);
                }
            },
            KeyCode::Char('p') => self.screen.preview_on = !self.screen.preview_on,
            KeyCode::Enter => {
                if c < len {
                    return PickerAction::Finish(Choice::Selected(visible[c].name.clone()));
                }
            },
            _ => {},
        }
        PickerAction::Continue
    }

    /// Apply one event on a terminal `width` by `height`, at `now`
    /// nanoseconds on a monotonic clock.
    pub fn on_event(&mut self, e: Event, now: u64, width: u16, height: u16) -> (r: PickerAction)
        ensures
            old(self).event_step(*final(self), e, now, width, height, r),
    {
        let before = self.screen.cursor;
        let r = match e {
            Event::Key(k) => {
                if k.press {
                    self.on_key(k, width, height)
                } else {
                    PickerAction::Continue
                }
            },
            Event::Mouse(m) => {
                if self.screen.pending.is_none() {
                    self.on_click(m, now)
                } else {
                    PickerAction::Continue
                }
            },
            _ => PickerAction::Continue,
        };
        if self.screen.cursor != before {
            self.screen.preview_scroll = 0;
        }
        r
    }

    fn on_click(&mut self, m: MouseEvent, now: u64) -> (r: PickerAction)
        ensures
            final(self).entries == old(self).entries,
            clicked_row(m, old(self).visible().len() as int) is None ==> {
                &&& final(self).screen == old(self).screen
                &&& final(self).last_click == old(self).last_click
                &&& r == PickerAction::Continue
            },
            clicked_row(m, old(self).visible().len() as int) matches Some(i) ==> {
                let double = pairs(old(self).last_click.pending(), i as usize, now);
                &&& final(self).screen == (PickerScreen { cursor: i as usize, ..old(self).screen })
                &&& final(self).last_click.pending() == if double {
                    None
                } else {
                    Some((now, i as usize))
                }
                &&& r == if double {
                    PickerAction::Finish(Choice::Selected(old(self).visible()[i].name))
                } else {
                    PickerAction::Continue
                }
            },
    {
        let left = match m.kind {
            MouseKind::Down(MouseButton::Left) => true,
            _ => false,
        };
        if !left || m.row < FIRST_ROW {
            return PickerAction::Continue;
        }
        let index = (m.row - FIRST_ROW) as usize;
        let visible = filter_visible(self.entries.as_slice(), self.screen.show_all);
        if index >= visible.len() {
            return PickerAction::Continue;
        }
        let name = visible[index].name.clone();
        let is_double = self.last_click.click(index, now);
        self.screen.cursor = index;
        if is_double {
            PickerAction::Finish(Choice::Selected(name))
        } else {
            PickerAction::Continue
        }
    }
}

/// A key press.
pub open spec fn is_key_press(e: Event) -> bool {
    e matches Event::Key(k) && k.press
}

/// A press of `c` without Control.
pub open spec fn is_plain_press(e: Event, c: char) -> bool {
    e matches Event::Key(k) && k.press && k.code == KeyCode::Char(c) && !k.control
}

/// A press of `c`, with or without Control.
pub open spec fn is_press_of(e: Event, c: char) -> bool {
    e matches Event::Key(k) && k.press && k.code == KeyCode::Char(c)
}

/// Turn `j` of a run was `d` on a session row with no prompt up, the
/// prompt asking about row `i`, the row the cursor was on.
pub open spec fn prompt_raised_at(ps: Seq<Picker>, ins: Seq<(Event, u64, u16, u16)>, j: int, i: usize) -> bool {
    let s = ps[j].settled();
    &&& is_plain_press(ins[j].0, 'd')
    &&& s.screen.pending is None
    &&& i == s.screen.cursor
    &&& i < s.visible().len()
}

/// A run of the picker's loop: `ps[t]` is the picker before turn `t`, the
/// turn reads `ins[t]`, steps to `qs[t]` and asks for `rs[t]`.
pub open spec fn is_run(
    ps: Seq<Picker>,
    qs: Seq<Picker>,
    ins: Seq<(Event, u64, u16, u16)>,
    rs: Seq<PickerAction>,
) -> bool {
    &&& ps.len() == ins.len() + 1
    &&& qs.len() == ins.len()
    &&& rs.len() == ins.len()
    &&& forall|t: int|
        0 <= t < ins.len() ==> #[trigger] ps[t].turn(qs[t], ps[t + 1], ins[t].0, ins[t].1, ins[t].2, ins[t].3, rs[t])
}

/// What one turn can do with the delete prompt.
proof fn lemma_turn_prompt(p: Picker, q: Picker, a: Picker, e: Event, now: u64, w: u16, h: u16, r: PickerAction)
    requires
        p.turn(q, a, e, now, w, h, r),
    ensures
        p.settled().visible() == p.visible(),
        r is Delete ==> {
            &&& is_press_of(e, 'y')
            &&& p.settled().screen.pending is Some
            &&& p.settled().screen.pending->0 < p.visible().len()
            &&& r == PickerAction::Delete(p.visible()[p.settled().screen.pending->0 as int].name)
        },
        a.screen.pending is Some ==> {
            &&& !(r is Delete)
            &&& a.visible() == p.visible()
            &&& {
                ||| (is_plain_press(e, 'd') && p.settled().screen.pending is None && a.screen.pending
                    == Some(p.settled().screen.cursor) && p.settled().screen.cursor < p.visible().len())
                ||| (!is_key_press(e) && p.screen.pending == a.screen.pending)
            }
        },
{
    let m = p.settled();
    assert(m.visible() == p.visible());
    match e {
        Event::Key(k) => {
            if k.press {
                if m.screen.pending is Some {
                    assert(q.screen.pending is None);
                } else {
                    assert(!(r is Delete));
                }
            }
        },
        Event::Mouse(mo) => {},
        _ => {},
    }
    if r is Delete {
        assert(a.screen.pending is None);
    }
}

/// Whenever a prompt is up, some earlier turn raised it with `d`, no key
/// was pressed since, and the sessions on show are those of that turn.
proof fn lemma_prompt_origin(
    ps: Seq<Picker>,
    qs: Seq<Picker>,
    ins: Seq<(Event, u64, u16, u16)>,
    rs: Seq<PickerAction>,
    t: int,
)
    requires
        is_run(ps, qs, ins, rs),
        ps[0].screen.pending is None,
        0 <= t < ps.len(),
    ensures
        ps[t].screen.pending is Some ==> exists|j: int|
            0 <= j < t && #[trigger] prompt_raised_at(ps, ins, j, ps[t].screen.pending->0)
                && (forall|m: int| j < m < t ==> !is_key_press(#[trigger] ins[m].0))
                && ps[t].visible() == ps[j].visible(),
    decreases t,
{
    if t > 0 && ps[t].screen.pending is Some {
        let u = t - 1;
        assert(ps[u].turn(qs[u], ps[u + 1], ins[u].0, ins[u].1, ins[u].2, ins[u].3, rs[u]));
        lemma_turn_prompt(ps[u], qs[u], ps[t], ins[u].0, ins[u].1, ins[u].2, ins[u].3, rs[u]);
        let i = ps[t].screen.pending->0;
        if is_plain_press(ins[u].0, 'd') && ps[u].settled().screen.pending is None {
            assert(prompt_raised_at(ps, ins, u, i));
        } else {
            lemma_prompt_origin(ps, qs, ins, rs, u);
            let j = choose|j: int|
                0 <= j < u && #[trigger] prompt_raised_at(ps, ins, j, ps[u].screen.pending->0)
                    && (forall|m: int| j < m < u ==> !is_key_press(#[trigger] ins[m].0))
                    && ps[u].visible() == ps[j].visible();
            assert(prompt_raised_at(ps, ins, j, i));
            assert forall|m: int| j < m < t implies !is_key_press(#[trigger] ins[m].0) by {
                if m < u {
                }
            }
        }
    }
}

/// A session file is deleted only as the answer `y` to a prompt that `d`
/// raised. Over any run of the picker's loop that starts with no prompt up
/// (as `Picker::new` starts), a turn that asks for a delete was a press of
/// `y`; an earlier turn was a press of `d` without Control, with no prompt
/// up and the cursor on a session; no key was pressed in between; and the
/// file named is the session the cursor was on at that `d`. Every other
/// answer to the prompt, and every mouse or other event, deletes nothing.
pub proof fn lemma_delete_needs_d_then_y(
    ps: Seq<Picker>,
    qs: Seq<Picker>,
    ins: Seq<(Event, u64, u16, u16)>,
    rs: Seq<PickerAction>,
    k: int,
)
    requires
        is_run(ps, qs, ins, rs),
        ps[0].screen.pending is None,
        0 <= k < ins.len(),
        rs[k] is Delete,
    ensures
        is_press_of(ins[k].0, 'y'),
        exists|j: int|
            0 <= j < k && #[trigger] is_plain_press(ins[j].0, 'd') && {
                let s = ps[j].settled();
                &&& s.screen.pending is None
                &&& s.screen.cursor < s.visible().len()
                &&& rs[k] == PickerAction::Delete(s.visible()[s.screen.cursor as int].name)
                &&& forall|m: int| j < m < k ==> !is_key_press(#[trigger] ins[m].0)
            },
{
    assert(ps[k].turn(qs[k], ps[k + 1], ins[k].0, ins[k].1, ins[k].2, ins[k].3, rs[k]));
    lemma_turn_prompt(ps[k], qs[k], ps[k + 1], ins[k].0, ins[k].1, ins[k].2, ins[k].3, rs[k]);
    let i = ps[k].settled().screen.pending->0;
    assert(ps[k].screen.pending == Some(i));
    lemma_prompt_origin(ps, qs, ins, rs, k);
    let j = choose|j: int|
        0 <= j < k && #[trigger] prompt_raised_at(ps, ins, j, ps[k].screen.pending->0)
            && (forall|m: int| j < m < k ==> !is_key_press(#[trigger] ins[m].0))
            && ps[k].visible() == ps[j].visible();
    let s = ps[j].settled();
    assert(s.visible() == ps[j].visible());
    assert(is_plain_press(ins[j].0, 'd'));
}

/// With no delete prompt up, a key press in the picker does what its key
/// says, on the sessions on show:
/// - Down or `j` moves the cursor one session down, stopping on the last;
///   Up or `k` moves it one up, stopping on the first;
/// - `a` switches between all sessions and unfinished ones, cursor on top;
/// - `d` (without Control) raises the prompt for the session under the
///   cursor, when there is one; `p` shows or hides the preview;
/// - Enter opens the session under the cursor; Esc and `q` cancel.
/// No key changes the sessions read from disk.
pub proof fn lemma_picker_keys(p: Picker, after: Picker, k: KeyEvent, now: u64, width: u16, height: u16, r: PickerAction)
    requires
        p.event_step(after, Event::Key(k), now, width, height, r),
        k.press,
        p.screen.pending is None,
        p.entries@.len() <= usize::MAX,
    ensures
        ({
            let v = p.visible();
            let c = p.screen.cursor as int;
            let n = v.len() as int;
            let code = k.code;
            &&& after.entries == p.entries
            &&& (code == KeyCode::Down || code == KeyCode::Char('j')) ==> {
                &&& after.screen.cursor == if c + 1 < n { c + 1 } else { c }
                &&& after.screen.pending is None
                &&& r == PickerAction::Continue
            }
            &&& (code == KeyCode::Up || code == KeyCode::Char('k')) ==> {
                &&& after.screen.cursor == if c > 0 { c - 1 } else { 0 }
                &&& after.screen.pending is None
                &&& r == PickerAction::Continue
            }
            &&& code == KeyCode::Char('a') ==> {
                &&& after.screen.show_all == !p.screen.show_all
                &&& after.screen.cursor == 0
            }
            &&& (code == KeyCode::Char('d') && !k.control) ==> {
                &&& after.screen.pending == if c < n { Some(c as usize) } else { None }
                &&& after.screen.cursor == c
                &&& r == PickerAction::Continue
            }
            &&& code == KeyCode::Char('p') ==> after.screen.preview_on == !p.screen.preview_on
            &&& (code == KeyCode::Enter && c < n) ==> r == PickerAction::Finish(
                Choice::Selected(v[c].name),
            )
            &&& (code == KeyCode::Esc || code == KeyCode::Char('q')) ==> r == PickerAction::Finish(
                Choice::Cancelled,
            )
        }),
{
    lemma_shown_len(p.entries@, p.screen.show_all, p.entries@.len());
}

/// With a delete prompt up, any key press answers it and takes it down:
/// `y` deletes the session the prompt asks about, every other key deletes
/// nothing and leaves the cursor where it was; the mouse is inert.
pub proof fn lemma_prompt_answers(p: Picker, after: Picker, e: Event, now: u64, width: u16, height: u16, r: PickerAction)
    requires
        p.event_step(after, e, now, width, height, r),
        p.screen.pending is Some,
        p.screen.pending->0 < p.visible().len(),
    ensures
        ({
            let i = p.screen.pending->0 as int;
            &&& after.entries == p.entries
            &&& after.screen.cursor == p.screen.cursor
            &&& is_key_press(e) ==> after.screen.pending is None
            &&& r is Delete <==> is_press_of(e, 'y')
            &&& is_press_of(e, 'y') ==> r == PickerAction::Delete(p.visible()[i].name)
            &&& !is_key_press(e) ==> after.screen == p.screen && r == PickerAction::Continue
        }),
{
}

} // verus!
