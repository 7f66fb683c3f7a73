//! `--clean`: choosing the session files that have nothing left to do.

use vstd::prelude::*;
use crate::format::{decimal, decimal_string};
use crate::picker::{Entry, chars_of};

verus! {

/// The entries among the first `n` of `es` with no open task, in order.
pub open spec fn finished(es: Seq<Entry>, n: nat) -> Seq<Entry>
    decreases n,
{
    if n == 0 {
        seq![]
    } else {
        let r = finished(es, (n - 1) as nat);
        if es[n - 1].open == 0 {
            r.push(es[n - 1])
        } else {
            r
        }
    }
}

/// Sessions with no open tasks, in the order given. A file with no tasks at
/// all counts: an empty session has nothing left to do either.
pub fn cleanable(entries: &[Entry]) -> (r: Vec<&Entry>)
    ensures
        r@.len() == finished(entries@, entries@.len()).len(),
        forall|i: int| 0 <= i < r@.len() ==> *r@[i] == finished(entries@, entries@.len())[i],
{
    let mut r: Vec<&Entry> = Vec::new();
    let mut i: usize = 0;
    while i < entries.len()
        invariant
            i <= entries@.len(),
            r@.len() == finished(entries@, i as nat).len(),
            forall|k: int| 0 <= k < r@.len() ==> *r@[k] == finished(entries@, i as nat)[k],
        decreases entries@.len() - i,
    {
        let e = &entries[i];
        if e.open == 0 {
            r.push(e);
        }
        i += 1;
    }
    r
}

/// Every session `cleanable` picks has no open task, and every session
/// without one is picked.
pub proof fn lemma_cleanable_is_exactly_the_finished(es: Seq<Entry>, n: nat)
    requires
        n <= es.len(),
    ensures
        forall|i: int| 0 <= i < finished(es, n).len() ==> (#[trigger] finished(es, n)[i]).open == 0,
        forall|k: int| 0 <= k < n && es[k].open == 0 ==> finished(es, n).contains(#[trigger] es[k]),
    decreases n,
{
    if n > 0 {
        lemma_cleanable_is_exactly_the_finished(es, (n - 1) as nat);
        let r = finished(es, (n - 1) as nat);
        let f = finished(es, n);
        if es[n - 1].open == 0 {
            assert(f == r.push(es[n - 1]));
            assert forall|k: int| 0 <= k < n && es[k].open == 0 implies f.contains(#[trigger] es[k]) by {
                if k < n - 1 {
                    let j = choose|j: int| 0 <= j < r.len() && r[j] == es[k];
                    assert(f[j] == es[k]);
                } else {
                    assert(f[r.len() as int] == es[k]);
                }
            }
            assert forall|i: int| 0 <= i < f.len() implies (#[trigger] f[i]).open == 0 by {
                if i < r.len() {
                    assert(f[i] == r[i]);
                }
            }
        } else {
            assert(f == r);
        }
    }
}

/// `1 session` / `2 sessions`: the counts are small and user-facing.
pub open spec fn plural_text(n: nat) -> Seq<char> {
    if n == 1 {
        "1 session"@
    } else {
        decimal(n) + " sessions"@
    }
}

pub fn plural(n: usize) -> (s: String)
    ensures
        s@ == plural_text(n as nat),
{
    if n == 1 {
        "1 session".to_owned()
    } else {
        let mut s = decimal_string(n as u64);
        s.append(" sessions");
        s
    }
}

/// Unicode White_Space, the whitespace `str::trim` removes.
pub open spec fn white_space(c: char) -> bool {
    let u = c as u32;
    ||| 9 <= u <= 13
    ||| u == 32
    ||| u == 0x85
    ||| u == 0xa0
    ||| u == 0x1680
    ||| 0x2000 <= u <= 0x200a
    ||| u == 0x2028
    ||| u == 0x2029
    ||| u == 0x202f
    ||| u == 0x205f
    ||| u == 0x3000
}

/// `s` without its leading whitespace.
pub open spec fn trim_start(s: Seq<char>) -> Seq<char>
    decreases s.len(),
{
    if s.len() > 0 && white_space(s[0]) {
        trim_start(s.drop_first())
    } else {
        s
    }
}

/// `s` without its trailing whitespace.
pub open spec fn trim_end(s: Seq<char>) -> Seq<char>
    decreases s.len(),
{
    if s.len() > 0 && white_space(s.last()) {
        trim_end(s.drop_last())
    } else {
        s
    }
}

/// ASCII upper case letters lowered; every other character kept.
pub open spec fn ascii_lower(c: char) -> char {
    if 'A' <= c && c <= 'Z' {
        ((c as u32) + 32) as char
    } else {
        c
    }
}

/// Whether an answer to the clean prompt is a yes: `y` or `yes` in any
/// case, surrounded by any whitespace. Anything else, the empty answer
/// included, is a no.
pub open spec fn means_yes(answer: Seq<char>) -> bool {
    let t = trim_end(trim_start(answer)).map_values(|c: char| ascii_lower(c));
    t == seq!['y'] || t == seq!['y', 'e', 's']
}

fn is_white_space(c: char) -> (r: bool)
    ensures
        r == white_space(c),
{
    let u = c as u32;
    (9 <= u && u <= 13) || u == 32 || u == 0x85 || u == 0xa0 || u == 0x1680 || (0x2000 <= u
        && u <= 0x200a) || u == 0x2028 || u == 0x2029 || u == 0x202f || u == 0x205f || u == 0x3000
}

/// Whether `c` lowers to the lower-case letter `l`.
fn lowers_to(c: char, l: char) -> (r: bool)
    requires
        'a' <= l <= 'z',
    ensures
        r == (ascii_lower(c) == l),
{
    let u = c as u32;
    let lu = l as u32;
    proof {
        if 'A' <= c && c <= 'Z' {
            assert(ascii_lower(c) as u32 == u + 32);
        }
    }
    u == lu || u + 32 == lu && 'A' <= c && c <= 'Z'
}

/// Whether the answer to "Delete ...? [y/N]" is a yes.
pub fn confirms(answer: &str) -> (r: bool)
    ensures
        r == means_yes(answer@),
{
    let v = chars_of(answer);
    let n = v.len();
    let mut i: usize = 0;
    proof {
        assert(v@.skip(0) =~= v@);
    }
    while i < n && is_white_space(v[i])
        invariant
            i <= n,
            n == v@.len(),
            trim_start(v@) == trim_start(v@.skip(i as int)),
        decreases n - i,
    {
        proof {
            assert(v@.skip(i as int).drop_first() =~= v@.skip(i + 1));
        }
        i += 1;
    }
    let mut j: usize = n;
    proof {
        assert(v@.skip(i as int).take(n - i) =~= v@.skip(i as int));
    }
    while j > i && is_white_space(v[j - 1])
        invariant
            i <= j <= n,
            n == v@.len(),
            trim_end(v@.skip(i as int)) == trim_end(v@.subrange(i as int, j as int)),
        decreases j,
    {
        proof {
            assert(v@.subrange(i as int, j as int).drop_last() =~= v@.subrange(i as int, j - 1));
        }
        j -= 1;
    }
    let ghost t = v@.subrange(i as int, j as int);
    proof {
        assert(trim_start(v@) == v@.skip(i as int));
        assert(trim_end(t) == t);
        assert(trim_end(trim_start(v@)) == t);
    }
    let len = j - i;
    let ghost low = t.map_values(|c: char| ascii_lower(c));
    if len == 1 {
        proof {
            assert(low.len() == 1 && low[0] == ascii_lower(v@[i as int]));
            if low[0] == 'y' {
                assert(low =~= seq!['y']);
            } else {
                assert(seq!['y'][0] == 'y');
            }
        }
        lowers_to(v[i], 'y')
    } else if len == 3 {
        proof {
            assert(low.len() == 3);
            assert(low[0] == ascii_lower(v@[i as int]));
            assert(low[1] == ascii_lower(v@[i + 1]));
            assert(low[2] == ascii_lower(v@[i + 2]));
            let yes = seq!['y', 'e', 's'];
            if low[0] == 'y' && low[1] == 'e' && low[2] == 's' {
                assert(low =~= yes);
            } else {
                assert(yes[0] == 'y' && yes[1] == 'e' && yes[2] == 's');
            }
        }
        lowers_to(v[i], 'y') && lowers_to(v[i + 1], 'e') && lowers_to(v[i + 2], 's')
    } else {
        proof {
            assert(t.map_values(|c: char| ascii_lower(c)).len() == len);
        }
        false
    }
}

} // verus!
