//! Byte-stream framing: transport reads append raw bytes to a growable
//! buffer; complete newline-terminated lines are split off one at a time,
//! trimmed of surrounding ASCII whitespace, and handed to the parser. Bytes
//! after the last terminator stay buffered until more data arrives.

use vstd::prelude::*;
use crate::parser::trim_ws;

verus! {

/// Index of the first line feed in `s`, or -1 when there is none.
pub open spec fn first_newline(s: Seq<u8>) -> int
    decreases s.len(),
{
    if s.len() == 0 {
        -1
    } else if s[0] == 0x0a {
        0
    } else {
        let r = first_newline(s.drop_first());
        if r < 0 {
            -1
        } else {
            r + 1
        }
    }
}

proof fn lemma_first_newline_at(s: Seq<u8>, i: int)
    requires
        0 <= i < s.len(),
        s[i] == 0x0a,
        forall|k: int| 0 <= k < i ==> s[k] != 0x0a,
    ensures
        first_newline(s) == i,
    decreases i,
{
    if i > 0 {
        let t = s.drop_first();
        assert(t[i - 1] == s[i]);
        assert(forall|k: int| 0 <= k < i - 1 ==> t[k] == s[k + 1] && t[k] != 0x0a);
        lemma_first_newline_at(t, i - 1);
    }
}

proof fn lemma_first_newline_none(s: Seq<u8>)
    requires
        forall|k: int| 0 <= k < s.len() ==> s[k] != 0x0a,
    ensures
        first_newline(s) == -1,
    decreases s.len(),
{
    if s.len() > 0 {
        let t = s.drop_first();
        assert(forall|k: int| 0 <= k < t.len() ==> t[k] == s[k + 1] && t[k] != 0x0a);
        lemma_first_newline_none(t);
    }
}

/// Position of the first line feed byte, if any.
fn find_newline(s: &[u8]) -> (r: Option<usize>)
    ensures
        match r {
            Some(i) => i < s@.len() && s@[i as int] == 0x0a && forall|k: int|
                0 <= k < i ==> s@[k] != 0x0a,
            None => forall|k: int| 0 <= k < s@.len() ==> s@[k] != 0x0a,
        },
{
    let n = s.len();
    let mut i: usize = 0;
    while i < n
        invariant
            i <= n == s@.len(),
            forall|k: int| 0 <= k < i ==> s@[k] != 0x0a,
        decreases n - i,
    {
        if s[i] == 0x0a {
            return Some(i);
        }
        i = i + 1;
    }
    None
}

/// Takes the first complete line out of the accumulation buffer: everything
/// up to the first line feed, trimmed of surrounding ASCII whitespace (which
/// also strips a carriage return). The terminator and the line leave the
/// buffer; without a terminator the buffer is untouched.
pub fn extract_line(buf: &mut Vec<u8>) -> (r: Option<Vec<u8>>)
    ensures
        match r {
            None => first_newline(old(buf)@) == -1 && final(buf)@ == old(buf)@,
            Some(line) => {
                let p = first_newline(old(buf)@);
                &&& 0 <= p < old(buf)@.len()
                &&& line@ == trim_ws(old(buf)@.take(p))
                &&& final(buf)@ == old(buf)@.skip(p + 1)
            },
        },
{
    let n = buf.len();
    let p = match find_newline(buf.as_slice()) {
        None => {
            proof {
                lemma_first_newline_none(buf@);
            }
            return None;
        },
        Some(p) => p,
    };
    proof {
        lemma_first_newline_at(buf@, p as int);
    }
    let (a, b) = crate::parser::trim_range(buf.as_slice(), 0, p);
    let mut line: Vec<u8> = Vec::new();
    let mut k = a;
    while k < b
        invariant
            a <= k <= b <= buf@.len(),
            line@ == buf@.subrange(a as int, k as int),
        decreases b - k,
    {
        line.push(buf[k]);
        proof {
            assert(buf@.subrange(a as int, k + 1) =~= buf@.subrange(a as int, k as int).push(
                buf@[k as int],
            ));
        }
        k = k + 1;
    }
    proof {
        assert(line@ =~= buf@.subrange(a as int, b as int));
        assert(buf@.subrange(0, p as int) =~= buf@.take(p as int));
    }
    let mut rest: Vec<u8> = Vec::new();
    let mut k = p + 1;
    while k < n
        invariant
            p + 1 <= k <= n,
            n == buf@.len(),
            rest@ == buf@.subrange(p + 1, k as int),
        decreases n - k,
    {
        rest.push(buf[k]);
        proof {
            assert(buf@.subrange(p + 1, k + 1) =~= buf@.subrange(p + 1, k as int).push(
                buf@[k as int],
            ));
        }
        k = k + 1;
    }
    proof {
        assert(rest@ =~= buf@.skip(p + 1));
    }
    *buf = rest;
    Some(line)
}

} // verus!
