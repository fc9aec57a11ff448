//! Line parser for the wire protocol: an ASCII line `R=<N>,<C>[,<F>]` whose
//! fields are case-insensitive hexadecimal integers.

use vstd::prelude::*;

verus! {

/// An ASCII whitespace byte, as the framing and field trimming treat it:
/// space, tab, line feed, vertical tab, form feed or carriage return.
pub open spec fn is_ascii_ws(b: u8) -> bool {
    b == 0x20 || b == 0x09 || b == 0x0a || b == 0x0b || b == 0x0c || b == 0x0d
}

/// One decoded telemetry record: the raw counter, the reference-cycle count,
/// and the optional fine-correction raw value.
#[derive(Clone, Copy, PartialEq, Eq, Debug)]
pub struct RawRecord {
    pub counter: u32,
    pub reference_cycles: u32,
    pub fine_raw: Option<u32>,
}

/// `s` with leading ASCII whitespace removed.
pub open spec fn trim_front(s: Seq<u8>) -> Seq<u8>
    decreases s.len(),
{
    if s.len() > 0 && is_ascii_ws(s[0]) {
        trim_front(s.drop_first())
    } else {
        s
    }
}

/// `s` with trailing ASCII whitespace removed.
pub open spec fn trim_back(s: Seq<u8>) -> Seq<u8>
    decreases s.len(),
{
    if s.len() > 0 && is_ascii_ws(s[s.len() - 1]) {
        trim_back(s.drop_last())
    } else {
        s
    }
}

/// `s` with ASCII whitespace removed from both ends.
pub open spec fn trim_ws(s: Seq<u8>) -> Seq<u8> {
    trim_back(trim_front(s))
}

/// A hexadecimal digit byte: `0-9`, `A-F` or `a-f`.
pub open spec fn is_hex_digit(b: u8) -> bool {
    (0x30 <= b && b <= 0x39) || (0x41 <= b && b <= 0x46) || (0x61 <= b && b <= 0x66)
}

/// Numeric value of a hexadecimal digit byte.
pub open spec fn hex_digit_value(b: u8) -> int {
    if 0x30 <= b && b <= 0x39 {
        b - 0x30
    } else if 0x41 <= b && b <= 0x46 {
        b - 0x41 + 10
    } else {
        b - 0x61 + 10
    }
}

pub open spec fn all_hex(s: Seq<u8>) -> bool {
    forall|i: int| 0 <= i < s.len() ==> is_hex_digit(s[i])
}

/// The unbounded integer a sequence of hexadecimal digits denotes,
/// most significant digit first.
pub open spec fn hex_value(s: Seq<u8>) -> int
    decreases s.len(),
{
    if s.len() == 0 {
        0
    } else {
        hex_value(s.drop_last()) * 16 + hex_digit_value(s.last())
    }
}

/// The digits of a numeric field: everything after one optional leading `+`.
pub open spec fn hex_body(s: Seq<u8>) -> Seq<u8> {
    if s.len() > 0 && s[0] == 0x2b {
        s.drop_first()
    } else {
        s
    }
}

/// What base-16 `u32` parsing accepts: an optional leading `+`, then at
/// least one hexadecimal digit, denoting a value that fits in a `u32`.
pub open spec fn spec_parse_hex_u32(s: Seq<u8>) -> Option<u32> {
    let d = hex_body(s);
    if d.len() > 0 && all_hex(d) && hex_value(d) <= u32::MAX {
        Some(hex_value(d) as u32)
    } else {
        None
    }
}

proof fn lemma_hex_value_nonneg(s: Seq<u8>)
    requires
        all_hex(s),
    ensures
        hex_value(s) >= 0,
    decreases s.len(),
{
    if s.len() > 0 {
        assert(all_hex(s.drop_last())) by {
            assert(forall|i: int| 0 <= i < s.len() - 1 ==> s.drop_last()[i] == s[i]);
        }
        lemma_hex_value_nonneg(s.drop_last());
    }
}

/// Appending further hexadecimal digits never shrinks the denoted value.
proof fn lemma_hex_value_prefix_le(s: Seq<u8>, i: int)
    requires
        all_hex(s),
        0 <= i <= s.len(),
    ensures
        hex_value(s.take(i)) <= hex_value(s),
    decreases s.len() - i,
{
    if i < s.len() {
        lemma_hex_value_prefix_le(s, i + 1);
        let t = s.take(i + 1);
        assert(t.drop_last() =~= s.take(i));
        assert(t.last() == s[i]);
        assert(all_hex(s.take(i))) by {
            assert(forall|j: int| 0 <= j < i ==> s.take(i)[j] == s[j]);
        }
        lemma_hex_value_nonneg(s.take(i));
        assert(hex_value(t) == hex_value(s.take(i)) * 16 + hex_digit_value(s[i]));
        assert(hex_digit_value(s[i]) >= 0);
        assert(hex_value(s.take(i)) <= hex_value(t));
    } else {
        assert(s.take(i) =~= s);
    }
}

/// Parses the byte range `[from, to)` of `s` as a base-16 `u32`, as the
/// protocol's numeric fields are read.
pub fn parse_hex_u32_range(s: &[u8], from: usize, to: usize) -> (r: Option<u32>)
    requires
        from <= to <= s@.len(),
    ensures
        r == spec_parse_hex_u32(s@.subrange(from as int, to as int)),
{
    let ghost field = s@.subrange(from as int, to as int);
    let mut start = from;
    if from < to && s[from] == 0x2b {
        start = from + 1;
    }
    let ghost d = s@.subrange(start as int, to as int);
    proof {
        assert(hex_body(field) =~= d);
    }
    if start == to {
        return None;
    }
    let mut acc: u32 = 0;
    let mut i = start;
    while i < to
        invariant
            from <= start <= i <= to <= s@.len(),
            d == s@.subrange(start as int, to as int),
            hex_body(s@.subrange(from as int, to as int)) == d,
            to - start > 0,
            all_hex(d.take(i - start)),
            acc == hex_value(d.take(i - start)),
        decreases to - i,
    {
        let b = s[i];
        proof {
            assert(d[i - start] == b);
        }
        let digit: u32 = if 0x30 <= b && b <= 0x39 {
            (b - 0x30) as u32
        } else if 0x41 <= b && b <= 0x46 {
            (b - 0x41 + 10) as u32
        } else if 0x61 <= b && b <= 0x66 {
            (b - 0x61 + 10) as u32
        } else {
            proof {
                assert(!is_hex_digit(d[i - start]));
                assert(!all_hex(d));
            }
            return None;
        };
        proof {
            assert(is_hex_digit(d[i - start]));
            assert(hex_digit_value(d[i - start]) == digit);
            let k = i - start + 1;
            assert(d.take(k).drop_last() =~= d.take(k - 1));
            assert(d.take(k).last() == d[k - 1]);
            assert(hex_value(d.take(k)) == hex_value(d.take(k - 1)) * 16 + digit);
            assert(all_hex(d.take(k))) by {
                assert(forall|j: int| 0 <= j < k ==> d.take(k)[j] == d[j]);
            }
        }
        if acc > (u32::MAX - digit) / 16 {
            proof {
                let k = i - start + 1;
                assert(acc * 16 + digit > u32::MAX) by {
                    assert(acc >= (u32::MAX - digit) / 16 + 1);
                    assert(acc * 16 >= ((u32::MAX - digit) / 16 + 1) * 16) by (nonlinear_arith)
                        requires acc >= (u32::MAX - digit) / 16 + 1;
                    assert(((u32::MAX - digit) / 16 + 1) * 16 + digit > u32::MAX);
                }
                assert(hex_value(d.take(k)) > u32::MAX);
                if all_hex(d) {
                    lemma_hex_value_prefix_le(d, k);
                    assert(hex_value(d.take(k)) <= hex_value(d)) by {
                        lemma_hex_value_prefix_le(d, k);
                    }
                    assert(hex_value(d) > u32::MAX);
                }
            }
            return None;
        }
        proof {
            assert(acc <= (u32::MAX - digit) / 16);
            assert(acc * 16 <= ((u32::MAX - digit) / 16) * 16) by (nonlinear_arith)
                requires acc <= (u32::MAX - digit) / 16;
            assert(((u32::MAX - digit) / 16) * 16 + digit <= u32::MAX);
        }
        acc = acc * 16 + digit;
        i = i + 1;
    }
    proof {
        assert(d.take(to - start) =~= d);
    }
    Some(acc)
}

/// Splits off everything up to the first comma: the part before it, and,
/// when a comma is present, the part after it.
pub open spec fn split_at_comma(s: Seq<u8>) -> (Seq<u8>, Option<Seq<u8>>)
    decreases s.len(),
{
    if s.len() == 0 {
        (s, None)
    } else if s[0] == 0x2c {
        (Seq::empty(), Some(s.drop_first()))
    } else {
        let r = split_at_comma(s.drop_first());
        (seq![s[0]] + r.0, r.1)
    }
}

proof fn lemma_split_at_comma_found(s: Seq<u8>, i: int)
    requires
        0 <= i < s.len(),
        s[i] == 0x2c,
        forall|k: int| 0 <= k < i ==> s[k] != 0x2c,
    ensures
        split_at_comma(s) == (s.take(i), Some(s.skip(i + 1))),
    decreases i,
{
    if i == 0 {
        assert(s.take(0) =~= Seq::<u8>::empty());
        assert(s.skip(1) =~= s.drop_first());
    } else {
        let t = s.drop_first();
        assert(t[i - 1] == s[i]);
        assert(forall|k: int| 0 <= k < i - 1 ==> t[k] == s[k + 1] && t[k] != 0x2c);
        lemma_split_at_comma_found(t, i - 1);
        assert(seq![s[0]] + t.take(i - 1) =~= s.take(i));
        assert(t.skip(i) =~= s.skip(i + 1));
    }
}

proof fn lemma_split_at_comma_none(s: Seq<u8>)
    requires
        forall|k: int| 0 <= k < s.len() ==> s[k] != 0x2c,
    ensures
        split_at_comma(s) == (s, None::<Seq<u8>>),
    decreases s.len(),
{
    if s.len() > 0 {
        let t = s.drop_first();
        assert(forall|k: int| 0 <= k < t.len() ==> t[k] == s[k + 1] && t[k] != 0x2c);
        lemma_split_at_comma_none(t);
        assert(seq![s[0]] + t =~= s);
    }
}

/// What the line parser accepts: a line starting with the marker `R=`, then
/// two required hexadecimal fields and an optional third, separated by
/// commas, each field trimmed of surrounding ASCII whitespace. A present but
/// unparsable third field counts as zero; anything after it is ignored.
pub open spec fn spec_parse_line(line: Seq<u8>) -> Option<RawRecord> {
    if line.len() < 2 || line[0] != 0x52 || line[1] != 0x3d {
        None
    } else {
        let r1 = split_at_comma(line.skip(2));
        match r1.1 {
            None => None,
            Some(rest1) => {
                let r2 = split_at_comma(rest1);
                match (
                    spec_parse_hex_u32(trim_ws(r1.0)),
                    spec_parse_hex_u32(trim_ws(r2.0)),
                ) {
                    (Some(n), Some(c)) => Some(
                        RawRecord {
                            counter: n,
                            reference_cycles: c,
                            fine_raw: match r2.1 {
                                None => None,
                                Some(rest2) => {
                                    match spec_parse_hex_u32(trim_ws(split_at_comma(rest2).0)) {
                                        Some(f) => Some(f),
                                        None => Some(0),
                                    }
                                },
                            },
                        },
                    ),
                    _ => None,
                }
            },
        }
    }
}

/// Narrows the byte range `[from, to)` of `s` to its ASCII-whitespace-trimmed
/// core.
pub(crate) fn trim_range(s: &[u8], from: usize, to: usize) -> (r: (usize, usize))
    requires
        from <= to <= s@.len(),
    ensures
        from <= r.0 <= r.1 <= to,
        s@.subrange(r.0 as int, r.1 as int) == trim_ws(s@.subrange(from as int, to as int)),
{
    let mut a = from;
    while a < to && (s[a] == 0x20 || s[a] == 0x09 || s[a] == 0x0a || s[a] == 0x0b || s[a] == 0x0c
        || s[a] == 0x0d)
        invariant
            from <= a <= to <= s@.len(),
            trim_front(s@.subrange(from as int, to as int)) == trim_front(
                s@.subrange(a as int, to as int),
            ),
        decreases to - a,
    {
        proof {
            assert(is_ascii_ws(s@.subrange(a as int, to as int)[0]));
            assert(s@.subrange(a as int, to as int).drop_first() =~= s@.subrange(
                a + 1,
                to as int,
            ));
        }
        a = a + 1;
    }
    proof {
        if a < to {
            assert(!is_ascii_ws(s@.subrange(a as int, to as int)[0]));
        }
        assert(trim_front(s@.subrange(from as int, to as int)) == s@.subrange(a as int, to as int));
    }
    let mut b = to;
    while b > a && (s[b - 1] == 0x20 || s[b - 1] == 0x09 || s[b - 1] == 0x0a || s[b - 1] == 0x0b
        || s[b - 1] == 0x0c || s[b - 1] == 0x0d)
        invariant
            a <= b <= to <= s@.len(),
            trim_back(s@.subrange(a as int, to as int)) == trim_back(s@.subrange(a as int, b as int)),
        decreases b - a,
    {
        proof {
            let cur = s@.subrange(a as int, b as int);
            assert(cur[cur.len() - 1] == s@[b - 1]);
            assert(is_ascii_ws(cur[cur.len() - 1]));
            assert(cur.drop_last() =~= s@.subrange(a as int, b - 1));
        }
        b = b - 1;
    }
    proof {
        let cur = s@.subrange(a as int, b as int);
        if b > a {
            assert(cur[cur.len() - 1] == s@[b - 1]);
            assert(!is_ascii_ws(cur[cur.len() - 1]));
        }
        assert(trim_back(s@.subrange(a as int, b as int)) == s@.subrange(a as int, b as int));
    }
    (a, b)
}

/// First comma at or after `from`, before `to`.
fn find_comma(s: &[u8], from: usize, to: usize) -> (r: Option<usize>)
    requires
        from <= to <= s@.len(),
    ensures
        match r {
            Some(i) => from <= i < to && s@[i as int] == 0x2c && forall|k: int|
                from <= k < i ==> s@[k] != 0x2c,
            None => forall|k: int| from <= k < to ==> s@[k] != 0x2c,
        },
{
    let mut i = from;
    while i < to
        invariant
            from <= i <= to <= s@.len(),
            forall|k: int| from <= k < i ==> s@[k] != 0x2c,
        decreases to - i,
    {
        if s[i] == 0x2c {
            return Some(i);
        }
        i = i + 1;
    }
    None
}

/// Parses the hexadecimal field in `[from, to)` after trimming it, as the
/// protocol reads each comma-separated field.
fn parse_field(s: &[u8], from: usize, to: usize) -> (r: Option<u32>)
    requires
        from <= to <= s@.len(),
    ensures
        r == spec_parse_hex_u32(trim_ws(s@.subrange(from as int, to as int))),
{
    let (a, b) = trim_range(s, from, to);
    parse_hex_u32_range(s, a, b)
}

/// Decodes one protocol line, already stripped of its terminator: accepts
/// `R=<counter_hex>,<cycles_hex>[,<fine_hex>]` and silently rejects anything
/// else.
pub fn parse_recip_line(line: &[u8]) -> (r: Option<RawRecord>)
    ensures
        r == spec_parse_line(line@),
{
    let n = line.len();
    if n < 2 || line[0] != 0x52 || line[1] != 0x3d {
        return None;
    }
    let ghost body = line@.skip(2);
    proof {
        assert(forall|k: int| 0 <= k < body.len() ==> body[k] == line@[k + 2]);
    }
    let c1 = match find_comma(line, 2, n) {
        Some(i) => i,
        None => {
            proof {
                lemma_split_at_comma_none(body);
            }
            return None;
        },
    };
    proof {
        assert(body[c1 - 2] == 0x2c);
        lemma_split_at_comma_found(body, c1 - 2);
        assert(body.take(c1 - 2) =~= line@.subrange(2, c1 as int));
        assert(body.skip(c1 - 2 + 1) =~= line@.subrange(c1 + 1, n as int));
    }
    let ghost rest1 = line@.subrange(c1 + 1, n as int);
    proof {
        assert(forall|k: int| 0 <= k < rest1.len() ==> rest1[k] == line@[k + c1 + 1]);
    }
    let counter = match parse_field(line, 2, c1) {
        Some(v) => v,
        None => {
            return None;
        },
    };
    let (c2, f2_end) = match find_comma(line, c1 + 1, n) {
        Some(i) => {
            proof {
                assert(rest1[i - c1 - 1] == 0x2c);
                lemma_split_at_comma_found(rest1, i - c1 - 1);
                assert(rest1.take(i - c1 - 1) =~= line@.subrange(c1 + 1, i as int));
                assert(rest1.skip(i - c1 - 1 + 1) =~= line@.subrange(i + 1, n as int));
            }
            (Some(i), i)
        },
        None => {
            proof {
                lemma_split_at_comma_none(rest1);
                assert(rest1 =~= line@.subrange(c1 + 1, n as int));
            }
            (None, n)
        },
    };
    let cycles = match parse_field(line, c1 + 1, f2_end) {
        Some(v) => v,
        None => {
            return None;
        },
    };
    let fine_raw = match c2 {
        None => None,
        Some(c2) => {
            let ghost rest2 = line@.subrange(c2 + 1, n as int);
            proof {
                assert(forall|k: int| 0 <= k < rest2.len() ==> rest2[k] == line@[k + c2 + 1]);
            }
            let f3_end = match find_comma(line, c2 + 1, n) {
                Some(i) => {
                    proof {
                        assert(rest2[i - c2 - 1] == 0x2c);
                        lemma_split_at_comma_found(rest2, i - c2 - 1);
                        assert(rest2.take(i - c2 - 1) =~= line@.subrange(c2 + 1, i as int));
                    }
                    i
                },
                None => {
                    proof {
                        lemma_split_at_comma_none(rest2);
                        assert(rest2 =~= line@.subrange(c2 + 1, n as int));
                    }
                    n
                },
            };
            match parse_field(line, c2 + 1, f3_end) {
                Some(f) => Some(f),
                None => Some(0),
            }
        },
    };
    Some(RawRecord { counter, reference_cycles: cycles, fine_raw })
}

} // verus!
