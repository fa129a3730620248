//! Parsing of CIDR prefix strings of the shape `a.b.c.d/len`: a dotted quad
//! of decimal octets (each one or more digits with value at most 255),
//! a slash, and a decimal subnet length from 0 to 32.  The address is read in
//! network byte order: the first octet lands in the high-order byte.
//!
//! A second slash and anything after it are ignored; each octet and the
//! length may carry leading zeros.  Any other deviation is a parse failure,
//! which the compiler treats as fatal.

use vstd::prelude::*;

verus! {

/// A prefix string without the shape `a.b.c.d/len`: a missing separator, a
/// non-digit where a number is expected, an octet over 255 or a subnet
/// length over 32.
#[derive(Clone, Copy, PartialEq, Eq, Structural, Debug)]
pub enum ParseError {
    Malformed,
}

/// `c` is a decimal digit.
pub open spec fn is_digit(c: char) -> bool {
    48 <= c as u32 <= 57
}

/// The numeric value of the digit `c`.
pub open spec fn digit_val(c: char) -> int {
    c as u32 - 48
}

/// Every character of `s` is a decimal digit.
pub open spec fn all_digits(s: Seq<char>) -> bool {
    forall|i: int| 0 <= i < s.len() ==> is_digit(#[trigger] s[i])
}

/// The value of `s` read as a decimal numeral.
pub open spec fn dec_value(s: Seq<char>) -> int
    decreases s.len(),
{
    if s.len() == 0 {
        0
    } else {
        dec_value(s.drop_last()) * 10 + digit_val(s.last())
    }
}

/// The first position in `s` at or after `i` holding `c`, or -1.
pub open spec fn find_from(s: Seq<char>, c: char, i: int) -> int
    decreases s.len() - i,
{
    if i < 0 || i >= s.len() {
        -1
    } else if s[i] == c {
        i
    } else {
        find_from(s, c, i + 1)
    }
}

/// What parsing a whole decimal numeral returns: the value of one or more
/// digits, if it fits in 32 bits.
pub open spec fn spec_parse_u32(s: Seq<char>) -> Option<u32> {
    if s.len() >= 1 && all_digits(s) && dec_value(s) <= u32::MAX {
        Some(dec_value(s) as u32)
    } else {
        None
    }
}

/// What parsing one octet returns: a decimal numeral no greater than 255.
pub open spec fn spec_parse_octet(s: Seq<char>) -> Option<u32> {
    match spec_parse_u32(s) {
        Some(v) => if v <= 255 {
            Some(v)
        } else {
            None
        },
        None => None,
    }
}

/// What parsing a dotted quad returns: four octets separated by dots, packed
/// most significant octet first.
pub open spec fn spec_parse_quad(s: Seq<char>) -> Option<u32> {
    let d1 = find_from(s, '.', 0);
    let d2 = find_from(s, '.', d1 + 1);
    let d3 = find_from(s, '.', d2 + 1);
    if d1 < 0 || d2 < 0 || d3 < 0 {
        None
    } else {
        match (
            spec_parse_octet(s.subrange(0, d1)),
            spec_parse_octet(s.subrange(d1 + 1, d2)),
            spec_parse_octet(s.subrange(d2 + 1, d3)),
            spec_parse_octet(s.subrange(d3 + 1, s.len() as int)),
        ) {
            (Some(o1), Some(o2), Some(o3), Some(o4)) => Some(
                (o1 * 0x1000000 + o2 * 0x10000 + o3 * 0x100 + o4) as u32,
            ),
            _ => None,
        }
    }
}

/// What parsing a whole prefix string returns: the dotted quad before the
/// first slash, and the subnet length (at most 32) between the first slash
/// and the second slash or the end.
pub open spec fn spec_parse_prefix(s: Seq<char>) -> Option<(u32, u32)> {
    let sl = find_from(s, '/', 0);
    if sl < 0 {
        None
    } else {
        let sl2 = find_from(s, '/', sl + 1);
        let end2 = if sl2 < 0 {
            s.len() as int
        } else {
            sl2
        };
        match (spec_parse_quad(s.subrange(0, sl)), spec_parse_u32(s.subrange(sl + 1, end2))) {
            (Some(a), Some(l)) => if l <= 32 {
                Some((a, l))
            } else {
                None
            },
            _ => None,
        }
    }
}

/// `find_from` finds exactly the first occurrence.
proof fn lemma_find_found(q: Seq<char>, c: char, k: int, j: int)
    requires
        0 <= k <= j < q.len(),
        q[j] == c,
        forall|t: int| k <= t < j ==> q[t] != c,
    ensures
        find_from(q, c, k) == j,
    decreases j - k,
{
    if k < j {
        lemma_find_found(q, c, k + 1, j);
    }
}

/// `find_from` reports -1 exactly when the character does not occur.
proof fn lemma_find_missing(q: Seq<char>, c: char, k: int)
    requires
        0 <= k <= q.len(),
        forall|t: int| k <= t < q.len() ==> q[t] != c,
    ensures
        find_from(q, c, k) == -1,
    decreases q.len() - k,
{
    if k < q.len() {
        lemma_find_missing(q, c, k + 1);
    }
}

/// Scan `s` for the first `c` at a position in `from .. to`.
fn find_in_range(s: &str, c: char, from: usize, to: usize) -> (r: Option<usize>)
    requires
        from <= to <= s@.len(),
    ensures
        match r {
            Some(j) => from <= j < to && s@[j as int] == c && forall|t: int|
                from <= t < j ==> s@[t] != c,
            None => forall|t: int| from <= t < to ==> s@[t] != c,
        },
{
    let mut i = from;
    while i < to
        invariant
            from <= i <= to <= s@.len(),
            forall|t: int| from <= t < i ==> s@[t] != c,
        decreases to - i,
    {
        if s.get_char(i) == c {
            return Some(i);
        }
        i += 1;
    }
    None
}

/// Parse the decimal numeral in positions `from .. to` of `s`, if it is one
/// and fits in 32 bits.
fn parse_u32_range(s: &str, from: usize, to: usize) -> (r: Option<u32>)
    requires
        from <= to <= s@.len(),
    ensures
        r == spec_parse_u32(s@.subrange(from as int, to as int)),
{
    let ghost sub = s@.subrange(from as int, to as int);
    if from == to {
        return None;
    }
    let mut acc: u64 = 0;
    let mut i = from;
    while i < to
        invariant
            from <= i <= to <= s@.len(),
            from < to,
            sub == s@.subrange(from as int, to as int),
            all_digits(s@.subrange(from as int, i as int)),
            ({
                let d = dec_value(s@.subrange(from as int, i as int));
                if d <= u32::MAX {
                    acc == d
                } else {
                    acc == 0x1_0000_0000u64
                }
            }),
            acc <= 0x1_0000_0000,
        decreases to - i,
    {
        let c = s.get_char(i);
        let cv = c as u32;
        if cv < 48 || cv > 57 {
            proof {
                assert(sub[i - from] == s@[i as int]);
                assert(!is_digit(sub[i - from]));
            }
            return None;
        }
        let d = (cv - 48) as u64;
        let t = acc * 10 + d;
        proof {
            let pre = s@.subrange(from as int, i as int);
            let post = s@.subrange(from as int, i + 1);
            assert(post.drop_last() =~= pre);
            assert(post.last() == s@[i as int]);
            assert(dec_value(post) == dec_value(pre) * 10 + digit_val(s@[i as int]));
            assert forall|j: int| 0 <= j < post.len() implies is_digit(#[trigger] post[j]) by {
                if j < post.len() - 1 {
                    assert(post[j] == pre[j]);
                }
            }
        }
        acc = if t > 0xFFFF_FFFFu64 {
            0x1_0000_0000u64
        } else {
            t
        };
        i += 1;
    }
    proof {
        assert(sub =~= s@.subrange(from as int, i as int));
    }
    if acc > 0xFFFF_FFFFu64 {
        return None;
    }
    Some(acc as u32)
}

/// Parse the dotted quad in positions `from .. to` of `s`, if it is one.
fn parse_quad_range(s: &str, from: usize, to: usize) -> (r: Option<u32>)
    requires
        from <= to <= s@.len(),
    ensures
        r == spec_parse_quad(s@.subrange(from as int, to as int)),
{
    let ghost sub = s@.subrange(from as int, to as int);
    let p1 = match find_in_range(s, '.', from, to) {
        Some(p) => p,
        None => {
            proof {
                assert forall|t: int| 0 <= t < sub.len() implies sub[t] != '.' by {
                    assert(sub[t] == s@[from + t]);
                }
                lemma_find_missing(sub, '.', 0);
            }
            return None;
        },
    };
    proof {
        assert(sub[p1 - from] == s@[p1 as int]);
        assert forall|t: int| 0 <= t < p1 - from implies sub[t] != '.' by {
            assert(sub[t] == s@[from + t]);
        }
        lemma_find_found(sub, '.', 0, p1 - from);
    }
    let p2 = match find_in_range(s, '.', p1 + 1, to) {
        Some(p) => p,
        None => {
            proof {
                assert forall|t: int| p1 - from + 1 <= t < sub.len() implies sub[t] != '.' by {
                    assert(sub[t] == s@[from + t]);
                }
                lemma_find_missing(sub, '.', p1 - from + 1);
            }
            return None;
        },
    };
    proof {
        assert(sub[p2 - from] == s@[p2 as int]);
        assert forall|t: int| p1 - from + 1 <= t < p2 - from implies sub[t] != '.' by {
            assert(sub[t] == s@[from + t]);
        }
        lemma_find_found(sub, '.', p1 - from + 1, p2 - from);
    }
    let p3 = match find_in_range(s, '.', p2 + 1, to) {
        Some(p) => p,
        None => {
            proof {
                assert forall|t: int| p2 - from + 1 <= t < sub.len() implies sub[t] != '.' by {
                    assert(sub[t] == s@[from + t]);
                }
                lemma_find_missing(sub, '.', p2 - from + 1);
            }
            return None;
        },
    };
    proof {
        assert(sub[p3 - from] == s@[p3 as int]);
        assert forall|t: int| p2 - from + 1 <= t < p3 - from implies sub[t] != '.' by {
            assert(sub[t] == s@[from + t]);
        }
        lemma_find_found(sub, '.', p2 - from + 1, p3 - from);
    }
    let o1 = parse_u32_range(s, from, p1);
    let o2 = parse_u32_range(s, p1 + 1, p2);
    let o3 = parse_u32_range(s, p2 + 1, p3);
    let o4 = parse_u32_range(s, p3 + 1, to);
    proof {
        assert(s@.subrange(from as int, p1 as int) =~= sub.subrange(0, p1 - from));
        assert(s@.subrange(p1 + 1, p2 as int) =~= sub.subrange(p1 - from + 1, p2 - from));
        assert(s@.subrange(p2 + 1, p3 as int) =~= sub.subrange(p2 - from + 1, p3 - from));
        assert(s@.subrange(p3 + 1, to as int) =~= sub.subrange(p3 - from + 1, sub.len() as int));
    }
    match (o1, o2, o3, o4) {
        (Some(v1), Some(v2), Some(v3), Some(v4)) => {
            if v1 <= 255 && v2 <= 255 && v3 <= 255 && v4 <= 255 {
                Some(v1 * 0x1000000 + v2 * 0x10000 + v3 * 0x100 + v4)
            } else {
                None
            }
        },
        _ => None,
    }
}

/// Parse a whole string as a decimal numeral, if it is one and fits in 32
/// bits.
pub fn parse_u32_str(s: &str) -> (r: Option<u32>)
    ensures
        r == spec_parse_u32(s@),
{
    let n = s.unicode_len();
    let r = parse_u32_range(s, 0, n);
    proof {
        assert(s@.subrange(0, n as int) =~= s@);
    }
    r
}

/// Parse a dotted-quad IPv4 address, most significant octet first.
pub fn parse_addr(s: &str) -> (r: Result<u32, ParseError>)
    ensures
        match spec_parse_quad(s@) {
            Some(a) => r == Ok::<u32, ParseError>(a),
            None => r is Err,
        },
{
    let n = s.unicode_len();
    let parsed = parse_quad_range(s, 0, n);
    proof {
        assert(s@.subrange(0, n as int) =~= s@);
    }
    match parsed {
        Some(a) => Ok(a),
        None => Err(ParseError::Malformed),
    }
}

/// Parse a CIDR prefix string `a.b.c.d/len` into the packed address and the
/// subnet length (0 to 32).
pub fn parse_ip(s: &str) -> (r: Result<(u32, u32), ParseError>)
    ensures
        match spec_parse_prefix(s@) {
            Some(pl) => r == Ok::<(u32, u32), ParseError>(pl),
            None => r is Err,
        },
{
    let n = s.unicode_len();
    let sl = match find_in_range(s, '/', 0, n) {
        Some(p) => p,
        None => {
            proof {
                lemma_find_missing(s@, '/', 0);
            }
            return Err(ParseError::Malformed);
        },
    };
    proof {
        lemma_find_found(s@, '/', 0, sl as int);
    }
    let end2 = match find_in_range(s, '/', sl + 1, n) {
        Some(p) => {
            proof {
                lemma_find_found(s@, '/', sl + 1, p as int);
            }
            p
        },
        None => {
            proof {
                lemma_find_missing(s@, '/', sl + 1);
            }
            n
        },
    };
    let quad = parse_quad_range(s, 0, sl);
    let lenv = parse_u32_range(s, sl + 1, end2);
    match (quad, lenv) {
        (Some(a), Some(l)) => if l <= 32 {
            Ok((a, l))
        } else {
            Err(ParseError::Malformed)
        },
        _ => Err(ParseError::Malformed),
    }
}

} // verus!
