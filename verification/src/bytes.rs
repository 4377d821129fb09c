//! Plain byte-level helpers: fixed-width little-endian integers and UTF-8
//! validation.  The wire format in this crate writes every integer and every
//! length as eight little-endian bytes.

use vstd::prelude::*;

verus! {

/// The eight little-endian bytes of `v`.
pub open spec fn le8(v: u64) -> Seq<u8> {
    seq![
        ((v as int) % 0x100) as u8,
        (((v as int) / 0x100) % 0x100) as u8,
        (((v as int) / 0x10000) % 0x100) as u8,
        (((v as int) / 0x1000000) % 0x100) as u8,
        (((v as int) / 0x100000000) % 0x100) as u8,
        (((v as int) / 0x10000000000) % 0x100) as u8,
        (((v as int) / 0x1000000000000) % 0x100) as u8,
        (((v as int) / 0x100000000000000) % 0x100) as u8,
    ]
}

/// The value of eight little-endian bytes.
pub open spec fn from_le8(s: Seq<u8>) -> int {
    s[0] + s[1] * 0x100 + s[2] * 0x10000 + s[3] * 0x1000000 + s[4] * 0x100000000
        + s[5] * 0x10000000000 + s[6] * 0x1000000000000 + s[7] * 0x100000000000000
}

/// Reading back the eight bytes of `v` yields `v`.
pub proof fn lemma_le8_roundtrip(v: u64)
    ensures
        from_le8(le8(v)) == v,
{
    let x = v as int;
    assert(x == x % 0x100 + (x / 0x100) * 0x100);
    assert(x / 0x100 == (x / 0x100) % 0x100 + (x / 0x10000) * 0x100) by {
        assert(x / 0x100 / 0x100 == x / 0x10000) by (nonlinear_arith);
    }
    assert(x / 0x10000 == (x / 0x10000) % 0x100 + (x / 0x1000000) * 0x100) by {
        assert(x / 0x10000 / 0x100 == x / 0x1000000) by (nonlinear_arith);
    }
    assert(x / 0x1000000 == (x / 0x1000000) % 0x100 + (x / 0x100000000) * 0x100) by {
        assert(x / 0x1000000 / 0x100 == x / 0x100000000) by (nonlinear_arith);
    }
    assert(x / 0x100000000 == (x / 0x100000000) % 0x100 + (x / 0x10000000000) * 0x100) by {
        assert(x / 0x100000000 / 0x100 == x / 0x10000000000) by (nonlinear_arith);
    }
    assert(x / 0x10000000000 == (x / 0x10000000000) % 0x100 + (x / 0x1000000000000) * 0x100) by {
        assert(x / 0x10000000000 / 0x100 == x / 0x1000000000000) by (nonlinear_arith);
    }
    assert(x / 0x1000000000000 == (x / 0x1000000000000) % 0x100 + (x / 0x100000000000000)
        * 0x100) by {
        assert(x / 0x1000000000000 / 0x100 == x / 0x100000000000000) by (nonlinear_arith);
    }
    assert(x / 0x100000000000000 == (x / 0x100000000000000) % 0x100) by {
        assert(x / 0x100000000000000 < 0x100) by (nonlinear_arith)
            requires 0 <= x < 0x10000000000000000;
    }
}

/// Appends the eight little-endian bytes of `v`.
pub fn push_le8(buf: &mut Vec<u8>, v: u64)
    ensures
        final(buf)@ == old(buf)@ + le8(v),
{
    buf.push((v % 0x100) as u8);
    buf.push(((v / 0x100) % 0x100) as u8);
    buf.push(((v / 0x10000) % 0x100) as u8);
    buf.push(((v / 0x1000000) % 0x100) as u8);
    buf.push(((v / 0x100000000) % 0x100) as u8);
    buf.push(((v / 0x10000000000) % 0x100) as u8);
    buf.push(((v / 0x1000000000000) % 0x100) as u8);
    buf.push(((v / 0x100000000000000) % 0x100) as u8);
    proof {
        assert(buf@ =~= old(buf)@ + le8(v));
    }
}

/// Reads eight little-endian bytes starting at `pos`.
pub fn read_le8(buf: &[u8], pos: usize) -> (r: u64)
    requires
        pos + 8 <= buf@.len(),
    ensures
        r as int == from_le8(buf@.subrange(pos as int, pos as int + 8)),
{
    let r: u64 = (buf[pos] as u64) + (buf[pos + 1] as u64) * 0x100 + (buf[pos + 2] as u64)
        * 0x10000 + (buf[pos + 3] as u64) * 0x1000000 + (buf[pos + 4] as u64) * 0x100000000 + (buf[
        pos + 5] as u64) * 0x10000000000 + (buf[pos + 6] as u64) * 0x1000000000000 + (buf[pos
        + 7] as u64) * 0x100000000000000;
    proof {
        let s = buf@.subrange(pos as int, pos as int + 8);
        assert(s[0] == buf@[pos as int]);
        assert(s[1] == buf@[pos as int + 1]);
        assert(s[2] == buf@[pos as int + 2]);
        assert(s[3] == buf@[pos as int + 3]);
        assert(s[4] == buf@[pos as int + 4]);
        assert(s[5] == buf@[pos as int + 5]);
        assert(s[6] == buf@[pos as int + 6]);
        assert(s[7] == buf@[pos as int + 7]);
    }
    r
}

/// A UTF-8 continuation byte.
pub open spec fn is_cont(b: u8) -> bool {
    0x80 <= b && b <= 0xBF
}

/// The bytes of `s` from position `i` on are a well-formed UTF-8 sequence,
/// by the standard table: no overlong forms, no surrogates, nothing past
/// U+10FFFF.
pub open spec fn is_utf8_from(s: Seq<u8>, i: int) -> bool
    decreases s.len() - i,
{
    if i >= s.len() {
        true
    } else if i < 0 {
        false
    } else {
        let b0 = s[i];
        if b0 < 0x80 {
            is_utf8_from(s, i + 1)
        } else if 0xC2 <= b0 && b0 <= 0xDF {
            i + 2 <= s.len() && is_cont(s[i + 1]) && is_utf8_from(s, i + 2)
        } else if b0 == 0xE0 {
            i + 3 <= s.len() && 0xA0 <= s[i + 1] && s[i + 1] <= 0xBF && is_cont(s[i + 2])
                && is_utf8_from(s, i + 3)
        } else if (0xE1 <= b0 && b0 <= 0xEC) || b0 == 0xEE || b0 == 0xEF {
            i + 3 <= s.len() && is_cont(s[i + 1]) && is_cont(s[i + 2]) && is_utf8_from(s, i + 3)
        } else if b0 == 0xED {
            i + 3 <= s.len() && 0x80 <= s[i + 1] && s[i + 1] <= 0x9F && is_cont(s[i + 2])
                && is_utf8_from(s, i + 3)
        } else if b0 == 0xF0 {
            i + 4 <= s.len() && 0x90 <= s[i + 1] && s[i + 1] <= 0xBF && is_cont(s[i + 2])
                && is_cont(s[i + 3]) && is_utf8_from(s, i + 4)
        } else if 0xF1 <= b0 && b0 <= 0xF3 {
            i + 4 <= s.len() && is_cont(s[i + 1]) && is_cont(s[i + 2]) && is_cont(s[i + 3])
                && is_utf8_from(s, i + 4)
        } else if b0 == 0xF4 {
            i + 4 <= s.len() && 0x80 <= s[i + 1] && s[i + 1] <= 0x8F && is_cont(s[i + 2])
                && is_cont(s[i + 3]) && is_utf8_from(s, i + 4)
        } else {
            false
        }
    }
}

/// Checks that `s` is well-formed UTF-8.
pub fn is_utf8(s: &[u8]) -> (r: bool)
    ensures
        r == is_utf8_from(s@, 0),
{
    let n = s.len();
    let mut i: usize = 0;
    while i < n
        invariant
            i <= n,
            n == s@.len(),
            is_utf8_from(s@, 0) == is_utf8_from(s@, i as int),
        decreases n - i,
    {
        let b0 = s[i];
        if b0 < 0x80 {
            i += 1;
        } else if 0xC2 <= b0 && b0 <= 0xDF {
            if !(n - i >= 2 && 0x80 <= s[i + 1] && s[i + 1] <= 0xBF) {
                return false;
            }
            i += 2;
        } else if b0 == 0xE0 {
            if !(n - i >= 3 && 0xA0 <= s[i + 1] && s[i + 1] <= 0xBF && 0x80 <= s[i + 2] && s[i
                + 2] <= 0xBF) {
                return false;
            }
            i += 3;
        } else if (0xE1 <= b0 && b0 <= 0xEC) || b0 == 0xEE || b0 == 0xEF {
            if !(n - i >= 3 && 0x80 <= s[i + 1] && s[i + 1] <= 0xBF && 0x80 <= s[i + 2] && s[i
                + 2] <= 0xBF) {
                return false;
            }
            i += 3;
        } else if b0 == 0xED {
            if !(n - i >= 3 && 0x80 <= s[i + 1] && s[i + 1] <= 0x9F && 0x80 <= s[i + 2] && s[i
                + 2] <= 0xBF) {
                return false;
            }
            i += 3;
        } else if b0 == 0xF0 {
            if !(n - i >= 4 && 0x90 <= s[i + 1] && s[i + 1] <= 0xBF && 0x80 <= s[i + 2] && s[i
                + 2] <= 0xBF && 0x80 <= s[i + 3] && s[i + 3] <= 0xBF) {
                return false;
            }
            i += 4;
        } else if 0xF1 <= b0 && b0 <= 0xF3 {
            if !(n - i >= 4 && 0x80 <= s[i + 1] && s[i + 1] <= 0xBF && 0x80 <= s[i + 2] && s[i
                + 2] <= 0xBF && 0x80 <= s[i + 3] && s[i + 3] <= 0xBF) {
                return false;
            }
            i += 4;
        } else if b0 == 0xF4 {
            if !(n - i >= 4 && 0x80 <= s[i + 1] && s[i + 1] <= 0x8F && 0x80 <= s[i + 2] && s[i
                + 2] <= 0xBF && 0x80 <= s[i + 3] && s[i + 3] <= 0xBF) {
                return false;
            }
            i += 4;
        } else {
            return false;
        }
    }
    true
}

} // verus!
