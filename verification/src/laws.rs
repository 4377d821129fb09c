//! The crate-level laws of the codec: a decode of an encode returns the
//! message unchanged, merge decoding composes over buffer concatenation, and
//! an all-unset message encodes to the empty buffer.

use vstd::prelude::*;
use crate::bytes::{from_le8, is_utf8_from, le8, lemma_le8_roundtrip};
use crate::model::{
    depth_ok, empty_msg, lemma_depth_fields_ok_at, lemma_msg_fields_wf_at,
    lemma_table_fields_wf_at, msg_wf, req_ok, set_field, table_wf, FieldKind, MiniTable, MsgS,
    ValS,
};
use crate::status::DecodeStatus;
use crate::wire::{dec_fields, dec_msg, enc_fields, enc_msg, enc_value, lemma_empty_msg_wf};

verus! {

/// Equal regions have equal sub-regions.
proof fn lemma_sub_eq(buf1: Seq<u8>, i1: int, buf2: Seq<u8>, i2: int, n: int, a: int, b: int)
    requires
        0 <= i1,
        0 <= i2,
        0 <= a <= b <= n,
        i1 + n <= buf1.len(),
        i2 + n <= buf2.len(),
        buf1.subrange(i1, i1 + n) == buf2.subrange(i2, i2 + n),
    ensures
        buf1.subrange(i1 + a, i1 + b) == buf2.subrange(i2 + a, i2 + b),
{
    let s1 = buf1.subrange(i1, i1 + n);
    let s2 = buf2.subrange(i2, i2 + n);
    assert forall|q: int| 0 <= q < b - a implies #[trigger] buf1.subrange(i1 + a, i1 + b)[q]
        == buf2.subrange(i2 + a, i2 + b)[q] by {
        assert(s1[a + q] == buf1[i1 + (a + q)]);
        assert(s2[a + q] == buf2[i2 + (a + q)]);
        assert(buf1.subrange(i1 + a, i1 + b)[q] == buf1[i1 + a + q]);
        assert(buf2.subrange(i2 + a, i2 + b)[q] == buf2[i2 + a + q]);
    }
    assert(buf1.subrange(i1 + a, i1 + b) =~= buf2.subrange(i2 + a, i2 + b));
}

/// Equal regions have equal bytes.
proof fn lemma_sub_at(buf1: Seq<u8>, i1: int, buf2: Seq<u8>, i2: int, n: int, a: int)
    requires
        0 <= i1,
        0 <= i2,
        0 <= a < n,
        i1 + n <= buf1.len(),
        i2 + n <= buf2.len(),
        buf1.subrange(i1, i1 + n) == buf2.subrange(i2, i2 + n),
    ensures
        buf1[i1 + a] == buf2[i2 + a],
{
    assert(buf1.subrange(i1, i1 + n)[a] == buf1[i1 + a]);
    assert(buf2.subrange(i2, i2 + n)[a] == buf2[i2 + a]);
}

/// Decoding the chunks of the fields of `m` from `k` on, into any message
/// that already agrees with `m` on the fields before `k` and on the unset
/// fields, recovers `m` exactly.
#[verifier::rlimit(100)]
proof fn lemma_dec_of_enc_fields(
    buf: Seq<u8>,
    i: int,
    m: MsgS,
    t: MiniTable,
    cur: MsgS,
    k: int,
    d: int,
)
    requires
        table_wf(t),
        msg_wf(m, t),
        depth_ok(m, d),
        0 <= k <= m.fields.len(),
        cur.fields.len() == m.fields.len(),
        forall|j: int|
            0 <= j < m.fields.len() && (j < k || m.fields[j] is None) ==> cur.fields[j]
                == m.fields[j],
        0 <= i,
        i + enc_fields(m, t, k).len() <= buf.len(),
        buf.len() < 0x10000000000000000,
        buf.subrange(i, i + enc_fields(m, t, k).len()) == enc_fields(m, t, k),
    ensures
        dec_fields(buf, i, i + enc_fields(m, t, k).len(), cur, t, d) == (
            m,
            Option::<DecodeStatus>::None,
        ),
    decreases m, m.fields.len() - k,
{
    let e = enc_fields(m, t, k);
    let n = e.len() as int;
    let end = i + n;
    assert(e.subrange(0, n) =~= e);
    if k == m.fields.len() {
        assert(cur.fields =~= m.fields);
        assert(cur =~= m);
    } else {
        let rest = enc_fields(m, t, k + 1);
        match m.fields[k] {
            Option::None => {
                assert(e =~= rest);
                lemma_dec_of_enc_fields(buf, i, m, t, cur, k + 1, d);
            },
            Option::Some(v) => {
                lemma_msg_fields_wf_at(m.fields, t, 0, k);
                lemma_depth_fields_ok_at(m.fields, d, 0, k);
                let f = t.fields@[k];
                let chunk = seq![k as u8] + enc_value(v, f);
                assert(e =~= chunk + rest);
                let clen = chunk.len() as int;
                lemma_sub_at(buf, i, e, 0, n, 0);
                assert(buf[i] == e[0]);
                assert(e[0] == chunk[0]);
                assert(chunk[0] == k as u8);
                assert((k as u8) as int == k);
                lemma_sub_eq(buf, i, e, 0, n, clen, n);
                assert(e.subrange(clen, n) =~= rest);
                let pay = enc_value(v, f);
                lemma_sub_eq(buf, i, e, 0, n, 1, clen);
                assert(e.subrange(1, clen) =~= pay);
                assert(buf.subrange(i + 1, i + clen) == pay);
                assert(pay.subrange(0, pay.len() as int) =~= pay);
                match v {
                    ValS::Uint(x) => {
                        assert(f.kind is Uint);
                        assert(buf.subrange(i + 1, i + 9) == le8(x));
                        lemma_le8_roundtrip(x);
                        let cur2 = set_field(cur, k, ValS::Uint(x));
                        lemma_dec_of_enc_fields(buf, i + 9, m, t, cur2, k + 1, d);
                        assert(dec_fields(buf, i, end, cur, t, d) == (
                            m,
                            Option::<DecodeStatus>::None,
                        ));
                    },
                    ValS::Bytes(b) => {
                        assert(f.kind is Bytes);
                        assert(b.len() < 0x10000000000000000);
                        let bl = b.len() as u64;
                        lemma_sub_eq(buf, i + 1, pay, 0, clen - 1, 0, 8);
                        assert(pay.subrange(0, 8) =~= le8(bl));
                        assert(buf.subrange(i + 1, i + 9) == le8(bl));
                        lemma_le8_roundtrip(bl);
                        lemma_sub_eq(buf, i + 1, pay, 0, clen - 1, 8, clen - 1);
                        assert(pay.subrange(8, clen - 1) =~= b);
                        assert(buf.subrange(i + 9, i + 9 + b.len()) == b);
                        let cur2 = set_field(cur, k, ValS::Bytes(b));
                        lemma_dec_of_enc_fields(buf, i + 9 + b.len(), m, t, cur2, k + 1, d);
                        assert(dec_fields(buf, i, end, cur, t, d) == (
                            m,
                            Option::<DecodeStatus>::None,
                        ));
                    },
                    ValS::Text(b) => {
                        assert(f.kind is Text && is_utf8_from(b, 0));
                        assert(b.len() < 0x10000000000000000);
                        let bl = b.len() as u64;
                        lemma_sub_eq(buf, i + 1, pay, 0, clen - 1, 0, 8);
                        assert(pay.subrange(0, 8) =~= le8(bl));
                        assert(buf.subrange(i + 1, i + 9) == le8(bl));
                        lemma_le8_roundtrip(bl);
                        lemma_sub_eq(buf, i + 1, pay, 0, clen - 1, 8, clen - 1);
                        assert(pay.subrange(8, clen - 1) =~= b);
                        assert(buf.subrange(i + 9, i + 9 + b.len()) == b);
                        let cur2 = set_field(cur, k, ValS::Text(b));
                        lemma_dec_of_enc_fields(buf, i + 9 + b.len(), m, t, cur2, k + 1, d);
                        assert(dec_fields(buf, i, end, cur, t, d) == (
                            m,
                            Option::<DecodeStatus>::None,
                        ));
                    },
                    ValS::Sub(sm) => {
                        let st = match f.kind {
                            FieldKind::Sub(Option::Some(st)) => *st,
                            _ => arbitrary(),
                        };
                        assert(msg_wf(sm, st));
                        assert(depth_ok(sm, d - 1));
                        lemma_table_fields_wf_at(t.fields@, 0, k);
                        let sb = enc_msg(sm, st);
                        assert(sb.len() < 0x10000000000000000);
                        let bl = sb.len() as u64;
                        lemma_sub_eq(buf, i + 1, pay, 0, clen - 1, 0, 8);
                        assert(pay.subrange(0, 8) =~= le8(bl));
                        assert(buf.subrange(i + 1, i + 9) == le8(bl));
                        lemma_le8_roundtrip(bl);
                        lemma_sub_eq(buf, i + 1, pay, 0, clen - 1, 8, clen - 1);
                        assert(pay.subrange(8, clen - 1) =~= sb);
                        assert(buf.subrange(i + 9, i + 9 + sb.len()) == sb);
                        lemma_empty_msg_wf(st, d - 1);
                        lemma_dec_of_enc_fields(buf, i + 9, sm, st, empty_msg(st), 0, d - 1);
                        assert(dec_fields(buf, i + 9, i + 9 + sb.len(), empty_msg(st), st, d - 1)
                            == (sm, Option::<DecodeStatus>::None));
                        let cur2 = set_field(cur, k, ValS::Sub(sm));
                        lemma_dec_of_enc_fields(buf, i + 9 + sb.len(), m, t, cur2, k + 1, d);
                        assert(dec_fields(buf, i, end, cur, t, d) == (
                            m,
                            Option::<DecodeStatus>::None,
                        ));
                    },
                }
            },
        }
    }
}

/// Round trip: for any message associated with its schema, within the depth
/// bound and with every required field set, decoding the encoding into a
/// fresh message succeeds and returns the message itself.
pub proof fn lemma_round_trip(m: MsgS, t: MiniTable, d: int)
    requires
        table_wf(t),
        msg_wf(m, t),
        depth_ok(m, d),
        req_ok(m, t),
        enc_msg(m, t).len() < 0x10000000000000000,
    ensures
        dec_msg(enc_msg(m, t), empty_msg(t), t, d) == (m, Option::<DecodeStatus>::None),
{
    let buf = enc_msg(m, t);
    lemma_empty_msg_wf(t, 1);
    assert(buf.subrange(0, buf.len() as int) =~= buf);
    lemma_dec_of_enc_fields(buf, 0, m, t, empty_msg(t), 0, d);
}

/// Chunk consumption reads nothing outside its region and nothing but the
/// region's position-relative contents: two regions with equal bytes decode
/// alike, wherever each stands in its buffer.
pub proof fn lemma_dec_fields_frame(
    buf1: Seq<u8>,
    i1: int,
    end1: int,
    buf2: Seq<u8>,
    i2: int,
    end2: int,
    m: MsgS,
    t: MiniTable,
    d: int,
)
    requires
        0 <= i1 <= end1 <= buf1.len(),
        0 <= i2 <= end2 <= buf2.len(),
        end1 - i1 == end2 - i2,
        buf1.subrange(i1, end1) == buf2.subrange(i2, end2),
    ensures
        dec_fields(buf1, i1, end1, m, t, d) == dec_fields(buf2, i2, end2, m, t, d),
    decreases end1 - i1,
{
    let n = end1 - i1;
    if i1 >= end1 {
    } else {
        lemma_sub_at(buf1, i1, buf2, i2, n, 0);
        assert(buf1[i1] == buf2[i2]);
        let tag = buf1[i1] as int;
        if tag >= t.fields@.len() {
        } else {
            if i1 + 9 <= end1 {
                lemma_sub_eq(buf1, i1, buf2, i2, n, 1, 9);
                assert(buf1.subrange(i1 + 1, i1 + 9) == buf2.subrange(i2 + 1, i2 + 9));
                let l = from_le8(buf1.subrange(i1 + 1, i1 + 9));
                if 0 <= l && i1 + 9 + l <= end1 {
                    lemma_sub_eq(buf1, i1, buf2, i2, n, 9, 9 + l);
                    lemma_sub_eq(buf1, i1, buf2, i2, n, 9 + l, n);
                    let b = buf1.subrange(i1 + 9, i1 + 9 + l);
                    assert(b == buf2.subrange(i2 + 9, i2 + 9 + l));
                    match t.fields@[tag].kind {
                        FieldKind::Uint => {},
                        FieldKind::Bytes => {
                            lemma_dec_fields_frame(
                                buf1,
                                i1 + 9 + l,
                                end1,
                                buf2,
                                i2 + 9 + l,
                                end2,
                                set_field(m, tag, ValS::Bytes(b)),
                                t,
                                d,
                            );
                        },
                        FieldKind::Text => {
                            if is_utf8_from(b, 0) {
                                lemma_dec_fields_frame(
                                    buf1,
                                    i1 + 9 + l,
                                    end1,
                                    buf2,
                                    i2 + 9 + l,
                                    end2,
                                    set_field(m, tag, ValS::Text(b)),
                                    t,
                                    d,
                                );
                            }
                        },
                        FieldKind::Sub(Option::None) => {},
                        FieldKind::Sub(Option::Some(st)) => {
                            if d <= 1 {
                            } else {
                                lemma_dec_fields_frame(
                                    buf1,
                                    i1 + 9,
                                    i1 + 9 + l,
                                    buf2,
                                    i2 + 9,
                                    i2 + 9 + l,
                                    empty_msg(*st),
                                    *st,
                                    d - 1,
                                );
                                let sub = dec_fields(buf1, i1 + 9, i1 + 9 + l, empty_msg(*st), *st, d - 1);
                                if sub.1 is Some {
                                } else {
                                    lemma_dec_fields_frame(
                                        buf1,
                                        i1 + 9 + l,
                                        end1,
                                        buf2,
                                        i2 + 9 + l,
                                        end2,
                                        set_field(m, tag, ValS::Sub(sub.0)),
                                        t,
                                        d,
                                    );
                                }
                            }
                        },
                    }
                }
                if t.fields@[tag].kind is Uint {
                    lemma_sub_eq(buf1, i1, buf2, i2, n, 9, n);
                    lemma_dec_fields_frame(
                        buf1,
                        i1 + 9,
                        end1,
                        buf2,
                        i2 + 9,
                        end2,
                        set_field(m, tag, ValS::Uint(l as u64)),
                        t,
                        d,
                    );
                }
            }
        }
    }
}

/// A successful consumption of a region composes with the consumption of what
/// follows it: parsing `[i, mid)` and then `[mid, end)` equals parsing
/// `[i, end)` in one pass.
pub proof fn lemma_dec_fields_split(
    buf: Seq<u8>,
    i: int,
    mid: int,
    end: int,
    m: MsgS,
    t: MiniTable,
    d: int,
)
    requires
        0 <= i <= mid <= end <= buf.len(),
        dec_fields(buf, i, mid, m, t, d).1 is None,
    ensures
        dec_fields(buf, i, end, m, t, d) == dec_fields(
            buf,
            mid,
            end,
            dec_fields(buf, i, mid, m, t, d).0,
            t,
            d,
        ),
    decreases mid - i,
{
    if i >= mid {
    } else {
        let tag = buf[i] as int;
        assert(tag < t.fields@.len());
        assert(i + 9 <= mid);
        let l = from_le8(buf.subrange(i + 1, i + 9));
        match t.fields@[tag].kind {
            FieldKind::Uint => {
                let m2 = set_field(m, tag, ValS::Uint(l as u64));
                assert(dec_fields(buf, i, mid, m, t, d) == dec_fields(buf, i + 9, mid, m2, t, d));
                lemma_dec_fields_split(buf, i + 9, mid, end, m2, t, d);
            },
            FieldKind::Bytes => {
                assert(0 <= l && i + 9 + l <= mid);
                let m2 = set_field(m, tag, ValS::Bytes(buf.subrange(i + 9, i + 9 + l)));
                assert(dec_fields(buf, i, mid, m, t, d) == dec_fields(
                    buf,
                    i + 9 + l,
                    mid,
                    m2,
                    t,
                    d,
                ));
                lemma_dec_fields_split(buf, i + 9 + l, mid, end, m2, t, d);
            },
            FieldKind::Text => {
                assert(0 <= l && i + 9 + l <= mid);
                let b = buf.subrange(i + 9, i + 9 + l);
                assert(is_utf8_from(b, 0));
                let m2 = set_field(m, tag, ValS::Text(b));
                assert(dec_fields(buf, i, mid, m, t, d) == dec_fields(
                    buf,
                    i + 9 + l,
                    mid,
                    m2,
                    t,
                    d,
                ));
                lemma_dec_fields_split(buf, i + 9 + l, mid, end, m2, t, d);
            },
            FieldKind::Sub(Option::None) => {
                assert(false);
            },
            FieldKind::Sub(Option::Some(st)) => {
                assert(0 <= l && i + 9 + l <= mid && d > 1);
                let sub = dec_fields(buf, i + 9, i + 9 + l, empty_msg(*st), *st, d - 1);
                assert(sub.1 is None);
                let m2 = set_field(m, tag, ValS::Sub(sub.0));
                assert(dec_fields(buf, i, mid, m, t, d) == dec_fields(
                    buf,
                    i + 9 + l,
                    mid,
                    m2,
                    t,
                    d,
                ));
                lemma_dec_fields_split(buf, i + 9 + l, mid, end, m2, t, d);
            },
        }
    }
}

/// Merge composes over concatenation: decoding `b1` into `m` and then
/// decoding `b2` into the result gives the same message and status as
/// decoding `b1 + b2` into `m` in one call, whenever the chunks of `b1`
/// decode cleanly.
pub proof fn lemma_merge_concat(b1: Seq<u8>, b2: Seq<u8>, m: MsgS, t: MiniTable, d: int)
    requires
        dec_fields(b1, 0, b1.len() as int, m, t, d).1 is None,
    ensures
        dec_msg(b1 + b2, m, t, d) == dec_msg(
            b2,
            dec_fields(b1, 0, b1.len() as int, m, t, d).0,
            t,
            d,
        ),
{
    let cat = b1 + b2;
    let n1 = b1.len() as int;
    let n2 = b2.len() as int;
    assert(cat.len() == n1 + n2);
    assert(b1.subrange(0, n1) =~= cat.subrange(0, n1));
    lemma_dec_fields_frame(b1, 0, n1, cat, 0, n1, m, t, d);
    let m1 = dec_fields(cat, 0, n1, m, t, d).0;
    lemma_dec_fields_split(cat, 0, n1, n1 + n2, m, t, d);
    assert(b2.subrange(0, n2) =~= cat.subrange(n1, n1 + n2));
    lemma_dec_fields_frame(b2, 0, n2, cat, n1, n1 + n2, m1, t, d);
}

/// A message with every field unset encodes to the empty buffer.
pub proof fn lemma_enc_all_unset(m: MsgS, t: MiniTable, k: int)
    requires
        forall|j: int| 0 <= j < m.fields.len() ==> m.fields[j] is None,
    ensures
        enc_fields(m, t, k) == Seq::<u8>::empty(),
    decreases m.fields.len() - k,
{
    if 0 <= k < m.fields.len() {
        lemma_enc_all_unset(m, t, k + 1);
        assert(enc_fields(m, t, k) =~= Seq::<u8>::empty());
    }
}

/// The empty message encodes to a zero-length buffer.
pub proof fn lemma_enc_empty_msg(t: MiniTable)
    ensures
        enc_msg(empty_msg(t), t) == Seq::<u8>::empty(),
{
    lemma_enc_all_unset(empty_msg(t), t, 0);
}

} // verus!
