//! Schema-driven encoding and decoding of messages.
//!
//! The wire format is flat and self-delimiting.  Each set field is written as
//! one chunk, in field order: a one-byte tag holding the field's index,
//! followed by the payload.  An integer payload is its eight little-endian
//! bytes; a byte-string or text payload is an eight-byte little-endian length
//! followed by that many bytes; a nested-message payload is an eight-byte
//! little-endian length followed by the nested message's own encoding.
//! Decoding consumes chunks in buffer order and sets the named field each
//! time, so a later chunk for the same field overwrites an earlier one; that
//! is also the merge rule when decoding into an already-populated message.

use vstd::prelude::*;
use crate::arena::{Arena, ArenaHandle, RawMessage, Span};
use crate::bytes::{from_le8, is_utf8, is_utf8_from, le8, push_le8, read_le8};
use crate::model::{
    depth_ok, empty_msg, lemma_depth_fields_ok_at, lemma_fields_view_index,
    lemma_fields_view_len, lemma_msg_fields_wf_at, lemma_set_fields_depth, lemma_set_fields_wf,
    lemma_table_fields_wf_at, msg_fields_wf, msg_wf, req_ok, set_field, table_wf, val_view,
    FieldKind, FieldSpec, Message, MiniTable, MsgS, ValS, Value,
};
use crate::owned_data::OwnedData;
use crate::status::{DecodeStatus, EncodeStatus};

verus! {

/// The bound on message nesting: a buffer or message nested more deeply is
/// rejected with a depth status.
pub const MAX_DEPTH: u32 = 100;

/// The payload bytes of one set field value.
pub open spec fn enc_value(v: ValS, f: FieldSpec) -> Seq<u8>
    decreases v, 1int,
{
    match v {
        ValS::Uint(n) => le8(n),
        ValS::Bytes(b) => le8(b.len() as u64) + b,
        ValS::Text(b) => le8(b.len() as u64) + b,
        ValS::Sub(sm) => match f.kind {
            FieldKind::Sub(Option::Some(st)) => le8(enc_msg(sm, *st).len() as u64) + enc_msg(
                sm,
                *st,
            ),
            _ => Seq::empty(),
        },
    }
}

/// The chunks of the fields of `m` from index `k` on, in field order.
pub open spec fn enc_fields(m: MsgS, t: MiniTable, k: int) -> Seq<u8>
    decreases m, m.fields.len() - k,
{
    if k < 0 || k >= m.fields.len() {
        Seq::empty()
    } else {
        (match m.fields[k] {
            Option::Some(v) => if k < t.fields@.len() {
                seq![k as u8] + enc_value(v, t.fields@[k])
            } else {
                Seq::empty()
            },
            Option::None => Seq::empty(),
        }) + enc_fields(m, t, k + 1)
    }
}

/// The full encoding of `m` under `t`.
pub open spec fn enc_msg(m: MsgS, t: MiniTable) -> Seq<u8>
    decreases m, m.fields.len() + 1,
{
    enc_fields(m, t, 0)
}

/// Appends the bytes of `data`.
fn push_bytes(out: &mut Vec<u8>, data: &Vec<u8>)
    ensures
        final(out)@ == old(out)@ + data@,
{
    let n = data.len();
    let mut i: usize = 0;
    while i < n
        invariant
            i <= n,
            n == data@.len(),
            out@ == old(out)@ + data@.subrange(0, i as int),
        decreases n - i,
    {
        out.push(data[i]);
        i += 1;
        proof {
            assert(out@ =~= old(out)@ + data@.subrange(0, i as int));
        }
    }
    proof {
        assert(out@ =~= old(out)@ + data@);
    }
}

/// Serializes the fields of `m` under `t`, appending to `out`.
fn encode_fields(m: &Message, t: &MiniTable, d: u32, out: &mut Vec<u8>)
    requires
        table_wf(*t),
        msg_wf(m@, *t),
        depth_ok(m@, d as int),
    ensures
        final(out)@ == old(out)@ + enc_msg(m@, *t),
    decreases d,
{
    let n = m.fields.len();
    proof {
        lemma_fields_view_len(m.fields@, n as int);
    }
    let mut k: usize = 0;
    while k < n
        invariant
            k <= n,
            n == m.fields@.len(),
            m@.fields.len() == n as int,
            table_wf(*t),
            msg_wf(m@, *t),
            depth_ok(m@, d as int),
            out@ + enc_fields(m@, *t, k as int) == old(out)@ + enc_msg(m@, *t),
        decreases n - k,
    {
        proof {
            lemma_fields_view_index(m.fields@, n as int, k as int);
            lemma_msg_fields_wf_at(m@.fields, *t, 0, k as int);
            lemma_depth_fields_ok_at(m@.fields, d as int, 0, k as int);
        }
        let ghost out_at_k = out@;
        match &m.fields[k] {
            Option::Some(v) => {
                out.push(k as u8);
                match v {
                    Value::Uint(x) => {
                        push_le8(out, *x);
                    },
                    Value::Bytes(b) => {
                        push_le8(out, b.len() as u64);
                        push_bytes(out, b);
                    },
                    Value::Text(b) => {
                        push_le8(out, b.len() as u64);
                        push_bytes(out, b);
                    },
                    Value::Sub(sm) => {
                        match &t.fields[k].kind {
                            FieldKind::Sub(Option::Some(st)) => {
                                proof {
                                    lemma_table_fields_wf_at(t.fields@, 0, k as int);
                                }
                                let mut sub_out: Vec<u8> = Vec::new();
                                encode_fields(sm, st, d - 1, &mut sub_out);
                                push_le8(out, sub_out.len() as u64);
                                push_bytes(out, &sub_out);
                            },
                            _ => {
                                proof {
                                    assert(false);
                                }
                            },
                        }
                    },
                }
                proof {
                    assert(out@ =~= out_at_k + (seq![k as u8] + enc_value(
                        val_view(*v),
                        t.fields@[k as int],
                    )));
                }
            },
            Option::None => {},
        }
        k += 1;
        proof {
            assert(out@ + enc_fields(m@, *t, k as int) =~= old(out)@ + enc_msg(m@, *t));
        }
    }
    proof {
        assert(out@ =~= out@ + enc_fields(m@, *t, n as int));
    }
}

/// Serializes `msg` under `mini_table` into a byte buffer allocated in a
/// fresh arena, and couples the buffer with that arena.
///
/// Returns the coupled buffer exactly when the message nesting stays within
/// [`MAX_DEPTH`] and every required field is set; the buffer then holds
/// [`enc_msg`] of the message — a valid, possibly zero-length allocation,
/// never an absent one.  Otherwise nothing is returned and the status names
/// the first check that failed: the depth bound is checked before the
/// required fields.
pub fn encode(msg: &Message, mini_table: &MiniTable) -> (r: Result<
    OwnedData<Span>,
    EncodeStatus,
>)
    requires
        table_wf(*mini_table),
        msg_wf(msg@, *mini_table),
    ensures
        match r {
            Result::Ok(od) => depth_ok(msg@, MAX_DEPTH as int) && req_ok(msg@, *mini_table)
                && od.wf() && od.bytes_model() == enc_msg(msg@, *mini_table) && od.handle().len
                == enc_msg(msg@, *mini_table).len(),
            Result::Err(s) => match s {
                EncodeStatus::MaxDepthExceeded => !depth_ok(msg@, MAX_DEPTH as int),
                EncodeStatus::MissingRequired => depth_ok(msg@, MAX_DEPTH as int) && !req_ok(
                    msg@,
                    *mini_table,
                ),
                _ => false,
            },
        },
{
    if !msg.check_depth(MAX_DEPTH) {
        return Result::Err(EncodeStatus::MaxDepthExceeded);
    }
    if !msg.check_required(mini_table, MAX_DEPTH) {
        return Result::Err(EncodeStatus::MissingRequired);
    }
    let mut out: Vec<u8> = Vec::new();
    encode_fields(msg, mini_table, MAX_DEPTH, &mut out);
    let mut arena = Arena::new();
    let span = arena.alloc_bytes(out.as_slice());
    proof {
        assert(arena@.bytes =~= out@);
    }
    let od = OwnedData::new(span, arena);
    proof {
        assert(od.bytes_model() =~= enc_msg(msg@, *mini_table));
    }
    Result::Ok(od)
}


/// The result of consuming the chunks of `buf[i..end]` into `m`: the message
/// after every applied chunk, and the status of the first failure, if any.
/// `d` is the remaining nesting budget.
pub open spec fn dec_fields(
    buf: Seq<u8>,
    i: int,
    end: int,
    m: MsgS,
    t: MiniTable,
    d: int,
) -> (MsgS, Option<DecodeStatus>)
    decreases end - i,
{
    if i >= end || i < 0 || end > buf.len() {
        (m, Option::None)
    } else {
        let tag = buf[i] as int;
        if tag >= t.fields@.len() {
            (m, Option::Some(DecodeStatus::Malformed))
        } else {
            match t.fields@[tag].kind {
                FieldKind::Uint => {
                    if i + 9 <= end {
                        dec_fields(
                            buf,
                            i + 9,
                            end,
                            set_field(
                                m,
                                tag,
                                ValS::Uint(from_le8(buf.subrange(i + 1, i + 9)) as u64),
                            ),
                            t,
                            d,
                        )
                    } else {
                        (m, Option::Some(DecodeStatus::Malformed))
                    }
                },
                FieldKind::Bytes => {
                    if i + 9 <= end {
                        let l = from_le8(buf.subrange(i + 1, i + 9));
                        if 0 <= l && i + 9 + l <= end {
                            dec_fields(
                                buf,
                                i + 9 + l,
                                end,
                                set_field(m, tag, ValS::Bytes(buf.subrange(i + 9, i + 9 + l))),
                                t,
                                d,
                            )
                        } else {
                            (m, Option::Some(DecodeStatus::Malformed))
                        }
                    } else {
                        (m, Option::Some(DecodeStatus::Malformed))
                    }
                },
                FieldKind::Text => {
                    if i + 9 <= end {
                        let l = from_le8(buf.subrange(i + 1, i + 9));
                        if 0 <= l && i + 9 + l <= end {
                            let b = buf.subrange(i + 9, i + 9 + l);
                            if is_utf8_from(b, 0) {
                                dec_fields(buf, i + 9 + l, end, set_field(m, tag, ValS::Text(b)), t, d)
                            } else {
                                (m, Option::Some(DecodeStatus::BadUtf8))
                            }
                        } else {
                            (m, Option::Some(DecodeStatus::Malformed))
                        }
                    } else {
                        (m, Option::Some(DecodeStatus::Malformed))
                    }
                },
                FieldKind::Sub(Option::None) => (m, Option::Some(DecodeStatus::UnlinkedSubMessage)),
                FieldKind::Sub(Option::Some(st)) => {
                    if i + 9 <= end {
                        let l = from_le8(buf.subrange(i + 1, i + 9));
                        if 0 <= l && i + 9 + l <= end {
                            if d <= 1 {
                                (m, Option::Some(DecodeStatus::MaxDepthExceeded))
                            } else {
                                let sub = dec_fields(buf, i + 9, i + 9 + l, empty_msg(*st), *st, d - 1);
                                if sub.1 is Some {
                                    (m, sub.1)
                                } else {
                                    dec_fields(
                                        buf,
                                        i + 9 + l,
                                        end,
                                        set_field(m, tag, ValS::Sub(sub.0)),
                                        t,
                                        d,
                                    )
                                }
                            }
                        } else {
                            (m, Option::Some(DecodeStatus::Malformed))
                        }
                    } else {
                        (m, Option::Some(DecodeStatus::Malformed))
                    }
                },
            }
        }
    }
}

/// The result of a whole decode of `buf` into `m`: chunk consumption followed
/// by the required-field check over the merged message.
pub open spec fn dec_msg(buf: Seq<u8>, m: MsgS, t: MiniTable, d: int) -> (
    MsgS,
    Option<DecodeStatus>,
) {
    let r = dec_fields(buf, 0, buf.len() as int, m, t, d);
    if r.1 is Some {
        r
    } else if req_ok(r.0, t) {
        r
    } else {
        (r.0, Option::Some(DecodeStatus::MissingRequired))
    }
}

/// A message with all fields unset is associated with its schema and within
/// any positive depth bound.
pub proof fn lemma_none_fields(fs: Seq<Option<ValS>>, t: MiniTable, d: int, k: int)
    requires
        forall|j: int| 0 <= j < fs.len() ==> fs[j] is None,
    ensures
        msg_fields_wf(fs, t, k),
        crate::model::depth_fields_ok(fs, d, k),
    decreases fs.len() - k,
{
    if 0 <= k < fs.len() {
        lemma_none_fields(fs, t, d, k + 1);
    }
}

/// `empty_msg(t)` is associated with `t` and within any positive depth bound.
pub proof fn lemma_empty_msg_wf(t: MiniTable, d: int)
    requires
        d >= 1,
    ensures
        msg_wf(empty_msg(t), t),
        depth_ok(empty_msg(t), d),
{
    lemma_none_fields(empty_msg(t).fields, t, d, 0);
}

/// Consuming chunks preserves association with the schema, the depth bound,
/// and the field count, whatever the buffer holds.
pub proof fn lemma_dec_fields_preserves(
    buf: Seq<u8>,
    i: int,
    end: int,
    m: MsgS,
    t: MiniTable,
    d: int,
)
    requires
        table_wf(t),
        msg_wf(m, t),
        depth_ok(m, d),
    ensures
        ({
            let r = dec_fields(buf, i, end, m, t, d);
            r.0.fields.len() == m.fields.len() && msg_wf(r.0, t) && depth_ok(r.0, d)
        }),
    decreases end - i,
{
    if i >= end || i < 0 || end > buf.len() {
    } else {
        let tag = buf[i] as int;
        if tag >= t.fields@.len() {
        } else {
            let f = t.fields@[tag];
            match f.kind {
                FieldKind::Uint => {
                    if i + 9 <= end {
                        let v = ValS::Uint(from_le8(buf.subrange(i + 1, i + 9)) as u64);
                        lemma_set_fields_wf(m.fields, t, 0, tag, v);
                        lemma_set_fields_depth(m.fields, d, 0, tag, v);
                        lemma_dec_fields_preserves(buf, i + 9, end, set_field(m, tag, v), t, d);
                    }
                },
                FieldKind::Bytes => {
                    if i + 9 <= end {
                        let l = from_le8(buf.subrange(i + 1, i + 9));
                        if 0 <= l && i + 9 + l <= end {
                            let v = ValS::Bytes(buf.subrange(i + 9, i + 9 + l));
                            lemma_set_fields_wf(m.fields, t, 0, tag, v);
                            lemma_set_fields_depth(m.fields, d, 0, tag, v);
                            lemma_dec_fields_preserves(
                                buf,
                                i + 9 + l,
                                end,
                                set_field(m, tag, v),
                                t,
                                d,
                            );
                        }
                    }
                },
                FieldKind::Text => {
                    if i + 9 <= end {
                        let l = from_le8(buf.subrange(i + 1, i + 9));
                        if 0 <= l && i + 9 + l <= end {
                            let b = buf.subrange(i + 9, i + 9 + l);
                            if is_utf8_from(b, 0) {
                                let v = ValS::Text(b);
                                lemma_set_fields_wf(m.fields, t, 0, tag, v);
                                lemma_set_fields_depth(m.fields, d, 0, tag, v);
                                lemma_dec_fields_preserves(
                                    buf,
                                    i + 9 + l,
                                    end,
                                    set_field(m, tag, v),
                                    t,
                                    d,
                                );
                            }
                        }
                    }
                },
                FieldKind::Sub(Option::None) => {},
                FieldKind::Sub(Option::Some(st)) => {
                    if i + 9 <= end {
                        let l = from_le8(buf.subrange(i + 1, i + 9));
                        if 0 <= l && i + 9 + l <= end {
                            if d <= 1 {
                            } else {
                                lemma_table_fields_wf_at(t.fields@, 0, tag);
                                lemma_empty_msg_wf(*st, d - 1);
                                lemma_dec_fields_preserves(
                                    buf,
                                    i + 9,
                                    i + 9 + l,
                                    empty_msg(*st),
                                    *st,
                                    d - 1,
                                );
                                let sub = dec_fields(buf, i + 9, i + 9 + l, empty_msg(*st), *st, d - 1);
                                if sub.1 is Some {
                                } else {
                                    let v = ValS::Sub(sub.0);
                                    lemma_set_fields_wf(m.fields, t, 0, tag, v);
                                    lemma_set_fields_depth(m.fields, d, 0, tag, v);
                                    lemma_dec_fields_preserves(
                                        buf,
                                        i + 9 + l,
                                        end,
                                        set_field(m, tag, v),
                                        t,
                                        d,
                                    );
                                }
                            }
                        }
                    }
                },
            }
        }
    }
}

/// Consumes the chunks of `buf[start..end]` into `m`, mirroring
/// [`dec_fields`].
#[verifier::loop_isolation(false)]
fn decode_fields(
    buf: &[u8],
    start: usize,
    end: usize,
    m: Message,
    t: &MiniTable,
    d: u32,
) -> (r: (Message, Option<DecodeStatus>))
    requires
        start <= end <= buf@.len(),
        m@.fields.len() == t.fields@.len(),
    ensures
        ({
            let s = dec_fields(buf@, start as int, end as int, m@, *t, d as int);
            r.0@ == s.0 && r.1 == s.1
        }),
        r.0@.fields.len() == t.fields@.len(),
    decreases d,
{
    let ghost target = dec_fields(buf@, start as int, end as int, m@, *t, d as int);
    let mut cur = m;
    let mut pos = start;
    while pos < end
        invariant
            start <= pos <= end <= buf@.len(),
            cur@.fields.len() == t.fields@.len(),
            dec_fields(buf@, pos as int, end as int, cur@, *t, d as int) == target,
        decreases end - pos,
    {
        let ghost old_pos = pos as int;
        let ghost old_cur = cur@;
        let tag = buf[pos] as usize;
        if tag >= t.fields.len() {
            return (cur, Option::Some(DecodeStatus::Malformed));
        }
        match &t.fields[tag].kind {
            FieldKind::Uint => {
                if end - pos < 9 {
                    return (cur, Option::Some(DecodeStatus::Malformed));
                }
                let v = read_le8(buf, pos + 1);
                cur.set_field(tag, Value::Uint(v));
                pos += 9;
            },
            FieldKind::Bytes => {
                if end - pos < 9 {
                    return (cur, Option::Some(DecodeStatus::Malformed));
                }
                let l64 = read_le8(buf, pos + 1);
                let rem = end - (pos + 9);
                if l64 > rem as u64 {
                    return (cur, Option::Some(DecodeStatus::Malformed));
                }
                let l = l64 as usize;
                let payload = vstd::slice::slice_subrange(buf, pos + 9, pos + 9 + l);
                let v = vstd::slice::slice_to_vec(payload);
                cur.set_field(tag, Value::Bytes(v));
                pos += 9 + l;
            },
            FieldKind::Text => {
                if end - pos < 9 {
                    return (cur, Option::Some(DecodeStatus::Malformed));
                }
                let l64 = read_le8(buf, pos + 1);
                let rem = end - (pos + 9);
                if l64 > rem as u64 {
                    return (cur, Option::Some(DecodeStatus::Malformed));
                }
                let l = l64 as usize;
                let payload = vstd::slice::slice_subrange(buf, pos + 9, pos + 9 + l);
                if !is_utf8(payload) {
                    return (cur, Option::Some(DecodeStatus::BadUtf8));
                }
                let v = vstd::slice::slice_to_vec(payload);
                cur.set_field(tag, Value::Text(v));
                pos += 9 + l;
            },
            FieldKind::Sub(Option::None) => {
                return (cur, Option::Some(DecodeStatus::UnlinkedSubMessage));
            },
            FieldKind::Sub(Option::Some(st)) => {
                if end - pos < 9 {
                    return (cur, Option::Some(DecodeStatus::Malformed));
                }
                let l64 = read_le8(buf, pos + 1);
                let rem = end - (pos + 9);
                if l64 > rem as u64 {
                    return (cur, Option::Some(DecodeStatus::Malformed));
                }
                let l = l64 as usize;
                if d <= 1 {
                    return (cur, Option::Some(DecodeStatus::MaxDepthExceeded));
                }
                let sub0 = Message::new_for(&**st);
                let sub = decode_fields(buf, pos + 9, pos + 9 + l, sub0, &**st, d - 1);
                match sub.1 {
                    Option::Some(s) => {
                        return (cur, Option::Some(s));
                    },
                    Option::None => {
                        cur.set_field(tag, Value::Sub(sub.0));
                        pos += 9 + l;
                    },
                }
            },
        }
        proof {
            assert(dec_fields(buf@, pos as int, end as int, cur@, *t, d as int) == dec_fields(
                buf@,
                old_pos,
                end as int,
                old_cur,
                *t,
                d as int,
            ));
        }
    }
    (cur, Option::None)
}



/// Decodes `buf` into the message that `msg` names inside `arena`, with merge
/// semantics: each chunk of the buffer overwrites the field it names, so
/// fields absent from the buffer keep their values.  The merged message and
/// the first failure, if any, are exactly [`dec_msg`] of the buffer over the
/// message's old value.
///
/// On failure the message may be left partially merged — every chunk before
/// the failing one has been applied; that is the defined behaviour, not an
/// accident.  Either way the message stays associated with `mini_table` and
/// within the depth bound, and nothing else in the arena changes.
pub fn decode(buf: &[u8], msg: RawMessage, mini_table: &MiniTable, arena: &mut Arena) -> (r:
    Result<(), DecodeStatus>)
    requires
        msg.valid(old(arena)@),
        table_wf(*mini_table),
        msg_wf(old(arena)@.msgs[msg.index as int], *mini_table),
        depth_ok(old(arena)@.msgs[msg.index as int], MAX_DEPTH as int),
    ensures
        final(arena)@.bytes == old(arena)@.bytes,
        final(arena)@.msgs.len() == old(arena)@.msgs.len(),
        forall|j: int|
            0 <= j < old(arena)@.msgs.len() && j != msg.index as int ==> final(arena)@.msgs[j]
                == old(arena)@.msgs[j],
        ({
            let s = dec_msg(buf@, old(arena)@.msgs[msg.index as int], *mini_table, MAX_DEPTH as int);
            final(arena)@.msgs[msg.index as int] == s.0 && (match r {
                Result::Ok(u) => s.1 is None,
                Result::Err(e) => s.1 == Option::Some(e),
            })
        }),
        msg_wf(final(arena)@.msgs[msg.index as int], *mini_table),
        depth_ok(final(arena)@.msgs[msg.index as int], MAX_DEPTH as int),
{
    let ghost m0 = old(arena)@.msgs[msg.index as int];
    let mut work = Message { fields: Vec::new() };
    arena.swap_message(msg, &mut work);
    let n = buf.len();
    let (merged, st) = decode_fields(buf, 0, n, work, mini_table, MAX_DEPTH);
    proof {
        lemma_dec_fields_preserves(buf@, 0, n as int, m0, *mini_table, MAX_DEPTH as int);
    }
    let ok = match st {
        Option::Some(_) => false,
        Option::None => merged.check_required(mini_table, MAX_DEPTH),
    };
    let mut back = merged;
    arena.swap_message(msg, &mut back);
    proof {
        assert(arena@.msgs =~= old(arena)@.msgs.update(
            msg.index as int,
            dec_msg(buf@, m0, *mini_table, MAX_DEPTH as int).0,
        ));
    }
    match st {
        Option::Some(e) => Result::Err(e),
        Option::None => {
            if ok {
                Result::Ok(())
            } else {
                Result::Err(DecodeStatus::MissingRequired)
            }
        },
    }
}

/// Decodes `buf` into a new message associated with `mini_table`, created
/// inside a fresh arena, and couples the message with that arena.  The
/// populated message is exactly [`dec_msg`] of the buffer over the empty
/// message.  On failure nothing is returned — the partly populated message is
/// discarded with its arena — and the status is the first failure.
pub fn decode_new(buf: &[u8], mini_table: &MiniTable) -> (r: Result<
    OwnedData<RawMessage>,
    DecodeStatus,
>)
    requires
        table_wf(*mini_table),
    ensures
        ({
            let s = dec_msg(buf@, empty_msg(*mini_table), *mini_table, MAX_DEPTH as int);
            match r {
                Result::Ok(od) => s.1 is None && od.wf() && od.message_model() == s.0 && msg_wf(
                    s.0,
                    *mini_table,
                ) && depth_ok(s.0, MAX_DEPTH as int),
                Result::Err(e) => s.1 == Option::Some(e),
            }
        }),
{
    let mut arena = Arena::new();
    let h = arena.new_message(mini_table);
    proof {
        lemma_empty_msg_wf(*mini_table, MAX_DEPTH as int);
    }
    match decode(buf, h, mini_table, &mut arena) {
        Result::Ok(u) => Result::Ok(OwnedData::new(h, arena)),
        Result::Err(e) => Result::Err(e),
    }
}



} // verus!
