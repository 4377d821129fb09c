//! Schema descriptors and messages.
//!
//! A [`MiniTable`] describes the field layout of one message type: for each
//! field its payload kind and whether the field is required.  A nested-message
//! field carries the descriptor of the nested type, or `None` while that
//! descriptor is still unlinked.
//!
//! A [`Message`] holds one optional value per schema field.  Its mathematical
//! model is [`MsgS`], a sequence of optional [`ValS`] values; all contracts in
//! this crate speak of that model.

use vstd::prelude::*;
use crate::bytes::is_utf8_from;

verus! {

/// The payload kind of one schema field.
#[derive(Debug, PartialEq, Eq)]
pub enum FieldKind {
    /// A 64-bit unsigned integer.
    Uint,
    /// An uninterpreted byte string.
    Bytes,
    /// A byte string that must hold valid UTF-8.
    Text,
    /// A nested message; `None` while the nested descriptor is unlinked.
    Sub(Option<Box<MiniTable>>),
}

/// The layout of one schema field.
#[derive(Debug, PartialEq, Eq)]
pub struct FieldSpec {
    pub kind: FieldKind,
    pub required: bool,
}

/// A schema descriptor: the field layout of one message type.
#[derive(Debug, PartialEq, Eq)]
pub struct MiniTable {
    pub fields: Vec<FieldSpec>,
}

/// The value of one set message field.
#[derive(Debug, PartialEq, Eq)]
pub enum Value {
    Uint(u64),
    Bytes(Vec<u8>),
    Text(Vec<u8>),
    Sub(Message),
}

/// A message: one optional value per field of its schema.
#[derive(Debug, PartialEq, Eq)]
pub struct Message {
    pub fields: Vec<Option<Value>>,
}

/// Mathematical model of a field value.
#[verifier::ext_equal]
pub enum ValS {
    Uint(u64),
    Bytes(Seq<u8>),
    Text(Seq<u8>),
    Sub(MsgS),
}

/// Mathematical model of a message.
#[verifier::ext_equal]
pub struct MsgS {
    pub fields: Seq<Option<ValS>>,
}

pub open spec fn val_view(v: Value) -> ValS
    decreases v, 0int,
{
    match v {
        Value::Uint(n) => ValS::Uint(n),
        Value::Bytes(b) => ValS::Bytes(b@),
        Value::Text(b) => ValS::Text(b@),
        Value::Sub(m) => ValS::Sub(msg_view(m)),
    }
}

pub open spec fn opt_val_view(v: Option<Value>) -> Option<ValS>
    decreases v, 1int,
{
    match v {
        Option::None => Option::None,
        Option::Some(x) => Option::Some(val_view(x)),
    }
}

pub open spec fn fields_view(fs: Seq<Option<Value>>, k: int) -> Seq<Option<ValS>>
    decreases fs, k,
{
    if k <= 0 || k > fs.len() {
        Seq::empty()
    } else {
        fields_view(fs, k - 1).push(opt_val_view(fs[k - 1]))
    }
}

pub open spec fn msg_view(m: Message) -> MsgS
    decreases m, 0int,
{
    MsgS { fields: fields_view(m.fields@, m.fields@.len() as int) }
}

pub broadcast proof fn lemma_fields_view_len(fs: Seq<Option<Value>>, k: int)
    ensures
        (#[trigger] fields_view(fs, k)).len() == if 0 < k <= fs.len() {
            k
        } else {
            0int
        },
    decreases k,
{
    if 0 < k <= fs.len() {
        lemma_fields_view_len(fs, k - 1);
    }
}

pub broadcast proof fn lemma_fields_view_index(fs: Seq<Option<Value>>, k: int, j: int)
    requires
        0 <= j < k <= fs.len(),
    ensures
        (#[trigger] fields_view(fs, k)[j]) == opt_val_view(fs[j]),
    decreases k,
{
    lemma_fields_view_len(fs, k);
    lemma_fields_view_len(fs, k - 1);
    if j < k - 1 {
        lemma_fields_view_index(fs, k - 1, j);
    }
}

impl View for Message {
    type V = MsgS;

    open spec fn view(&self) -> MsgS {
        msg_view(*self)
    }
}

/// A schema is well formed when it has at most 256 fields (a wire tag is one
/// byte) and every linked nested descriptor is well formed in turn.
pub open spec fn table_wf(t: MiniTable) -> bool
    decreases t, 0int,
{
    t.fields@.len() <= 256 && table_fields_wf(t.fields@, 0)
}

pub open spec fn table_fields_wf(fs: Seq<FieldSpec>, k: int) -> bool
    decreases fs, fs.len() - k,
{
    if k < 0 || k >= fs.len() {
        true
    } else {
        (match fs[k].kind {
            FieldKind::Sub(Option::Some(st)) => table_wf(*st),
            _ => true,
        }) && table_fields_wf(fs, k + 1)
    }
}

/// A message is associated with a schema when it has one slot per schema field
/// and every set value matches its field's kind: text holds valid UTF-8, and a
/// nested message is set only under a linked descriptor and is associated with
/// it in turn.
pub open spec fn msg_wf(m: MsgS, t: MiniTable) -> bool
    decreases m, 0int,
{
    m.fields.len() == t.fields@.len() && msg_fields_wf(m.fields, t, 0)
}

pub open spec fn msg_fields_wf(fs: Seq<Option<ValS>>, t: MiniTable, k: int) -> bool
    decreases fs, fs.len() - k,
{
    if k < 0 || k >= fs.len() {
        true
    } else {
        (match fs[k] {
            Option::Some(v) => k < t.fields@.len() && val_wf(v, t.fields@[k]),
            Option::None => true,
        }) && msg_fields_wf(fs, t, k + 1)
    }
}

pub open spec fn val_wf(v: ValS, f: FieldSpec) -> bool
    decreases v, 0int,
{
    match v {
        ValS::Uint(_) => f.kind is Uint,
        ValS::Bytes(_) => f.kind is Bytes,
        ValS::Text(b) => f.kind is Text && is_utf8_from(b, 0),
        ValS::Sub(sm) => match f.kind {
            FieldKind::Sub(Option::Some(st)) => msg_wf(sm, *st),
            _ => false,
        },
    }
}

/// Every required field of the schema is set, recursively through every set
/// nested message.
pub open spec fn req_ok(m: MsgS, t: MiniTable) -> bool
    decreases m, 0int,
{
    req_fields_ok(m.fields, t, 0)
}

pub open spec fn req_fields_ok(fs: Seq<Option<ValS>>, t: MiniTable, k: int) -> bool
    decreases fs, fs.len() - k,
{
    if k < 0 || k >= fs.len() {
        true
    } else {
        (if k < t.fields@.len() && t.fields@[k].required {
            fs[k] is Some
        } else {
            true
        }) && (match fs[k] {
            Option::Some(ValS::Sub(sm)) => {
                if k < t.fields@.len() {
                    match t.fields@[k].kind {
                        FieldKind::Sub(Option::Some(st)) => req_ok(sm, *st),
                        _ => true,
                    }
                } else {
                    true
                }
            },
            _ => true,
        }) && req_fields_ok(fs, t, k + 1)
    }
}

/// The nesting of set messages stays within `d` levels; the message itself
/// takes one level.
pub open spec fn depth_ok(m: MsgS, d: int) -> bool
    decreases m, 0int,
{
    d >= 1 && depth_fields_ok(m.fields, d, 0)
}

pub open spec fn depth_fields_ok(fs: Seq<Option<ValS>>, d: int, k: int) -> bool
    decreases fs, fs.len() - k,
{
    if k < 0 || k >= fs.len() {
        true
    } else {
        (match fs[k] {
            Option::Some(ValS::Sub(sm)) => depth_ok(sm, d - 1),
            _ => true,
        }) && depth_fields_ok(fs, d, k + 1)
    }
}

/// The model of a message whose fields are all unset.
pub open spec fn empty_msg(t: MiniTable) -> MsgS {
    MsgS { fields: Seq::new(t.fields@.len(), |i: int| Option::None) }
}

impl Message {
    /// A fresh message associated with `t`, every field unset.
    pub fn new_for(t: &MiniTable) -> (m: Message)
        ensures
            m@ == empty_msg(*t),
            m@.fields.len() == t.fields@.len(),
    {
        let n = t.fields.len();
        let mut fields: Vec<Option<Value>> = Vec::new();
        let mut i: usize = 0;
        while i < n
            invariant
                i <= n,
                fields@.len() == i as int,
                forall|j: int| 0 <= j < i ==> fields@[j] is None,
            decreases n - i,
        {
            fields.push(Option::None);
            i += 1;
        }
        let m = Message { fields };
        proof {
            let fs = fields@;
            lemma_fields_view_len(fs, n as int);
            assert forall|j: int| 0 <= j < n as int implies fields_view(fs, n as int)[j]
                == Option::<ValS>::None by {
                lemma_fields_view_index(fs, n as int, j);
            }
            assert(m@.fields =~= empty_msg(*t).fields);
        }
        m
    }
}


/// `m` with field `k` set to `v`.
pub open spec fn set_field(m: MsgS, k: int, v: ValS) -> MsgS {
    MsgS { fields: m.fields.update(k, Option::Some(v)) }
}

/// The well-formedness fact of one field slot.
pub proof fn lemma_msg_fields_wf_at(fs: Seq<Option<ValS>>, t: MiniTable, j: int, k: int)
    requires
        msg_fields_wf(fs, t, j),
        0 <= j <= k < fs.len(),
    ensures
        match fs[k] {
            Option::Some(v) => k < t.fields@.len() && val_wf(v, t.fields@[k]),
            Option::None => true,
        },
    decreases k - j,
{
    if j < k {
        lemma_msg_fields_wf_at(fs, t, j + 1, k);
    }
}

/// The depth fact of one field slot.
pub proof fn lemma_depth_fields_ok_at(fs: Seq<Option<ValS>>, d: int, j: int, k: int)
    requires
        depth_fields_ok(fs, d, j),
        0 <= j <= k < fs.len(),
    ensures
        match fs[k] {
            Option::Some(ValS::Sub(sm)) => depth_ok(sm, d - 1),
            _ => true,
        },
    decreases k - j,
{
    if j < k {
        lemma_depth_fields_ok_at(fs, d, j + 1, k);
    }
}

/// The well-formedness fact of one schema field.
pub proof fn lemma_table_fields_wf_at(fs: Seq<FieldSpec>, j: int, k: int)
    requires
        table_fields_wf(fs, j),
        0 <= j <= k < fs.len(),
    ensures
        match fs[k].kind {
            FieldKind::Sub(Option::Some(st)) => table_wf(*st),
            _ => true,
        },
    decreases k - j,
{
    if j < k {
        lemma_table_fields_wf_at(fs, j + 1, k);
    }
}

/// Setting a slot to a value that fits its field keeps the message associated
/// with the schema.
pub proof fn lemma_set_fields_wf(fs: Seq<Option<ValS>>, t: MiniTable, j: int, k: int, v: ValS)
    requires
        msg_fields_wf(fs, t, j),
        0 <= k < fs.len(),
        k < t.fields@.len(),
        val_wf(v, t.fields@[k]),
    ensures
        msg_fields_wf(fs.update(k, Option::Some(v)), t, j),
    decreases fs.len() - j,
{
    if 0 <= j < fs.len() {
        lemma_set_fields_wf(fs, t, j + 1, k, v);
    }
}

/// Setting a slot to a value within the depth bound keeps the message within
/// the bound.
pub proof fn lemma_set_fields_depth(fs: Seq<Option<ValS>>, d: int, j: int, k: int, v: ValS)
    requires
        depth_fields_ok(fs, d, j),
        0 <= k < fs.len(),
        match v {
            ValS::Sub(sm) => depth_ok(sm, d - 1),
            _ => true,
        },
    ensures
        depth_fields_ok(fs.update(k, Option::Some(v)), d, j),
    decreases fs.len() - j,
{
    if 0 <= j < fs.len() {
        lemma_set_fields_depth(fs, d, j + 1, k, v);
    }
}

impl Message {
    /// Sets field `k` of this message to `v`.
    pub fn set_field(&mut self, k: usize, v: Value)
        requires
            k < old(self)@.fields.len(),
        ensures
            final(self)@ == set_field(old(self)@, k as int, val_view(v)),
            final(self)@.fields.len() == old(self)@.fields.len(),
    {
        proof {
            lemma_fields_view_len(self.fields@, self.fields@.len() as int);
        }
        self.fields[k] = Option::Some(v);
        proof {
            let fs0 = old(self).fields@;
            let fs1 = self.fields@;
            let n = fs1.len() as int;
            lemma_fields_view_len(fs0, n);
            lemma_fields_view_len(fs1, n);
            assert forall|j: int| 0 <= j < n implies fields_view(fs1, n)[j] == set_field(
                old(self)@,
                k as int,
                val_view(v),
            ).fields[j] by {
                lemma_fields_view_index(fs1, n, j);
                lemma_fields_view_index(fs0, n, j);
            }
            assert(self@.fields =~= set_field(old(self)@, k as int, val_view(v)).fields);
        }
    }

    /// Checks that the nesting of this message stays within `d` levels.
    pub fn check_depth(&self, d: u32) -> (b: bool)
        ensures
            b == depth_ok(self@, d as int),
        decreases d,
    {
        if d == 0 {
            return false;
        }
        let n = self.fields.len();
        proof {
            lemma_fields_view_len(self.fields@, n as int);
        }
        let mut i: usize = 0;
        while i < n
            invariant
                i <= n,
                d >= 1,
                n == self.fields@.len(),
                self@.fields.len() == n as int,
                depth_fields_ok(self@.fields, d as int, 0) == depth_fields_ok(
                    self@.fields,
                    d as int,
                    i as int,
                ),
            decreases n - i,
        {
            proof {
                lemma_fields_view_index(self.fields@, n as int, i as int);
            }
            match &self.fields[i] {
                Option::Some(Value::Sub(sm)) => {
                    if !sm.check_depth(d - 1) {
                        return false;
                    }
                },
                _ => {},
            }
            i += 1;
        }
        true
    }

    /// Checks that every required field of `t` is set, recursively through
    /// every set nested message.
    pub fn check_required(&self, t: &MiniTable, d: u32) -> (b: bool)
        requires
            depth_ok(self@, d as int),
        ensures
            b == req_ok(self@, *t),
        decreases d,
    {
        let n = self.fields.len();
        proof {
            lemma_fields_view_len(self.fields@, n as int);
        }
        let mut i: usize = 0;
        while i < n
            invariant
                i <= n,
                n == self.fields@.len(),
                self@.fields.len() == n as int,
                depth_ok(self@, d as int),
                req_fields_ok(self@.fields, *t, 0) == req_fields_ok(self@.fields, *t, i as int),
            decreases n - i,
        {
            proof {
                lemma_fields_view_index(self.fields@, n as int, i as int);
            }
            let set_here = match &self.fields[i] {
                Option::Some(_) => true,
                Option::None => false,
            };
            if i < t.fields.len() && t.fields[i].required && !set_here {
                return false;
            }
            match &self.fields[i] {
                Option::Some(Value::Sub(sm)) => {
                    if i < t.fields.len() {
                        match &t.fields[i].kind {
                            FieldKind::Sub(Option::Some(st)) => {
                                proof {
                                    lemma_depth_fields_ok_at(self@.fields, d as int, 0, i as int);
                                }
                                if !sm.check_required(st, d - 1) {
                                    return false;
                                }
                            },
                            _ => {},
                        }
                    }
                },
                _ => {},
            }
            i += 1;
        }
        true
    }
}


} // verus!
