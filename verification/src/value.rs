//! Message content and the tagged-type registry.
//!
//! The codec orchestrates leaf values of three shapes: fixed-width
//! integers, raw byte strings, and variants of a polymorphic type. A
//! variant's tag is not part of its own content: a discriminant producer
//! field carries it on the wire.

use vstd::prelude::*;

use crate::wire::IntKind;
use crate::wire::be_bytes;
use crate::wire::write_be;

verus! {

/// The mathematical model of one field's content.
pub enum Val {
    /// A zero-size placeholder: a producer field whose whole wire
    /// contribution is its derived value.
    Marker,
    Uint { kind: IntKind, value: u64 },
    Bytes { data: Seq<u8> },
    Tagged { tag: u64, payload: Seq<u8> },
}

/// One field's content at run time.
#[derive(Clone, Debug, PartialEq, Eq)]
pub enum FieldValue {
    /// A zero-size placeholder: it carries no content of its own. The
    /// usual shape of a producer field, whose wire contribution is the
    /// derived value alone.
    Marker,
    /// A fixed-width integer, big-endian on the wire.
    Uint { kind: IntKind, value: u64 },
    /// A raw byte string: on the wire, exactly its bytes.
    Bytes { data: Vec<u8> },
    /// One variant of a polymorphic type: the registry's tag for it, and
    /// the variant's own encoded content.
    Tagged { tag: u64, payload: Vec<u8> },
}

impl View for FieldValue {
    type V = Val;

    open spec fn view(&self) -> Val {
        match self {
            FieldValue::Marker => Val::Marker,
            FieldValue::Uint { kind, value } => Val::Uint { kind: *kind, value: *value },
            FieldValue::Bytes { data } => Val::Bytes { data: data@ },
            FieldValue::Tagged { tag, payload } => Val::Tagged { tag: *tag, payload: payload@ },
        }
    }
}

/// A message: one content value per schema field, in declaration order.
#[derive(Clone, Debug, PartialEq, Eq)]
pub struct Message {
    pub fields: Vec<FieldValue>,
}

impl View for Message {
    type V = Seq<Val>;

    open spec fn view(&self) -> Seq<Val> {
        Seq::new(self.fields@.len(), |i: int| self.fields@[i]@)
    }
}

/// The bytes a value's own content contributes to the wire. A variant
/// contributes its payload alone; its tag travels with its producer.
pub open spec fn content_bytes(v: Val) -> Seq<u8> {
    match v {
        Val::Marker => Seq::empty(),
        Val::Uint { kind, value } => be_bytes(value as nat, kind.width()),
        Val::Bytes { data } => data,
        Val::Tagged { tag, payload } => payload,
    }
}

/// The tag of a variant value; meaningful for `Tagged` values only.
pub open spec fn val_tag(v: Val) -> u64 {
    match v {
        Val::Tagged { tag, .. } => tag,
        _ => 0,
    }
}

/// An integer value fits its declared kind.
pub open spec fn val_wf(v: Val) -> bool {
    match v {
        Val::Uint { kind, value } => value as nat <= kind.max_value(),
        _ => true,
    }
}

pub open spec fn vals_wf(m: Seq<Val>) -> bool {
    forall|i: int| 0 <= i < m.len() ==> val_wf(#[trigger] m[i])
}

/// Copies `data[start..end]` into a fresh vector.
pub fn copy_range(data: &Vec<u8>, start: usize, end: usize) -> (r: Vec<u8>)
    requires
        start <= end <= data@.len(),
    ensures
        r@ == data@.subrange(start as int, end as int),
{
    let mut r: Vec<u8> = Vec::new();
    let mut i: usize = start;
    while i < end
        invariant
            start <= i <= end <= data@.len(),
            r@ =~= data@.subrange(start as int, i as int),
        decreases end - i,
    {
        r.push(data[i]);
        proof {
            assert(r@ =~= data@.subrange(start as int, i as int + 1));
        }
        i = i + 1;
    }
    proof {
        assert(r@ =~= data@.subrange(start as int, end as int));
    }
    r
}

/// The byte count of a value's own content.
pub fn content_len(v: &FieldValue) -> (c: usize)
    ensures
        c == content_bytes(v@).len(),
{
    match v {
        FieldValue::Marker => 0,
        FieldValue::Uint { kind, value } => {
            proof {
                crate::wire::lemma_be_bytes_len(*value as nat, kind.width());
            }
            kind.width_bytes()
        },
        FieldValue::Bytes { data } => data.len(),
        FieldValue::Tagged { tag, payload } => payload.len(),
    }
}

/// The leaf encoder: the bytes of a value's own content.
pub fn encode_leaf(v: &FieldValue) -> (r: Vec<u8>)
    requires
        val_wf(v@),
    ensures
        r@ == content_bytes(v@),
{
    match v {
        FieldValue::Marker => Vec::new(),
        FieldValue::Uint { kind, value } => {
            let mut out: Vec<u8> = Vec::new();
            write_be(*kind, *value, &mut out);
            out
        },
        FieldValue::Bytes { data } => copy_range(data, 0, data.len()),
        FieldValue::Tagged { tag, payload } => copy_range(payload, 0, payload.len()),
    }
}

/// The tagged-type registry: the set of discriminant tags with a known
/// variant. It is read-only lookup state, shared by encode and decode.
#[derive(Clone, Debug)]
pub struct Registry {
    pub tags: Vec<u64>,
}

impl Registry {
    /// The registry knows a variant for `t`.
    pub open spec fn registered(self, t: u64) -> bool {
        self.tags@.contains(t)
    }

    pub fn is_registered(&self, t: u64) -> (r: bool)
        ensures
            r == self.registered(t),
    {
        let n = self.tags.len();
        let mut i: usize = 0;
        while i < n
            invariant
                i <= n,
                n == self.tags@.len(),
                forall|j: int| 0 <= j < i ==> self.tags@[j] != t,
            decreases n - i,
        {
            if self.tags[i] == t {
                return true;
            }
            i = i + 1;
        }
        false
    }
}

} // verus!
