//! The encoder: walks the resolved field list in declaration order and
//! writes each field's derived value (if it is a producer) followed by the
//! field's own content.

use vstd::prelude::*;

use crate::schema::ResolvedField;
use crate::schema::ResolvedRole;
use crate::schema::ResolvedSchema;
use crate::schema::targets_in_range;
use crate::value::FieldValue;
use crate::value::Message;
use crate::value::Registry;
use crate::value::Val;
use crate::value::content_bytes;
use crate::value::content_len;
use crate::value::encode_leaf;
use crate::value::val_tag;
use crate::value::val_wf;
use crate::value::vals_wf;
use crate::wire::be_bytes;
use crate::wire::write_be;

verus! {

#[derive(Clone, Copy, PartialEq, Eq, Structural, Debug)]
pub enum EncodeError {
    /// A governed field's content byte count plus the declared offset
    /// exceeds what the declared integer kind can carry.
    LengthOverflow,
    /// A discriminant target holds a variant the registry does not know.
    UnknownVariant,
}

/// What the schema's producer roles assume of a message: a discriminant
/// target holds a variant, and its tag fits the declared kind.
pub open spec fn encode_conforms(s: Seq<ResolvedField>, m: Seq<Val>) -> bool {
    &&& m.len() == s.len()
    &&& forall|i: int|
        0 <= i < s.len() ==> match #[trigger] s[i].role {
            ResolvedRole::DiscriminantFor { target, kind } => m[target as int] is Tagged && val_tag(
                m[target as int],
            ) as nat <= kind.max_value(),
            _ => true,
        }
}

/// The bytes the producer part of field `i` derives and writes.
pub open spec fn producer_bytes(s: Seq<ResolvedField>, m: Seq<Val>, i: int) -> Seq<u8> {
    match s[i].role {
        ResolvedRole::Plain => Seq::empty(),
        ResolvedRole::LengthFor { target, offset, kind } => be_bytes(
            (content_bytes(m[target as int]).len() + offset) as nat,
            kind.width(),
        ),
        ResolvedRole::DiscriminantFor { target, kind } => be_bytes(
            val_tag(m[target as int]) as nat,
            kind.width(),
        ),
    }
}

/// The error the producer part of field `i` reports, if any.
pub open spec fn producer_error(
    s: Seq<ResolvedField>,
    reg: Registry,
    m: Seq<Val>,
    i: int,
) -> Option<EncodeError> {
    match s[i].role {
        ResolvedRole::Plain => None,
        ResolvedRole::LengthFor { target, offset, kind } => if content_bytes(
            m[target as int],
        ).len() + offset > kind.max_value() {
            Some(EncodeError::LengthOverflow)
        } else {
            None
        },
        ResolvedRole::DiscriminantFor { target, kind } => if !reg.registered(
            val_tag(m[target as int]),
        ) {
            Some(EncodeError::UnknownVariant)
        } else {
            None
        },
    }
}

/// The whole wire contribution of field `i`: the derived value, then the
/// field's own content.
pub open spec fn field_bytes(s: Seq<ResolvedField>, m: Seq<Val>, i: int) -> Seq<u8> {
    producer_bytes(s, m, i) + content_bytes(m[i])
}

/// The wire bytes of fields `i..j` in declaration order.
pub open spec fn enc_cat(s: Seq<ResolvedField>, m: Seq<Val>, i: int, j: int) -> Seq<u8>
    decreases j - i,
{
    if i >= j {
        Seq::empty()
    } else {
        field_bytes(s, m, i) + enc_cat(s, m, i + 1, j)
    }
}

/// The wire bytes of the whole message, when every field encodes.
pub open spec fn encoding(s: Seq<ResolvedField>, m: Seq<Val>) -> Seq<u8> {
    enc_cat(s, m, 0, s.len() as int)
}

/// Encode succeeds: no derived length overflows its declared kind and
/// every discriminant target's variant is registered.
pub open spec fn encode_ok(s: Seq<ResolvedField>, reg: Registry, m: Seq<Val>) -> bool {
    forall|i: int| 0 <= i < s.len() ==> #[trigger] producer_error(s, reg, m, i) is None
}

/// The encoder's outcome from field `i` on: the bytes it writes, and the
/// first error it meets, if any. A field that fails writes nothing of its
/// own; everything before it stays written.
pub open spec fn enc_outcome(s: Seq<ResolvedField>, reg: Registry, m: Seq<Val>, i: int) -> (
    Seq<u8>,
    Option<EncodeError>,
)
    decreases s.len() - i,
{
    if i < 0 || i >= s.len() {
        (Seq::<u8>::empty(), None::<EncodeError>)
    } else {
        match producer_error(s, reg, m, i) {
            Some(e) => (Seq::<u8>::empty(), Some(e)),
            None => {
                let rest = enc_outcome(s, reg, m, i + 1);
                (field_bytes(s, m, i) + rest.0, rest.1)
            },
        }
    }
}

/// The outcome from field `i` reports no error exactly when no producer
/// from `i` on fails; the bytes are then those of fields `i..`.
pub proof fn lemma_enc_outcome(s: Seq<ResolvedField>, reg: Registry, m: Seq<Val>, i: int)
    requires
        0 <= i <= s.len(),
    ensures
        enc_outcome(s, reg, m, i).1 is None <==> (forall|j: int|
            i <= j < s.len() ==> #[trigger] producer_error(s, reg, m, j) is None),
        enc_outcome(s, reg, m, i).1 is None ==> enc_outcome(s, reg, m, i).0 == enc_cat(
            s,
            m,
            i,
            s.len() as int,
        ),
    decreases s.len() - i,
{
    if i < s.len() {
        lemma_enc_outcome(s, reg, m, i + 1);
    }
}

/// Decides whether a message can be handed to `encode`: every integer
/// value fits its declared kind, and every discriminant target holds a
/// variant whose tag fits the producer's declared kind. Lets a caller
/// establish `encode`'s assumptions at run time.
pub fn check_encodable(schema: &ResolvedSchema, msg: &Message) -> (r: bool)
    requires
        targets_in_range(schema.fields@),
        msg@.len() == schema.fields@.len(),
    ensures
        r == (vals_wf(msg@) && encode_conforms(schema.fields@, msg@)),
{
    let ghost s = schema.fields@;
    let ghost m = msg@;
    let n = schema.fields.len();
    let mut i: usize = 0;
    while i < n
        invariant
            i <= n,
            n == s.len(),
            s == schema.fields@,
            m == msg@,
            targets_in_range(s),
            m.len() == n,
            msg.fields@.len() == n,
            forall|j: int| 0 <= j < i ==> val_wf(#[trigger] m[j]),
            forall|j: int|
                0 <= j < i ==> match #[trigger] s[j].role {
                    ResolvedRole::DiscriminantFor { target, kind } => m[target as int] is Tagged
                        && val_tag(m[target as int]) as nat <= kind.max_value(),
                    _ => true,
                },
        decreases n - i,
    {
        match &msg.fields[i] {
            FieldValue::Uint { kind, value } => {
                if *value > kind.max_value_u64() {
                    proof {
                        assert(!val_wf(m[i as int]));
                    }
                    return false;
                }
            },
            _ => {},
        }
        match schema.fields[i].role {
            ResolvedRole::DiscriminantFor { target, kind } => {
                match &msg.fields[target] {
                    FieldValue::Tagged { tag, payload } => {
                        if *tag > kind.max_value_u64() {
                            return false;
                        }
                    },
                    _ => {
                        return false;
                    },
                }
            },
            _ => {},
        }
        i = i + 1;
    }
    true
}

/// The registry's `tag_of` capability: the tag of the active variant, or
/// `UnknownVariant` when the registry has no entry for it.
pub fn tag_of(reg: &Registry, v: &FieldValue) -> (r: Result<u64, EncodeError>)
    requires
        v@ is Tagged,
    ensures
        match r {
            Result::Ok(t) => t == val_tag(v@) && reg.registered(t),
            Result::Err(e) => e == EncodeError::UnknownVariant && !reg.registered(val_tag(v@)),
        },
{
    match v {
        FieldValue::Tagged { tag, payload } => {
            if reg.is_registered(*tag) {
                Ok(*tag)
            } else {
                Err(EncodeError::UnknownVariant)
            }
        },
        _ => {
            proof {
                assert(false);
            }
            Err(EncodeError::UnknownVariant)
        },
    }
}

/// Encodes `msg` in declaration order, appending to `sink`. A length
/// producer writes its target's content byte count plus the declared
/// offset; a discriminant producer writes its target's tag; each field then
/// writes its own content. On an error, the fields already written stay in
/// the sink as a truncated prefix.
pub fn encode(schema: &ResolvedSchema, reg: &Registry, msg: &Message, sink: &mut Vec<u8>) -> (r:
    Result<(), EncodeError>)
    requires
        targets_in_range(schema.fields@),
        msg@.len() == schema.fields@.len(),
        vals_wf(msg@),
        encode_conforms(schema.fields@, msg@),
    ensures
        ({
            let outcome = enc_outcome(schema.fields@, *reg, msg@, 0);
            &&& final(sink)@ == old(sink)@ + outcome.0
            &&& match r {
                Result::Ok(u) => outcome.1 is None,
                Result::Err(e) => outcome.1 == Some(e),
            }
            &&& (r is Ok <==> encode_ok(schema.fields@, *reg, msg@))
            &&& (r is Ok ==> final(sink)@ == old(sink)@ + encoding(schema.fields@, msg@))
        }),
{
    let ghost s = schema.fields@;
    let ghost m = msg@;
    let n = schema.fields.len();
    let mut i: usize = 0;
    let ghost mut done: Seq<u8> = Seq::empty();
    proof {
        assert(sink@ =~= old(sink)@ + done);
        lemma_enc_outcome(s, *reg, m, 0);
    }
    while i < n
        invariant
            i <= n,
            n == s.len(),
            s == schema.fields@,
            m == msg@,
            targets_in_range(s),
            m.len() == s.len(),
            vals_wf(m),
            encode_conforms(s, m),
            sink@ == old(sink)@ + done,
            enc_outcome(s, *reg, m, 0).0 == done + enc_outcome(s, *reg, m, i as int).0,
            enc_outcome(s, *reg, m, 0).1 == enc_outcome(s, *reg, m, i as int).1,
        decreases n - i,
    {
        let ghost done0 = done;
        let role = schema.fields[i].role;
        match role {
            ResolvedRole::Plain => {},
            ResolvedRole::LengthFor { target, offset, kind } => {
                let c = content_len(&msg.fields[target]);
                let maxv = kind.max_value_u64();
                proof {
                    crate::wire::lemma_pow256_values();
                    crate::wire::lemma_pow256_increases(1, kind.width());
                }
                if (c as u64) > maxv - (offset as u64) {
                    proof {
                        assert(producer_error(s, *reg, m, i as int) == Some(
                            EncodeError::LengthOverflow,
                        ));
                        assert(enc_outcome(s, *reg, m, i as int).0 =~= Seq::<u8>::empty());
                        assert(sink@ =~= old(sink)@ + (done + enc_outcome(s, *reg, m, i as int).0));
                        lemma_enc_outcome(s, *reg, m, 0);
                    }
                    return Err(EncodeError::LengthOverflow);
                }
                write_be(kind, c as u64 + offset as u64, sink);
                proof {
                    done = done + producer_bytes(s, m, i as int);
                    assert(sink@ =~= old(sink)@ + done);
                }
            },
            ResolvedRole::DiscriminantFor { target, kind } => {
                match tag_of(reg, &msg.fields[target]) {
                    Result::Ok(t) => {
                        write_be(kind, t, sink);
                        proof {
                            done = done + producer_bytes(s, m, i as int);
                            assert(sink@ =~= old(sink)@ + done);
                        }
                    },
                    Result::Err(e) => {
                        proof {
                            assert(producer_error(s, *reg, m, i as int) == Some(
                                EncodeError::UnknownVariant,
                            ));
                            assert(enc_outcome(s, *reg, m, i as int).0 =~= Seq::<u8>::empty());
                            assert(sink@ =~= old(sink)@ + (done + enc_outcome(
                                s,
                                *reg,
                                m,
                                i as int,
                            ).0));
                            lemma_enc_outcome(s, *reg, m, 0);
                        }
                        return Err(e);
                    },
                }
            },
        }
        let mut content = encode_leaf(&msg.fields[i]);
        sink.append(&mut content);
        proof {
            done = done + content_bytes(m[i as int]);
            assert(sink@ =~= old(sink)@ + done);
            assert(producer_error(s, *reg, m, i as int) is None);
            assert(done =~= done0 + field_bytes(s, m, i as int));
            assert(enc_outcome(s, *reg, m, i as int).0 =~= field_bytes(s, m, i as int)
                + enc_outcome(s, *reg, m, i as int + 1).0);
            assert(enc_outcome(s, *reg, m, i as int).1 == enc_outcome(s, *reg, m, i as int + 1).1);
            assert(done + enc_outcome(s, *reg, m, i as int + 1).0 =~= done0 + enc_outcome(
                s,
                *reg,
                m,
                i as int,
            ).0);
        }
        i = i + 1;
    }
    proof {
        lemma_enc_outcome(s, *reg, m, 0);
        assert(enc_outcome(s, *reg, m, n as int).0 =~= Seq::<u8>::empty());
        assert(sink@ =~= old(sink)@ + (done + enc_outcome(s, *reg, m, n as int).0));
    }
    Ok(())
}

} // verus!
