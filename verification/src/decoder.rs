//! The decoder: walks the resolved field list in declaration order,
//! capturing each producer's derived value in a pending table keyed by
//! target index, and replays those values when the target itself is read:
//! a pending length bounds the read to exactly that many bytes, a pending
//! discriminant selects the variant through the registry.

use vstd::prelude::*;

use crate::schema::ResolvedField;
use crate::schema::ResolvedRole;
use crate::schema::ResolvedSchema;
use crate::schema::targets_in_range;
use crate::value::FieldValue;
use crate::value::Message;
use crate::value::Registry;
use crate::value::Val;
use crate::value::copy_range;
use crate::wire::be_value;
use crate::wire::read_be;

verus! {

#[derive(Clone, Copy, PartialEq, Eq, Structural, Debug)]
pub enum DecodeError {
    /// A length prefix read from the wire is below the declared offset.
    MalformedLength,
    /// A bounded field did not consume its bound exactly: the source holds
    /// fewer bytes than the pending length promised, or the field's own
    /// width differs from the bound.
    TruncatedField,
    /// A discriminant has no registered variant, or a variant field was
    /// reached with no pending discriminant to select one.
    UnknownDiscriminant,
    /// The source ended inside a fixed-width read that had no bound.
    UnexpectedEof,
}

/// A byte source with a read cursor. After a failed decode the cursor is
/// left where the failure was found, not rewound: the caller discards the
/// partially filled message.
pub struct ByteSource {
    pub data: Vec<u8>,
    pub pos: usize,
}

impl ByteSource {
    pub open spec fn wf(self) -> bool {
        self.pos <= self.data@.len()
    }

    /// A source reading `data` from its start.
    pub fn new(data: Vec<u8>) -> (s: ByteSource)
        ensures
            s.data@ == data@,
            s.pos == 0,
            s.wf(),
    {
        ByteSource { data, pos: 0 }
    }
}

/// The producer phase of field `i`: reads the derived value, if the field
/// is a producer, and stores it in the pending table of its target. A
/// length prefix below the declared offset is malformed.
pub open spec fn dec_producer(
    s: Seq<ResolvedField>,
    i: int,
    bytes: Seq<u8>,
    pos: int,
    pl: Seq<Option<u64>>,
    pd: Seq<Option<u64>>,
) -> Result<(int, Seq<Option<u64>>, Seq<Option<u64>>), DecodeError> {
    match s[i].role {
        ResolvedRole::Plain => Ok((pos, pl, pd)),
        ResolvedRole::LengthFor { target, offset, kind } => {
            let w = kind.width() as int;
            if pos + w > bytes.len() {
                Err(DecodeError::UnexpectedEof)
            } else {
                let v = be_value(bytes.subrange(pos, pos + w));
                if v < offset {
                    Err(DecodeError::MalformedLength)
                } else {
                    Ok((pos + w, pl.update(target as int, Some((v - offset) as u64)), pd))
                }
            }
        },
        ResolvedRole::DiscriminantFor { target, kind } => {
            let w = kind.width() as int;
            if pos + w > bytes.len() {
                Err(DecodeError::UnexpectedEof)
            } else {
                let v = be_value(bytes.subrange(pos, pos + w));
                Ok((pos + w, pl, pd.update(target as int, Some(v as u64))))
            }
        },
    }
}

/// Reading one field's own content at `pos`. `shape` is the value the
/// field held before the decode: it fixes the kind of content expected.
/// `bound` is the field's pending length, `ptag` its pending discriminant.
/// A bounded read must fill the bound exactly; an unbounded variable-length
/// read takes the rest of the source.
pub open spec fn dec_content(
    shape: Val,
    bound: Option<u64>,
    ptag: Option<u64>,
    reg: Registry,
    bytes: Seq<u8>,
    pos: int,
) -> Result<(Val, int), DecodeError> {
    match ptag {
        Some(tag) => if !reg.registered(tag) {
            Err(DecodeError::UnknownDiscriminant)
        } else {
            match bound {
                Some(b) => if pos + b > bytes.len() {
                    Err(DecodeError::TruncatedField)
                } else {
                    Ok((Val::Tagged { tag, payload: bytes.subrange(pos, pos + b) }, pos + b))
                },
                None => Ok(
                    (Val::Tagged { tag, payload: bytes.subrange(pos, bytes.len() as int) }, bytes.len() as int),
                ),
            }
        },
        None => match shape {
            Val::Marker => match bound {
                Some(b) => if pos + b > bytes.len() {
                    Err(DecodeError::TruncatedField)
                } else if b != 0 {
                    Err(DecodeError::TruncatedField)
                } else {
                    Ok((Val::Marker, pos))
                },
                None => Ok((Val::Marker, pos)),
            },
            Val::Uint { kind, value } => {
                let w = kind.width() as int;
                match bound {
                    Some(b) => if pos + b > bytes.len() {
                        Err(DecodeError::TruncatedField)
                    } else if b != w {
                        Err(DecodeError::TruncatedField)
                    } else {
                        Ok(
                            (
                                Val::Uint {
                                    kind,
                                    value: be_value(bytes.subrange(pos, pos + w)) as u64,
                                },
                                pos + w,
                            ),
                        )
                    },
                    None => if pos + w > bytes.len() {
                        Err(DecodeError::UnexpectedEof)
                    } else {
                        Ok(
                            (
                                Val::Uint {
                                    kind,
                                    value: be_value(bytes.subrange(pos, pos + w)) as u64,
                                },
                                pos + w,
                            ),
                        )
                    },
                }
            },
            Val::Bytes { data } => match bound {
                Some(b) => if pos + b > bytes.len() {
                    Err(DecodeError::TruncatedField)
                } else {
                    Ok((Val::Bytes { data: bytes.subrange(pos, pos + b) }, pos + b))
                },
                None => Ok(
                    (Val::Bytes { data: bytes.subrange(pos, bytes.len() as int) }, bytes.len() as int),
                ),
            },
            Val::Tagged { tag, payload } => Err(DecodeError::UnknownDiscriminant),
        },
    }
}

/// Prepends a decoded value to the outcome of the fields after it.
pub open spec fn cons_val(v: Val, r: Result<(Seq<Val>, int), DecodeError>) -> Result<
    (Seq<Val>, int),
    DecodeError,
> {
    match r {
        Ok(vp) => Ok((seq![v] + vp.0, vp.1)),
        Err(e) => Err(e),
    }
}

/// The decode outcome from field `i` on, given the cursor and the pending
/// tables so far: the values of fields `i..` and the final cursor, or the
/// first error met.
pub open spec fn dec_fields(
    s: Seq<ResolvedField>,
    reg: Registry,
    shapes: Seq<Val>,
    bytes: Seq<u8>,
    i: int,
    pos: int,
    pl: Seq<Option<u64>>,
    pd: Seq<Option<u64>>,
) -> Result<(Seq<Val>, int), DecodeError>
    decreases s.len() - i,
{
    if i < 0 || i >= s.len() {
        Ok((Seq::<Val>::empty(), pos))
    } else {
        match dec_producer(s, i, bytes, pos, pl, pd) {
            Err(e) => Err(e),
            Ok(step) => match dec_content(shapes[i], step.1[i], step.2[i], reg, bytes, step.0) {
                Err(e) => Err(e),
                Ok(vp) => cons_val(
                    vp.0,
                    dec_fields(s, reg, shapes, bytes, i + 1, vp.1, step.1, step.2),
                ),
            },
        }
    }
}

/// The decode model for a whole message: empty pending tables, the cursor
/// at `pos`, shapes taken from the message the caller passes in.
pub open spec fn decode_model(
    s: Seq<ResolvedField>,
    reg: Registry,
    shapes: Seq<Val>,
    bytes: Seq<u8>,
    pos: int,
) -> Result<(Seq<Val>, int), DecodeError> {
    dec_fields(
        s,
        reg,
        shapes,
        bytes,
        0,
        pos,
        Seq::new(s.len(), |t: int| None),
        Seq::new(s.len(), |t: int| None),
    )
}

/// Prepending to an outcome, one decoded value at a time.
pub open spec fn with_rest(prefix: Seq<Val>, r: Result<(Seq<Val>, int), DecodeError>) -> Result<
    (Seq<Val>, int),
    DecodeError,
> {
    match r {
        Ok(vp) => Ok((prefix + vp.0, vp.1)),
        Err(e) => Err(e),
    }
}

proof fn lemma_with_rest_step(prefix: Seq<Val>, v: Val, r: Result<(Seq<Val>, int), DecodeError>)
    ensures
        with_rest(prefix, cons_val(v, r)) == with_rest(prefix.push(v), r),
{
    match r {
        Ok(vp) => {
            assert(prefix + (seq![v] + vp.0) =~= prefix.push(v) + vp.0);
        },
        Err(e) => {},
    }
}

/// The registry's `decode_with_tag` capability: the variant value for a
/// pending discriminant and its content bytes, or `UnknownDiscriminant`
/// when the registry has no entry for the tag.
pub fn decode_with_tag(reg: &Registry, tag: u64, payload: Vec<u8>) -> (r: Result<
    FieldValue,
    DecodeError,
>)
    ensures
        match r {
            Result::Ok(v) => reg.registered(tag) && v@ == (Val::Tagged {
                tag,
                payload: payload@,
            }),
            Result::Err(e) => e == DecodeError::UnknownDiscriminant && !reg.registered(tag),
        },
{
    if reg.is_registered(tag) {
        Ok(FieldValue::Tagged { tag, payload })
    } else {
        Err(DecodeError::UnknownDiscriminant)
    }
}

fn nones(n: usize) -> (v: Vec<Option<u64>>)
    ensures
        v@ == Seq::new(n as nat, |t: int| None::<u64>),
{
    let mut v: Vec<Option<u64>> = Vec::new();
    let mut i: usize = 0;
    while i < n
        invariant
            i <= n,
            v@ =~= Seq::new(i as nat, |t: int| None::<u64>),
        decreases n - i,
    {
        v.push(None);
        proof {
            assert(v@ =~= Seq::new((i + 1) as nat, |t: int| None::<u64>));
        }
        i = i + 1;
    }
    v
}

/// Decodes one message from `src` in declaration order, replacing the
/// fields of `msg` in place. The values `msg` holds on entry fix each
/// field's expected shape; on success they are replaced by what the wire
/// held, exactly as `decode_model` states. On an error the message is
/// partially rewritten and the cursor not rewound: the caller discards
/// both.
#[verifier::rlimit(100)]
pub fn decode(schema: &ResolvedSchema, reg: &Registry, msg: &mut Message, src: &mut ByteSource) -> (r:
    Result<(), DecodeError>)
    requires
        targets_in_range(schema.fields@),
        old(msg)@.len() == schema.fields@.len(),
        old(src).wf(),
    ensures
        final(src).data@ == old(src).data@,
        final(src).wf(),
        ({
            let model = decode_model(
                schema.fields@,
                *reg,
                old(msg)@,
                old(src).data@,
                old(src).pos as int,
            );
            match model {
                Result::Ok(vp) => r is Ok && final(msg)@ == vp.0 && final(src).pos == vp.1,
                Result::Err(e) => r == Err::<(), DecodeError>(e),
            }
        }),
{
    let ghost s = schema.fields@;
    let ghost shapes = old(msg)@;
    let ghost bytes = old(src).data@;
    let ghost pos0 = old(src).pos as int;
    let n = schema.fields.len();
    let mut pl = nones(n);
    let mut pd = nones(n);
    let mut i: usize = 0;
    while i < n
        invariant
            i <= n,
            n == s.len(),
            s == schema.fields@,
            shapes == old(msg)@,
            bytes == old(src).data@,
            pos0 == old(src).pos as int,
            targets_in_range(s),
            shapes.len() == n,
            src.data@ == bytes,
            src.pos <= bytes.len(),
            msg.fields@.len() == n,
            pl@.len() == n,
            pd@.len() == n,
            forall|j: int| i <= j < n ==> msg@[j] == shapes[j],
            decode_model(s, *reg, shapes, bytes, pos0) == with_rest(
                msg@.subrange(0, i as int),
                dec_fields(s, *reg, shapes, bytes, i as int, src.pos as int, pl@, pd@),
            ),
        decreases n - i,
    {
        let ghost prefix_e = msg@.subrange(0, i as int);
        let ghost pos_e = src.pos as int;
        let ghost pl_e = pl@;
        let ghost pd_e = pd@;
        let role = schema.fields[i].role;
        match role {
            ResolvedRole::Plain => {},
            ResolvedRole::LengthFor { target, offset, kind } => {
                let w = kind.width_bytes();
                if w > src.data.len() - src.pos {
                    proof {
                        assert(dec_fields(s, *reg, shapes, bytes, i as int, pos_e, pl_e, pd_e)
                            == Err::<(Seq<Val>, int), DecodeError>(DecodeError::UnexpectedEof));
                    }
                    return Err(DecodeError::UnexpectedEof);
                }
                let v = read_be(kind, &src.data, src.pos);
                src.pos = src.pos + w;
                if v < offset as u64 {
                    proof {
                        assert(dec_fields(s, *reg, shapes, bytes, i as int, pos_e, pl_e, pd_e)
                            == Err::<(Seq<Val>, int), DecodeError>(DecodeError::MalformedLength));
                    }
                    return Err(DecodeError::MalformedLength);
                }
                pl.set(target, Some(v - offset as u64));
            },
            ResolvedRole::DiscriminantFor { target, kind } => {
                let w = kind.width_bytes();
                if w > src.data.len() - src.pos {
                    proof {
                        assert(dec_fields(s, *reg, shapes, bytes, i as int, pos_e, pl_e, pd_e)
                            == Err::<(Seq<Val>, int), DecodeError>(DecodeError::UnexpectedEof));
                    }
                    return Err(DecodeError::UnexpectedEof);
                }
                let v = read_be(kind, &src.data, src.pos);
                src.pos = src.pos + w;
                pd.set(target, Some(v));
            },
        }
        let ghost pos1 = src.pos as int;
        let ghost pl1 = pl@;
        let ghost pd1 = pd@;
        proof {
            assert(dec_producer(s, i as int, bytes, pos_e, pl_e, pd_e) == Ok::<
                (int, Seq<Option<u64>>, Seq<Option<u64>>),
                DecodeError,
            >((pos1, pl1, pd1)));
        }
        let bound = pl[i];
        let ptag = pd[i];
        let fv_new: FieldValue = match ptag {
            Option::Some(tag) => {
                if !reg.is_registered(tag) {
                    proof {
                        assert(dec_fields(s, *reg, shapes, bytes, i as int, pos_e, pl_e, pd_e)
                            == Err::<(Seq<Val>, int), DecodeError>(
                            DecodeError::UnknownDiscriminant,
                        ));
                    }
                    return Err(DecodeError::UnknownDiscriminant);
                }
                match bound {
                    Option::Some(b) => {
                        let rem = src.data.len() - src.pos;
                        if b > rem as u64 {
                            proof {
                                assert(dec_fields(
                                    s,
                                    *reg,
                                    shapes,
                                    bytes,
                                    i as int,
                                    pos_e,
                                    pl_e,
                                    pd_e,
                                ) == Err::<(Seq<Val>, int), DecodeError>(
                                    DecodeError::TruncatedField,
                                ));
                            }
                            return Err(DecodeError::TruncatedField);
                        }
                        let end = src.pos + (b as usize);
                        let payload = copy_range(&src.data, src.pos, end);
                        src.pos = end;
                        FieldValue::Tagged { tag, payload }
                    },
                    Option::None => {
                        let end = src.data.len();
                        let payload = copy_range(&src.data, src.pos, end);
                        src.pos = end;
                        FieldValue::Tagged { tag, payload }
                    },
                }
            },
            Option::None => {
                match &msg.fields[i] {
                    FieldValue::Marker => {
                        match bound {
                            Option::Some(b) => {
                                let rem = src.data.len() - src.pos;
                                if b > rem as u64 || b != 0 {
                                    proof {
                                        assert(dec_fields(
                                            s,
                                            *reg,
                                            shapes,
                                            bytes,
                                            i as int,
                                            pos_e,
                                            pl_e,
                                            pd_e,
                                        ) == Err::<(Seq<Val>, int), DecodeError>(
                                            DecodeError::TruncatedField,
                                        ));
                                    }
                                    return Err(DecodeError::TruncatedField);
                                }
                                FieldValue::Marker
                            },
                            Option::None => FieldValue::Marker,
                        }
                    },
                    FieldValue::Uint { kind, value } => {
                        let k2 = *kind;
                        let w = k2.width_bytes();
                        let rem = src.data.len() - src.pos;
                        match bound {
                            Option::Some(b) => {
                                if b > rem as u64 || (b as usize) != w {
                                    proof {
                                        assert(dec_fields(
                                            s,
                                            *reg,
                                            shapes,
                                            bytes,
                                            i as int,
                                            pos_e,
                                            pl_e,
                                            pd_e,
                                        ) == Err::<(Seq<Val>, int), DecodeError>(
                                            DecodeError::TruncatedField,
                                        ));
                                    }
                                    return Err(DecodeError::TruncatedField);
                                }
                            },
                            Option::None => {
                                if w > rem {
                                    proof {
                                        assert(dec_fields(
                                            s,
                                            *reg,
                                            shapes,
                                            bytes,
                                            i as int,
                                            pos_e,
                                            pl_e,
                                            pd_e,
                                        ) == Err::<(Seq<Val>, int), DecodeError>(
                                            DecodeError::UnexpectedEof,
                                        ));
                                    }
                                    return Err(DecodeError::UnexpectedEof);
                                }
                            },
                        }
                        let v = read_be(k2, &src.data, src.pos);
                        src.pos = src.pos + w;
                        FieldValue::Uint { kind: k2, value: v }
                    },
                    FieldValue::Bytes { data } => {
                        match bound {
                            Option::Some(b) => {
                                let rem = src.data.len() - src.pos;
                                if b > rem as u64 {
                                    proof {
                                        assert(dec_fields(
                                            s,
                                            *reg,
                                            shapes,
                                            bytes,
                                            i as int,
                                            pos_e,
                                            pl_e,
                                            pd_e,
                                        ) == Err::<(Seq<Val>, int), DecodeError>(
                                            DecodeError::TruncatedField,
                                        ));
                                    }
                                    return Err(DecodeError::TruncatedField);
                                }
                                let end = src.pos + (b as usize);
                                let content = copy_range(&src.data, src.pos, end);
                                src.pos = end;
                                FieldValue::Bytes { data: content }
                            },
                            Option::None => {
                                let end = src.data.len();
                                let content = copy_range(&src.data, src.pos, end);
                                src.pos = end;
                                FieldValue::Bytes { data: content }
                            },
                        }
                    },
                    FieldValue::Tagged { tag, payload } => {
                        proof {
                            assert(dec_fields(s, *reg, shapes, bytes, i as int, pos_e, pl_e, pd_e)
                                == Err::<(Seq<Val>, int), DecodeError>(
                                DecodeError::UnknownDiscriminant,
                            ));
                        }
                        return Err(DecodeError::UnknownDiscriminant);
                    },
                }
            },
        };
        let ghost pos2 = src.pos as int;
        proof {
            assert(dec_content(shapes[i as int], pl1[i as int], pd1[i as int], *reg, bytes, pos1)
                == Ok::<(Val, int), DecodeError>((fv_new@, pos2)));
        }
        msg.fields.set(i, fv_new);
        proof {
            assert(dec_fields(s, *reg, shapes, bytes, i as int, pos_e, pl_e, pd_e) == cons_val(
                fv_new@,
                dec_fields(s, *reg, shapes, bytes, i as int + 1, pos2, pl1, pd1),
            ));
            lemma_with_rest_step(
                prefix_e,
                fv_new@,
                dec_fields(s, *reg, shapes, bytes, i as int + 1, pos2, pl1, pd1),
            );
            assert(msg@.subrange(0, i as int + 1) =~= prefix_e.push(fv_new@));
        }
        i = i + 1;
    }
    proof {
        assert(dec_fields(s, *reg, shapes, bytes, n as int, src.pos as int, pl@, pd@) == Ok::<
            (Seq<Val>, int),
            DecodeError,
        >((Seq::<Val>::empty(), src.pos as int)));
        assert(msg@.subrange(0, n as int) + Seq::<Val>::empty() =~= msg@);
    }
    Ok(())
}

} // verus!
