//! The laws that tie the two codecs together: the encoder and the decoder
//! agree byte for byte on the wire layout.

use vstd::prelude::*;

use crate::decoder::DecodeError;
use crate::decoder::cons_val;
use crate::decoder::dec_content;
use crate::decoder::dec_fields;
use crate::decoder::dec_producer;
use crate::decoder::decode_model;
use crate::encoder::EncodeError;
use crate::encoder::encode_conforms;
use crate::encoder::encode_ok;
use crate::encoder::encoding;
use crate::encoder::enc_cat;
use crate::encoder::field_bytes;
use crate::encoder::producer_bytes;
use crate::encoder::producer_error;
use crate::schema::ResolvedField;
use crate::schema::ResolvedRole;
use crate::schema::disc_governed;
use crate::schema::disc_role_for;
use crate::schema::length_governed;
use crate::schema::length_role_for;
use crate::schema::producers_precede_targets;
use crate::schema::schema_wf;
use crate::schema::targets_in_range;
use crate::value::Registry;
use crate::value::Val;
use crate::value::content_bytes;
use crate::value::val_tag;
use crate::value::val_wf;
use crate::value::vals_wf;
use crate::wire::IntKind;
use crate::wire::be_bytes;
use crate::wire::be_value;
use crate::wire::lemma_be_bytes_len;
use crate::wire::lemma_be_value_bound;
use crate::wire::lemma_be_value_of_bytes;
use crate::wire::lemma_pow256_increases;
use crate::wire::lemma_pow256_pos;
use crate::wire::lemma_pow256_values;

verus! {

/// Some field before `i` is a length producer for field `t`.
pub open spec fn length_produced_before(s: Seq<ResolvedField>, t: int, i: int) -> bool {
    exists|p: int| 0 <= p < i && length_role_for(#[trigger] s[p].role, t)
}

/// Some field before `i` is a discriminant producer for field `t`.
pub open spec fn disc_produced_before(s: Seq<ResolvedField>, t: int, i: int) -> bool {
    exists|p: int| 0 <= p < i && disc_role_for(#[trigger] s[p].role, t)
}

/// The pending-length table the decoder holds when it reaches field `i`
/// of the encoding of `m`: the content byte count of every target whose
/// length producer stands before `i`.
pub open spec fn expect_pl(s: Seq<ResolvedField>, m: Seq<Val>, i: int) -> Seq<Option<u64>> {
    Seq::new(
        s.len(),
        |t: int|
            if length_produced_before(s, t, i) {
                Some(content_bytes(m[t]).len() as u64)
            } else {
                None::<u64>
            },
    )
}

/// The pending-discriminant table the decoder holds when it reaches field
/// `i` of the encoding of `m`.
pub open spec fn expect_pd(s: Seq<ResolvedField>, m: Seq<Val>, i: int) -> Seq<Option<u64>> {
    Seq::new(
        s.len(),
        |t: int|
            if disc_produced_before(s, t, i) {
                Some(val_tag(m[t]))
            } else {
                None::<u64>
            },
    )
}

/// A message is framed for its schema: a field holds a variant exactly
/// when a discriminant producer governs it, and every variable-length
/// field other than the last is length-governed, so that its decode is
/// bounded.
pub open spec fn framed(s: Seq<ResolvedField>, m: Seq<Val>) -> bool {
    &&& m.len() == s.len()
    &&& forall|i: int|
        0 <= i < s.len() ==> ((#[trigger] m[i]) is Tagged <==> disc_governed(s, i))
    &&& forall|i: int|
        0 <= i < s.len() - 1 && ((#[trigger] m[i]) is Bytes || m[i] is Tagged) ==> length_governed(
            s,
            i,
        )
}

/// Splitting the encoding of a field range at any point.
pub proof fn lemma_enc_cat_split(s: Seq<ResolvedField>, m: Seq<Val>, a: int, b: int, c: int)
    requires
        a <= b <= c,
    ensures
        enc_cat(s, m, a, c) == enc_cat(s, m, a, b) + enc_cat(s, m, b, c),
    decreases b - a,
{
    if a == b {
        assert(Seq::<u8>::empty() + enc_cat(s, m, b, c) =~= enc_cat(s, m, b, c));
    } else {
        lemma_enc_cat_split(s, m, a + 1, b, c);
        assert(field_bytes(s, m, a) + (enc_cat(s, m, a + 1, b) + enc_cat(s, m, b, c)) =~= (
        field_bytes(s, m, a) + enc_cat(s, m, a + 1, b)) + enc_cat(s, m, b, c));
    }
}

/// How one field's producer role advances the expected pending tables.
proof fn lemma_expect_step(s: Seq<ResolvedField>, m: Seq<Val>, i: int)
    requires
        targets_in_range(s),
        0 <= i < s.len(),
    ensures
        match s[i].role {
            ResolvedRole::Plain => expect_pl(s, m, i + 1) == expect_pl(s, m, i) && expect_pd(
                s,
                m,
                i + 1,
            ) == expect_pd(s, m, i),
            ResolvedRole::LengthFor { target, .. } => expect_pl(s, m, i + 1) == expect_pl(
                s,
                m,
                i,
            ).update(target as int, Some(content_bytes(m[target as int]).len() as u64))
                && expect_pd(s, m, i + 1) == expect_pd(s, m, i),
            ResolvedRole::DiscriminantFor { target, .. } => expect_pd(s, m, i + 1) == expect_pd(
                s,
                m,
                i,
            ).update(target as int, Some(val_tag(m[target as int]))) && expect_pl(s, m, i + 1)
                == expect_pl(s, m, i),
        },
{
    assert forall|t: int| 0 <= t < s.len() && !length_role_for(s[i].role, t) implies (
    #[trigger] length_produced_before(s, t, i + 1) <==> length_produced_before(s, t, i)) by {
        if length_produced_before(s, t, i + 1) {
            let p = choose|p: int| 0 <= p < i + 1 && length_role_for(#[trigger] s[p].role, t);
            if p != i {
                assert(length_produced_before(s, t, i));
            }
        }
        if length_produced_before(s, t, i) {
            let p = choose|p: int| 0 <= p < i && length_role_for(#[trigger] s[p].role, t);
            assert(0 <= p < i + 1 && length_role_for(s[p].role, t));
        }
    }
    assert forall|t: int| 0 <= t < s.len() && !disc_role_for(s[i].role, t) implies (
    #[trigger] disc_produced_before(s, t, i + 1) <==> disc_produced_before(s, t, i)) by {
        if disc_produced_before(s, t, i + 1) {
            let p = choose|p: int| 0 <= p < i + 1 && disc_role_for(#[trigger] s[p].role, t);
            if p != i {
                assert(disc_produced_before(s, t, i));
            }
        }
        if disc_produced_before(s, t, i) {
            let p = choose|p: int| 0 <= p < i && disc_role_for(#[trigger] s[p].role, t);
            assert(0 <= p < i + 1 && disc_role_for(s[p].role, t));
        }
    }
    match s[i].role {
        ResolvedRole::Plain => {
            assert(expect_pl(s, m, i + 1) =~= expect_pl(s, m, i));
            assert(expect_pd(s, m, i + 1) =~= expect_pd(s, m, i));
        },
        ResolvedRole::LengthFor { target, .. } => {
            let tg = target as int;
            assert(length_role_for(s[i].role, tg));
            assert(length_produced_before(s, tg, i + 1)) by {
                assert(0 <= i < i + 1 && length_role_for(s[i].role, tg));
            }
            assert(expect_pl(s, m, i + 1) =~= expect_pl(s, m, i).update(
                tg,
                Some(content_bytes(m[tg]).len() as u64),
            ));
            assert(expect_pd(s, m, i + 1) =~= expect_pd(s, m, i));
        },
        ResolvedRole::DiscriminantFor { target, .. } => {
            let tg = target as int;
            assert(disc_role_for(s[i].role, tg));
            assert(disc_produced_before(s, tg, i + 1)) by {
                assert(0 <= i < i + 1 && disc_role_for(s[i].role, tg));
            }
            assert(expect_pd(s, m, i + 1) =~= expect_pd(s, m, i).update(tg, Some(val_tag(m[tg]))));
            assert(expect_pl(s, m, i + 1) =~= expect_pl(s, m, i));
        },
    }
}

/// What the pending tables say about field `i` itself when the decoder
/// reaches it: exactly its governed framing, because every producer
/// stands before its target.
proof fn lemma_expect_at(s: Seq<ResolvedField>, m: Seq<Val>, i: int)
    requires
        targets_in_range(s),
        producers_precede_targets(s),
        0 <= i < s.len(),
    ensures
        expect_pl(s, m, i + 1)[i] == (if length_governed(s, i) {
            Some(content_bytes(m[i]).len() as u64)
        } else {
            None::<u64>
        }),
        expect_pd(s, m, i + 1)[i] == (if disc_governed(s, i) {
            Some(val_tag(m[i]))
        } else {
            None::<u64>
        }),
{
    if length_governed(s, i) {
        let p = choose|p: int| 0 <= p < s.len() && length_role_for(#[trigger] s[p].role, i);
        assert(p < i);
        assert(length_produced_before(s, i, i + 1)) by {
            assert(0 <= p < i + 1 && length_role_for(s[p].role, i));
        }
    } else {
        if length_produced_before(s, i, i + 1) {
            let p = choose|p: int| 0 <= p < i + 1 && length_role_for(#[trigger] s[p].role, i);
            assert(length_governed(s, i)) by {
                assert(0 <= p < s.len() && length_role_for(s[p].role, i));
            }
        }
    }
    if disc_governed(s, i) {
        let p = choose|p: int| 0 <= p < s.len() && disc_role_for(#[trigger] s[p].role, i);
        assert(p < i);
        assert(disc_produced_before(s, i, i + 1)) by {
            assert(0 <= p < i + 1 && disc_role_for(s[p].role, i));
        }
    } else {
        if disc_produced_before(s, i, i + 1) {
            let p = choose|p: int| 0 <= p < i + 1 && disc_role_for(#[trigger] s[p].role, i);
            assert(disc_governed(s, i)) by {
                assert(0 <= p < s.len() && disc_role_for(s[p].role, i));
            }
        }
    }
}

/// The content byte count of a length-governed field fits in its
/// producer's declared kind, hence in a pending-table entry.
proof fn lemma_governed_len_fits(s: Seq<ResolvedField>, reg: Registry, m: Seq<Val>, i: int)
    requires
        encode_ok(s, reg, m),
        length_governed(s, i),
        0 <= i < s.len(),
    ensures
        content_bytes(m[i]).len() <= 0xffff_ffff_ffff_ffff,
{
    let p = choose|p: int| 0 <= p < s.len() && length_role_for(#[trigger] s[p].role, i);
    assert(producer_error(s, reg, m, p) is None);
    match s[p].role {
        ResolvedRole::LengthFor { target, offset, kind } => {
            assert(content_bytes(m[i]).len() + offset <= kind.max_value());
            lemma_pow256_increases(kind.width(), 8);
            lemma_pow256_values();
        },
        _ => {},
    }
}

/// Where field `i`'s bytes stand inside the whole encoding.
proof fn lemma_layout(s: Seq<ResolvedField>, m: Seq<Val>, i: int)
    requires
        0 <= i < s.len(),
    ensures
        encoding(s, m).len() == enc_cat(s, m, 0, i).len() + field_bytes(s, m, i).len() + enc_cat(
            s,
            m,
            i + 1,
            s.len() as int,
        ).len(),
        enc_cat(s, m, 0, i + 1).len() == enc_cat(s, m, 0, i).len() + field_bytes(s, m, i).len(),
        encoding(s, m).subrange(
            enc_cat(s, m, 0, i).len() as int,
            (enc_cat(s, m, 0, i).len() + producer_bytes(s, m, i).len()) as int,
        ) == producer_bytes(s, m, i),
        encoding(s, m).subrange(
            (enc_cat(s, m, 0, i).len() + producer_bytes(s, m, i).len()) as int,
            enc_cat(s, m, 0, i + 1).len() as int,
        ) == content_bytes(m[i]),
        i + 1 == s.len() ==> enc_cat(s, m, 0, i + 1).len() == encoding(s, m).len(),
{
    let n = s.len() as int;
    let pos_i = enc_cat(s, m, 0, i).len() as int;
    let fb = field_bytes(s, m, i);
    let pb = producer_bytes(s, m, i);
    let cb = content_bytes(m[i]);
    let tail = enc_cat(s, m, i + 1, n);
    lemma_enc_cat_split(s, m, 0, i, n);
    lemma_enc_cat_split(s, m, i, i + 1, n);
    lemma_enc_cat_split(s, m, 0, i, i + 1);
    assert(enc_cat(s, m, i, i + 1) =~= fb + Seq::<u8>::empty());
    assert(enc_cat(s, m, i, i + 1) =~= fb);
    assert(encoding(s, m) =~= enc_cat(s, m, 0, i) + (fb + tail));
    assert(fb == pb + cb);
    assert(encoding(s, m).subrange(pos_i, pos_i + pb.len()) =~= pb);
    assert(encoding(s, m).subrange(pos_i + pb.len(), pos_i + fb.len() as int) =~= cb);
}

/// The producer phase of field `i`, run on the encoding at field `i`'s
/// own position, reads back exactly the value encode derived, and
/// advances the pending tables as expected.
proof fn lemma_producer_step(s: Seq<ResolvedField>, reg: Registry, m: Seq<Val>, i: int)
    requires
        targets_in_range(s),
        m.len() == s.len(),
        encode_conforms(s, m),
        encode_ok(s, reg, m),
        0 <= i < s.len(),
    ensures
        dec_producer(
            s,
            i,
            encoding(s, m),
            enc_cat(s, m, 0, i).len() as int,
            expect_pl(s, m, i),
            expect_pd(s, m, i),
        ) == Ok::<(int, Seq<Option<u64>>, Seq<Option<u64>>), DecodeError>(
            (
                (enc_cat(s, m, 0, i).len() + producer_bytes(s, m, i).len()) as int,
                expect_pl(s, m, i + 1),
                expect_pd(s, m, i + 1),
            ),
        ),
{
    let bytes = encoding(s, m);
    let pos_i = enc_cat(s, m, 0, i).len() as int;
    let pb = producer_bytes(s, m, i);
    lemma_layout(s, m, i);
    lemma_expect_step(s, m, i);
    assert(producer_error(s, reg, m, i) is None);
    match s[i].role {
        ResolvedRole::Plain => {
            assert(pb =~= Seq::<u8>::empty());
        },
        ResolvedRole::LengthFor { target, offset, kind } => {
            let tg = target as int;
            let w = kind.width();
            let c = content_bytes(m[tg]).len();
            assert(c + offset <= kind.max_value());
            lemma_pow256_pos(w);
            lemma_be_bytes_len((c + offset) as nat, w);
            assert(bytes.subrange(pos_i, pos_i + w) == pb);
            lemma_be_value_of_bytes((c + offset) as nat, w);
            assert(be_value(bytes.subrange(pos_i, pos_i + w)) == c + offset);
            lemma_pow256_increases(w, 8);
            lemma_pow256_values();
            assert(((c + offset) as nat - offset) as u64 == c as u64);
        },
        ResolvedRole::DiscriminantFor { target, kind } => {
            let tg = target as int;
            let w = kind.width();
            let tag = val_tag(m[tg]);
            assert(tag as nat <= kind.max_value());
            lemma_pow256_pos(w);
            lemma_be_bytes_len(tag as nat, w);
            assert(bytes.subrange(pos_i, pos_i + w) == pb);
            lemma_be_value_of_bytes(tag as nat, w);
            assert(be_value(bytes.subrange(pos_i, pos_i + w)) == tag as nat);
        },
    }
}

/// The content phase of field `i`, run right after its producer phase,
/// reads back exactly the content encode wrote for it.
proof fn lemma_content_step(s: Seq<ResolvedField>, reg: Registry, m: Seq<Val>, i: int)
    requires
        schema_wf(s),
        producers_precede_targets(s),
        m.len() == s.len(),
        vals_wf(m),
        encode_conforms(s, m),
        encode_ok(s, reg, m),
        framed(s, m),
        0 <= i < s.len(),
    ensures
        dec_content(
            m[i],
            expect_pl(s, m, i + 1)[i],
            expect_pd(s, m, i + 1)[i],
            reg,
            encoding(s, m),
            (enc_cat(s, m, 0, i).len() + producer_bytes(s, m, i).len()) as int,
        ) == Ok::<(Val, int), DecodeError>((m[i], enc_cat(s, m, 0, i + 1).len() as int)),
{
    let n = s.len() as int;
    let bytes = encoding(s, m);
    let cb = content_bytes(m[i]);
    let pos1 = (enc_cat(s, m, 0, i).len() + producer_bytes(s, m, i).len()) as int;
    let pos2 = enc_cat(s, m, 0, i + 1).len() as int;
    let pl1 = expect_pl(s, m, i + 1);
    let pd1 = expect_pd(s, m, i + 1);
    lemma_layout(s, m, i);
    assert(pos2 == pos1 + cb.len());
    assert(bytes.subrange(pos1, pos2) == cb);
    lemma_expect_at(s, m, i);
    if length_governed(s, i) {
        lemma_governed_len_fits(s, reg, m, i);
        assert(pl1[i] == Some(cb.len() as u64));
    } else {
        assert(pl1[i] is None);
    }
    match m[i] {
        Val::Marker => {
            assert(!disc_governed(s, i));
            assert(pd1[i] is None);
        },
        Val::Tagged { tag, payload } => {
            assert(disc_governed(s, i));
            assert(pd1[i] == Some(tag));
            let p = choose|p: int| 0 <= p < s.len() && disc_role_for(#[trigger] s[p].role, i);
            assert(producer_error(s, reg, m, p) is None);
            assert(reg.registered(tag));
            if !length_governed(s, i) {
                assert(i == n - 1);
                assert(enc_cat(s, m, i + 1, n) =~= Seq::<u8>::empty());
                assert(pos2 == bytes.len());
                assert(bytes.subrange(pos1, bytes.len() as int) == cb);
            }
        },
        Val::Uint { kind, value } => {
            assert(!disc_governed(s, i));
            assert(pd1[i] is None);
            let w = kind.width();
            assert(val_wf(m[i]));
            lemma_pow256_pos(w);
            lemma_be_bytes_len(value as nat, w);
            assert(cb.len() == w);
            lemma_be_value_of_bytes(value as nat, w);
            assert(be_value(bytes.subrange(pos1, pos1 + w)) == value as nat);
        },
        Val::Bytes { data } => {
            assert(!disc_governed(s, i));
            assert(pd1[i] is None);
            if !length_governed(s, i) {
                assert(i == n - 1);
                assert(enc_cat(s, m, i + 1, n) =~= Seq::<u8>::empty());
                assert(pos2 == bytes.len());
                assert(bytes.subrange(pos1, bytes.len() as int) == cb);
            }
        },
    }
}

/// One step of the round trip, from field `i` on: decoding the tail of
/// the encoding, with the pending tables the earlier fields produced,
/// yields exactly the remaining fields of `m`.
proof fn lemma_round_trip_from(s: Seq<ResolvedField>, reg: Registry, m: Seq<Val>, i: int)
    requires
        schema_wf(s),
        producers_precede_targets(s),
        m.len() == s.len(),
        vals_wf(m),
        encode_conforms(s, m),
        encode_ok(s, reg, m),
        framed(s, m),
        0 <= i <= s.len(),
    ensures
        dec_fields(
            s,
            reg,
            m,
            encoding(s, m),
            i,
            enc_cat(s, m, 0, i).len() as int,
            expect_pl(s, m, i),
            expect_pd(s, m, i),
        ) == Ok::<(Seq<Val>, int), DecodeError>(
            (m.subrange(i, s.len() as int), encoding(s, m).len() as int),
        ),
    decreases s.len() - i,
{
    let n = s.len() as int;
    let bytes = encoding(s, m);
    let pos_i = enc_cat(s, m, 0, i).len() as int;
    if i == n {
        assert(m.subrange(n, n) =~= Seq::<Val>::empty());
        assert(pos_i == bytes.len());
    } else {
        lemma_layout(s, m, i);
        lemma_producer_step(s, reg, m, i);
        lemma_content_step(s, reg, m, i);
        lemma_round_trip_from(s, reg, m, i + 1);
        let pos2 = enc_cat(s, m, 0, i + 1).len() as int;
        assert(dec_fields(s, reg, m, bytes, i, pos_i, expect_pl(s, m, i), expect_pd(s, m, i))
            == cons_val(
            m[i],
            dec_fields(s, reg, m, bytes, i + 1, pos2, expect_pl(s, m, i + 1), expect_pd(s, m, i + 1)),
        ));
        assert(seq![m[i]] + m.subrange(i + 1, n) =~= m.subrange(i, n));
    }
}


/// Round-trip law: for a well-formed, framed message whose encode
/// succeeds, decoding the encoding against the same schema and registry,
/// with the message's own shapes, reproduces every field exactly and
/// consumes the whole encoding.
pub proof fn lemma_round_trip(s: Seq<ResolvedField>, reg: Registry, m: Seq<Val>)
    requires
        schema_wf(s),
        producers_precede_targets(s),
        m.len() == s.len(),
        vals_wf(m),
        encode_conforms(s, m),
        encode_ok(s, reg, m),
        framed(s, m),
    ensures
        decode_model(s, reg, m, encoding(s, m), 0) == Ok::<(Seq<Val>, int), DecodeError>(
            (m, encoding(s, m).len() as int),
        ),
{
    lemma_round_trip_from(s, reg, m, 0);
    assert(enc_cat(s, m, 0, 0).len() == 0);
    assert(expect_pl(s, m, 0) =~= Seq::new(s.len(), |t: int| None::<u64>));
    assert(expect_pd(s, m, 0) =~= Seq::new(s.len(), |t: int| None::<u64>));
    assert(m.subrange(0, s.len() as int) =~= m);
}

/// Length-prefix exactness: a length producer writes exactly the integer
/// `c + offset` for its target's content byte count `c`, and reading that
/// integer back and subtracting the offset reproduces `c`.
pub proof fn lemma_length_prefix_exact(
    s: Seq<ResolvedField>,
    m: Seq<Val>,
    i: int,
    target: usize,
    offset: u8,
    kind: IntKind,
)
    requires
        0 <= i < s.len(),
        s[i].role == (ResolvedRole::LengthFor { target, offset, kind }),
        content_bytes(m[target as int]).len() + offset <= kind.max_value(),
    ensures
        producer_bytes(s, m, i) == be_bytes(
            (content_bytes(m[target as int]).len() + offset) as nat,
            kind.width(),
        ),
        be_value(producer_bytes(s, m, i)) - offset == content_bytes(m[target as int]).len(),
{
    let c = content_bytes(m[target as int]).len();
    lemma_pow256_pos(kind.width());
    lemma_be_value_of_bytes((c + offset) as nat, kind.width());
}

/// A bounded content read consumes its bound exactly: whatever the field's
/// shape, a successful read under a pending length `b` advances the cursor
/// by exactly `b` bytes.
pub proof fn lemma_bounded_read_exact(
    shape: Val,
    b: u64,
    ptag: Option<u64>,
    reg: Registry,
    bytes: Seq<u8>,
    pos: int,
)
    requires
        0 <= pos,
    ensures
        match dec_content(shape, Some(b), ptag, reg, bytes, pos) {
            Ok(vp) => vp.1 == pos + b && content_bytes(vp.0).len() == b,
            Err(e) => true,
        },
{
    match dec_content(shape, Some(b), ptag, reg, bytes, pos) {
        Ok(vp) => {
            match ptag {
                Some(tag) => {},
                None => {
                    match shape {
                        Val::Uint { kind, value } => {
                            let w = kind.width();
                            let sub = bytes.subrange(pos, pos + w);
                            lemma_be_value_bound(sub);
                            lemma_pow256_increases(w, 8);
                            lemma_pow256_values();
                            lemma_be_bytes_len(be_value(sub), w);
                        },
                        _ => {},
                    }
                },
            }
        },
        Err(e) => {},
    }
}

/// Truncation detection: a pending length `b` with fewer than `b` bytes
/// left in the source fails with `TruncatedField` whenever a variant
/// field has its discriminant, and never yields a short value.
pub proof fn lemma_truncation_detected(
    shape: Val,
    b: u64,
    ptag: Option<u64>,
    reg: Registry,
    bytes: Seq<u8>,
    pos: int,
)
    requires
        pos + b > bytes.len(),
        match ptag {
            Some(tag) => reg.registered(tag),
            None => !(shape is Tagged),
        },
    ensures
        dec_content(shape, Some(b), ptag, reg, bytes, pos) == Err::<(Val, int), DecodeError>(
            DecodeError::TruncatedField,
        ),
{
}

/// Discriminant fidelity: re-decoding a registered variant's own content
/// under its own tag reproduces the variant and consumes all of it.
pub proof fn lemma_discriminant_fidelity(reg: Registry, v: Val)
    requires
        v is Tagged,
        reg.registered(val_tag(v)),
    ensures
        dec_content(v, None, Some(val_tag(v)), reg, content_bytes(v), 0) == Ok::<
            (Val, int),
            DecodeError,
        >((v, content_bytes(v).len() as int)),
{
    assert(content_bytes(v).subrange(0, content_bytes(v).len() as int) =~= content_bytes(v));
}

/// The overflow boundary: a length producer fails encode with
/// `LengthOverflow` exactly when its target's content byte count plus the
/// offset exceeds what the declared kind can carry; the maximal in-range
/// count still encodes.
pub proof fn lemma_overflow_boundary(
    s: Seq<ResolvedField>,
    reg: Registry,
    m: Seq<Val>,
    i: int,
    target: usize,
    offset: u8,
    kind: IntKind,
)
    requires
        0 <= i < s.len(),
        s[i].role == (ResolvedRole::LengthFor { target, offset, kind }),
    ensures
        producer_error(s, reg, m, i) == (if content_bytes(m[target as int]).len() + offset
            > kind.max_value() {
            Some(EncodeError::LengthOverflow)
        } else {
            None::<EncodeError>
        }),
        !(encode_ok(s, reg, m) && content_bytes(m[target as int]).len() + offset
            > kind.max_value()),
{
    if encode_ok(s, reg, m) {
        assert(producer_error(s, reg, m, i) is None);
    }
}

} // verus!
