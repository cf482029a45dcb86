use wirecodec::decoder::ByteSource;
use wirecodec::decoder::DecodeError;
use wirecodec::decoder::decode;
use wirecodec::encoder::EncodeError;
use wirecodec::encoder::encode;
use wirecodec::schema::FieldDescriptor;
use wirecodec::schema::FieldRole;
use wirecodec::schema::MessageType;
use wirecodec::schema::ResolvedSchema;
use wirecodec::schema::resolve;
use wirecodec::value::FieldValue;
use wirecodec::value::Message;
use wirecodec::value::Registry;
use wirecodec::wire::IntKind;

fn field(name: &str, role: FieldRole) -> FieldDescriptor {
    FieldDescriptor { name: String::from(name), role }
}

fn resolved(fields: Vec<FieldDescriptor>) -> ResolvedSchema {
    resolve(&MessageType { fields }).expect("schema should resolve")
}

fn marker() -> FieldValue {
    FieldValue::Marker
}

/// The length-prefixed schema: `{len: LengthProducerFor("payload",
/// offset 0, u16), payload: Plain(bytes)}`.
fn length_prefixed_schema(offset: u8, kind: IntKind) -> ResolvedSchema {
    resolved(vec![
        field(
            "len",
            FieldRole::LengthProducerFor { target: String::from("payload"), offset, kind },
        ),
        field("payload", FieldRole::Plain),
    ])
}

/// The tag-prefixed schema: `{tag: DiscriminantProducerFor("body", u8),
/// body: Plain(variant)}`.
fn tagged_schema() -> ResolvedSchema {
    resolved(vec![
        field(
            "tag",
            FieldRole::DiscriminantProducerFor { target: String::from("body"), kind: IntKind::U8 },
        ),
        field("body", FieldRole::Plain),
    ])
}

fn no_tags() -> Registry {
    Registry { tags: Vec::new() }
}

#[test]
fn length_prefix_encodes_count_plus_offset() {
    let schema = length_prefixed_schema(0, IntKind::U16);
    let msg = Message {
        fields: vec![marker(), FieldValue::Bytes { data: vec![0x01, 0x02, 0x03] }],
    };
    let mut sink: Vec<u8> = Vec::new();
    encode(&schema, &no_tags(), &msg, &mut sink).expect("encode should succeed");
    assert_eq!(sink, vec![0x00, 0x03, 0x01, 0x02, 0x03]);
}

#[test]
fn length_prefix_decodes_back() {
    let schema = length_prefixed_schema(0, IntKind::U16);
    let mut msg = Message {
        fields: vec![marker(), FieldValue::Bytes { data: Vec::new() }],
    };
    let mut src = ByteSource::new(vec![0x00, 0x03, 0x01, 0x02, 0x03]);
    decode(&schema, &no_tags(), &mut msg, &mut src).expect("decode should succeed");
    assert_eq!(msg.fields[1], FieldValue::Bytes { data: vec![0x01, 0x02, 0x03] });
    assert_eq!(src.pos, 5);
}

#[test]
fn length_offset_is_added_and_removed() {
    let schema = length_prefixed_schema(2, IntKind::U8);
    let msg = Message {
        fields: vec![marker(), FieldValue::Bytes { data: vec![0xaa, 0xbb] }],
    };
    let mut sink: Vec<u8> = Vec::new();
    encode(&schema, &no_tags(), &msg, &mut sink).expect("encode should succeed");
    assert_eq!(sink, vec![0x04, 0xaa, 0xbb]);

    let mut out = Message {
        fields: vec![marker(), FieldValue::Bytes { data: Vec::new() }],
    };
    let mut src = ByteSource::new(sink);
    decode(&schema, &no_tags(), &mut out, &mut src).expect("decode should succeed");
    assert_eq!(out.fields[1], FieldValue::Bytes { data: vec![0xaa, 0xbb] });
}

#[test]
fn round_trip_mixed_schema() {
    // A discriminant and a length both governing the last field, with a
    // plain fixed-width field in between.
    let schema = resolved(vec![
        field(
            "tag",
            FieldRole::DiscriminantProducerFor { target: String::from("body"), kind: IntKind::U8 },
        ),
        field("seq_no", FieldRole::Plain),
        field(
            "len",
            FieldRole::LengthProducerFor {
                target: String::from("body"),
                offset: 0,
                kind: IntKind::U16,
            },
        ),
        field("body", FieldRole::Plain),
    ]);
    let reg = Registry { tags: vec![7, 9] };
    let msg = Message {
        fields: vec![
            marker(),
            FieldValue::Uint { kind: IntKind::U32, value: 0x01020304 },
            marker(),
            FieldValue::Tagged { tag: 9, payload: vec![0xde, 0xad] },
        ],
    };
    let mut sink: Vec<u8> = Vec::new();
    encode(&schema, &reg, &msg, &mut sink).expect("encode should succeed");
    assert_eq!(sink, vec![0x09, 0x01, 0x02, 0x03, 0x04, 0x00, 0x02, 0xde, 0xad]);

    let mut out = Message {
        fields: vec![
            marker(),
            FieldValue::Uint { kind: IntKind::U32, value: 0 },
            marker(),
            FieldValue::Tagged { tag: 0, payload: Vec::new() },
        ],
    };
    let mut src = ByteSource::new(sink);
    decode(&schema, &reg, &mut out, &mut src).expect("decode should succeed");
    assert_eq!(out, msg);
}

#[test]
fn discriminant_selects_variant() {
    let schema = tagged_schema();
    let reg = Registry { tags: vec![0, 1] };
    let msg = Message {
        fields: vec![marker(), FieldValue::Tagged { tag: 1, payload: vec![0x5a] }],
    };
    let mut sink: Vec<u8> = Vec::new();
    encode(&schema, &reg, &msg, &mut sink).expect("encode should succeed");
    assert_eq!(sink, vec![0x01, 0x5a]);

    let mut out = Message {
        fields: vec![marker(), FieldValue::Tagged { tag: 0, payload: Vec::new() }],
    };
    let mut src = ByteSource::new(sink);
    decode(&schema, &reg, &mut out, &mut src).expect("decode should succeed");
    assert_eq!(out.fields[1], FieldValue::Tagged { tag: 1, payload: vec![0x5a] });
}

#[test]
fn unregistered_discriminant_fails_decode() {
    let schema = tagged_schema();
    let reg = Registry { tags: vec![0, 1] };
    let mut out = Message {
        fields: vec![marker(), FieldValue::Tagged { tag: 0, payload: Vec::new() }],
    };
    let mut src = ByteSource::new(vec![0x02, 0x5a]);
    let r = decode(&schema, &reg, &mut out, &mut src);
    assert_eq!(r, Err(DecodeError::UnknownDiscriminant));
}

#[test]
fn unregistered_variant_fails_encode() {
    let schema = tagged_schema();
    let reg = Registry { tags: vec![0, 1] };
    let msg = Message {
        fields: vec![marker(), FieldValue::Tagged { tag: 3, payload: vec![0x5a] }],
    };
    let mut sink: Vec<u8> = Vec::new();
    let r = encode(&schema, &reg, &msg, &mut sink);
    assert_eq!(r, Err(EncodeError::UnknownVariant));
    assert!(sink.is_empty());
}

#[test]
fn length_overflow_at_boundary() {
    let schema = length_prefixed_schema(0, IntKind::U8);
    // 255 bytes is the maximal in-range count for u8: it encodes.
    let msg = Message {
        fields: vec![marker(), FieldValue::Bytes { data: vec![0x11; 255] }],
    };
    let mut sink: Vec<u8> = Vec::new();
    encode(&schema, &no_tags(), &msg, &mut sink).expect("maximal in-range count should encode");
    assert_eq!(sink.len(), 256);
    assert_eq!(sink[0], 0xff);

    // One more byte overflows the declared kind.
    let msg = Message {
        fields: vec![marker(), FieldValue::Bytes { data: vec![0x11; 256] }],
    };
    let mut sink: Vec<u8> = Vec::new();
    let r = encode(&schema, &no_tags(), &msg, &mut sink);
    assert_eq!(r, Err(EncodeError::LengthOverflow));
}

#[test]
fn offset_counts_against_the_boundary() {
    let schema = length_prefixed_schema(1, IntKind::U8);
    let msg = Message {
        fields: vec![marker(), FieldValue::Bytes { data: vec![0x11; 255] }],
    };
    let mut sink: Vec<u8> = Vec::new();
    let r = encode(&schema, &no_tags(), &msg, &mut sink);
    assert_eq!(r, Err(EncodeError::LengthOverflow));
}

#[test]
fn truncated_source_fails_bounded_read() {
    let schema = length_prefixed_schema(0, IntKind::U16);
    let mut out = Message {
        fields: vec![marker(), FieldValue::Bytes { data: Vec::new() }],
    };
    // The prefix promises 5 bytes; only 3 remain.
    let mut src = ByteSource::new(vec![0x00, 0x05, 0x01, 0x02, 0x03]);
    let r = decode(&schema, &no_tags(), &mut out, &mut src);
    assert_eq!(r, Err(DecodeError::TruncatedField));
}

#[test]
fn malformed_length_below_offset() {
    let schema = length_prefixed_schema(2, IntKind::U8);
    let mut out = Message {
        fields: vec![marker(), FieldValue::Bytes { data: Vec::new() }],
    };
    let mut src = ByteSource::new(vec![0x01, 0xaa]);
    let r = decode(&schema, &no_tags(), &mut out, &mut src);
    assert_eq!(r, Err(DecodeError::MalformedLength));
}

#[test]
fn short_source_fails_fixed_width_read() {
    let schema = length_prefixed_schema(0, IntKind::U16);
    let mut out = Message {
        fields: vec![marker(), FieldValue::Bytes { data: Vec::new() }],
    };
    let mut src = ByteSource::new(vec![0x00]);
    let r = decode(&schema, &no_tags(), &mut out, &mut src);
    assert_eq!(r, Err(DecodeError::UnexpectedEof));
}

#[test]
fn bounded_read_must_fill_the_bound() {
    // A length prefix of 3 over a u16 field: the field's own width is 2,
    // so the bound is not consumed exactly.
    let schema = resolved(vec![
        field(
            "len",
            FieldRole::LengthProducerFor {
                target: String::from("word"),
                offset: 0,
                kind: IntKind::U8,
            },
        ),
        field("word", FieldRole::Plain),
    ]);
    let mut out = Message {
        fields: vec![marker(), FieldValue::Uint { kind: IntKind::U16, value: 0 }],
    };
    let mut src = ByteSource::new(vec![0x03, 0x01, 0x02, 0x03]);
    let r = decode(&schema, &no_tags(), &mut out, &mut src);
    assert_eq!(r, Err(DecodeError::TruncatedField));
}

#[test]
fn producer_bytes_precede_target_bytes() {
    // A plain field standing between the producer and its target: the
    // derived value appears at the producer's own position.
    let schema = resolved(vec![
        field(
            "len",
            FieldRole::LengthProducerFor {
                target: String::from("payload"),
                offset: 0,
                kind: IntKind::U8,
            },
        ),
        field("kindtag", FieldRole::Plain),
        field("payload", FieldRole::Plain),
    ]);
    let msg = Message {
        fields: vec![
            marker(),
            FieldValue::Uint { kind: IntKind::U8, value: 0x42 },
            FieldValue::Bytes { data: vec![0x07, 0x08] },
        ],
    };
    let mut sink: Vec<u8> = Vec::new();
    encode(&schema, &no_tags(), &msg, &mut sink).expect("encode should succeed");
    assert_eq!(sink, vec![0x02, 0x42, 0x07, 0x08]);
}

#[test]
fn failed_encode_keeps_earlier_fields_in_sink() {
    let schema = resolved(vec![
        field("head", FieldRole::Plain),
        field(
            "len",
            FieldRole::LengthProducerFor {
                target: String::from("payload"),
                offset: 0,
                kind: IntKind::U8,
            },
        ),
        field("payload", FieldRole::Plain),
    ]);
    let msg = Message {
        fields: vec![
            FieldValue::Uint { kind: IntKind::U8, value: 0x99 },
            marker(),
            FieldValue::Bytes { data: vec![0x11; 300] },
        ],
    };
    let mut sink: Vec<u8> = Vec::new();
    let r = encode(&schema, &no_tags(), &msg, &mut sink);
    assert_eq!(r, Err(EncodeError::LengthOverflow));
    assert_eq!(sink, vec![0x99]);
}

#[test]
fn decode_leaves_trailing_bytes_unread() {
    let schema = length_prefixed_schema(0, IntKind::U8);
    let mut out = Message {
        fields: vec![marker(), FieldValue::Bytes { data: Vec::new() }],
    };
    let mut src = ByteSource::new(vec![0x01, 0xaa, 0xbb, 0xcc]);
    decode(&schema, &no_tags(), &mut out, &mut src).expect("decode should succeed");
    assert_eq!(out.fields[1], FieldValue::Bytes { data: vec![0xaa] });
    assert_eq!(src.pos, 2);
}

#[test]
fn unbounded_last_field_reads_to_end() {
    let schema = resolved(vec![
        field("head", FieldRole::Plain),
        field("rest", FieldRole::Plain),
    ]);
    let mut out = Message {
        fields: vec![
            FieldValue::Uint { kind: IntKind::U8, value: 0 },
            FieldValue::Bytes { data: Vec::new() },
        ],
    };
    let mut src = ByteSource::new(vec![0x01, 0xaa, 0xbb]);
    decode(&schema, &no_tags(), &mut out, &mut src).expect("decode should succeed");
    assert_eq!(out.fields[0], FieldValue::Uint { kind: IntKind::U8, value: 1 });
    assert_eq!(out.fields[1], FieldValue::Bytes { data: vec![0xaa, 0xbb] });
}

#[test]
fn empty_schema_round_trips() {
    let schema = resolved(Vec::new());
    let msg = Message { fields: Vec::new() };
    let mut sink: Vec<u8> = Vec::new();
    encode(&schema, &no_tags(), &msg, &mut sink).expect("encode should succeed");
    assert!(sink.is_empty());

    let mut out = Message { fields: Vec::new() };
    let mut src = ByteSource::new(Vec::new());
    decode(&schema, &no_tags(), &mut out, &mut src).expect("decode should succeed");
    assert_eq!(src.pos, 0);
}

#[test]
fn zero_length_payload_round_trips() {
    let schema = length_prefixed_schema(0, IntKind::U16);
    let msg = Message {
        fields: vec![marker(), FieldValue::Bytes { data: Vec::new() }],
    };
    let mut sink: Vec<u8> = Vec::new();
    encode(&schema, &no_tags(), &msg, &mut sink).expect("encode should succeed");
    assert_eq!(sink, vec![0x00, 0x00]);

    let mut out = Message {
        fields: vec![marker(), FieldValue::Bytes { data: vec![0xff] }],
    };
    let mut src = ByteSource::new(sink);
    decode(&schema, &no_tags(), &mut out, &mut src).expect("decode should succeed");
    assert_eq!(out.fields[1], FieldValue::Bytes { data: Vec::new() });
}

#[test]
fn producer_own_payload_is_independent() {
    // A producer field may carry content of its own; it follows the
    // derived value on the wire.
    let schema = length_prefixed_schema(0, IntKind::U8);
    let msg = Message {
        fields: vec![
            FieldValue::Uint { kind: IntKind::U8, value: 0x77 },
            FieldValue::Bytes { data: vec![0x01, 0x02] },
        ],
    };
    let mut sink: Vec<u8> = Vec::new();
    encode(&schema, &no_tags(), &msg, &mut sink).expect("encode should succeed");
    assert_eq!(sink, vec![0x02, 0x77, 0x01, 0x02]);

    let mut out = Message {
        fields: vec![
            FieldValue::Uint { kind: IntKind::U8, value: 0 },
            FieldValue::Bytes { data: Vec::new() },
        ],
    };
    let mut src = ByteSource::new(sink);
    decode(&schema, &no_tags(), &mut out, &mut src).expect("decode should succeed");
    assert_eq!(out, msg);
}

#[test]
fn encodability_check_matches_encode_assumptions() {
    let schema = tagged_schema();
    let good = Message {
        fields: vec![marker(), FieldValue::Tagged { tag: 1, payload: vec![0x5a] }],
    };
    assert!(wirecodec::encoder::check_encodable(&schema, &good));

    // The discriminant target does not hold a variant.
    let bad_shape = Message {
        fields: vec![marker(), FieldValue::Bytes { data: vec![0x5a] }],
    };
    assert!(!wirecodec::encoder::check_encodable(&schema, &bad_shape));

    // A u8 discriminant cannot carry this tag.
    let bad_tag = Message {
        fields: vec![marker(), FieldValue::Tagged { tag: 300, payload: Vec::new() }],
    };
    assert!(!wirecodec::encoder::check_encodable(&schema, &bad_tag));

    // An integer value too wide for its declared kind.
    let schema2 = resolved(vec![field("n", FieldRole::Plain)]);
    let bad_value = Message {
        fields: vec![FieldValue::Uint { kind: IntKind::U8, value: 300 }],
    };
    assert!(!wirecodec::encoder::check_encodable(&schema2, &bad_value));
}
