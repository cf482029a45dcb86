use wirecodec::decoder::decode_with_tag;
use wirecodec::encoder::tag_of;
use wirecodec::schema::FieldDescriptor;
use wirecodec::schema::FieldRole;
use wirecodec::schema::MessageType;
use wirecodec::schema::ResolvedRole;
use wirecodec::schema::SchemaError;
use wirecodec::schema::resolve;
use wirecodec::value::FieldValue;
use wirecodec::value::Registry;
use wirecodec::value::encode_leaf;
use wirecodec::wire::IntKind;

fn named(name: &str, role: FieldRole) -> FieldDescriptor {
    FieldDescriptor { name: String::from(name), role }
}

fn len_for(target: &str, offset: u8, kind: IntKind) -> FieldRole {
    FieldRole::LengthProducerFor { target: String::from(target), offset, kind }
}

fn disc_for(target: &str, kind: IntKind) -> FieldRole {
    FieldRole::DiscriminantProducerFor { target: String::from(target), kind }
}

#[test]
fn resolver_binds_targets_and_flags() {
    let schema = MessageType {
        fields: vec![
            named("tag", disc_for("body", IntKind::U8)),
            named("len", len_for("body", 0, IntKind::U16)),
            named("body", FieldRole::Plain),
        ],
    };
    let res = resolve(&schema).expect("schema should resolve");
    assert_eq!(res.fields.len(), 3);
    assert!(matches!(
        res.fields[0].role,
        ResolvedRole::DiscriminantFor { target: 2, kind: IntKind::U8 }
    ));
    assert!(matches!(
        res.fields[1].role,
        ResolvedRole::LengthFor { target: 2, offset: 0, kind: IntKind::U16 }
    ));
    assert!(matches!(res.fields[2].role, ResolvedRole::Plain));
    assert!(!res.fields[0].is_length_governed);
    assert!(!res.fields[0].is_discriminant_governed);
    assert!(res.fields[2].is_length_governed);
    assert!(res.fields[2].is_discriminant_governed);
}

#[test]
fn resolver_rejects_unknown_target() {
    let schema = MessageType {
        fields: vec![
            named("len", len_for("missing", 0, IntKind::U8)),
            named("payload", FieldRole::Plain),
        ],
    };
    assert_eq!(resolve(&schema).unwrap_err(), SchemaError::UnknownTargetField);
}

#[test]
fn resolver_rejects_self_target() {
    let schema = MessageType {
        fields: vec![named("len", len_for("len", 0, IntKind::U8))],
    };
    assert_eq!(resolve(&schema).unwrap_err(), SchemaError::UnknownTargetField);
}

#[test]
fn resolver_rejects_two_length_producers() {
    let schema = MessageType {
        fields: vec![
            named("a", len_for("payload", 0, IntKind::U8)),
            named("b", len_for("payload", 0, IntKind::U16)),
            named("payload", FieldRole::Plain),
        ],
    };
    assert_eq!(resolve(&schema).unwrap_err(), SchemaError::ConflictingProducers);
}

#[test]
fn resolver_allows_one_producer_of_each_kind() {
    let schema = MessageType {
        fields: vec![
            named("a", len_for("payload", 0, IntKind::U8)),
            named("b", disc_for("payload", IntKind::U8)),
            named("payload", FieldRole::Plain),
        ],
    };
    assert!(resolve(&schema).is_ok());
}

#[test]
fn leaf_encodes_big_endian() {
    let v = FieldValue::Uint { kind: IntKind::U32, value: 0x01020304 };
    assert_eq!(encode_leaf(&v), vec![0x01, 0x02, 0x03, 0x04]);
    let w = FieldValue::Uint { kind: IntKind::U16, value: 3 };
    assert_eq!(encode_leaf(&w), vec![0x00, 0x03]);
}

#[test]
fn leaf_of_variant_is_its_payload() {
    let v = FieldValue::Tagged { tag: 5, payload: vec![0x0a, 0x0b] };
    assert_eq!(encode_leaf(&v), vec![0x0a, 0x0b]);
}

#[test]
fn registry_round_trips_registered_variants() {
    let reg = Registry { tags: vec![0, 5] };
    let v = FieldValue::Tagged { tag: 5, payload: vec![0x0a, 0x0b] };
    let tag = tag_of(&reg, &v).expect("tag should be registered");
    assert_eq!(tag, 5);
    let back = decode_with_tag(&reg, tag, encode_leaf(&v)).expect("tag should be registered");
    assert_eq!(back, v);
}

#[test]
fn registry_rejects_unknown_tags() {
    let reg = Registry { tags: vec![0, 1] };
    let v = FieldValue::Tagged { tag: 9, payload: Vec::new() };
    assert!(tag_of(&reg, &v).is_err());
    assert!(decode_with_tag(&reg, 9, Vec::new()).is_err());
}
