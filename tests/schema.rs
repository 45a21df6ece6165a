use parst::schema::{
    Check, ContextMode, Field, IntKind, IntRange, Record, Schema, Shape, Value, Variant,
};
use parst::Error;

fn field(shape: Shape) -> Field {
    Field { shape, context: ContextMode::Empty, check: Check::Unchecked }
}

fn checked(shape: Shape, check: Check) -> Field {
    Field { shape, context: ContextMode::Empty, check }
}

fn length_and_payload() -> Schema {
    Schema::Struct(vec![
        field(Shape::Int(IntKind::U8)),
        Field { shape: Shape::Counted, context: ContextMode::Field(0), check: Check::Unchecked },
    ])
}

fn encode(schema: &Schema, record: &Record) -> Result<Vec<u8>, Error> {
    let mut out = Vec::new();
    schema.encode(record, &mut out)?;
    Ok(out)
}

#[test]
fn length_then_payload_example() {
    let schema = length_and_payload();
    let src = [0x03, 0xAA, 0xBB, 0xCC, 0xFF];
    let (record, rest) = schema.decode(&src, 0).unwrap();
    assert_eq!(record.variant, 0);
    assert_eq!(record.values, vec![Value::Int(3), Value::Bytes(vec![0xAA, 0xBB, 0xCC])]);
    assert_eq!(rest, &[0xFF]);
    assert_eq!(encode(&schema, &record).unwrap(), vec![0x03, 0xAA, 0xBB, 0xCC]);
}

#[test]
fn length_then_payload_truncated() {
    let schema = length_and_payload();
    let (e, rest) = schema.decode(&[0x03, 0xAA], 0).unwrap_err();
    assert_eq!(e, Error::NotEnoughBytes);
    assert_eq!(rest, &[0xAA]);
    let (e, rest) = schema.decode(&[], 0).unwrap_err();
    assert_eq!(e, Error::NotEnoughBytes);
    assert!(rest.is_empty());
}

#[test]
fn union_picks_first_matching_variant() {
    let schema = Schema::Union {
        discriminant: None,
        variants: vec![
            Variant { fields: vec![field(Shape::Int(IntKind::U8))], discriminant: None },
            Variant { fields: vec![field(Shape::Int(IntKind::U8))], discriminant: None },
        ],
    };
    let (record, rest) = schema.decode(&[0x01], 0).unwrap();
    assert_eq!(record, Record { variant: 0, values: vec![Value::Int(1)] });
    assert!(rest.is_empty());
}

#[test]
fn union_backtracks_to_later_variant() {
    let schema = Schema::Union {
        discriminant: None,
        variants: vec![
            Variant { fields: vec![field(Shape::Int(IntKind::U32Le))], discriminant: None },
            Variant {
                fields: vec![field(Shape::Int(IntKind::U8)), field(Shape::Int(IntKind::U8))],
                discriminant: None,
            },
        ],
    };
    let (record, rest) = schema.decode(&[1, 2, 3], 0).unwrap();
    assert_eq!(record, Record { variant: 1, values: vec![Value::Int(1), Value::Int(2)] });
    assert_eq!(rest, &[3]);
    let src = [1];
    let (e, rest) = schema.decode(&src, 0).unwrap_err();
    assert_eq!(e, Error::InvalidInput);
    assert_eq!(rest, &src);
}

fn tagged() -> Schema {
    Schema::Union {
        discriminant: Some(IntKind::U16Be),
        variants: vec![
            Variant { fields: vec![field(Shape::Int(IntKind::U8))], discriminant: Some(1) },
            Variant { fields: vec![field(Shape::Bytes(2))], discriminant: Some(2) },
            Variant { fields: vec![field(Shape::Never)], discriminant: Some(3) },
            Variant { fields: vec![field(Shape::Rest)], discriminant: Some(3) },
        ],
    }
}

#[test]
fn discriminant_selects_variant() {
    let schema = tagged();
    let (record, rest) = schema.decode(&[0, 2, 7, 8, 9], 0).unwrap();
    assert_eq!(record, Record { variant: 1, values: vec![Value::Bytes(vec![7, 8])] });
    assert_eq!(rest, &[9]);
    let (record, rest) = schema.decode(&[0, 1, 7, 8], 0).unwrap();
    assert_eq!(record, Record { variant: 0, values: vec![Value::Int(7)] });
    assert_eq!(rest, &[8]);
    let (record, rest) = schema.decode(&[0, 3, 7, 8], 0).unwrap();
    assert_eq!(record, Record { variant: 3, values: vec![Value::Bytes(vec![7, 8])] });
    assert!(rest.is_empty());
    let (e, rest) = schema.decode(&[0, 9, 7], 0).unwrap_err();
    assert_eq!(e, Error::InvalidInput);
    assert_eq!(rest, &[7]);
    let (e, rest) = schema.decode(&[0], 0).unwrap_err();
    assert_eq!(e, Error::NotEnoughBytes);
    assert_eq!(rest, &[0]);
}

#[test]
fn discriminant_written_before_fields() {
    let schema = tagged();
    let record = Record { variant: 1, values: vec![Value::Bytes(vec![7, 8])] };
    assert_eq!(encode(&schema, &record).unwrap(), vec![0, 2, 7, 8]);
    let bad = Record { variant: 1, values: vec![Value::Bytes(vec![7])] };
    assert_eq!(encode(&schema, &bad), Err(Error::InvalidInput));
    let never = Record { variant: 2, values: vec![Value::Bytes(vec![])] };
    assert_eq!(encode(&schema, &never), Err(Error::InvalidInput));
    let missing = Record { variant: 4, values: vec![] };
    assert_eq!(encode(&schema, &missing), Err(Error::InvalidInput));
}

#[test]
fn field_checks() {
    let schema = Schema::Struct(vec![
        checked(Shape::Int(IntKind::U8), Check::Equals(Value::Int(0x7f))),
        checked(Shape::Int(IntKind::U8), Check::NotEquals(Value::Int(0))),
        Field {
            shape: Shape::Int(IntKind::U8),
            context: ContextMode::Empty,
            check: Check::Matches(vec![IntRange { lo: 1, hi: 3 }, IntRange { lo: 10, hi: 10 }]),
        },
    ]);
    let (record, rest) = schema.decode(&[0x7f, 5, 10, 1], 0).unwrap();
    assert_eq!(record.values, vec![Value::Int(0x7f), Value::Int(5), Value::Int(10)]);
    assert_eq!(rest, &[1]);
    let (e, rest) = schema.decode(&[0x7e, 5, 10], 0).unwrap_err();
    assert_eq!(e, Error::AssertionFailed);
    assert_eq!(rest, &[5, 10]);
    let (e, rest) = schema.decode(&[0x7f, 0, 10], 0).unwrap_err();
    assert_eq!(e, Error::AssertionFailed);
    assert_eq!(rest, &[10]);
    let (e, rest) = schema.decode(&[0x7f, 1, 4], 0).unwrap_err();
    assert_eq!(e, Error::AssertionFailed);
    assert!(rest.is_empty());
}

#[test]
fn byte_checks() {
    let schema = Schema::Struct(vec![Field {
        shape: Shape::Bytes(2),
        context: ContextMode::Empty,
        check: Check::Equals(Value::Bytes(vec![b'O', b'K'])),
    }]);
    assert!(schema.decode(b"OK!", 0).is_ok());
    let (e, _) = schema.decode(b"NO!", 0).unwrap_err();
    assert_eq!(e, Error::AssertionFailed);
}

#[test]
fn context_modes() {
    let schema = Schema::Struct(vec![
        Field { shape: Shape::Counted, context: ContextMode::Inherit, check: Check::Unchecked },
        Field { shape: Shape::Counted, context: ContextMode::Literal(1), check: Check::Unchecked },
        Field { shape: Shape::Counted, context: ContextMode::Empty, check: Check::Unchecked },
    ]);
    let (record, rest) = schema.decode(&[1, 2, 3, 4], 2).unwrap();
    assert_eq!(
        record.values,
        vec![Value::Bytes(vec![1, 2]), Value::Bytes(vec![3]), Value::Bytes(vec![])]
    );
    assert_eq!(rest, &[4]);
    let bad = Schema::Struct(vec![
        field(Shape::Bytes(1)),
        Field { shape: Shape::Counted, context: ContextMode::Field(0), check: Check::Unchecked },
    ]);
    let (e, rest) = bad.decode(&[1, 2], 0).unwrap_err();
    assert_eq!(e, Error::InvalidInput);
    assert_eq!(rest, &[2]);
    let later = Schema::Struct(vec![Field {
        shape: Shape::Counted,
        context: ContextMode::Field(1),
        check: Check::Unchecked,
    }]);
    let (e, _) = later.decode(&[1, 2], 0).unwrap_err();
    assert_eq!(e, Error::InvalidInput);
}

#[test]
fn length_prefixed_field() {
    let schema = Schema::Struct(vec![field(Shape::VarBytes(IntKind::U16Le)), field(Shape::Rest)]);
    let (record, rest) = schema.decode(&[2, 0, 5, 6, 7, 8], 0).unwrap();
    assert_eq!(record.values, vec![Value::Bytes(vec![5, 6]), Value::Bytes(vec![7, 8])]);
    assert!(rest.is_empty());
    let (e, rest) = schema.decode(&[3, 0, 5], 0).unwrap_err();
    assert_eq!(e, Error::NotEnoughBytes);
    assert_eq!(rest, &[5]);
    assert_eq!(encode(&schema, &record).unwrap(), vec![2, 0, 5, 6, 7, 8]);
}

#[test]
fn schema_round_trip() {
    let schema = Schema::Struct(vec![
        field(Shape::Int(IntKind::U32Be)),
        field(Shape::Int(IntKind::U64Le)),
        field(Shape::Int(IntKind::U16Le)),
        Field { shape: Shape::Counted, context: ContextMode::Field(2), check: Check::Unchecked },
        field(Shape::VarBytes(IntKind::U8)),
    ]);
    let record = Record {
        variant: 0,
        values: vec![
            Value::Int(0xdead_beef),
            Value::Int(u64::MAX),
            Value::Int(3),
            Value::Bytes(vec![1, 2, 3]),
            Value::Bytes(vec![4]),
        ],
    };
    let bytes = encode(&schema, &record).unwrap();
    assert_eq!(bytes[..4], [0xde, 0xad, 0xbe, 0xef]);
    let (back, rest) = schema.decode(&bytes, 0).unwrap();
    assert_eq!(back, record);
    assert!(rest.is_empty());
}

#[test]
fn encode_rejects_values_of_wrong_shape() {
    let schema = Schema::Struct(vec![field(Shape::Int(IntKind::U8))]);
    let too_big = Record { variant: 0, values: vec![Value::Int(256)] };
    assert_eq!(encode(&schema, &too_big), Err(Error::InvalidInput));
    let wrong = Record { variant: 0, values: vec![Value::Bytes(vec![1])] };
    assert_eq!(encode(&schema, &wrong), Err(Error::InvalidInput));
    let short = Record { variant: 0, values: vec![] };
    assert_eq!(encode(&schema, &short), Err(Error::InvalidInput));
    let variant = Record { variant: 1, values: vec![Value::Int(1)] };
    assert_eq!(encode(&schema, &variant), Err(Error::InvalidInput));
}

#[test]
fn never_field_fails() {
    let schema = Schema::Struct(vec![field(Shape::Int(IntKind::U8)), field(Shape::Never)]);
    let (e, rest) = schema.decode(&[1, 2], 0).unwrap_err();
    assert_eq!(e, Error::InvalidInput);
    assert_eq!(rest, &[2]);
}

#[test]
fn records_nest_in_combinators() {
    let schema = length_and_payload();
    let src = [2, 1, 7, 2, 8, 9, 5];
    let (v, rest) =
        <parst::VarStructs<u8, Record> as parst::Parsable<(&Schema, u64)>>::read(&src, (&schema, 0))
            .unwrap();
    let records = v.as_ref();
    assert_eq!(records.len(), 2);
    assert_eq!(records[0].values, vec![Value::Int(1), Value::Bytes(vec![7])]);
    assert_eq!(records[1].values, vec![Value::Int(2), Value::Bytes(vec![8, 9])]);
    assert_eq!(rest, &[5]);
    let src = [1, 7, 2, 8, 9, 5];
    let (all, rest) =
        <Vec<Record> as parst::Parsable<(&Schema, u64)>>::read(&src, (&schema, 0)).unwrap();
    assert_eq!(all.len(), 2);
    assert_eq!(rest, &[5]);
}
