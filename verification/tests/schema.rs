use cereal::schema::{
    has_shape, is_of_kind, read_body, read_primitive, write_body, write_fields, write_primitive,
    Kind, Primitive, Shape, Value,
};
use cereal::{CerealData, CerealError, IoFailure, Source};

fn prim(kind: Kind) -> Shape {
    Shape::Primitive(kind)
}

fn small_shape() -> Shape {
    Shape::Struct(vec![prim(Kind::U8), prim(Kind::I8), prim(Kind::U16)])
}

fn small_value() -> Value {
    Value::Struct(vec![
        Value::Primitive(Primitive::U8(1)),
        Value::Primitive(Primitive::I8(-2)),
        Value::Primitive(Primitive::U16(3)),
    ])
}

fn choice_shape() -> Shape {
    Shape::Enum(vec![vec![], vec![prim(Kind::U8)]])
}

fn record_shape() -> Shape {
    Shape::Struct(vec![
        Shape::Text,
        Shape::Optional(Box::new(prim(Kind::I32))),
        Shape::Sequence(Box::new(choice_shape())),
        Shape::Struct(vec![]),
        Shape::Enum(vec![vec![small_shape(), prim(Kind::Usize)], vec![]]),
    ])
}

fn record_value() -> Value {
    Value::Struct(vec![
        Value::Text("caf\u{e9}".to_string()),
        Value::Optional(Some(Box::new(Value::Primitive(Primitive::I32(-6))))),
        Value::Sequence(vec![
            Value::Enum(1, vec![Value::Primitive(Primitive::U8(9))]),
            Value::Enum(0, vec![]),
        ]),
        Value::Struct(vec![]),
        Value::Enum(0, vec![small_value(), Value::Primitive(Primitive::Usize(11))]),
    ])
}

fn encode(value: &Value) -> Vec<u8> {
    let mut sink: Vec<u8> = Vec::new();
    write_body(value, &mut sink).unwrap();
    sink
}

fn eof<T>() -> Result<T, CerealError> {
    Err(CerealError::Io(IoFailure::UnexpectedEof))
}

#[test]
fn struct_body_is_its_fields_in_order() {
    let bytes = encode(&small_value());
    assert_eq!(bytes, vec![0x01, 0xFE, 0x03, 0x00]);
    let mut source = Source::new(&bytes);
    assert_eq!(read_body(&small_shape(), &mut source), Ok(small_value()));
    assert_eq!(source.position(), 4);
}

#[test]
fn enum_body_is_index_then_fields() {
    let value = Value::Enum(1, vec![Value::Primitive(Primitive::U8(9))]);
    let bytes = encode(&value);
    assert_eq!(bytes, vec![0x01, 0x00, 0x00, 0x00, 0x00, 0x00, 0x00, 0x00, 0x09]);
    let mut source = Source::new(&bytes);
    assert_eq!(read_body(&choice_shape(), &mut source), Ok(value));
    assert_eq!(source.position(), 9);
    assert_eq!(encode(&Value::Enum(0, vec![])), vec![0u8; 8]);
}

#[test]
fn enum_body_with_unknown_index_is_rejected() {
    let bytes = [2u8, 0, 0, 0, 0, 0, 0, 0, 9];
    let mut source = Source::new(&bytes);
    assert_eq!(read_body(&choice_shape(), &mut source), Err(CerealError::UnknownVariant));
    let bytes = [0xFFu8; 16];
    let mut source = Source::new(&bytes);
    assert_eq!(read_body(&choice_shape(), &mut source), Err(CerealError::UnknownVariant));
    let mut source = Source::new(&bytes);
    assert_eq!(read_body(&Shape::Enum(vec![]), &mut source), Err(CerealError::UnknownVariant));
}

#[test]
fn nested_body_round_trips() {
    let value = record_value();
    assert!(has_shape(&value, &record_shape()));
    let bytes = encode(&value);
    assert_eq!(bytes.len(), (8 + 5) + (1 + 4) + (8 + (8 + 1) + 8) + 0 + (8 + 4 + 8));
    let mut source = Source::new(&bytes);
    assert_eq!(read_body(&record_shape(), &mut source), Ok(value));
    assert_eq!(source.remaining_len(), 0);
}

#[test]
fn short_body_is_a_short_read() {
    let bytes = encode(&record_value());
    for cut in 0..bytes.len() {
        let mut source = Source::new(&bytes[..cut]);
        assert_eq!(read_body(&record_shape(), &mut source), eof());
    }
}

#[test]
fn malformed_text_in_a_body_is_an_invalid_encoding() {
    let bytes = [1u8, 0, 0, 0, 0, 0, 0, 0, 0x80];
    let mut source = Source::new(&bytes);
    assert_eq!(read_body(&Shape::Text, &mut source), Err(CerealError::InvalidEncoding));
}

#[test]
fn body_agrees_with_the_typed_codecs() {
    let mut typed: Vec<u8> = Vec::new();
    "caf\u{e9}".to_string().write(&mut typed).unwrap();
    Some(-6i32).write(&mut typed).unwrap();
    vec![(1usize, 9u8)].write(&mut typed).unwrap();
    let value = Value::Struct(vec![
        Value::Text("caf\u{e9}".to_string()),
        Value::Optional(Some(Box::new(Value::Primitive(Primitive::I32(-6))))),
        Value::Sequence(vec![Value::Enum(1, vec![Value::Primitive(Primitive::U8(9))])]),
    ]);
    assert_eq!(encode(&value), typed);
}

#[test]
fn primitives_of_each_kind() {
    let all = [
        (Kind::U8, Primitive::U8(0xAB), 1),
        (Kind::I8, Primitive::I8(-128), 1),
        (Kind::U16, Primitive::U16(0xABCD), 2),
        (Kind::I16, Primitive::I16(-2), 2),
        (Kind::U32, Primitive::U32(0xDEAD_BEEF), 4),
        (Kind::I32, Primitive::I32(i32::MIN), 4),
        (Kind::U64, Primitive::U64(u64::MAX), 8),
        (Kind::I64, Primitive::I64(-8), 8),
        (Kind::Usize, Primitive::Usize(9), 8),
        (Kind::Isize, Primitive::Isize(-10), 8),
        (Kind::Bool, Primitive::Bool(true), 1),
    ];
    for (kind, value, width) in all {
        let mut sink: Vec<u8> = Vec::new();
        assert_eq!(write_primitive(&value, &mut sink), Ok(()));
        assert_eq!(sink.len(), width);
        let mut source = Source::new(&sink);
        assert_eq!(read_primitive(kind, &mut source), Ok(value));
        assert_eq!(source.position(), width);
        let mut source = Source::new(&sink[..width - 1]);
        assert_eq!(read_primitive(kind, &mut source), eof());
        assert!(is_of_kind(&value, kind));
    }
    assert!(!is_of_kind(&Primitive::U8(1), Kind::I8));
    assert!(!is_of_kind(&Primitive::Usize(1), Kind::U64));
}

#[test]
fn fields_and_repeats() {
    let values = vec![Value::Primitive(Primitive::U8(1)), Value::Primitive(Primitive::U8(2))];
    let mut sink: Vec<u8> = Vec::new();
    assert_eq!(write_fields(&values, &mut sink), Ok(()));
    assert_eq!(sink, vec![1, 2]);
    let pair = Shape::Struct(vec![prim(Kind::U8), prim(Kind::U8)]);
    let mut source = Source::new(&sink);
    assert_eq!(read_body(&pair, &mut source), Ok(Value::Struct(values)));
    let mut source = Source::new(&sink);
    assert_eq!(
        read_body(&Shape::Struct(vec![prim(Kind::U16)]), &mut source),
        Ok(Value::Struct(vec![Value::Primitive(Primitive::U16(0x0201))]))
    );
    let mut source = Source::new(&sink);
    assert_eq!(read_body(&Shape::Struct(vec![]), &mut source), Ok(Value::Struct(vec![])));
    assert_eq!(source.position(), 0);
    let units = [4u8, 0, 0, 0, 0, 0, 0, 0];
    let mut source = Source::new(&units);
    assert_eq!(
        read_body(&Shape::Sequence(Box::new(Shape::Struct(vec![]))), &mut source),
        Ok(Value::Sequence(vec![
            Value::Struct(vec![]),
            Value::Struct(vec![]),
            Value::Struct(vec![]),
            Value::Struct(vec![]),
        ]))
    );
    let three = [3u8, 0, 0, 0, 0, 0, 0, 0, 1, 2];
    let mut source = Source::new(&three);
    assert_eq!(read_body(&Shape::Sequence(Box::new(prim(Kind::U8))), &mut source), eof());
}

#[test]
fn values_that_do_not_conform() {
    assert!(has_shape(&small_value(), &small_shape()));
    assert!(!has_shape(&small_value(), &choice_shape()));
    assert!(!has_shape(&Value::Struct(vec![]), &small_shape()));
    assert!(!has_shape(
        &Value::Struct(vec![
            Value::Primitive(Primitive::U8(1)),
            Value::Primitive(Primitive::U8(2)),
            Value::Primitive(Primitive::U16(3)),
        ]),
        &small_shape()
    ));
    assert!(has_shape(&Value::Enum(0, vec![]), &choice_shape()));
    assert!(!has_shape(&Value::Enum(2, vec![]), &choice_shape()));
    assert!(!has_shape(&Value::Enum(1, vec![]), &choice_shape()));
    assert!(has_shape(&Value::Optional(None), &Shape::Optional(Box::new(Shape::Text))));
    assert!(!has_shape(
        &Value::Optional(Some(Box::new(Value::Primitive(Primitive::Bool(true))))),
        &Shape::Optional(Box::new(Shape::Text))
    ));
    assert!(has_shape(&Value::Sequence(vec![]), &Shape::Sequence(Box::new(Shape::Text))));
    assert!(!has_shape(
        &Value::Sequence(vec![Value::Text(String::new()), Value::Optional(None)]),
        &Shape::Sequence(Box::new(Shape::Text))
    ));
    assert!(!has_shape(&Value::Struct(vec![Value::Text(String::new())]), &Shape::Struct(vec![])));
    assert!(has_shape(&Value::Struct(vec![]), &Shape::Struct(vec![])));
}

#[test]
fn enum_index_is_compared_as_the_eight_byte_number_it_is() {
    let wide = [0u8, 0, 0, 0, 1, 0, 0, 0];
    let mut source = Source::new(&wide);
    assert_eq!(read_body(&choice_shape(), &mut source), Err(CerealError::UnknownVariant));
    let mut source = Source::new(&wide);
    assert_eq!(read_body(&Shape::Sequence(Box::new(prim(Kind::U8))), &mut source), eof());
}

fn list_shape() -> Shape {
    Shape::Enum(vec![vec![], vec![prim(Kind::U8), Shape::Enclosing(0)]])
}

fn list_of(items: &[u8]) -> Value {
    let mut list = Value::Enum(0, vec![]);
    for item in items.iter().rev() {
        list = Value::Enum(1, vec![Value::Primitive(Primitive::U8(*item)), list]);
    }
    list
}

#[test]
fn enum_that_holds_itself_round_trips() {
    let value = list_of(&[7, 8, 9]);
    assert!(has_shape(&value, &list_shape()));
    let bytes = encode(&value);
    assert_eq!(
        bytes,
        vec![
            1, 0, 0, 0, 0, 0, 0, 0, 7, 1, 0, 0, 0, 0, 0, 0, 0, 8, 1, 0, 0, 0, 0, 0, 0, 0, 9, 0, 0,
            0, 0, 0, 0, 0, 0
        ]
    );
    let mut source = Source::new(&bytes);
    assert_eq!(read_body(&list_shape(), &mut source), Ok(value));
    assert_eq!(source.remaining_len(), 0);
    for cut in 0..bytes.len() {
        let mut source = Source::new(&bytes[..cut]);
        assert_eq!(read_body(&list_shape(), &mut source), eof());
    }
}

#[test]
fn enum_that_holds_itself_may_be_deep() {
    let items: Vec<u8> = (0..2000).map(|i| (i % 251) as u8).collect();
    let value = list_of(&items);
    let bytes = encode(&value);
    assert_eq!(bytes.len(), 2000 * 9 + 8);
    let mut source = Source::new(&bytes);
    assert_eq!(read_body(&list_shape(), &mut source), Ok(value));
    assert_eq!(source.position(), bytes.len());
}

#[test]
fn enum_that_holds_itself_rejects_an_unknown_index_at_any_depth() {
    let mut bytes = encode(&list_of(&[7, 8]));
    bytes[18] = 2;
    let mut source = Source::new(&bytes);
    assert_eq!(read_body(&list_shape(), &mut source), Err(CerealError::UnknownVariant));
}

fn sample_shape() -> Shape {
    Shape::Struct(vec![
        prim(Kind::U8),
        prim(Kind::I8),
        prim(Kind::U16),
        prim(Kind::I16),
        prim(Kind::U32),
        prim(Kind::I32),
        prim(Kind::U64),
        prim(Kind::I64),
        prim(Kind::Usize),
        prim(Kind::Isize),
    ])
}

fn sample_value() -> Value {
    Value::Struct(vec![
        Value::Primitive(Primitive::U8(1)),
        Value::Primitive(Primitive::I8(-2)),
        Value::Primitive(Primitive::U16(3)),
        Value::Primitive(Primitive::I16(-4)),
        Value::Primitive(Primitive::U32(5)),
        Value::Primitive(Primitive::I32(-6)),
        Value::Primitive(Primitive::U64(7)),
        Value::Primitive(Primitive::I64(-8)),
        Value::Primitive(Primitive::Usize(9)),
        Value::Primitive(Primitive::Isize(-10)),
    ])
}

fn nested_enum_shape() -> Shape {
    Shape::Enum(vec![
        vec![],
        vec![Shape::Struct(vec![]), sample_shape()],
        vec![],
        vec![Shape::Struct(vec![sample_shape(), Shape::Struct(vec![])]), prim(Kind::Usize)],
        vec![prim(Kind::Usize), Shape::Enclosing(0)],
    ])
}

fn tuple_variant() -> Value {
    Value::Enum(
        3,
        vec![
            Value::Struct(vec![sample_value(), Value::Struct(vec![])]),
            Value::Primitive(Primitive::Usize(11)),
        ],
    )
}

#[test]
fn nested_enum_round_trips_by_its_shape() {
    let shape = nested_enum_shape();
    let values = vec![
        Value::Enum(0, vec![]),
        Value::Enum(2, vec![]),
        Value::Enum(1, vec![Value::Struct(vec![]), sample_value()]),
        tuple_variant(),
        Value::Enum(4, vec![Value::Primitive(Primitive::Usize(11)), tuple_variant()]),
    ];
    for value in values {
        assert!(has_shape(&value, &shape));
        let bytes = encode(&value);
        let mut source = Source::new(&bytes);
        assert_eq!(read_body(&shape, &mut source), Ok(value));
        assert_eq!(source.position(), bytes.len());
    }
    let nested = Value::Enum(4, vec![Value::Primitive(Primitive::Usize(11)), tuple_variant()]);
    assert_eq!(encode(&nested).len(), 8 + 8 + (8 + 46 + 8));
}

#[test]
fn enums_within_enums_name_the_one_they_mean() {
    let inner = Shape::Enum(vec![vec![], vec![Shape::Enclosing(1)], vec![Shape::Enclosing(0)]]);
    let outer = Shape::Enum(vec![vec![prim(Kind::U8), inner]]);
    let stop = Value::Enum(0, vec![]);
    let again = Value::Enum(2, vec![Value::Enum(2, vec![stop])]);
    let back = Value::Enum(
        1,
        vec![Value::Enum(0, vec![Value::Primitive(Primitive::U8(5)), again])],
    );
    let value = Value::Enum(0, vec![Value::Primitive(Primitive::U8(4)), back]);
    assert!(has_shape(&value, &outer));
    let bytes = encode(&value);
    assert_eq!(bytes.len(), (8 + 1) + 8 + (8 + 1) + 8 + 8 + 8);
    let mut source = Source::new(&bytes);
    assert_eq!(read_body(&outer, &mut source), Ok(value));
    assert_eq!(source.remaining_len(), 0);
    let wrong = Value::Enum(
        0,
        vec![
            Value::Primitive(Primitive::U8(4)),
            Value::Enum(2, vec![Value::Enum(0, vec![Value::Primitive(Primitive::U8(5))])]),
        ],
    );
    assert!(!has_shape(&wrong, &outer));
}

#[test]
fn shape_that_names_no_enum_has_no_values() {
    let bytes = [0u8; 16];
    let mut source = Source::new(&bytes);
    assert_eq!(read_body(&Shape::Enclosing(0), &mut source), Err(CerealError::InvalidEncoding));
    let loose = Shape::Enum(vec![vec![Shape::Enclosing(1)]]);
    let mut source = Source::new(&bytes);
    assert_eq!(read_body(&loose, &mut source), Err(CerealError::InvalidEncoding));
    assert!(!has_shape(&Value::Enum(0, vec![]), &Shape::Enclosing(0)));
    assert!(!has_shape(&Value::Enum(0, vec![Value::Enum(0, vec![])]), &loose));
    let endless = Shape::Enum(vec![vec![Shape::Enclosing(0)]]);
    let mut source = Source::new(&bytes);
    assert_eq!(read_body(&endless, &mut source), eof());
}
