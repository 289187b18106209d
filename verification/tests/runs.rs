//! Reading and writing through trusted windows across dynamic fields.

use wincode_derive::decode::{deserialize, get, get_with_context, read_fields};
use wincode_derive::encode::{serialize, serialize_into, serialized_size, WriteError};
use wincode_derive::meta::{FieldRun, TypeMeta};
use wincode_derive::record::{Event, RecordingReader, RecordingWriter};
use wincode_derive::schema::{field_metas, DynamicByte, FieldSchema, Schema, Value};
use wincode_derive::wire::{Encoding, ReadError, Width};

fn wire(schema: Schema) -> FieldSchema {
    FieldSchema::Wire(schema)
}

fn u8_field() -> FieldSchema {
    wire(Schema::Int(Width::U8))
}

fn u16_field() -> FieldSchema {
    wire(Schema::Int(Width::U16))
}

fn u32_field() -> FieldSchema {
    wire(Schema::Int(Width::U32))
}

fn u64_field() -> FieldSchema {
    wire(Schema::Int(Width::U64))
}

fn dynamic_field() -> FieldSchema {
    wire(Schema::DynamicByte)
}

fn optional_byte() -> FieldSchema {
    wire(Schema::Optional(Box::new(Schema::Int(Width::U8))))
}

fn byte(n: u8) -> Value<'static> {
    Value::Byte(DynamicByte(n))
}

fn text(s: &str) -> Value<'static> {
    Value::Text(s.to_string())
}

fn just(n: u64) -> Value<'static> {
    Value::Just(Box::new(Value::Int(n)))
}

fn bytes_value(bytes: &[u8]) -> Value<'static> {
    Value::List(bytes.iter().map(|b| Value::Int(*b as u64)).collect())
}

fn runs_schema() -> Schema {
    Schema::Struct(vec![
        u16_field(),
        FieldSchema::Skipped(text("")),
        u32_field(),
        dynamic_field(),
        u16_field(),
        wire(Schema::Unit),
        u32_field(),
        dynamic_field(),
        u64_field(),
    ])
}

fn runs_value() -> Value<'static> {
    Value::Struct(vec![
        Value::Int(1),
        text(""),
        Value::Int(2),
        byte(3),
        Value::Int(4),
        Value::Unit,
        Value::Int(5),
        byte(6),
        Value::Int(7),
    ])
}

#[test]
fn windows_cover_each_run_and_finish_before_parent_resumes() {
    let schema = runs_schema();
    let value = runs_value();
    let mut writer = RecordingWriter::new();
    serialize_into(&mut writer, &schema, Encoding::Fixed, &value).unwrap();
    assert_eq!(
        writer.events,
        [
            Event::Window(6),
            Event::Finish,
            Event::ParentWrite(1),
            Event::Window(6),
            Event::Finish,
            Event::ParentWrite(1),
            Event::Window(8),
            Event::Finish,
            Event::ParentFinish,
        ]
    );
    let mut reader = RecordingReader::new(&writer.bytes);
    assert_eq!(get(&schema, Encoding::Fixed, &mut reader).unwrap(), value);
    assert_eq!(reader.windows, [6, 6, 8]);
    assert!(reader.is_empty());
}

/// A declaration that is generic over its middle field and the length of an array.
fn generic_schema(middle: Schema, n: usize) -> Schema {
    Schema::Struct(vec![
        u8_field(),
        u8_field(),
        wire(middle),
        wire(Schema::Array(Box::new(Schema::Int(Width::U8)), n)),
        u16_field(),
    ])
}

fn generic_value(middle: Value<'static>, d: u64) -> Value<'static> {
    Value::Struct(vec![
        Value::Int(1),
        Value::Int(2),
        middle,
        bytes_value(&[4, 4]),
        Value::Int(d),
    ])
}

fn check(schema: &Schema, value: &Value, expected: &[Event]) {
    let mut writer = RecordingWriter::new();
    serialize_into(&mut writer, schema, Encoding::Fixed, value).unwrap();
    assert_eq!(writer.events, expected);
}

#[test]
fn runs_follow_generic_and_configuration_metadata() {
    check(
        &generic_schema(Schema::Int(Width::U32), 2),
        &generic_value(Value::Int(3), 5),
        &[Event::Window(10), Event::Finish, Event::ParentFinish],
    );
    check(
        &generic_schema(Schema::DynamicByte, 2),
        &generic_value(byte(3), 5),
        &[
            Event::Window(2),
            Event::Finish,
            Event::ParentWrite(1),
            Event::Window(4),
            Event::Finish,
            Event::ParentFinish,
        ],
    );

    let schema = generic_schema(Schema::Int(Width::U32), 2);
    let value = generic_value(Value::Int(1000), 500);
    let bytes = serialize(&schema, Encoding::Varint, &value).unwrap();
    assert_eq!(deserialize(&schema, Encoding::Varint, &bytes).unwrap(), value);
    let mut reader = RecordingReader::new(&bytes);
    assert_eq!(get(&schema, Encoding::Varint, &mut reader).unwrap(), value);
    // The wider integers become dynamic; the runs of bytes remain static.
    assert_eq!(reader.windows, [2, 2]);
    assert!(reader.is_empty());
}

fn contextual_schema(is_static: bool) -> Schema {
    Schema::Struct(vec![
        u8_field(),
        dynamic_field(),
        FieldSchema::Context { is_static },
        u16_field(),
    ])
}

#[test]
fn owned_context_is_consumed_once_in_static_or_dynamic_run() {
    for is_static in [true, false] {
        let bytes = [1, 2, 3, 0];
        let mut reader = RecordingReader::new(&bytes);
        let value = get_with_context(
            "owned".to_string(),
            &contextual_schema(is_static),
            Encoding::Fixed,
            &mut reader,
        )
        .unwrap();
        assert_eq!(
            value,
            Value::Struct(vec![Value::Int(1), byte(2), text("owned"), Value::Int(3)])
        );
    }
}

#[test]
fn a_second_context_field_finds_none() {
    let schema = Schema::Struct(vec![
        FieldSchema::Context { is_static: true },
        FieldSchema::Context { is_static: true },
    ]);
    let mut reader = RecordingReader::new(&[]);
    assert_eq!(
        get_with_context("once".to_string(), &schema, Encoding::Fixed, &mut reader),
        Err(ReadError::MissingContext)
    );
    assert_eq!(
        deserialize(&contextual_schema(true), Encoding::Fixed, &[1, 2, 3, 0]),
        Err(ReadError::MissingContext)
    );
}

fn node_schema() -> Schema {
    Schema::Struct(vec![
        u64_field(),
        wire(Schema::Children),
        u32_field(),
        u16_field(),
    ])
}

fn node(a: u64, children: Vec<Value<'static>>, b: u64, c: u64) -> Value<'static> {
    Value::Struct(vec![
        Value::Int(a),
        Value::List(children),
        Value::Int(b),
        Value::Int(c),
    ])
}

#[test]
fn recursive_struct_with_static_runs() {
    let schema = node_schema();
    let value = node(1, vec![node(2, vec![], 3, 4)], 5, 6);
    let bytes = serialize(&schema, Encoding::Fixed, &value).unwrap();
    assert_eq!(deserialize(&schema, Encoding::Fixed, &bytes).unwrap(), value);
}

#[test]
fn a_recursive_struct_opens_the_windows_of_its_children() {
    let schema = node_schema();
    let value = node(1, vec![node(2, vec![], 3, 4)], 5, 6);
    let mut writer = RecordingWriter::new();
    serialize_into(&mut writer, &schema, Encoding::Fixed, &value).unwrap();
    assert_eq!(
        writer.events,
        [
            Event::Window(8),
            Event::Finish,
            Event::ParentWrite(8),
            Event::Window(8),
            Event::Finish,
            Event::ParentWrite(8),
            Event::Window(6),
            Event::Finish,
            Event::Window(6),
            Event::Finish,
            Event::ParentFinish,
        ]
    );
    let mut reader = RecordingReader::new(&writer.bytes);
    assert_eq!(get(&schema, Encoding::Fixed, &mut reader).unwrap(), value);
    assert_eq!(reader.windows, [8, 8, 6, 6]);
    // Every byte is in a window or written outside of them.
    let recorded: usize = writer
        .events
        .iter()
        .map(|event| match event {
            Event::Window(size) | Event::ParentWrite(size) => *size,
            Event::Finish | Event::ParentFinish => 0,
        })
        .sum();
    assert_eq!(recorded, writer.bytes.len());
    assert_eq!(writer.bytes.len(), 8 + 8 + (8 + 8 + 6) + 6);
}

#[test]
fn skipped_and_zero_sized_only_runs_initialize() {
    let schema = Schema::Struct(vec![
        FieldSchema::Skipped(text("default")),
        wire(Schema::Unit),
    ]);
    let value = Value::Struct(vec![text("default"), Value::Unit]);
    assert!(serialize(&schema, Encoding::Fixed, &value).unwrap().is_empty());
    assert_eq!(deserialize(&schema, Encoding::Fixed, &[]).unwrap(), value);
}

#[test]
fn later_runs_preserve_borrows_into_the_backing_buffer() {
    let schema = Schema::Struct(vec![
        optional_byte(),
        wire(Schema::ByteRef),
        wire(Schema::ByteRef),
        optional_byte(),
        wire(Schema::ByteRef),
        wire(Schema::ByteRef),
    ]);
    let bytes = [1, 9, 2, 3, 1, 10, 6, 7];
    let mut reader = RecordingReader::new(&bytes);
    let value = get(&schema, Encoding::Fixed, &mut reader).unwrap();
    let fields = match value {
        Value::Struct(fields) => fields,
        other => panic!("{other:?}"),
    };
    assert_eq!((&fields[0], &fields[3]), (&just(9), &just(10)));
    let borrows: Vec<(&u8, usize)> = [1, 2, 4, 5]
        .iter()
        .map(|i| match &fields[*i] {
            Value::Borrowed { byte, at } => (*byte, *at),
            other => panic!("{other:?}"),
        })
        .collect();
    let values: Vec<u8> = borrows.iter().map(|(byte, _)| **byte).collect();
    assert_eq!(values, [2, 3, 6, 7]);
    for ((byte, at), i) in borrows.iter().zip([2, 3, 6, 7]) {
        assert_eq!(*at, i);
        assert!(core::ptr::eq(*byte, &bytes[i]));
    }
}

#[test]
fn later_write_failure_preserves_only_initialized_bytes() {
    let schema = Schema::Struct(vec![
        u16_field(),
        dynamic_field(),
        u16_field(),
        wire(Schema::Foreign(2)),
        u16_field(),
    ]);
    let value = Value::Struct(vec![
        Value::Int(1),
        byte(2),
        Value::Int(3),
        Value::Foreign {
            bytes: vec![5],
            failure: Some("partial field write".to_string()),
        },
        Value::Int(4),
    ]);
    let mut writer = RecordingWriter::new();
    assert_eq!(
        serialize_into(&mut writer, &schema, Encoding::Fixed, &value),
        Err(WriteError::Custom("partial field write".to_string()))
    );
    assert_eq!(writer.bytes, [1, 0, 2, 3, 0, 5]);
    assert_eq!(
        writer.events,
        [
            Event::Window(2),
            Event::Finish,
            Event::ParentWrite(1),
            Event::Window(6)
        ]
    );
}

fn skipped(id: &str) -> FieldSchema {
    FieldSchema::Skipped(text(id))
}

#[test]
fn failures_leave_initialized_the_fields_before() {
    // The fields of a declaration with two runs: those that are skipped are known by a text.
    let fields = vec![
        skipped("before"),
        u8_field(),
        wire(Schema::Bool),
        skipped("boundary"),
        optional_byte(),
        skipped("after"),
        u8_field(),
        wire(Schema::Bool),
        optional_byte(),
        skipped("trailing"),
    ];
    let whole = vec![
        text("before"),
        Value::Int(0),
        Value::Bool(true),
        text("boundary"),
        just(0),
        text("after"),
        Value::Int(0),
        Value::Bool(true),
        just(0),
        text("trailing"),
    ];
    let root = Schema::Unit;
    let bytes = [0, 1, 1, 0, 0, 1, 1, 0];
    let mut reader = RecordingReader::new(&bytes);
    let read = read_fields(&fields, &root, Encoding::Fixed, &mut reader, true, None);
    assert_eq!(read, (whole, None));

    let end = Some(ReadError::UnexpectedEnd);
    // The number of fields that are initialized from each beginning of the bytes. A run is
    // begun only if there are bytes for all of it.
    for (len, initialized) in [(0, 0), (1, 0), (2, 4), (3, 4), (4, 5), (5, 5), (6, 8), (7, 8)] {
        let mut reader = RecordingReader::new(&bytes[..len]);
        let (values, error) =
            read_fields(&fields, &root, Encoding::Fixed, &mut reader, true, None);
        assert_eq!(error, end);
        assert_eq!(values.len(), initialized);
    }
    // Failures inside of a window and in each dynamic field.
    for (index, initialized, error) in [
        (1, 2, ReadError::InvalidBool(2)),
        (2, 4, ReadError::InvalidTag(2)),
        (5, 7, ReadError::InvalidBool(2)),
        (6, 8, ReadError::InvalidTag(2)),
    ] {
        let mut invalid = bytes.to_vec();
        invalid[index] = 2;
        let mut reader = RecordingReader::new(&invalid);
        let (values, found) =
            read_fields(&fields, &root, Encoding::Fixed, &mut reader, true, None);
        assert_eq!(found, Some(error));
        assert_eq!(values.len(), initialized);
    }
}

fn static_fields() -> Vec<FieldSchema> {
    vec![
        u64_field(),
        u64_field(),
        u32_field(),
        u32_field(),
        u16_field(),
        u16_field(),
        u8_field(),
        u8_field(),
    ]
}

fn numbers(upto: u64) -> Vec<Value<'static>> {
    (1..=upto).map(Value::Int).collect()
}

fn assert_layout(fields: Vec<FieldSchema>, values: Vec<Value<'static>>, windows: &[usize]) {
    let schema = Schema::Struct(fields);
    let value = Value::Struct(values);
    assert_eq!(serialized_size(&schema, Encoding::Fixed, &value), Ok(32));
    let bytes = serialize(&schema, Encoding::Fixed, &value).unwrap();
    assert_eq!(bytes.len(), 32);
    let mut reader = RecordingReader::new(&bytes);
    assert_eq!(get(&schema, Encoding::Fixed, &mut reader).unwrap(), value);
    assert_eq!(reader.windows, windows);
}

#[test]
fn layouts_of_the_same_size_open_different_windows() {
    // No dynamic field.
    let mut fields = static_fields();
    fields.push(u8_field());
    fields.push(u8_field());
    assert_layout(fields, numbers(10), &[32]);

    // A dynamic field behind the run.
    let mut fields = static_fields();
    fields.push(optional_byte());
    let mut values = numbers(8);
    values.push(just(11));
    assert_layout(fields, values, &[30]);

    // A dynamic field before the run.
    let mut fields = static_fields();
    fields.insert(0, optional_byte());
    let mut values = numbers(8);
    values.insert(0, just(11));
    assert_layout(fields, values, &[30]);

    // A dynamic field between two runs.
    let mut fields = static_fields();
    fields.insert(2, optional_byte());
    let mut values = numbers(8);
    values.insert(2, just(11));
    assert_layout(fields, values, &[16, 14]);

    // Three runs, each before a dynamic field.
    assert_layout(
        vec![
            u64_field(),
            u64_field(),
            optional_byte(),
            u32_field(),
            u16_field(),
            optional_byte(),
            u16_field(),
            u8_field(),
            u8_field(),
            optional_byte(),
        ],
        vec![
            Value::Int(1),
            Value::Int(2),
            just(9),
            Value::Int(3),
            Value::Int(4),
            just(10),
            Value::Int(5),
            Value::Int(6),
            Value::Int(7),
            just(11),
        ],
        &[16, 6, 4],
    );

    // Runs of one field each.
    assert_layout(
        vec![
            u64_field(),
            optional_byte(),
            u64_field(),
            optional_byte(),
            u64_field(),
            optional_byte(),
            u16_field(),
        ],
        vec![
            Value::Int(1),
            just(5),
            Value::Int(2),
            just(6),
            Value::Int(3),
            just(7),
            Value::Int(4),
        ],
        &[8, 8, 8, 2],
    );
}

#[test]
fn the_plan_follows_the_metadata_of_the_fields() {
    let fields = match runs_schema() {
        Schema::Struct(fields) => fields,
        other => panic!("{other:?}"),
    };
    let runs = TypeMeta::field_runs(&field_metas(&fields, Encoding::Fixed));
    let first = FieldRun::Static { start: 0, end: 3, size: 6 };
    let second = FieldRun::Static { start: 4, end: 7, size: 6 };
    let third = FieldRun::Static { start: 8, end: 9, size: 8 };
    let dynamic = FieldRun::Dynamic;
    assert_eq!(
        runs,
        [first, first, first, dynamic, second, second, second, dynamic, third]
    );
    // All but the empty fields become dynamic.
    let runs = TypeMeta::field_runs(&field_metas(&fields, Encoding::Varint));
    let skipped = FieldRun::Static { start: 1, end: 2, size: 0 };
    let unit = FieldRun::Static { start: 5, end: 6, size: 0 };
    assert_eq!(
        runs,
        [dynamic, skipped, dynamic, dynamic, dynamic, unit, dynamic, dynamic, dynamic]
    );
}

#[test]
fn static_structs_and_arrays_have_the_size_of_their_parts() {
    let inner = Schema::Struct(vec![u8_field(), u32_field()]);
    let array = Schema::Array(Box::new(inner), 3);
    assert_eq!(
        array.meta(Encoding::Fixed),
        TypeMeta::Static { size: 15, zero_copy: false }
    );
    assert_eq!(array.meta(Encoding::Varint), TypeMeta::Dynamic);
}

#[test]
fn a_nested_static_struct_is_part_of_the_run() {
    let inner = Schema::Struct(vec![u8_field(), u16_field()]);
    let schema = Schema::Struct(vec![u8_field(), wire(inner), u8_field()]);
    let value = Value::Struct(vec![
        Value::Int(1),
        Value::Struct(vec![Value::Int(2), Value::Int(3)]),
        Value::Int(4),
    ]);
    check(
        &schema,
        &value,
        &[Event::Window(5), Event::Finish, Event::ParentFinish],
    );
    let bytes = serialize(&schema, Encoding::Fixed, &value).unwrap();
    assert_eq!(bytes, [1, 2, 3, 0, 4]);
    let mut reader = RecordingReader::new(&bytes);
    assert_eq!(get(&schema, Encoding::Fixed, &mut reader).unwrap(), value);
    assert_eq!(reader.windows, [5]);
}

#[test]
fn what_is_written_is_read_back_from_wherever_it_stands() {
    let schema = Schema::Struct(vec![
        wire(Schema::List(Box::new(Schema::Optional(Box::new(Schema::Int(Width::U16)))))),
        u32_field(),
        FieldSchema::Skipped(text("kept")),
        wire(Schema::Array(Box::new(Schema::Bool), 2)),
        wire(Schema::Array(Box::new(Schema::DynamicByte), 2)),
    ]);
    let value = Value::Struct(vec![
        Value::List(vec![just(7), Value::Nothing, just(300)]),
        Value::Int(70_000),
        text("kept"),
        Value::List(vec![Value::Bool(true), Value::Bool(false)]),
        Value::List(vec![byte(1), byte(2)]),
    ]);
    for encoding in [Encoding::Fixed, Encoding::Varint] {
        let mut buffer = vec![9, 9, 9];
        let bytes = serialize(&schema, encoding, &value).unwrap();
        buffer.extend(&bytes);
        buffer.push(9);
        let mut reader = RecordingReader::new(&buffer);
        let mut head = vec![0; 3];
        reader.copy_into_slice(&mut head).unwrap();
        assert_eq!(get(&schema, encoding, &mut reader).unwrap(), value);
        assert_eq!(reader.pos, 3 + bytes.len());
        let mut writer = RecordingWriter::new();
        serialize_into(&mut writer, &schema, encoding, &value).unwrap();
        let windows: Vec<usize> = writer
            .events
            .iter()
            .filter_map(|event| match event {
                Event::Window(size) => Some(*size),
                _ => None,
            })
            .collect();
        assert_eq!(reader.windows, windows);
        assert_eq!(writer.bytes, bytes);
    }
}

#[test]
fn integers_are_written_as_the_encoding_says() {
    let cases: [(u64, &[u8]); 8] = [
        (0, &[0]),
        (250, &[250]),
        (251, &[251, 251, 0]),
        (0xffff, &[251, 0xff, 0xff]),
        (0x1_0000, &[252, 0, 0, 1, 0]),
        (0xffff_ffff, &[252, 0xff, 0xff, 0xff, 0xff]),
        (0x1_0000_0000, &[253, 0, 0, 0, 0, 1, 0, 0, 0]),
        (u64::MAX, &[253, 255, 255, 255, 255, 255, 255, 255, 255]),
    ];
    let schema = Schema::Int(Width::U64);
    for (n, expected) in cases {
        let value = Value::Int(n);
        assert_eq!(serialize(&schema, Encoding::Varint, &value).unwrap(), expected);
        assert_eq!(deserialize(&schema, Encoding::Varint, expected), Ok(value));
        let fixed = serialize(&schema, Encoding::Fixed, &Value::Int(n)).unwrap();
        assert_eq!(fixed, n.to_le_bytes());
        assert_eq!(deserialize(&schema, Encoding::Fixed, &fixed), Ok(Value::Int(n)));
    }
    assert_eq!(
        serialize(&Schema::Int(Width::U8), Encoding::Varint, &Value::Int(255)).unwrap(),
        [255]
    );
    assert_eq!(
        serialize(&Schema::Int(Width::U32), Encoding::Fixed, &Value::Int(0x0102_0304)).unwrap(),
        [4, 3, 2, 1]
    );
}

#[test]
fn bytes_that_are_no_value_are_refused() {
    let read = |schema: &Schema, encoding, bytes: &'static [u8]| {
        deserialize(schema, encoding, bytes).unwrap_err()
    };
    let int = Schema::Int(Width::U16);
    assert_eq!(read(&int, Encoding::Varint, &[252, 0, 0, 0, 0]), ReadError::InvalidInteger(252));
    assert_eq!(read(&int, Encoding::Varint, &[254]), ReadError::InvalidInteger(254));
    assert_eq!(read(&int, Encoding::Varint, &[251, 0]), ReadError::UnexpectedEnd);
    assert_eq!(read(&int, Encoding::Varint, &[]), ReadError::UnexpectedEnd);
    assert_eq!(read(&int, Encoding::Fixed, &[1]), ReadError::UnexpectedEnd);
    assert_eq!(read(&Schema::Bool, Encoding::Fixed, &[2]), ReadError::InvalidBool(2));
    let optional = Schema::Optional(Box::new(Schema::Unit));
    assert_eq!(read(&optional, Encoding::Fixed, &[7]), ReadError::InvalidTag(7));
    assert_eq!(read(&Schema::Foreign(0), Encoding::Fixed, &[]), ReadError::Unreadable);
    let list = Schema::List(Box::new(Schema::Int(Width::U8)));
    assert_eq!(
        read(&list, Encoding::Fixed, &[2, 0, 0, 0, 0, 0, 0, 0, 9]),
        ReadError::UnexpectedEnd
    );
}

#[test]
fn values_of_other_types_are_refused() {
    let write = |schema: &Schema, value: &Value| {
        serialize(schema, Encoding::Fixed, value).unwrap_err()
    };
    assert_eq!(write(&Schema::Int(Width::U8), &Value::Int(256)), WriteError::Mismatch);
    assert_eq!(write(&Schema::Bool, &Value::Unit), WriteError::Mismatch);
    let pair = Schema::Array(Box::new(Schema::Bool), 2);
    assert_eq!(write(&pair, &Value::List(vec![Value::Bool(true)])), WriteError::Mismatch);
    let context = Schema::Struct(vec![FieldSchema::Context { is_static: true }]);
    assert_eq!(write(&context, &Value::Struct(vec![text("")])), WriteError::Unwritable);
    let short = Value::Foreign { bytes: vec![1], failure: None };
    assert_eq!(write(&Schema::Foreign(2), &short), WriteError::Mismatch);
}

#[test]
fn copies_fill_what_there_is_room_for() {
    let bytes = [1, 2, 3];
    let mut reader = RecordingReader::new(&bytes);
    let mut two = vec![0, 0];
    assert_eq!(reader.copy_into_slice(&mut two), Ok(()));
    assert_eq!(two, [1, 2]);
    assert_eq!(reader.copy_into_slice(&mut two), Err(ReadError::UnexpectedEnd));
    assert_eq!(two, [1, 2]);
    assert_eq!(reader.take_byte(), Ok(3));
    assert_eq!(reader.take_byte(), Err(ReadError::UnexpectedEnd));
    assert_eq!(reader.as_trusted_for(1), Err(ReadError::UnexpectedEnd));
    assert_eq!(reader.windows, [1]);
}

#[test]
fn a_dynamic_byte_is_one_byte() {
    let mut writer = RecordingWriter::new();
    assert_eq!(DynamicByte(7).size_of(), 1);
    DynamicByte(7).write(&mut writer);
    assert_eq!(writer.bytes, [7]);
    assert_eq!(writer.events, [Event::ParentWrite(1)]);
    let mut reader = RecordingReader::new(&writer.bytes);
    assert_eq!(DynamicByte::read(&mut reader), Ok(DynamicByte(7)));
    assert_eq!(DynamicByte::read(&mut reader), Err(ReadError::UnexpectedEnd));
}
