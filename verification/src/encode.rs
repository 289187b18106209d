//! How values are written.

use crate::meta::{
    is_plan, is_run, lemma_run, lemma_total_size_prefix, run_at, run_end, run_size, run_start,
    total_size, FieldRun, TypeMeta,
};
use crate::record::{append_bytes, Event, RecordingWriter, Window};
use crate::schema::{
    field_fits, field_metas, fields_fit, fits, lemma_size_fits, metas_of, size_of,
    size_of_field, size_of_fields, vals, DynamicByte, FieldSchema, Schema, Val, Value,
};
use crate::text::opt_text;
use crate::wire::{bytes_of, capacity, int_bytes, lemma_int_bytes_len, put_int, Encoding, Width};
use vstd::prelude::*;

verus! {

/// Why a value cannot be written.
#[derive(Debug, PartialEq, Eq)]
pub enum WriteError {
    /// The value is none of the type.
    Mismatch,
    /// Values of the type can only be read.
    Unwritable,
    /// What an implementation of its own says.
    Custom(String),
}

/// The view of why a value cannot be written.
pub ghost enum Failure {
    Mismatch,
    Unwritable,
    Custom(Seq<char>),
}

impl View for WriteError {
    type V = Failure;

    open spec fn view(&self) -> Failure {
        match self {
            WriteError::Mismatch => Failure::Mismatch,
            WriteError::Unwritable => Failure::Unwritable,
            WriteError::Custom(text) => Failure::Custom(text@),
        }
    }
}

/// What becomes of a value: the bytes that are written, and why nothing follows them where
/// that is so.
pub ghost struct Encoded {
    pub bytes: Seq<u8>,
    pub error: Option<Failure>,
}

/// Nothing is written, and that for a reason.
pub open spec fn refused(failure: Failure) -> Encoded {
    Encoded { bytes: seq![], error: Some(failure) }
}

/// Bytes are written.
pub open spec fn written(bytes: Seq<u8>) -> Encoded {
    Encoded { bytes, error: None }
}

/// What is written behind bytes.
pub open spec fn behind(bytes: Seq<u8>, encoded: Encoded) -> Encoded {
    Encoded { bytes: bytes + encoded.bytes, error: encoded.error }
}

/// What becomes of a value of the type, where `root` is the outermost declaration.
pub open spec fn encoded(schema: Schema, root: Schema, encoding: Encoding, val: Val) -> Encoded
    decreases val, 0nat,
{
    match (schema, val) {
        (Schema::Unit, Val::Unit) => written(seq![]),
        (Schema::Bool, Val::Bool(yes)) => written(seq![bool_byte(yes)]),
        (Schema::Int(width), Val::Int(n)) => if n < capacity(bytes_of(width)) {
            written(int_bytes(n, width, encoding))
        } else {
            refused(Failure::Mismatch)
        },
        (Schema::DynamicByte, Val::Byte(byte)) => written(seq![byte]),
        (Schema::ByteRef, Val::Borrowed { byte, .. }) => written(seq![byte]),
        (Schema::Foreign(size), Val::Foreign { bytes, failure }) => encoded_foreign(
            size as nat,
            bytes,
            failure,
        ),
        (Schema::Array(element, len), Val::List(items)) => if items.len() == len {
            encoded_items(*element, root, encoding, items, items.len())
        } else {
            refused(Failure::Mismatch)
        },
        (Schema::Optional(_), Val::Nothing) => written(seq![0]),
        (Schema::Optional(inner), Val::Just(value)) => behind(
            seq![1],
            encoded(*inner, root, encoding, *value),
        ),
        (Schema::List(element), Val::List(items)) => behind(
            int_bytes(items.len(), Width::U64, encoding),
            encoded_items(*element, root, encoding, items, items.len()),
        ),
        (Schema::Children, Val::List(items)) => behind(
            int_bytes(items.len(), Width::U64, encoding),
            encoded_items(root, root, encoding, items, items.len()),
        ),
        (Schema::Struct(fields), Val::Struct(values)) => if fields@.len() == values.len() {
            encoded_fields(fields@, root, encoding, values, values.len())
        } else {
            refused(Failure::Mismatch)
        },
        _ => refused(Failure::Mismatch),
    }
}

/// The byte of a `bool`.
pub open spec fn bool_byte(yes: bool) -> u8 {
    if yes {
        1
    } else {
        0
    }
}

/// What an implementation of its own writes. It may write less than its size, but only if it
/// fails.
pub open spec fn encoded_foreign(
    size: nat,
    bytes: Seq<u8>,
    failure: Option<Seq<char>>,
) -> Encoded {
    match failure {
        Some(text) => if bytes.len() <= size {
            Encoded { bytes, error: Some(Failure::Custom(text)) }
        } else {
            refused(Failure::Mismatch)
        },
        None => if bytes.len() == size {
            written(bytes)
        } else {
            refused(Failure::Mismatch)
        },
    }
}

/// What becomes of the first `n` values of a type. One that fails is the last.
pub open spec fn encoded_items(
    schema: Schema,
    root: Schema,
    encoding: Encoding,
    items: Seq<Val>,
    n: nat,
) -> Encoded
    decreases items, n,
{
    if n == 0 || n > items.len() {
        written(seq![])
    } else {
        let before = encoded_items(schema, root, encoding, items, (n - 1) as nat);
        if before.error is Some {
            before
        } else {
            behind(before.bytes, encoded(schema, root, encoding, items[n - 1]))
        }
    }
}

/// What becomes of the first `n` fields. One that fails is the last.
pub open spec fn encoded_fields(
    fields: Seq<FieldSchema>,
    root: Schema,
    encoding: Encoding,
    values: Seq<Val>,
    n: nat,
) -> Encoded
    decreases values, n,
{
    if n == 0 || n > values.len() {
        written(seq![])
    } else {
        let before = encoded_fields(fields, root, encoding, values, (n - 1) as nat);
        if before.error is Some {
            before
        } else {
            behind(before.bytes, encoded_field(fields[n - 1], root, encoding, values[n - 1]))
        }
    }
}

/// What becomes of a field. A skipped field is not written.
pub open spec fn encoded_field(
    field: FieldSchema,
    root: Schema,
    encoding: Encoding,
    val: Val,
) -> Encoded
    decreases val, 1nat,
{
    match field {
        FieldSchema::Wire(schema) => encoded(schema, root, encoding, val),
        FieldSchema::Skipped(_) => written(seq![]),
        FieldSchema::Context { .. } => refused(Failure::Unwritable),
    }
}

/// Whether a result is that of what becomes of a value.
pub open spec fn is_outcome(result: Result<(), WriteError>, error: Option<Failure>) -> bool {
    match result {
        Ok(_) => error is None,
        Err(e) => error == Some(e@),
    }
}

/// Appends the bytes of a value of the type. What was appended before a failure stays.
pub fn encode(
    schema: &Schema,
    root: &Schema,
    encoding: Encoding,
    value: &Value,
    out: &mut Vec<u8>,
) -> (result: Result<(), WriteError>)
    ensures
        final(out)@ == old(out)@ + encoded(*schema, *root, encoding, value@).bytes,
        is_outcome(result, encoded(*schema, *root, encoding, value@).error),
    decreases value, 0nat,
{
    match (schema, value) {
        (Schema::Unit, Value::Unit) => Ok(()),
        (Schema::Bool, Value::Bool(yes)) => {
            out.push(if *yes {
                1
            } else {
                0
            });
            Ok(())
        },
        (Schema::Int(width), Value::Int(n)) => {
            if width.holds(*n) {
                put_int(*n, *width, encoding, out);
                Ok(())
            } else {
                Err(WriteError::Mismatch)
            }
        },
        (Schema::DynamicByte, Value::Byte(byte)) => {
            out.push(byte.0);
            Ok(())
        },
        (Schema::ByteRef, Value::Borrowed { byte, .. }) => {
            out.push(**byte);
            Ok(())
        },
        (Schema::Foreign(size), Value::Foreign { bytes, failure }) => encode_foreign(
            *size,
            bytes,
            failure,
            out,
        ),
        (Schema::Array(element, len), Value::List(items)) => {
            assert(vals(items@).len() == items@.len());
            if items.len() != *len {
                return Err(WriteError::Mismatch);
            }
            encode_items(element, root, encoding, items, out)
        },
        (Schema::Optional(_), Value::Nothing) => {
            out.push(0);
            Ok(())
        },
        (Schema::Optional(inner), Value::Just(value)) => {
            out.push(1);
            encode(inner, root, encoding, value, out)
        },
        (Schema::List(element), Value::List(items)) => {
            assert(vals(items@).len() == items@.len());
            put_int(items.len() as u64, Width::U64, encoding, out);
            encode_items(element, root, encoding, items, out)
        },
        (Schema::Children, Value::List(items)) => {
            assert(vals(items@).len() == items@.len());
            put_int(items.len() as u64, Width::U64, encoding, out);
            encode_items(root, root, encoding, items, out)
        },
        (Schema::Struct(fields), Value::Struct(values)) => {
            assert(vals(values@).len() == values@.len());
            if fields.len() != values.len() {
                return Err(WriteError::Mismatch);
            }
            encode_fields(fields, root, encoding, values, out)
        },
        _ => Err(WriteError::Mismatch),
    }
}

/// Appends what an implementation of its own writes.
fn encode_foreign(
    size: usize,
    bytes: &Vec<u8>,
    failure: &Option<String>,
    out: &mut Vec<u8>,
) -> (result: Result<(), WriteError>)
    ensures
        final(out)@ == old(out)@ + encoded_foreign(size as nat, bytes@, opt_text(*failure)).bytes,
        is_outcome(result, encoded_foreign(size as nat, bytes@, opt_text(*failure)).error),
{
    match failure {
        Some(text) => {
            if bytes.len() > size {
                return Err(WriteError::Mismatch);
            }
            append_bytes(out, bytes);
            Err(WriteError::Custom(text.clone()))
        },
        None => {
            if bytes.len() != size {
                return Err(WriteError::Mismatch);
            }
            append_bytes(out, bytes);
            Ok(())
        },
    }
}

/// Appends the bytes of values of the type, up to one that fails.
fn encode_items(
    schema: &Schema,
    root: &Schema,
    encoding: Encoding,
    items: &Vec<Value>,
    out: &mut Vec<u8>,
) -> (result: Result<(), WriteError>)
    ensures
        final(out)@ == old(out)@ + encoded_items(
            *schema,
            *root,
            encoding,
            vals(items@),
            items@.len(),
        ).bytes,
        is_outcome(
            result,
            encoded_items(*schema, *root, encoding, vals(items@), items@.len()).error,
        ),
    decreases items, 1nat,
{
    let ghost all = vals(items@);
    let mut i: usize = 0;
    while i < items.len()
        invariant
            i <= items.len(),
            all == vals(items@),
            out@ =~= old(out)@ + encoded_items(*schema, *root, encoding, all, i as nat).bytes,
            encoded_items(*schema, *root, encoding, all, i as nat).error is None,
        decreases items.len() - i,
    {
        assert(decreases_to!(items => items[i as int]));
        assert(all[i as int] == items@[i as int]@);
        let result = encode(schema, root, encoding, &items[i], out);
        if result.is_err() {
            proof {
                lemma_items_stop(*schema, *root, encoding, all, (i + 1) as nat, all.len());
            }
            return result;
        }
        i += 1;
    }
    Ok(())
}

/// Appends the bytes of a field.
fn encode_field(
    field: &FieldSchema,
    root: &Schema,
    encoding: Encoding,
    value: &Value,
    out: &mut Vec<u8>,
) -> (result: Result<(), WriteError>)
    ensures
        final(out)@ == old(out)@ + encoded_field(*field, *root, encoding, value@).bytes,
        is_outcome(result, encoded_field(*field, *root, encoding, value@).error),
    decreases value, 1nat,
{
    match field {
        FieldSchema::Wire(schema) => encode(schema, root, encoding, value, out),
        FieldSchema::Skipped(_) => Ok(()),
        FieldSchema::Context { .. } => Err(WriteError::Unwritable),
    }
}

/// Appends the bytes of fields, up to one that fails.
fn encode_fields(
    fields: &Vec<FieldSchema>,
    root: &Schema,
    encoding: Encoding,
    values: &Vec<Value>,
    out: &mut Vec<u8>,
) -> (result: Result<(), WriteError>)
    requires
        fields@.len() == values@.len(),
    ensures
        final(out)@ == old(out)@ + encoded_fields(
            fields@,
            *root,
            encoding,
            vals(values@),
            values@.len(),
        ).bytes,
        is_outcome(
            result,
            encoded_fields(fields@, *root, encoding, vals(values@), values@.len()).error,
        ),
    decreases values, 1nat,
{
    let ghost all = vals(values@);
    let mut i: usize = 0;
    while i < values.len()
        invariant
            i <= values.len(),
            fields@.len() == values@.len(),
            all == vals(values@),
            out@ =~= old(out)@ + encoded_fields(fields@, *root, encoding, all, i as nat).bytes,
            encoded_fields(fields@, *root, encoding, all, i as nat).error is None,
        decreases values.len() - i,
    {
        assert(decreases_to!(values => values[i as int]));
        assert(all[i as int] == values@[i as int]@);
        let result = encode_field(&fields[i], root, encoding, &values[i], out);
        if result.is_err() {
            proof {
                lemma_fields_stop(fields@, *root, encoding, all, (i + 1) as nat, all.len());
            }
            return result;
        }
        i += 1;
    }
    Ok(())
}

/// Nothing is written behind a value that fails.
pub(crate) proof fn lemma_items_stop(
    schema: Schema,
    root: Schema,
    encoding: Encoding,
    items: Seq<Val>,
    n: nat,
    more: nat,
)
    requires
        n <= more <= items.len(),
        encoded_items(schema, root, encoding, items, n).error is Some,
    ensures
        encoded_items(schema, root, encoding, items, more) == encoded_items(
            schema,
            root,
            encoding,
            items,
            n,
        ),
    decreases more,
{
    if n < more {
        lemma_items_stop(schema, root, encoding, items, n, (more - 1) as nat);
    }
}

/// Nothing is written behind a field that fails.
pub(crate) proof fn lemma_fields_stop(
    fields: Seq<FieldSchema>,
    root: Schema,
    encoding: Encoding,
    values: Seq<Val>,
    n: nat,
    more: nat,
)
    requires
        n <= more <= values.len(),
        encoded_fields(fields, root, encoding, values, n).error is Some,
    ensures
        encoded_fields(fields, root, encoding, values, more) == encoded_fields(
            fields,
            root,
            encoding,
            values,
            n,
        ),
    decreases more,
{
    if n < more {
        lemma_fields_stop(fields, root, encoding, values, n, (more - 1) as nat);
    }
}

/// A value of a static type never takes more bytes than its type says, and exactly as many if
/// it is written as a whole.
pub proof fn static_values_fill_their_size(
    schema: Schema,
    root: Schema,
    encoding: Encoding,
    val: Val,
)
    requires
        size_of(schema, encoding) is Some,
    ensures
        encoded(schema, root, encoding, val).bytes.len() <= size_of(schema, encoding)->Some_0,
        encoded(schema, root, encoding, val).error is None ==> encoded(
            schema,
            root,
            encoding,
            val,
        ).bytes.len() == size_of(schema, encoding)->Some_0,
    decreases val, 0nat,
{
    match (schema, val) {
        (Schema::Int(width), Val::Int(n)) => {
            lemma_int_bytes_len(n, width, encoding);
        },
        (Schema::Array(element, len), Val::List(items)) => {
            if items.len() == len {
                lemma_items_size(*element, root, encoding, items, items.len());
            }
        },
        (Schema::Struct(fields), Val::Struct(values)) => {
            if fields@.len() == values.len() {
                lemma_fields_size(fields@, root, encoding, values, values.len());
            }
        },
        _ => {},
    }
}

proof fn lemma_items_size(
    schema: Schema,
    root: Schema,
    encoding: Encoding,
    items: Seq<Val>,
    n: nat,
)
    requires
        size_of(schema, encoding) is Some,
        n <= items.len(),
    ensures
        encoded_items(schema, root, encoding, items, n).bytes.len() <= n * size_of(
            schema,
            encoding,
        )->Some_0,
        encoded_items(schema, root, encoding, items, n).error is None ==> encoded_items(
            schema,
            root,
            encoding,
            items,
            n,
        ).bytes.len() == n * size_of(schema, encoding)->Some_0,
    decreases items, n,
{
    let size = size_of(schema, encoding)->Some_0;
    if n > 0 {
        lemma_items_size(schema, root, encoding, items, (n - 1) as nat);
        static_values_fill_their_size(schema, root, encoding, items[n - 1]);
        assert(n * size == (n - 1) * size + size) by (nonlinear_arith);
    }
}

proof fn lemma_fields_size(
    fields: Seq<FieldSchema>,
    root: Schema,
    encoding: Encoding,
    values: Seq<Val>,
    n: nat,
)
    requires
        fields.len() == values.len(),
        n <= values.len(),
        size_of_fields(fields, encoding, n) is Some,
    ensures
        encoded_fields(fields, root, encoding, values, n).bytes.len() <= size_of_fields(
            fields,
            encoding,
            n,
        )->Some_0,
        encoded_fields(fields, root, encoding, values, n).error is None ==> encoded_fields(
            fields,
            root,
            encoding,
            values,
            n,
        ).bytes.len() == size_of_fields(fields, encoding, n)->Some_0,
    decreases values, n,
{
    if n > 0 {
        lemma_fields_size(fields, root, encoding, values, (n - 1) as nat);
        assert(size_of_field(fields[n - 1], encoding) is Some);
        lemma_field_size(fields[n - 1], root, encoding, values[n - 1]);
    }
}

pub(crate) proof fn lemma_field_size(field: FieldSchema, root: Schema, encoding: Encoding, val: Val)
    requires
        size_of_field(field, encoding) is Some,
    ensures
        encoded_field(field, root, encoding, val).bytes.len() <= size_of_field(
            field,
            encoding,
        )->Some_0,
        encoded_field(field, root, encoding, val).error is None ==> encoded_field(
            field,
            root,
            encoding,
            val,
        ).bytes.len() == size_of_field(field, encoding)->Some_0,
    decreases val, 1nat,
{
    if let FieldSchema::Wire(schema) = field {
        assert(size_of(schema, encoding) == size_of_field(field, encoding));
        static_values_fill_their_size(schema, root, encoding, val);
    }
}

/// What a writer records of bytes that are written outside of windows.
pub open spec fn write_event(bytes: Seq<u8>) -> Seq<Event> {
    if bytes.len() == 0 {
        seq![]
    } else {
        seq![Event::ParentWrite(bytes.len() as usize)]
    }
}

/// What a writer records of a value. A declaration opens a window for each run of static
/// fields; any other static value is written at once.
pub open spec fn events(schema: Schema, root: Schema, encoding: Encoding, val: Val) -> Seq<Event>
    decreases val, 0nat,
{
    match (schema, val) {
        (Schema::Struct(fields), Val::Struct(values)) => if fields@.len() == values.len() {
            events_of_fields(fields@, root, encoding, values, values.len())
        } else {
            seq![]
        },
        (Schema::Optional(inner), Val::Just(value)) => write_event(seq![1]) + events(
            *inner,
            root,
            encoding,
            *value,
        ),
        (Schema::List(element), Val::List(items)) => write_event(
            int_bytes(items.len(), Width::U64, encoding),
        ) + events_of_items(*element, root, encoding, items, items.len()),
        (Schema::Children, Val::List(items)) => write_event(
            int_bytes(items.len(), Width::U64, encoding),
        ) + events_of_items(root, root, encoding, items, items.len()),
        (Schema::Array(element, len), Val::List(items)) => if size_of(*element, encoding) is None
            && items.len() == len {
            events_of_items(*element, root, encoding, items, items.len())
        } else {
            write_event(encoded(schema, root, encoding, val).bytes)
        },
        _ => write_event(encoded(schema, root, encoding, val).bytes),
    }
}

/// What a writer records of the first `n` values of a type.
pub open spec fn events_of_items(
    schema: Schema,
    root: Schema,
    encoding: Encoding,
    items: Seq<Val>,
    n: nat,
) -> Seq<Event>
    decreases items, n,
{
    if n == 0 || n > items.len() {
        seq![]
    } else {
        let before = events_of_items(schema, root, encoding, items, (n - 1) as nat);
        if encoded_items(schema, root, encoding, items, (n - 1) as nat).error is Some {
            before
        } else {
            before + events(schema, root, encoding, items[n - 1])
        }
    }
}

/// What a writer records of the first `n` fields. The first field of a run opens a window of
/// the size of the run, and the last one, if it does not fail, finishes it.
pub open spec fn events_of_fields(
    fields: Seq<FieldSchema>,
    root: Schema,
    encoding: Encoding,
    values: Seq<Val>,
    n: nat,
) -> Seq<Event>
    decreases values, n,
{
    if n == 0 || n > values.len() {
        seq![]
    } else {
        let before = events_of_fields(fields, root, encoding, values, (n - 1) as nat);
        let metas = metas_of(fields, encoding);
        let field = fields[n - 1];
        if encoded_fields(fields, root, encoding, values, (n - 1) as nat).error is Some {
            before
        } else if size_of_field(field, encoding) is Some {
            let failed = encoded_field(field, root, encoding, values[n - 1]).error is Some;
            before + opening(metas, n - 1) + if failed {
                seq![]
            } else {
                closing(metas, n - 1)
            }
        } else {
            match field {
                FieldSchema::Wire(schema) => before + events(
                    schema,
                    root,
                    encoding,
                    values[n - 1],
                ),
                _ => before,
            }
        }
    }
}

/// The window that is opened for the static field at `i`, if it is the first of a run.
pub open spec fn opening(metas: Seq<TypeMeta>, i: int) -> Seq<Event> {
    if run_start(metas, i) == i {
        seq![Event::Window(run_size(metas, i, run_end(metas, i)) as usize)]
    } else {
        seq![]
    }
}

/// What finishes the window of the static field at `i`, if it is the last of a run.
pub open spec fn closing(metas: Seq<TypeMeta>, i: int) -> Seq<Event> {
    if run_end(metas, i) == i + 1 {
        seq![Event::Finish]
    } else {
        seq![]
    }
}

/// Nothing is recorded behind a field that fails.
pub(crate) proof fn lemma_events_stop(
    fields: Seq<FieldSchema>,
    root: Schema,
    encoding: Encoding,
    values: Seq<Val>,
    n: nat,
    more: nat,
)
    requires
        n <= more <= values.len(),
        encoded_fields(fields, root, encoding, values, n).error is Some,
    ensures
        events_of_fields(fields, root, encoding, values, more) == events_of_fields(
            fields,
            root,
            encoding,
            values,
            n,
        ),
    decreases more,
{
    if n < more {
        lemma_events_stop(fields, root, encoding, values, n, (more - 1) as nat);
        lemma_fields_stop(fields, root, encoding, values, n, (more - 1) as nat);
    }
}

/// Nothing is recorded behind a value that fails.
proof fn lemma_item_events_stop(
    schema: Schema,
    root: Schema,
    encoding: Encoding,
    items: Seq<Val>,
    n: nat,
    more: nat,
)
    requires
        n <= more <= items.len(),
        encoded_items(schema, root, encoding, items, n).error is Some,
    ensures
        events_of_items(schema, root, encoding, items, more) == events_of_items(
            schema,
            root,
            encoding,
            items,
            n,
        ),
    decreases more,
{
    if n < more {
        lemma_item_events_stop(schema, root, encoding, items, n, (more - 1) as nat);
        lemma_items_stop(schema, root, encoding, items, n, (more - 1) as nat);
    }
}

/// Whether the writer is the one before with the bytes and what is recorded of them.
pub open spec fn wrote(
    before: RecordingWriter,
    after: RecordingWriter,
    bytes: Seq<u8>,
    recorded: Seq<Event>,
) -> bool {
    &&& after.bytes@ == before.bytes@ + bytes
    &&& after.events@ == before.events@ + recorded
}

impl DynamicByte {
    /// The number of bytes that it takes.
    pub fn size_of(&self) -> (size: usize)
        ensures
            size == 1,
    {
        1
    }

    /// Writes the byte.
    pub fn write(&self, writer: &mut RecordingWriter)
        ensures
            wrote(*old(writer), *final(writer), seq![self.0], seq![Event::ParentWrite(1)]),
    {
        let mut bytes: Vec<u8> = Vec::new();
        bytes.push(self.0);
        writer.write(&bytes);
        assert(bytes@ =~= seq![self.0]);
        assert(writer.events@ =~= old(writer).events@ + seq![Event::ParentWrite(1)]);
    }
}

/// Writes bytes, if there are any.
fn write_chunk(chunk: &Vec<u8>, writer: &mut RecordingWriter)
    ensures
        wrote(*old(writer), *final(writer), chunk@, write_event(chunk@)),
{
    if chunk.len() > 0 {
        writer.write(chunk);
    }
    assert(old(writer).bytes@ + Seq::<u8>::empty() =~= old(writer).bytes@);
    assert(old(writer).events@ + Seq::<Event>::empty() =~= old(writer).events@);
}

/// Writes a value of the type at once.
fn write_at_once(
    schema: &Schema,
    root: &Schema,
    encoding: Encoding,
    value: &Value,
    writer: &mut RecordingWriter,
) -> (result: Result<(), WriteError>)
    ensures
        wrote(
            *old(writer),
            *final(writer),
            encoded(*schema, *root, encoding, value@).bytes,
            write_event(encoded(*schema, *root, encoding, value@).bytes),
        ),
        is_outcome(result, encoded(*schema, *root, encoding, value@).error),
{
    let mut chunk: Vec<u8> = Vec::new();
    let result = encode(schema, root, encoding, value, &mut chunk);
    assert(chunk@ =~= encoded(*schema, *root, encoding, value@).bytes);
    write_chunk(&chunk, writer);
    result
}

/// Writes the fields of a run into the window that is open for it. A field that fails is the
/// last, and the window is not finished.
#[verifier::rlimit(40)]
fn write_run(
    window: &mut Window,
    fields: &Vec<FieldSchema>,
    root: &Schema,
    encoding: Encoding,
    values: &Vec<Value>,
    start: usize,
    end: usize,
    Ghost(before): Ghost<RecordingWriter>,
) -> (result: Result<(), WriteError>)
    requires
        fields_fit(fields@, encoding),
        fields@.len() == values@.len(),
        is_run(metas_of(fields@, encoding), start as int, end as int),
        old(window).left == run_size(metas_of(fields@, encoding), start as int, end as int),
        encoded_fields(fields@, *root, encoding, vals(values@), start as nat).error is None,
        wrote(
            before,
            *old(window).parent,
            encoded_fields(fields@, *root, encoding, vals(values@), start as nat).bytes,
            events_of_fields(fields@, *root, encoding, vals(values@), start as nat) + opening(
                metas_of(fields@, encoding),
                start as int,
            ),
        ),
    ensures
        *final(final(window).parent) == *final(old(window).parent),
        match result {
            Ok(_) => {
                &&& encoded_fields(
                    fields@,
                    *root,
                    encoding,
                    vals(values@),
                    end as nat,
                ).error is None
                &&& wrote(
                    before,
                    *final(window).parent,
                    encoded_fields(fields@, *root, encoding, vals(values@), end as nat).bytes,
                    events_of_fields(fields@, *root, encoding, vals(values@), end as nat),
                )
            },
            Err(error) => {
                &&& encoded_fields(
                    fields@,
                    *root,
                    encoding,
                    vals(values@),
                    values@.len(),
                ).error == Some(error@)
                &&& wrote(
                    before,
                    *final(window).parent,
                    encoded_fields(
                        fields@,
                        *root,
                        encoding,
                        vals(values@),
                        values@.len(),
                    ).bytes,
                    events_of_fields(fields@, *root, encoding, vals(values@), values@.len()),
                )
            },
        },
{
    let ghost metas = metas_of(fields@, encoding);
    let ghost all = vals(values@);
    let ghost size = run_size(metas, start as int, end as int);
    let mut k: usize = start;
    assert(metas.subrange(start as int, start as int) =~= seq![]);
    while k < end
        invariant
            start <= k <= end <= fields@.len(),
            fields_fit(fields@, encoding),
            fields@.len() == values@.len(),
            metas == metas_of(fields@, encoding),
            all == vals(values@),
            size == run_size(metas, start as int, end as int),
            is_run(metas, start as int, end as int),
            *final(window.parent) == *final(old(window).parent),
            window.left == size - run_size(metas, start as int, k as int),
            encoded_fields(fields@, *root, encoding, all, k as nat).error is None,
            window.parent.bytes@ =~= before.bytes@ + encoded_fields(
                fields@,
                *root,
                encoding,
                all,
                k as nat,
            ).bytes,
            window.parent.events@ + if k == end {
                seq![Event::Finish]
            } else {
                seq![]
            } =~= before.events@ + events_of_fields(fields@, *root, encoding, all, k as nat)
                + if k == start {
                opening(metas, start as int)
            } else {
                seq![]
            },
        decreases end - k,
    {
        let mut chunk: Vec<u8> = Vec::new();
        let result = encode_field(&fields[k], root, encoding, &values[k], &mut chunk);
        proof {
            lemma_run(metas, start as int, end as int, k as int);
            lemma_room(fields@, *root, encoding, all, start as int, end as int, k as int);
            assert(all[k as int] == values@[k as int]@);
            assert(chunk@ =~= encoded_field(
                fields@[k as int],
                *root,
                encoding,
                all[k as int],
            ).bytes);
        }
        window.write(&chunk);
        if result.is_err() {
            proof {
                lemma_fields_stop(fields@, *root, encoding, all, (k + 1) as nat, all.len());
                lemma_events_stop(fields@, *root, encoding, all, (k + 1) as nat, all.len());
            }
            assert(window.parent.bytes@ =~= before.bytes@ + encoded_fields(
                fields@,
                *root,
                encoding,
                all,
                (k + 1) as nat,
            ).bytes);
            assert(window.parent.events@ =~= before.events@ + events_of_fields(
                fields@,
                *root,
                encoding,
                all,
                (k + 1) as nat,
            ));
            return result;
        }
        k += 1;
    }
    window.finish();
    assert(window.parent.events@ =~= before.events@ + events_of_fields(
        fields@,
        *root,
        encoding,
        all,
        end as nat,
    ));
    Ok(())
}

/// The window of a run has room for the next of its fields.
proof fn lemma_room(
    fields: Seq<FieldSchema>,
    root: Schema,
    encoding: Encoding,
    values: Seq<Val>,
    start: int,
    end: int,
    k: int,
)
    requires
        fields_fit(fields, encoding),
        fields.len() == values.len(),
        is_run(metas_of(fields, encoding), start, end),
        start <= k < end,
    ensures
        size_of_field(fields[k], encoding) is Some,
        run_size(metas_of(fields, encoding), start, k + 1) <= run_size(
            metas_of(fields, encoding),
            start,
            end,
        ),
        encoded_field(fields[k], root, encoding, values[k]).bytes.len() <= run_size(
            metas_of(fields, encoding),
            start,
            k + 1,
        ) - run_size(metas_of(fields, encoding), start, k),
        encoded_field(fields[k], root, encoding, values[k]).error is None ==> encoded_field(
            fields[k],
            root,
            encoding,
            values[k],
        ).bytes.len() == run_size(metas_of(fields, encoding), start, k + 1) - run_size(
            metas_of(fields, encoding),
            start,
            k,
        ),
{
    let metas = metas_of(fields, encoding);
    assert(metas[k] is Static);
    assert(field_fits(fields[k], encoding));
    if let FieldSchema::Wire(schema) = fields[k] {
        lemma_size_fits(schema, encoding);
    }
    lemma_field_size(fields[k], root, encoding, values[k]);
    let part = metas.subrange(start, k + 1);
    assert(part.drop_last() =~= metas.subrange(start, k));
    let whole = metas.subrange(start, end);
    assert(whole.take(k + 1 - start) =~= part);
    lemma_total_size_prefix(whole, k + 1 - start);
}

/// Writes a value of the type.
#[verifier::rlimit(40)]
pub fn write_value(
    schema: &Schema,
    root: &Schema,
    encoding: Encoding,
    value: &Value,
    writer: &mut RecordingWriter,
) -> (result: Result<(), WriteError>)
    requires
        fits(*schema, encoding),
        fits(*root, encoding),
    ensures
        wrote(
            *old(writer),
            *final(writer),
            encoded(*schema, *root, encoding, value@).bytes,
            events(*schema, *root, encoding, value@),
        ),
        is_outcome(result, encoded(*schema, *root, encoding, value@).error),
    decreases value, 0nat,
{
    match (schema, value) {
        (Schema::Struct(fields), Value::Struct(values)) => {
            assert(vals(values@).len() == values@.len());
            assert(fields_fit(fields@, encoding));
            if fields.len() != values.len() {
                assert(old(writer).bytes@ + Seq::<u8>::empty() =~= old(writer).bytes@);
                assert(old(writer).events@ + Seq::<Event>::empty() =~= old(writer).events@);
                return Err(WriteError::Mismatch);
            }
            write_fields(fields, root, encoding, values, writer)
        },
        (Schema::Optional(inner), Value::Just(inside)) => {
            let mut chunk: Vec<u8> = Vec::new();
            chunk.push(1);
            assert(chunk@ =~= seq![1]);
            write_chunk(&chunk, writer);
            let ghost middle = *writer;
            let result = write_value(inner, root, encoding, inside, writer);
            proof {
                lemma_wrote_both(
                    *old(writer),
                    middle,
                    *writer,
                    seq![1],
                    write_event(seq![1]),
                    encoded(**inner, *root, encoding, inside@).bytes,
                    events(**inner, *root, encoding, inside@),
                );
            }
            result
        },
        (Schema::List(element), Value::List(items)) => write_list(
            element,
            root,
            encoding,
            items,
            writer,
        ),
        (Schema::Children, Value::List(items)) => write_list(root, root, encoding, items, writer),
        (Schema::Array(element, len), Value::List(items)) => {
            assert(vals(items@).len() == items@.len());
            match element.meta(encoding) {
                TypeMeta::Dynamic if items.len() == *len => write_items(
                    element,
                    root,
                    encoding,
                    items,
                    writer,
                ),
                _ => write_at_once(schema, root, encoding, value, writer),
            }
        },
        (Schema::DynamicByte, Value::Byte(byte)) => {
            byte.write(writer);
            Ok(())
        },
        _ => write_at_once(schema, root, encoding, value, writer),
    }
}

/// Writes the number of values and the values.
fn write_list(
    element: &Schema,
    root: &Schema,
    encoding: Encoding,
    items: &Vec<Value>,
    writer: &mut RecordingWriter,
) -> (result: Result<(), WriteError>)
    requires
        fits(*element, encoding),
        fits(*root, encoding),
    ensures
        wrote(
            *old(writer),
            *final(writer),
            int_bytes(items@.len(), Width::U64, encoding) + encoded_items(
                *element,
                *root,
                encoding,
                vals(items@),
                items@.len(),
            ).bytes,
            write_event(int_bytes(items@.len(), Width::U64, encoding)) + events_of_items(
                *element,
                *root,
                encoding,
                vals(items@),
                items@.len(),
            ),
        ),
        is_outcome(
            result,
            encoded_items(*element, *root, encoding, vals(items@), items@.len()).error,
        ),
    decreases items, 2nat,
{
    let mut chunk: Vec<u8> = Vec::new();
    put_int(items.len() as u64, Width::U64, encoding, &mut chunk);
    assert(chunk@ =~= int_bytes(items@.len(), Width::U64, encoding));
    write_chunk(&chunk, writer);
    let ghost middle = *writer;
    let result = write_items(element, root, encoding, items, writer);
    proof {
        lemma_wrote_both(
            *old(writer),
            middle,
            *writer,
            chunk@,
            write_event(chunk@),
            encoded_items(*element, *root, encoding, vals(items@), items@.len()).bytes,
            events_of_items(*element, *root, encoding, vals(items@), items@.len()),
        );
    }
    result
}

/// What is written in two steps.
proof fn lemma_wrote_both(
    before: RecordingWriter,
    middle: RecordingWriter,
    after: RecordingWriter,
    bytes: Seq<u8>,
    recorded: Seq<Event>,
    more_bytes: Seq<u8>,
    more_recorded: Seq<Event>,
)
    requires
        wrote(before, middle, bytes, recorded),
        wrote(middle, after, more_bytes, more_recorded),
    ensures
        wrote(before, after, bytes + more_bytes, recorded + more_recorded),
{
    assert(after.bytes@ =~= before.bytes@ + (bytes + more_bytes));
    assert(after.events@ =~= before.events@ + (recorded + more_recorded));
}

/// Writes values of the type, up to one that fails.
fn write_items(
    schema: &Schema,
    root: &Schema,
    encoding: Encoding,
    items: &Vec<Value>,
    writer: &mut RecordingWriter,
) -> (result: Result<(), WriteError>)
    requires
        fits(*schema, encoding),
        fits(*root, encoding),
    ensures
        wrote(
            *old(writer),
            *final(writer),
            encoded_items(*schema, *root, encoding, vals(items@), items@.len()).bytes,
            events_of_items(*schema, *root, encoding, vals(items@), items@.len()),
        ),
        is_outcome(
            result,
            encoded_items(*schema, *root, encoding, vals(items@), items@.len()).error,
        ),
    decreases items, 1nat,
{
    let ghost all = vals(items@);
    let mut i: usize = 0;
    assert(old(writer).bytes@ + Seq::<u8>::empty() =~= old(writer).bytes@);
    assert(old(writer).events@ + Seq::<Event>::empty() =~= old(writer).events@);
    while i < items.len()
        invariant
            i <= items.len(),
            fits(*schema, encoding),
            fits(*root, encoding),
            all == vals(items@),
            encoded_items(*schema, *root, encoding, all, i as nat).error is None,
            wrote(
                *old(writer),
                *writer,
                encoded_items(*schema, *root, encoding, all, i as nat).bytes,
                events_of_items(*schema, *root, encoding, all, i as nat),
            ),
        decreases items.len() - i,
    {
        assert(decreases_to!(items => items[i as int]));
        assert(all[i as int] == items@[i as int]@);
        let ghost middle = *writer;
        let result = write_value(schema, root, encoding, &items[i], writer);
        proof {
            lemma_wrote_both(
                *old(writer),
                middle,
                *writer,
                encoded_items(*schema, *root, encoding, all, i as nat).bytes,
                events_of_items(*schema, *root, encoding, all, i as nat),
                encoded(*schema, *root, encoding, all[i as int]).bytes,
                events(*schema, *root, encoding, all[i as int]),
            );
        }
        if result.is_err() {
            proof {
                lemma_items_stop(*schema, *root, encoding, all, (i + 1) as nat, all.len());
                lemma_item_events_stop(*schema, *root, encoding, all, (i + 1) as nat, all.len());
            }
            return result;
        }
        i += 1;
    }
    Ok(())
}

/// Writes the fields of a declaration, up to one that fails: each run of static fields through
/// a window, and the other fields on their own.
#[verifier::rlimit(40)]
fn write_fields(
    fields: &Vec<FieldSchema>,
    root: &Schema,
    encoding: Encoding,
    values: &Vec<Value>,
    writer: &mut RecordingWriter,
) -> (result: Result<(), WriteError>)
    requires
        fields_fit(fields@, encoding),
        fits(*root, encoding),
        fields@.len() == values@.len(),
    ensures
        wrote(
            *old(writer),
            *final(writer),
            encoded_fields(fields@, *root, encoding, vals(values@), values@.len()).bytes,
            events_of_fields(fields@, *root, encoding, vals(values@), values@.len()),
        ),
        is_outcome(
            result,
            encoded_fields(fields@, *root, encoding, vals(values@), values@.len()).error,
        ),
    decreases values, 1nat,
{
    let ghost all = vals(values@);
    let metas = field_metas(fields, encoding);
    let runs = TypeMeta::field_runs(&metas);
    let mut i: usize = 0;
    assert(old(writer).bytes@ + Seq::<u8>::empty() =~= old(writer).bytes@);
    assert(old(writer).events@ + Seq::<Event>::empty() =~= old(writer).events@);
    while i < values.len()
        invariant
            i <= values.len(),
            fields@.len() == values@.len(),
            fields_fit(fields@, encoding),
            fits(*root, encoding),
            all == vals(values@),
            metas@ == metas_of(fields@, encoding),
            is_plan(metas@, runs@),
            0 < i < fields@.len() ==> metas@[i as int] is Dynamic || metas@[i - 1] is Dynamic,
            encoded_fields(fields@, *root, encoding, all, i as nat).error is None,
            wrote(
                *old(writer),
                *writer,
                encoded_fields(fields@, *root, encoding, all, i as nat).bytes,
                events_of_fields(fields@, *root, encoding, all, i as nat),
            ),
        decreases values.len() - i,
    {
        assert(all[i as int] == values@[i as int]@);
        assert(run_at(metas@, i as int, runs@[i as int]));
        let ghost before = *writer;
        match runs[i] {
            FieldRun::Static { start, end, size } => {
                proof {
                    if start < i {
                        assert(metas@[i as int] is Static);
                        assert(metas@[i - 1] is Static);
                    }
                    lemma_run(metas@, start as int, end as int, i as int);
                }
                let mut window = writer.as_trusted_for(size);
                assert(window.parent.events@ =~= old(writer).events@ + (events_of_fields(
                    fields@,
                    *root,
                    encoding,
                    all,
                    i as nat,
                ) + opening(metas@, i as int)));
                let result = write_run(
                    &mut window,
                    fields,
                    root,
                    encoding,
                    values,
                    start,
                    end,
                    Ghost(*old(writer)),
                );
                if result.is_err() {
                    return result;
                }
                i = end;
            },
            FieldRun::Dynamic => {
                assert(decreases_to!(values => values[i as int]));
                let ghost outcome = encoded_field(
                    fields@[i as int],
                    *root,
                    encoding,
                    all[i as int],
                );
                assert(field_fits(fields@[i as int], encoding));
                match &fields[i] {
                    FieldSchema::Wire(schema) => {
                        assert(outcome == encoded(*schema, *root, encoding, all[i as int]));
                        let result = write_value(schema, root, encoding, &values[i], writer);
                        proof {
                            lemma_wrote_both(
                                *old(writer),
                                before,
                                *writer,
                                encoded_fields(fields@, *root, encoding, all, i as nat).bytes,
                                events_of_fields(fields@, *root, encoding, all, i as nat),
                                encoded(*schema, *root, encoding, all[i as int]).bytes,
                                events(*schema, *root, encoding, all[i as int]),
                            );
                        }
                        if result.is_err() {
                            proof {
                                lemma_fields_stop(
                                    fields@,
                                    *root,
                                    encoding,
                                    all,
                                    (i + 1) as nat,
                                    all.len(),
                                );
                                lemma_events_stop(
                                    fields@,
                                    *root,
                                    encoding,
                                    all,
                                    (i + 1) as nat,
                                    all.len(),
                                );
                            }
                            return result;
                        }
                    },
                    _ => {
                        assert(outcome == refused(Failure::Unwritable));
                        proof {
                            lemma_fields_stop(
                                fields@,
                                *root,
                                encoding,
                                all,
                                (i + 1) as nat,
                                all.len(),
                            );
                            lemma_events_stop(
                                fields@,
                                *root,
                                encoding,
                                all,
                                (i + 1) as nat,
                                all.len(),
                            );
                        }
                        return Err(WriteError::Unwritable);
                    },
                }
                i += 1;
            },
        }
    }
    Ok(())
}

/// Writes a value of a declaration and, if that succeeds, finishes the writer.
pub fn serialize_into(
    writer: &mut RecordingWriter,
    schema: &Schema,
    encoding: Encoding,
    value: &Value,
) -> (result: Result<(), WriteError>)
    requires
        fits(*schema, encoding),
    ensures
        is_outcome(result, encoded(*schema, *schema, encoding, value@).error),
        wrote(
            *old(writer),
            *final(writer),
            encoded(*schema, *schema, encoding, value@).bytes,
            events(*schema, *schema, encoding, value@) + if result is Ok {
                seq![Event::ParentFinish]
            } else {
                seq![]
            },
        ),
{
    let result = write_value(schema, schema, encoding, value, writer);
    if result.is_ok() {
        writer.finish();
    }
    assert(writer.events@ =~= old(writer).events@ + (events(
        *schema,
        *schema,
        encoding,
        value@,
    ) + if result is Ok {
        seq![Event::ParentFinish]
    } else {
        seq![]
    }));
    result
}

/// The bytes of a value of a declaration.
pub fn serialize(schema: &Schema, encoding: Encoding, value: &Value) -> (result: Result<
    Vec<u8>,
    WriteError,
>)
    ensures
        match result {
            Ok(bytes) => encoded(*schema, *schema, encoding, value@) == written(bytes@),
            Err(error) => encoded(*schema, *schema, encoding, value@).error == Some(error@),
        },
{
    let mut bytes: Vec<u8> = Vec::new();
    let result = encode(schema, schema, encoding, value, &mut bytes);
    assert(bytes@ =~= encoded(*schema, *schema, encoding, value@).bytes);
    match result {
        Ok(_) => Ok(bytes),
        Err(error) => Err(error),
    }
}

/// The number of bytes of a value of a declaration.
pub fn serialized_size(schema: &Schema, encoding: Encoding, value: &Value) -> (result: Result<
    usize,
    WriteError,
>)
    ensures
        match result {
            Ok(size) => {
                &&& encoded(*schema, *schema, encoding, value@).error is None
                &&& size == encoded(*schema, *schema, encoding, value@).bytes.len()
            },
            Err(error) => encoded(*schema, *schema, encoding, value@).error == Some(error@),
        },
{
    match serialize(schema, encoding, value) {
        Ok(bytes) => Ok(bytes.len()),
        Err(error) => Err(error),
    }
}

/// Whether a value is one of the kind that a type has.
pub open spec fn is_of_kind(schema: Schema, val: Val) -> bool {
    match schema {
        Schema::Unit => val is Unit,
        Schema::Bool => val is Bool,
        Schema::Int(_) => val is Int,
        Schema::DynamicByte => val is Byte,
        Schema::ByteRef => val is Borrowed,
        Schema::Foreign(_) => val is Foreign,
        Schema::Array(..) => val is List,
        Schema::Optional(_) => val is Nothing || val is Just,
        Schema::List(_) => val is List,
        Schema::Struct(_) => val is Struct,
        Schema::Children => val is List,
    }
}

/// Of a value that is none of the type nothing is written: one of another kind, a number that is
/// too large, a list that is not as long as the array, values that are not as many as the fields.
pub proof fn values_of_other_types_are_refused(
    schema: Schema,
    root: Schema,
    encoding: Encoding,
    val: Val,
)
    requires
        !is_of_kind(schema, val) || match (schema, val) {
            (Schema::Int(width), Val::Int(n)) => n >= capacity(bytes_of(width)),
            (Schema::Array(_, len), Val::List(items)) => items.len() != len,
            (Schema::Struct(fields), Val::Struct(values)) => fields@.len() != values.len(),
            (Schema::Foreign(size), Val::Foreign { bytes, failure }) => bytes.len() > size || (
            failure is None && bytes.len() < size),
            _ => false,
        },
    ensures
        encoded(schema, root, encoding, val).bytes.len() == 0,
        encoded(schema, root, encoding, val).error == Some(Failure::Mismatch),
{
}

/// How values without parts are written: nothing for a unit, one byte of zero or one for a
/// `bool`, the bytes of an integer, a byte as it is, and a byte of zero where there is no value.
pub proof fn plain_values_are_written_as_they_are(
    inner: Box<Schema>,
    root: Schema,
    encoding: Encoding,
    width: Width,
    n: nat,
    byte: u8,
    at: int,
)
    ensures
        encoded(Schema::Unit, root, encoding, Val::Unit) == (Encoded { bytes: seq![], error: None }),
        encoded(Schema::Bool, root, encoding, Val::Bool(false)) == (Encoded {
            bytes: seq![0u8],
            error: None,
        }),
        encoded(Schema::Bool, root, encoding, Val::Bool(true)) == (Encoded {
            bytes: seq![1u8],
            error: None,
        }),
        n < capacity(bytes_of(width)) ==> encoded(
            Schema::Int(width),
            root,
            encoding,
            Val::Int(n),
        ) == (Encoded { bytes: int_bytes(n, width, encoding), error: None }),
        encoded(Schema::DynamicByte, root, encoding, Val::Byte(byte)) == (Encoded {
            bytes: seq![byte],
            error: None,
        }),
        encoded(Schema::ByteRef, root, encoding, Val::Borrowed { byte, at }) == (Encoded {
            bytes: seq![byte],
            error: None,
        }),
        encoded(Schema::Optional(inner), root, encoding, Val::Nothing) == (Encoded {
            bytes: seq![0u8],
            error: None,
        }),
{
}

/// A type with an implementation of its own writes what it writes, and fails as it says it does;
/// if it does not fail it writes exactly as many bytes as its size.
pub proof fn foreign_values_write_their_own_bytes(
    root: Schema,
    encoding: Encoding,
    size: usize,
    bytes: Seq<u8>,
    failure: Option<Seq<char>>,
)
    requires
        bytes.len() <= size,
        failure is None ==> bytes.len() == size,
    ensures
        ({
            let outcome = encoded(
                Schema::Foreign(size),
                root,
                encoding,
                Val::Foreign { bytes, failure },
            );
            &&& outcome.bytes == bytes
            &&& failure is None ==> outcome.error is None
            &&& failure matches Some(text) ==> outcome.error == Some(Failure::Custom(text))
        }),
{
}

/// Values with parts are their parts: behind a byte of one a value that there is, behind their
/// number the values of a list, one behind the other the values of an array and the fields of a
/// declaration. They fail as their parts do.
pub proof fn values_are_written_part_by_part(
    inner: Box<Schema>,
    root: Schema,
    encoding: Encoding,
    val: Box<Val>,
    items: Seq<Val>,
    len: usize,
    fields: Vec<FieldSchema>,
)
    ensures
        ({
            let just = encoded(Schema::Optional(inner), root, encoding, Val::Just(val));
            let value = encoded(*inner, root, encoding, *val);
            just.bytes == seq![1u8] + value.bytes && just.error == value.error
        }),
        ({
            let list = encoded(Schema::List(inner), root, encoding, Val::List(items));
            let all = encoded_items(*inner, root, encoding, items, items.len());
            list.bytes == int_bytes(items.len(), Width::U64, encoding) + all.bytes && list.error
                == all.error
        }),
        ({
            let list = encoded(Schema::Children, root, encoding, Val::List(items));
            let all = encoded_items(root, root, encoding, items, items.len());
            list.bytes == int_bytes(items.len(), Width::U64, encoding) + all.bytes && list.error
                == all.error
        }),
        items.len() == len ==> encoded(
            Schema::Array(inner, len),
            root,
            encoding,
            Val::List(items),
        ) == encoded_items(*inner, root, encoding, items, items.len()),
        items.len() == fields@.len() ==> encoded(
            Schema::Struct(fields),
            root,
            encoding,
            Val::Struct(items),
        ) == encoded_fields(fields@, root, encoding, items, items.len()),
{
}

/// Values are written in order: of none nothing, and of one more what is written of those before
/// it and of it, unless one before it failed.
pub proof fn items_are_written_in_order(
    schema: Schema,
    root: Schema,
    encoding: Encoding,
    items: Seq<Val>,
    n: nat,
)
    requires
        n < items.len(),
    ensures
        encoded_items(schema, root, encoding, items, 0) == (Encoded { bytes: seq![], error: None }),
        ({
            let before = encoded_items(schema, root, encoding, items, n);
            let next = encoded(schema, root, encoding, items[n as int]);
            let all = encoded_items(schema, root, encoding, items, n + 1);
            &&& before.error is Some ==> all == before
            &&& before.error is None ==> all.bytes == before.bytes + next.bytes && all.error
                == next.error
        }),
{
}

/// Fields are written in order, as their types are; a skipped field is not written, and one that
/// takes the context cannot be.
pub proof fn fields_are_written_in_order(
    fields: Seq<FieldSchema>,
    root: Schema,
    encoding: Encoding,
    values: Seq<Val>,
    n: nat,
)
    requires
        n < values.len(),
        fields.len() == values.len(),
    ensures
        encoded_fields(fields, root, encoding, values, 0) == (Encoded {
            bytes: seq![],
            error: None,
        }),
        ({
            let before = encoded_fields(fields, root, encoding, values, n);
            let all = encoded_fields(fields, root, encoding, values, n + 1);
            &&& before.error is Some ==> all == before
            &&& before.error is None ==> match fields[n as int] {
                FieldSchema::Wire(schema) => {
                    let next = encoded(schema, root, encoding, values[n as int]);
                    all.bytes == before.bytes + next.bytes && all.error == next.error
                },
                FieldSchema::Skipped(_) => all == before,
                FieldSchema::Context { .. } => all.bytes == before.bytes && all.error == Some(
                    Failure::Unwritable,
                ),
            }
        }),
{
    let before = encoded_fields(fields, root, encoding, values, n);
    let all = encoded_fields(fields, root, encoding, values, n + 1);
    let outcome = encoded_field(fields[n as int], root, encoding, values[n as int]);
    match fields[n as int] {
        FieldSchema::Wire(schema) => {
            assert(outcome == encoded(schema, root, encoding, values[n as int]));
        },
        FieldSchema::Skipped(_) => {
            assert(before.bytes + Seq::<u8>::empty() =~= before.bytes);
            if before.error is None {
                assert(all.bytes =~= before.bytes);
                assert(all.error is None);
            }
        },
        FieldSchema::Context { .. } => {
            assert(before.bytes + Seq::<u8>::empty() =~= before.bytes);
        },
    }
}

/// Bytes outside of windows are recorded by their number, if there are any.
pub proof fn only_written_bytes_are_recorded(bytes: Seq<u8>)
    ensures
        bytes.len() == 0 ==> write_event(bytes).len() == 0,
        0 < bytes.len() <= usize::MAX ==> write_event(bytes).len() == 1 && (write_event(bytes)[0]
            matches Event::ParentWrite(size) && size == bytes.len()),
{
}

/// A value without parts, and an array of static values, is recorded as one write of its bytes.
/// A value that there is is recorded behind the byte that says so, and values of a list behind
/// their number.
pub proof fn values_are_recorded_part_by_part(
    schema: Schema,
    root: Schema,
    encoding: Encoding,
    val: Val,
)
    ensures
        match (schema, val) {
            (Schema::Struct(fields), Val::Struct(values)) => fields@.len() == values.len()
                ==> events(schema, root, encoding, val) == events_of_fields(
                fields@,
                root,
                encoding,
                values,
                values.len(),
            ),
            (Schema::Optional(inner), Val::Just(value)) => events(schema, root, encoding, val)
                == seq![Event::ParentWrite(1)] + events(*inner, root, encoding, *value),
            (Schema::List(element), Val::List(items)) => events(schema, root, encoding, val)
                == write_event(int_bytes(items.len(), Width::U64, encoding)) + events_of_items(
                *element,
                root,
                encoding,
                items,
                items.len(),
            ),
            (Schema::Children, Val::List(items)) => events(schema, root, encoding, val)
                == write_event(int_bytes(items.len(), Width::U64, encoding)) + events_of_items(
                root,
                root,
                encoding,
                items,
                items.len(),
            ),
            (Schema::Array(element, len), Val::List(items)) => items.len() == len ==> events(
                schema,
                root,
                encoding,
                val,
            ) == if size_of(*element, encoding) is Some {
                write_event(encoded(schema, root, encoding, val).bytes)
            } else {
                events_of_items(*element, root, encoding, items, items.len())
            },
            _ => events(schema, root, encoding, val) == write_event(
                encoded(schema, root, encoding, val).bytes,
            ),
        },
{
    if let (Schema::Optional(_), Val::Just(_)) = (schema, val) {
        assert(write_event(seq![1u8]) =~= seq![Event::ParentWrite(1)]);
    }
}

/// Values are recorded in order, up to one that fails.
pub proof fn items_are_recorded_in_order(
    schema: Schema,
    root: Schema,
    encoding: Encoding,
    items: Seq<Val>,
    n: nat,
)
    requires
        n < items.len(),
    ensures
        events_of_items(schema, root, encoding, items, 0).len() == 0,
        encoded_items(schema, root, encoding, items, n).error is None ==> events_of_items(
            schema,
            root,
            encoding,
            items,
            n + 1,
        ) == events_of_items(schema, root, encoding, items, n) + events(
            schema,
            root,
            encoding,
            items[n as int],
        ),
        encoded_items(schema, root, encoding, items, n).error is Some ==> events_of_items(
            schema,
            root,
            encoding,
            items,
            n + 1,
        ) == events_of_items(schema, root, encoding, items, n),
{
}

/// A dynamic field is recorded as its value is, outside of windows.
pub proof fn dynamic_fields_are_recorded_as_their_values(
    fields: Seq<FieldSchema>,
    root: Schema,
    encoding: Encoding,
    values: Seq<Val>,
    i: int,
)
    requires
        fields.len() == values.len(),
        0 <= i < values.len(),
        size_of_field(fields[i], encoding) is None,
        encoded_fields(fields, root, encoding, values, i as nat).error is None,
    ensures
        events_of_fields(fields, root, encoding, values, 0).len() == 0,
        events_of_fields(fields, root, encoding, values, (i + 1) as nat) == events_of_fields(
            fields,
            root,
            encoding,
            values,
            i as nat,
        ) + match fields[i] {
            FieldSchema::Wire(schema) => events(schema, root, encoding, values[i]),
            _ => seq![],
        },
{
    let before = events_of_fields(fields, root, encoding, values, i as nat);
    assert(before + Seq::<Event>::empty() =~= before);
}

/// The static fields of a run are recorded as one window of the size of all of them, which is
/// finished behind the last of them, and nothing else.
pub proof fn a_run_is_one_window(
    fields: Seq<FieldSchema>,
    root: Schema,
    encoding: Encoding,
    values: Seq<Val>,
    start: int,
    end: int,
)
    requires
        fields_fit(fields, encoding),
        fields.len() == values.len(),
        0 <= start < end <= fields.len(),
        forall|i: int|
            start <= i < end ==> size_of_field(#[trigger] fields[i], encoding) is Some,
        start > 0 ==> size_of_field(fields[start - 1], encoding) is None,
        end < fields.len() ==> size_of_field(fields[end], encoding) is None,
        encoded_fields(fields, root, encoding, values, end as nat).error is None,
    ensures
        events_of_fields(fields, root, encoding, values, end as nat) == events_of_fields(
            fields,
            root,
            encoding,
            values,
            start as nat,
        ) + seq![
            Event::Window(
                total_size(metas_of(fields, encoding).subrange(start, end)) as usize,
            ),
            Event::Finish,
        ],
{
    let metas = metas_of(fields, encoding);
    let before = events_of_fields(fields, root, encoding, values, start as nat);
    let window = Event::Window(total_size(metas.subrange(start, end)) as usize);
    lemma_is_run(fields, encoding, start, end);
    lemma_open_window(fields, root, encoding, values, start, end, end - 1);
    lemma_run(metas, start, end, end - 1);
    assert(fields[end - 1] == fields[end - 1]);
    if end - 1 == start {
        assert(before + seq![window] + seq![Event::Finish] =~= before + seq![
            window,
            Event::Finish,
        ]);
    } else {
        assert(before + seq![window] + Seq::<Event>::empty() + seq![Event::Finish] =~= before
            + seq![window, Event::Finish]);
    }
}

/// Static fields between dynamic ones are a run.
proof fn lemma_is_run(fields: Seq<FieldSchema>, encoding: Encoding, start: int, end: int)
    requires
        0 <= start < end <= fields.len(),
        forall|i: int|
            start <= i < end ==> size_of_field(#[trigger] fields[i], encoding) is Some,
        start > 0 ==> size_of_field(fields[start - 1], encoding) is None,
        end < fields.len() ==> size_of_field(fields[end], encoding) is None,
    ensures
        is_run(metas_of(fields, encoding), start, end),
{
    let metas = metas_of(fields, encoding);
    assert forall|i: int| start <= i < end implies (#[trigger] metas[i]) is Static by {
        assert(size_of_field(fields[i], encoding) is Some);
    }
}

/// Behind the first fields of a run, but not behind the last, its window is recorded last. The
/// field at `k` is one that is written or fails.
proof fn lemma_open_window(
    fields: Seq<FieldSchema>,
    root: Schema,
    encoding: Encoding,
    values: Seq<Val>,
    start: int,
    end: int,
    k: int,
)
    requires
        fields.len() == values.len(),
        is_run(metas_of(fields, encoding), start, end),
        start <= k < end,
        forall|i: int|
            start <= i < end ==> size_of_field(#[trigger] fields[i], encoding) is Some,
        encoded_fields(fields, root, encoding, values, k as nat).error is None,
    ensures
        ({
            let before = events_of_fields(fields, root, encoding, values, start as nat);
            let window = Event::Window(
                total_size(metas_of(fields, encoding).subrange(start, end)) as usize,
            );
            events_of_fields(fields, root, encoding, values, k as nat) + opening(
                metas_of(fields, encoding),
                k,
            ) == before + seq![window]
        }),
    decreases k,
{
    let metas = metas_of(fields, encoding);
    let before = events_of_fields(fields, root, encoding, values, start as nat);
    let window = Event::Window(total_size(metas.subrange(start, end)) as usize);
    lemma_run(metas, start, end, k);
    if k > start {
        lemma_open_window(fields, root, encoding, values, start, end, k - 1);
        lemma_run(metas, start, end, k - 1);
        assert(fields[k - 1] == fields[k - 1]);
        assert(before + seq![window] + Seq::<Event>::empty() =~= before + seq![window]);
        assert(events_of_fields(fields, root, encoding, values, k as nat) =~= before + seq![window]);
    }
}

/// Where a static field fails the window of its run is left open, and is recorded last.
pub proof fn a_failing_run_leaves_its_window_open(
    fields: Seq<FieldSchema>,
    root: Schema,
    encoding: Encoding,
    values: Seq<Val>,
    start: int,
    end: int,
    i: int,
)
    requires
        fields_fit(fields, encoding),
        fields.len() == values.len(),
        0 <= start <= i < end <= fields.len(),
        forall|k: int|
            start <= k < end ==> size_of_field(#[trigger] fields[k], encoding) is Some,
        start > 0 ==> size_of_field(fields[start - 1], encoding) is None,
        end < fields.len() ==> size_of_field(fields[end], encoding) is None,
        encoded_fields(fields, root, encoding, values, i as nat).error is None,
        encoded_fields(fields, root, encoding, values, (i + 1) as nat).error is Some,
    ensures
        events_of_fields(fields, root, encoding, values, values.len()) == events_of_fields(
            fields,
            root,
            encoding,
            values,
            start as nat,
        ) + seq![
            Event::Window(
                total_size(metas_of(fields, encoding).subrange(start, end)) as usize,
            ),
        ],
{
    let metas = metas_of(fields, encoding);
    let before = events_of_fields(fields, root, encoding, values, start as nat);
    let window = Event::Window(total_size(metas.subrange(start, end)) as usize);
    lemma_is_run(fields, encoding, start, end);
    lemma_open_window(fields, root, encoding, values, start, end, i);
    lemma_events_stop(fields, root, encoding, values, (i + 1) as nat, values.len());
    assert(fields[i] == fields[i]);
    assert(before + seq![window] + Seq::<Event>::empty() =~= before + seq![window]);
}

/// A result is that of what becomes of a value exactly if it succeeds where nothing fails, and
/// fails for the reason for which that does.
pub proof fn results_say_what_fails(result: Result<(), WriteError>, error: Option<Failure>)
    ensures
        is_outcome(result, error) <==> match (result, error) {
            (Ok(_), None) => true,
            (Err(WriteError::Mismatch), Some(Failure::Mismatch)) => true,
            (Err(WriteError::Unwritable), Some(Failure::Unwritable)) => true,
            (Err(WriteError::Custom(text)), Some(Failure::Custom(of))) => of == text@,
            _ => false,
        },
{
}

/// What is written and recorded comes behind what was written and recorded before, which stays.
pub proof fn writers_keep_what_they_have(
    before: RecordingWriter,
    after: RecordingWriter,
    bytes: Seq<u8>,
    recorded: Seq<Event>,
)
    requires
        wrote(before, after, bytes, recorded),
    ensures
        after.bytes@.len() == before.bytes@.len() + bytes.len(),
        after.bytes@.take(before.bytes@.len() as int) == before.bytes@,
        after.bytes@.skip(before.bytes@.len() as int) == bytes,
        after.events@.len() == before.events@.len() + recorded.len(),
        after.events@.take(before.events@.len() as int) == before.events@,
        after.events@.skip(before.events@.len() as int) == recorded,
{
    assert(after.bytes@.take(before.bytes@.len() as int) =~= before.bytes@);
    assert(after.bytes@.skip(before.bytes@.len() as int) =~= bytes);
    assert(after.events@.take(before.events@.len() as int) =~= before.events@);
    assert(after.events@.skip(before.events@.len() as int) =~= recorded);
}

} // verus!
